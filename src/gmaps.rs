use crate::error::MapError;
use crate::geo::{GeoCoords, MapLocation, MapSpec};
use crate::location::LocationCache;
use crate::viewport::{canvas_of, is_bounding_box_of, is_degenerate, lemma_bounding_box_unique, plan, BoundingBox, CanvasSize};
use vstd::prelude::*;

verus! {

/// A character that the map-image provider accepts as a marker label once
/// upper-cased: an ASCII letter or digit.
pub open spec fn is_label_char(c: char) -> bool {
    (65 <= c as u32 <= 90) || (97 <= c as u32 <= 122) || (48 <= c as u32 <= 57)
}

/// Relies on gmaps_static::MarkerLabel::new, which upper-cases `c` and
/// accepts exactly `[A-Z0-9]`.
#[verifier::external_body]
fn accepts_label(c: char) -> (r: bool)
    ensures
        r == is_label_char(c),
{
    gmaps_static::MarkerLabel::new(c).is_ok()
}

/// A title gives a marker label when its first character is one.
pub open spec fn has_label(title: Seq<char>) -> bool {
    title.len() > 0 && is_label_char(title[0])
}

/// The cache holds the point of interest and its title gives a label.
pub open spec fn location_ready(cache: Map<Seq<char>, GeoCoords>, l: MapLocation) -> bool {
    cache.dom().contains(l.pt@) && has_label(l.title@)
}

/// The cached coordinates of the points of interest, in order.
pub open spec fn poi_coords(cache: Map<Seq<char>, GeoCoords>, locs: Seq<MapLocation>) -> Seq<GeoCoords> {
    locs.map_values(|l: MapLocation| cache[l.pt@])
}

/// A marker: a point and the one-character label drawn on it.
#[derive(Clone, Copy, Debug, PartialEq, Eq, Structural)]
pub struct MapMarker {
    pub location: GeoCoords,
    pub label: char,
}

/// Everything the map-image provider needs to draw one map.
#[derive(Debug)]
pub struct MapRequest {
    pub api_key: String,
    pub size: CanvasSize,
    /// The `from` and `to` points, which must be in frame.
    pub visible: Vec<GeoCoords>,
    /// One marker per point of interest, in order.
    pub markers: Vec<MapMarker>,
}

/// A client of the static map-image provider.
pub struct GoogleMaps {
    api_key: String,
}

impl GoogleMaps {
    pub closed spec fn api_key_view(&self) -> Seq<char> {
        self.api_key@
    }

    pub fn new(api_key: String) -> (r: GoogleMaps)
        ensures
            r.api_key_view() == api_key@,
    {
        GoogleMaps { api_key }
    }

    /// Describes the map of `map`: the canvas fitted to its points of
    /// interest, the `from`/`to` pair kept in frame, and a marker per point
    /// labelled with the first character of its title.
    pub fn prepare(&self, map: &MapSpec, location_cache: &LocationCache) -> (r: Result<MapRequest, MapError>)
        requires
            location_cache.wf(),
        ensures
            ({
                let cache = location_cache@;
                let locs = map.locations@;
                &&& r is Ok <==> {
                    &&& cache.dom().contains(map.from@)
                    &&& cache.dom().contains(map.to@)
                    &&& forall|i: int| 0 <= i < locs.len() ==> location_ready(cache, #[trigger] locs[i])
                    &&& locs.len() > 0
                    &&& exists|b: BoundingBox| is_bounding_box_of(poi_coords(cache, locs), b) && !is_degenerate(b)
                }
                &&& r matches Ok(req) ==> {
                    &&& req.api_key@ == self.api_key_view()
                    &&& req.visible@ == seq![cache[map.from@], cache[map.to@]]
                    &&& req.markers@.len() == locs.len()
                    &&& forall|i: int| 0 <= i < locs.len() ==> #[trigger] req.markers@[i] == (MapMarker {
                        location: cache[locs[i].pt@],
                        label: locs[i].title@[0],
                    })
                    &&& exists|b: BoundingBox| is_bounding_box_of(poi_coords(cache, locs), b)
                        && !is_degenerate(b) && req.size == canvas_of(b)
                }
                &&& r matches Err(e) ==> match e {
                    MapError::LookupFailure(p) => !cache.dom().contains(p@) && (p@ == map.from@ || p@ == map.to@
                        || exists|i: int| 0 <= i < locs.len() && #[trigger] locs[i].pt@ == p@),
                    MapError::InvalidMarkerLabel(id) => exists|i: int| 0 <= i < locs.len()
                        && #[trigger] locs[i].id@ == id@ && !has_label(locs[i].title@),
                    MapError::InsufficientPoints => locs.len() == 0,
                    MapError::DegenerateViewport => exists|b: BoundingBox|
                        is_bounding_box_of(poi_coords(cache, locs), b) && is_degenerate(b),
                    _ => false,
                }
            }),
    {
        let ghost cache = location_cache@;
        let ghost locs = map.locations@;
        let from = match location_cache.get(&map.from) {
            Some(c) => c,
            None => return Err(MapError::LookupFailure(map.from.clone())),
        };
        let to = match location_cache.get(&map.to) {
            Some(c) => c,
            None => return Err(MapError::LookupFailure(map.to.clone())),
        };
        let mut visible: Vec<GeoCoords> = Vec::new();
        visible.push(from);
        visible.push(to);

        let mut points: Vec<GeoCoords> = Vec::new();
        let mut markers: Vec<MapMarker> = Vec::new();
        let mut i: usize = 0;
        while i < map.locations.len()
            invariant
                i <= locs.len(),
                locs == map.locations@,
                cache == location_cache@,
                location_cache.wf(),
                points@.len() == i,
                markers@.len() == i,
                forall|j: int| 0 <= j < i ==> location_ready(cache, #[trigger] locs[j]),
                forall|j: int| 0 <= j < i ==> #[trigger] points@[j] == cache[locs[j].pt@],
                forall|j: int| 0 <= j < i ==> #[trigger] markers@[j] == (MapMarker {
                    location: cache[locs[j].pt@],
                    label: locs[j].title@[0],
                }),
            decreases locs.len() - i,
        {
            let loc = &map.locations[i];
            let coords = match location_cache.get(&loc.pt) {
                Some(c) => c,
                None => {
                    proof {
                        assert(locs[i as int].pt@ == loc.pt@);
                    }
                    return Err(MapError::LookupFailure(loc.pt.clone()));
                },
            };
            let n = loc.title.as_str().unicode_len();
            if n == 0 {
                proof {
                    assert(locs[i as int].id@ == loc.id@);
                }
                return Err(MapError::InvalidMarkerLabel(loc.id.clone()));
            }
            let c = loc.title.as_str().get_char(0);
            if !accepts_label(c) {
                proof {
                    assert(locs[i as int].id@ == loc.id@);
                }
                return Err(MapError::InvalidMarkerLabel(loc.id.clone()));
            }
            points.push(coords);
            markers.push(MapMarker { location: coords, label: c });
            i += 1;
        }
        proof {
            assert(points@ =~= poi_coords(cache, locs));
        }
        match plan(&points) {
            Ok((_, size)) => Ok(MapRequest { api_key: self.api_key.clone(), size, visible, markers }),
            Err(e) => {
                proof {
                    if !(e is InsufficientPoints) && !(e is DegenerateViewport) {
                        assert(false);
                    }
                    if e is DegenerateViewport && exists|b: BoundingBox|
                        is_bounding_box_of(poi_coords(cache, locs), b) && !is_degenerate(b) {
                        let b1 = choose|b: BoundingBox| is_bounding_box_of(poi_coords(cache, locs), b) && is_degenerate(b);
                        let b2 = choose|b: BoundingBox| is_bounding_box_of(poi_coords(cache, locs), b) && !is_degenerate(b);
                        lemma_bounding_box_unique(poi_coords(cache, locs), b1, b2);
                    }
                }
                Err(e)
            },
        }
    }
}

} // verus!
