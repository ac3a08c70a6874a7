use crate::error::MapError;
use crate::geo::GeoCoords;
use vstd::prelude::*;

verus! {

/// The largest edge, in pixels, that the map-image provider accepts.
pub const MAX_MAP_EDGE_PX: i32 = 2500;

/// The smallest rectangle, in billionths of a degree, that holds a set of points.
#[derive(Clone, Copy, Debug, PartialEq, Eq, Structural)]
pub struct BoundingBox {
    pub min_lat: i64,
    pub max_lat: i64,
    pub min_lon: i64,
    pub max_lon: i64,
}

/// A pixel canvas.
#[derive(Clone, Copy, Debug, PartialEq, Eq, Structural)]
pub struct CanvasSize {
    pub width: i32,
    pub height: i32,
}

/// `b` is the coordinate-wise minimum and maximum of `pts`.
pub open spec fn is_bounding_box_of(pts: Seq<GeoCoords>, b: BoundingBox) -> bool {
    &&& forall|i: int|
        0 <= i < pts.len() ==> b.min_lat <= #[trigger] pts[i].latitude <= b.max_lat
            && b.min_lon <= pts[i].longitude <= b.max_lon
    &&& exists|i: int| 0 <= i < pts.len() && #[trigger] pts[i].latitude == b.min_lat
    &&& exists|i: int| 0 <= i < pts.len() && #[trigger] pts[i].latitude == b.max_lat
    &&& exists|i: int| 0 <= i < pts.len() && #[trigger] pts[i].longitude == b.min_lon
    &&& exists|i: int| 0 <= i < pts.len() && #[trigger] pts[i].longitude == b.max_lon
}

/// Span of longitude (the box's width).
pub open spec fn width_of(b: BoundingBox) -> int {
    b.max_lon - b.min_lon
}

/// Span of latitude (the box's height).
pub open spec fn height_of(b: BoundingBox) -> int {
    b.max_lat - b.min_lat
}

/// A box with no extent along either axis cannot be given an aspect ratio.
pub open spec fn is_degenerate(b: BoundingBox) -> bool {
    width_of(b) <= 0 || height_of(b) <= 0
}

/// The canvas of a non-degenerate box: the longer side gets the full edge,
/// the other `MAX_MAP_EDGE_PX / ratio`, truncated.
pub open spec fn canvas_of(b: BoundingBox) -> CanvasSize {
    let w = width_of(b);
    let h = height_of(b);
    if w > h {
        CanvasSize { width: MAX_MAP_EDGE_PX, height: (MAX_MAP_EDGE_PX * h / w) as i32 }
    } else {
        CanvasSize { width: (MAX_MAP_EDGE_PX * w / h) as i32, height: MAX_MAP_EDGE_PX }
    }
}

/// A box at least as wide as it is tall gets the full edge as width, and a
/// height that times the ratio `width / height` falls short of the full edge
/// by less than that ratio; when the truncation drops at most one box-height
/// worth of pixels, height times ratio is within one pixel of the full edge.
pub proof fn lemma_wide_canvas_keeps_ratio(b: BoundingBox)
    requires
        !is_degenerate(b),
        width_of(b) >= height_of(b),
    ensures
        canvas_of(b).width == MAX_MAP_EDGE_PX,
        canvas_of(b).height * width_of(b) <= MAX_MAP_EDGE_PX * height_of(b),
        MAX_MAP_EDGE_PX * height_of(b) < canvas_of(b).height * width_of(b) + width_of(b),
        (MAX_MAP_EDGE_PX * height_of(b)) % width_of(b) <= height_of(b) ==> {
            let d = canvas_of(b).height * width_of(b) - MAX_MAP_EDGE_PX * height_of(b);
            -height_of(b) <= d <= height_of(b)
        },
{
    let w = width_of(b);
    let h = height_of(b);
    let e = MAX_MAP_EDGE_PX as int;
    if w > h {
        assert(0 <= e * h / w <= e) by (nonlinear_arith)
            requires 0 < h < w, e == 2500;
        let q = e * h / w;
        assert(canvas_of(b).height == q);
        assert(q * w <= e * h < q * w + w && e * h - q * w == (e * h) % w) by (nonlinear_arith)
            requires 0 < w, q == e * h / w;
    } else {
        assert(w == h);
        assert(e * w / h == e) by (nonlinear_arith)
            requires 0 < h, w == h;
        assert((e * h) % w == 0) by (nonlinear_arith)
            requires 0 < h, w == h;
    }
}

/// The mirror image for a box taller than it is wide: the full edge goes to
/// the height, and the width is the full edge divided by the height/width ratio.
pub proof fn lemma_tall_canvas_keeps_ratio(b: BoundingBox)
    requires
        !is_degenerate(b),
        width_of(b) < height_of(b),
    ensures
        canvas_of(b).height == MAX_MAP_EDGE_PX,
        canvas_of(b).width * height_of(b) <= MAX_MAP_EDGE_PX * width_of(b),
        MAX_MAP_EDGE_PX * width_of(b) < canvas_of(b).width * height_of(b) + height_of(b),
        (MAX_MAP_EDGE_PX * width_of(b)) % height_of(b) <= width_of(b) ==> {
            let d = canvas_of(b).width * height_of(b) - MAX_MAP_EDGE_PX * width_of(b);
            -width_of(b) <= d <= width_of(b)
        },
{
    let w = width_of(b);
    let h = height_of(b);
    let e = MAX_MAP_EDGE_PX as int;
    assert(0 <= e * w / h <= e) by (nonlinear_arith)
        requires 0 < w < h, e == 2500;
    let q = e * w / h;
    assert(canvas_of(b).width == q);
    assert(q * h <= e * w < q * h + h && e * w - q * h == (e * w) % h) by (nonlinear_arith)
        requires 0 < h, q == e * w / h;
}

/// A set of points has at most one bounding box.
pub proof fn lemma_bounding_box_unique(pts: Seq<GeoCoords>, b1: BoundingBox, b2: BoundingBox)
    requires
        is_bounding_box_of(pts, b1),
        is_bounding_box_of(pts, b2),
    ensures
        b1 == b2,
{
    let i = choose|i: int| 0 <= i < pts.len() && #[trigger] pts[i].latitude == b1.min_lat;
    let j = choose|i: int| 0 <= i < pts.len() && #[trigger] pts[i].latitude == b2.min_lat;
    assert(b1.min_lat <= pts[j].latitude && b2.min_lat <= pts[i].latitude);
    let i = choose|i: int| 0 <= i < pts.len() && #[trigger] pts[i].latitude == b1.max_lat;
    let j = choose|i: int| 0 <= i < pts.len() && #[trigger] pts[i].latitude == b2.max_lat;
    assert(b1.max_lat >= pts[j].latitude && b2.max_lat >= pts[i].latitude);
    let i = choose|i: int| 0 <= i < pts.len() && #[trigger] pts[i].longitude == b1.min_lon;
    let j = choose|i: int| 0 <= i < pts.len() && #[trigger] pts[i].longitude == b2.min_lon;
    assert(b1.min_lat <= pts[j].latitude && b2.min_lat <= pts[i].latitude);
    assert(b1.min_lon <= pts[j].longitude && b2.min_lon <= pts[i].longitude);
    let i = choose|i: int| 0 <= i < pts.len() && #[trigger] pts[i].longitude == b1.max_lon;
    let j = choose|i: int| 0 <= i < pts.len() && #[trigger] pts[i].longitude == b2.max_lon;
    assert(b1.min_lat <= pts[j].latitude && b2.min_lat <= pts[i].latitude);
    assert(b1.max_lon >= pts[j].longitude && b2.max_lon >= pts[i].longitude);
}

/// Points that all share one latitude (a single point among them) have a
/// bounding box of zero height, which `plan` reports as `DegenerateViewport`.
pub proof fn lemma_same_latitude_is_degenerate(pts: Seq<GeoCoords>, b: BoundingBox)
    requires
        is_bounding_box_of(pts, b),
        forall|i: int, j: int| 0 <= i < pts.len() && 0 <= j < pts.len() ==> pts[i].latitude == pts[j].latitude,
    ensures
        is_degenerate(b),
{
    let i = choose|i: int| 0 <= i < pts.len() && #[trigger] pts[i].latitude == b.min_lat;
    let j = choose|j: int| 0 <= j < pts.len() && #[trigger] pts[j].latitude == b.max_lat;
    assert(pts[i].latitude == pts[j].latitude);
}

/// Computes the bounding box of a non-empty list of points.
pub fn bounding_box(points: &Vec<GeoCoords>) -> (r: Option<BoundingBox>)
    ensures
        r is None <==> points@.len() == 0,
        r matches Some(b) ==> is_bounding_box_of(points@, b),
{
    if points.len() == 0 {
        return None;
    }
    let mut b = BoundingBox {
        min_lat: points[0].latitude,
        max_lat: points[0].latitude,
        min_lon: points[0].longitude,
        max_lon: points[0].longitude,
    };
    let mut i: usize = 1;
    proof {
        let t = points@.take(1);
        assert(t[0] == points@[0]);
        assert(t[0].latitude == b.min_lat);
        assert(t[0].latitude == b.max_lat);
        assert(t[0].longitude == b.min_lon);
        assert(t[0].longitude == b.max_lon);
    }
    while i < points.len()
        invariant
            1 <= i <= points@.len(),
            is_bounding_box_of(points@.take(i as int), b),
        decreases points@.len() - i,
    {
        let p = points[i];
        proof {
            let t = points@.take(i as int);
            let t2 = points@.take(i + 1);
            assert(t2 =~= t.push(p));
        }
        let ghost old_b = b;
        if p.latitude < b.min_lat {
            b.min_lat = p.latitude;
        }
        if p.latitude > b.max_lat {
            b.max_lat = p.latitude;
        }
        if p.longitude < b.min_lon {
            b.min_lon = p.longitude;
        }
        if p.longitude > b.max_lon {
            b.max_lon = p.longitude;
        }
        proof {
            let t = points@.take(i as int);
            let t2 = points@.take(i + 1);
            assert forall|k: int| 0 <= k < t2.len() implies b.min_lat <= #[trigger] t2[k].latitude <= b.max_lat
                && b.min_lon <= t2[k].longitude <= b.max_lon by {
                if k < i {
                    assert(t2[k] == t[k]);
                }
            }
            let last = i as int;
            if b.min_lat == p.latitude {
                assert(t2[last].latitude == b.min_lat);
            } else {
                let j = choose|j: int| 0 <= j < t.len() && #[trigger] t[j].latitude == old_b.min_lat;
                assert(t2[j].latitude == b.min_lat);
            }
            if b.max_lat == p.latitude {
                assert(t2[last].latitude == b.max_lat);
            } else {
                let j = choose|j: int| 0 <= j < t.len() && #[trigger] t[j].latitude == old_b.max_lat;
                assert(t2[j].latitude == b.max_lat);
            }
            if b.min_lon == p.longitude {
                assert(t2[last].longitude == b.min_lon);
            } else {
                let j = choose|j: int| 0 <= j < t.len() && #[trigger] t[j].longitude == old_b.min_lon;
                assert(t2[j].longitude == b.min_lon);
            }
            if b.max_lon == p.longitude {
                assert(t2[last].longitude == b.max_lon);
            } else {
                let j = choose|j: int| 0 <= j < t.len() && #[trigger] t[j].longitude == old_b.max_lon;
                assert(t2[j].longitude == b.max_lon);
            }
        }
        i += 1;
    }
    proof {
        assert(points@.take(i as int) =~= points@);
    }
    Some(b)
}

/// Computes the canvas of a box, or `DegenerateViewport` when the box has no
/// extent along one of its axes.
pub fn canvas_size(b: &BoundingBox) -> (r: Result<CanvasSize, MapError>)
    ensures
        r is Err <==> is_degenerate(*b),
        r matches Err(e) ==> e is DegenerateViewport,
        r matches Ok(c) ==> c == canvas_of(*b),
{
    let w: i128 = b.max_lon as i128 - b.min_lon as i128;
    let h: i128 = b.max_lat as i128 - b.min_lat as i128;
    if w <= 0 || h <= 0 {
        return Err(MapError::DegenerateViewport);
    }
    let edge: i128 = MAX_MAP_EDGE_PX as i128;
    if w > h {
        proof {
            let (e, hh, ww) = (edge as int, h as int, w as int);
            assert(0 <= e * hh / ww <= e) by (nonlinear_arith)
                requires 0 < hh < ww, e == 2500;
        }
        let height: i128 = edge * h / w;
        Ok(CanvasSize { width: MAX_MAP_EDGE_PX, height: height as i32 })
    } else {
        proof {
            let (e, hh, ww) = (edge as int, h as int, w as int);
            assert(0 <= e * ww / hh <= e) by (nonlinear_arith)
                requires 0 < ww <= hh, e == 2500;
        }
        let width: i128 = edge * w / h;
        Ok(CanvasSize { width: width as i32, height: MAX_MAP_EDGE_PX })
    }
}

/// Plans the viewport of a set of points: their bounding box and the canvas
/// that keeps its aspect ratio within `MAX_MAP_EDGE_PX`.
pub fn plan(points: &Vec<GeoCoords>) -> (r: Result<(BoundingBox, CanvasSize), MapError>)
    ensures
        points@.len() == 0 ==> (r matches Err(e) && e is InsufficientPoints),
        points@.len() > 0 ==> match r {
            Ok((b, c)) => is_bounding_box_of(points@, b) && !is_degenerate(b) && c == canvas_of(b),
            Err(e) => e is DegenerateViewport && exists|b: BoundingBox|
                is_bounding_box_of(points@, b) && is_degenerate(b),
        },
{
    match bounding_box(points) {
        None => Err(MapError::InsufficientPoints),
        Some(b) => match canvas_size(&b) {
            Ok(c) => Ok((b, c)),
            Err(e) => Err(e),
        },
    }
}

} // verus!
