use vstd::prelude::*;

verus! {

/// A point on the globe, in billionths of a degree (WGS84).
#[derive(Clone, Copy, Debug, PartialEq, Eq, Structural)]
pub struct GeoCoords {
    pub latitude: i64,
    pub longitude: i64,
}

impl GeoCoords {
    pub fn new(latitude: i64, longitude: i64) -> (r: GeoCoords)
        ensures
            r.latitude == latitude,
            r.longitude == longitude,
    {
        GeoCoords { latitude, longitude }
    }

    /// Latitude in billionths of a degree.
    pub fn latitude(&self) -> (r: i64)
        ensures
            r == self.latitude,
    {
        self.latitude
    }

    /// Longitude in billionths of a degree.
    pub fn longitude(&self) -> (r: i64)
        ensures
            r == self.longitude,
    {
        self.longitude
    }
}

/// A labelled point of interest on a map, located by a geocode identifier.
#[derive(Debug)]
pub struct MapLocation {
    pub id: String,
    pub title: String,
    pub pt: String,
    pub description: Option<String>,
}

pub open spec fn opt_view(o: Option<String>) -> Option<Seq<char>> {
    match o {
        Some(s) => Some(s@),
        None => None,
    }
}

impl MapLocation {
    pub fn new(id: String, title: String, pt: String, description: Option<String>) -> (r: MapLocation)
        ensures
            r.id@ == id@,
            r.title@ == title@,
            r.pt@ == pt@,
            opt_view(r.description) == opt_view(description),
    {
        MapLocation { id, title, pt, description }
    }

    pub fn title(&self) -> (r: String)
        ensures
            r@ == self.title@,
    {
        self.title.clone()
    }

    pub fn description(&self) -> (r: Option<String>)
        ensures
            opt_view(r) == opt_view(self.description),
    {
        match &self.description {
            Some(d) => Some(d.clone()),
            None => None,
        }
    }

    pub fn pt(&self) -> (r: String)
        ensures
            r@ == self.pt@,
    {
        self.pt.clone()
    }

    pub fn id(&self) -> (r: String)
        ensures
            r@ == self.id@,
    {
        self.id.clone()
    }
}

/// A map description: the two corner points that must be visible, and the
/// points of interest that get a marker each.
#[derive(Debug)]
pub struct MapSpec {
    pub id: String,
    pub title: String,
    pub from: String,
    pub to: String,
    pub locations: Vec<MapLocation>,
}

/// Every geocode a map refers to: `from`, `to`, then each point of interest in order.
pub open spec fn referenced_points_of(m: MapSpec) -> Seq<Seq<char>> {
    seq![m.from@, m.to@] + m.locations@.map_values(|l: MapLocation| l.pt@)
}

impl MapSpec {
    pub fn new(id: String, title: String, from: String, to: String, locations: Vec<MapLocation>) -> (r: MapSpec)
        ensures
            r.id@ == id@,
            r.title@ == title@,
            r.from@ == from@,
            r.to@ == to@,
            r.locations@ == locations@,
    {
        MapSpec { id, title, from, to, locations }
    }

    pub fn title(&self) -> (r: String)
        ensures
            r@ == self.title@,
    {
        self.title.clone()
    }

    pub fn id(&self) -> (r: String)
        ensures
            r@ == self.id@,
    {
        self.id.clone()
    }

    pub fn locations(&self) -> (r: &Vec<MapLocation>)
        ensures
            r@ == self.locations@,
    {
        &self.locations
    }

    /// The geocodes this map needs resolved, in the order `from`, `to`, points of interest.
    pub fn referenced_points(&self) -> (r: Vec<String>)
        ensures
            r@.map_values(|s: String| s@) == referenced_points_of(*self),
    {
        let mut r: Vec<String> = Vec::new();
        r.push(self.from.clone());
        r.push(self.to.clone());
        let mut i: usize = 0;
        while i < self.locations.len()
            invariant
                i <= self.locations@.len(),
                r@.len() == i + 2,
                r@[0]@ == self.from@,
                r@[1]@ == self.to@,
                forall|j: int| 0 <= j < i ==> #[trigger] r@[j + 2]@ == self.locations@[j].pt@,
            decreases self.locations@.len() - i,
        {
            r.push(self.locations[i].pt.clone());
            i += 1;
        }
        proof {
            let lhs = r@.map_values(|s: String| s@);
            let rhs = referenced_points_of(*self);
            assert(lhs.len() == rhs.len());
            assert forall|k: int| 0 <= k < lhs.len() implies lhs[k] == rhs[k] by {
                if k >= 2 {
                    assert(r@[(k - 2) + 2]@ == self.locations@[k - 2].pt@);
                }
            }
            assert(lhs =~= rhs);
        }
        r
    }
}

} // verus!
