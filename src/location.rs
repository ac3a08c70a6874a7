use crate::error::MapError;
use crate::geo::{referenced_points_of, GeoCoords, MapSpec};
use vstd::prelude::*;

verus! {

/// The mapping that a list of entries describes; a later entry for a key
/// stands over an earlier one.
pub open spec fn map_of(s: Seq<(String, GeoCoords)>) -> Map<Seq<char>, GeoCoords>
    decreases s.len(),
{
    if s.len() == 0 {
        Map::empty()
    } else {
        map_of(s.drop_last()).insert(s.last().0@, s.last().1)
    }
}

/// No key occurs twice.
pub open spec fn keys_unique(s: Seq<(String, GeoCoords)>) -> bool {
    forall|i: int, j: int| 0 <= i < j < s.len() ==> s[i].0@ != s[j].0@
}

/// A resolved coordinate is added only for a key not yet present: an entry is
/// never overwritten.
pub open spec fn insert_if_absent(m: Map<Seq<char>, GeoCoords>, k: Seq<char>, v: GeoCoords) -> Map<Seq<char>, GeoCoords> {
    if m.dom().contains(k) {
        m
    } else {
        m.insert(k, v)
    }
}

/// The cache after a run of resolutions, in order.
pub open spec fn after_resolutions(m: Map<Seq<char>, GeoCoords>, s: Seq<(Seq<char>, GeoCoords)>) -> Map<Seq<char>, GeoCoords>
    decreases s.len(),
{
    if s.len() == 0 {
        m
    } else {
        insert_if_absent(after_resolutions(m, s.drop_last()), s.last().0, s.last().1)
    }
}

/// Some map of `maps` refers to the geocode `p`.
pub open spec fn is_referenced(maps: Seq<MapSpec>, p: Seq<char>) -> bool {
    exists|i: int| 0 <= i < maps.len() && #[trigger] referenced_points_of(maps[i]).contains(p)
}

proof fn lemma_resolutions_keep_entry(m: Map<Seq<char>, GeoCoords>, s: Seq<(Seq<char>, GeoCoords)>, k: Seq<char>)
    requires
        m.dom().contains(k),
    ensures
        after_resolutions(m, s).dom().contains(k),
        after_resolutions(m, s)[k] == m[k],
    decreases s.len(),
{
    if s.len() > 0 {
        lemma_resolutions_keep_entry(m, s.drop_last(), k);
    }
}

/// Cache monotonicity: whatever is resolved afterwards, in whatever order, a
/// geocode that the cache held keeps its coordinate.
pub proof fn lemma_resolutions_keep_entries(m: Map<Seq<char>, GeoCoords>, s: Seq<(Seq<char>, GeoCoords)>)
    ensures
        forall|k: Seq<char>| #[trigger] m.dom().contains(k) ==> after_resolutions(m, s).dom().contains(k)
            && after_resolutions(m, s)[k] == m[k],
{
    assert forall|k: Seq<char>| #[trigger] m.dom().contains(k) implies after_resolutions(m, s).dom().contains(k)
        && after_resolutions(m, s)[k] == m[k] by {
        lemma_resolutions_keep_entry(m, s, k);
    }
}

/// A geocode that is resolved is in the cache from then on, with the
/// coordinate of its first resolution unless the cache had it before.
pub proof fn lemma_resolved_stays_resolved(m: Map<Seq<char>, GeoCoords>, s: Seq<(Seq<char>, GeoCoords)>, i: int)
    requires
        0 <= i < s.len(),
    ensures
        after_resolutions(m, s).dom().contains(s[i].0),
    decreases s.len(),
{
    if i < s.len() - 1 {
        lemma_resolved_stays_resolved(m, s.drop_last(), i);
        assert(s.drop_last()[i] == s[i]);
    }
}

proof fn lemma_map_of_entry(s: Seq<(String, GeoCoords)>, i: int)
    requires
        keys_unique(s),
        0 <= i < s.len(),
    ensures
        map_of(s).dom().contains(s[i].0@),
        map_of(s)[s[i].0@] == s[i].1,
    decreases s.len(),
{
    if i < s.len() - 1 {
        lemma_map_of_entry(s.drop_last(), i);
        assert(s.drop_last()[i] == s[i]);
    }
}

proof fn lemma_map_of_dom(s: Seq<(String, GeoCoords)>, k: Seq<char>)
    requires
        map_of(s).dom().contains(k),
    ensures
        exists|i: int| 0 <= i < s.len() && #[trigger] s[i].0@ == k,
    decreases s.len(),
{
    if s.last().0@ != k {
        lemma_map_of_dom(s.drop_last(), k);
        let i = choose|i: int| 0 <= i < s.drop_last().len() && #[trigger] s.drop_last()[i].0@ == k;
        assert(s[i] == s.drop_last()[i]);
    } else {
        assert(s[s.len() - 1].0@ == k);
    }
}

/// The text of each string, in order.
pub open spec fn views(s: Seq<String>) -> Seq<Seq<char>> {
    s.map_values(|x: String| x@)
}

proof fn lemma_views_push(s: Seq<String>, x: String)
    ensures
        views(s.push(x)) == views(s).push(x@),
        forall|k: Seq<char>| #[trigger] views(s.push(x)).contains(k) <==> (views(s).contains(k) || k == x@),
{
    assert(views(s.push(x)) =~= views(s).push(x@));
    assert forall|k: Seq<char>| #[trigger] views(s.push(x)).contains(k) <==> (views(s).contains(k) || k == x@) by {
        let v = views(s);
        if views(s.push(x)).contains(k) {
            let i = choose|i: int| 0 <= i < v.push(x@).len() && v.push(x@)[i] == k;
            if i < v.len() {
                assert(v[i] == k);
            }
        }
        if v.contains(k) {
            let i = choose|i: int| 0 <= i < v.len() && v[i] == k;
            assert(v.push(x@)[i] == k);
        }
        if k == x@ {
            assert(v.push(x@)[v.len() as int] == k);
        }
    }
}

proof fn lemma_map_of_same_views(s1: Seq<(String, GeoCoords)>, s2: Seq<(String, GeoCoords)>)
    requires
        s1.len() == s2.len(),
        forall|i: int| 0 <= i < s1.len() ==> s1[i].0@ == s2[i].0@ && s1[i].1 == s2[i].1,
    ensures
        map_of(s1) == map_of(s2),
    decreases s1.len(),
{
    if s1.len() > 0 {
        lemma_map_of_same_views(s1.drop_last(), s2.drop_last());
    }
}

/// Whether some string of `v` has the text of `k`.
fn contains_text(v: &Vec<String>, k: &String) -> (r: bool)
    ensures
        r == views(v@).contains(k@),
{
    let mut i: usize = 0;
    while i < v.len()
        invariant
            i <= v@.len(),
            forall|j: int| 0 <= j < i ==> v@[j]@ != k@,
        decreases v@.len() - i,
    {
        if v[i] == *k {
            proof {
                assert(views(v@)[i as int] == k@);
            }
            return true;
        }
        i += 1;
    }
    proof {
        if views(v@).contains(k@) {
            let j = choose|j: int| 0 <= j < views(v@).len() && views(v@)[j] == k@;
            assert(v@[j]@ == k@);
        }
    }
    false
}

proof fn lemma_unique_len(s: Seq<(String, GeoCoords)>)
    requires
        keys_unique(s),
    ensures
        map_of(s).dom().finite(),
        map_of(s).len() == s.len(),
    decreases s.len(),
{
    if s.len() > 0 {
        let t = s.drop_last();
        assert(keys_unique(t));
        lemma_unique_len(t);
        if map_of(t).dom().contains(s.last().0@) {
            lemma_map_of_dom(t, s.last().0@);
            let j = choose|j: int| 0 <= j < t.len() && #[trigger] t[j].0@ == s.last().0@;
            assert(s[j].0@ == s[s.len() - 1].0@);
        }
    }
}

/// Geocode identifiers resolved to coordinates. It only grows: a key once
/// present keeps its coordinate for as long as the cache lives.
pub struct LocationCache {
    entries: Vec<(String, GeoCoords)>,
}

impl View for LocationCache {
    type V = Map<Seq<char>, GeoCoords>;

    closed spec fn view(&self) -> Map<Seq<char>, GeoCoords> {
        map_of(self.entries@)
    }
}

impl LocationCache {
    pub closed spec fn wf(&self) -> bool {
        keys_unique(self.entries@)
    }

    /// An empty cache.
    pub fn new() -> (r: LocationCache)
        ensures
            r.wf(),
            r@ == Map::<Seq<char>, GeoCoords>::empty(),
    {
        LocationCache { entries: Vec::new() }
    }

    /// The index of the entry for `pt`, if any.
    fn find(&self, pt: &String) -> (r: Option<usize>)
        requires
            self.wf(),
        ensures
            r matches Some(i) ==> i < self.entries@.len() && self.entries@[i as int].0@ == pt@,
            r is None ==> forall|i: int| 0 <= i < self.entries@.len() ==> self.entries@[i].0@ != pt@,
    {
        let mut i: usize = 0;
        while i < self.entries.len()
            invariant
                i <= self.entries@.len(),
                forall|j: int| 0 <= j < i ==> self.entries@[j].0@ != pt@,
            decreases self.entries@.len() - i,
        {
            if self.entries[i].0 == *pt {
                return Some(i);
            }
            i += 1;
        }
        None
    }

    /// Records the coordinate resolved for `pt`. A key already present keeps
    /// its coordinate.
    pub fn insert(&mut self, pt: &String, coords: GeoCoords)
        requires
            old(self).wf(),
        ensures
            final(self).wf(),
            final(self)@ == insert_if_absent(old(self)@, pt@, coords),
    {
        match self.find(pt) {
            Some(i) => {
                proof {
                    lemma_map_of_entry(self.entries@, i as int);
                }
            },
            None => {
                proof {
                    if self@.dom().contains(pt@) {
                        lemma_map_of_dom(self.entries@, pt@);
                    }
                }
                let ghost before = self.entries@;
                self.entries.push((pt.clone(), coords));
                proof {
                    assert(self.entries@.drop_last() =~= before);
                }
            },
        }
    }

    /// Builds a cache from stored entries, or `CacheCorrupt` naming a key
    /// that occurs twice.
    pub fn from_entries(entries: &Vec<(String, GeoCoords)>) -> (r: Result<LocationCache, MapError>)
        ensures
            r is Ok <==> keys_unique(entries@),
            r matches Ok(c) ==> c.wf() && c@ == map_of(entries@),
            r matches Err(e) ==> e is CacheCorrupt,
    {
        let mut cache = LocationCache::new();
        let mut i: usize = 0;
        while i < entries.len()
            invariant
                i <= entries@.len(),
                cache.wf(),
                keys_unique(entries@.take(i as int)),
                cache@ == map_of(entries@.take(i as int)),
            decreases entries@.len() - i,
        {
            let ghost t = entries@.take(i as int);
            proof {
                assert(entries@.take(i + 1).drop_last() =~= t);
            }
            if cache.contains(&entries[i].0) {
                proof {
                    lemma_map_of_dom(t, entries@[i as int].0@);
                    let j = choose|j: int| 0 <= j < t.len() && #[trigger] t[j].0@ == entries@[i as int].0@;
                    assert(entries@[j].0@ == entries@[i as int].0@);
                }
                return Err(MapError::CacheCorrupt(entries[i].0.clone()));
            }
            cache.insert(&entries[i].0, entries[i].1);
            proof {
                let t2 = entries@.take(i + 1);
                assert forall|a: int, b: int| 0 <= a < b < t2.len() implies t2[a].0@ != t2[b].0@ by {
                    if b == i {
                        if t2[a].0@ == t2[b].0@ {
                            assert(t[a] == t2[a]);
                            lemma_map_of_entry(t, a);
                        }
                    } else {
                        assert(t[a] == t2[a] && t[b] == t2[b]);
                    }
                }
            }
            i += 1;
        }
        proof {
            assert(entries@.take(i as int) =~= entries@);
        }
        Ok(cache)
    }

    /// Every entry, each key once, for storing the cache.
    pub fn entries(&self) -> (r: Vec<(String, GeoCoords)>)
        requires
            self.wf(),
        ensures
            keys_unique(r@),
            map_of(r@) == self@,
    {
        let mut r: Vec<(String, GeoCoords)> = Vec::new();
        let mut i: usize = 0;
        while i < self.entries.len()
            invariant
                i <= self.entries@.len(),
                r@.len() == i,
                forall|j: int| 0 <= j < i ==> #[trigger] r@[j].0@ == self.entries@[j].0@ && r@[j].1 == self.entries@[j].1,
            decreases self.entries@.len() - i,
        {
            r.push((self.entries[i].0.clone(), self.entries[i].1));
            i += 1;
        }
        proof {
            lemma_map_of_same_views(r@, self.entries@);
            assert forall|a: int, b: int| 0 <= a < b < r@.len() implies r@[a].0@ != r@[b].0@ by {
                assert(r@[a].0@ == self.entries@[a].0@);
                assert(r@[b].0@ == self.entries@[b].0@);
            }
        }
        r
    }

    /// The number of cached geocodes.
    pub fn len(&self) -> (r: usize)
        requires
            self.wf(),
        ensures
            r == self@.len(),
    {
        proof {
            lemma_unique_len(self.entries@);
        }
        self.entries.len()
    }

    /// The geocodes that `maps` refer to and the cache lacks, each once, in
    /// the order in which they are first referred to: what must be looked up
    /// before the maps can be drawn.
    pub fn missing_points(&self, maps: &Vec<MapSpec>) -> (r: Vec<String>)
        requires
            self.wf(),
        ensures
            views(r@).no_duplicates(),
            forall|k: Seq<char>| #[trigger] views(r@).contains(k) <==> (is_referenced(maps@, k) && !self@.dom().contains(k)),
    {
        let mut r: Vec<String> = Vec::new();
        let mut i: usize = 0;
        while i < maps.len()
            invariant
                i <= maps@.len(),
                self.wf(),
                views(r@).no_duplicates(),
                forall|k: Seq<char>| #[trigger] views(r@).contains(k) <==> (is_referenced(maps@.take(i as int), k) && !self@.dom().contains(k)),
            decreases maps@.len() - i,
        {
            let pts = maps[i].referenced_points();
            let mut j: usize = 0;
            while j < pts.len()
                invariant
                    j <= pts@.len(),
                    i < maps@.len(),
                    self.wf(),
                    views(pts@) == referenced_points_of(maps@[i as int]),
                    views(r@).no_duplicates(),
                    forall|k: Seq<char>| #[trigger] views(r@).contains(k) <==> ((is_referenced(maps@.take(i as int), k)
                        || views(pts@).take(j as int).contains(k)) && !self@.dom().contains(k)),
                decreases pts@.len() - j,
            {
                let ghost before = r@;
                let ghost p = pts@[j as int]@;
                proof {
                    assert(views(pts@).take(j + 1) =~= views(pts@).take(j as int).push(p));
                    assert forall|k: Seq<char>| #[trigger] views(pts@).take(j + 1).contains(k)
                        <==> (views(pts@).take(j as int).contains(k) || k == p) by {
                        let v = views(pts@).take(j as int);
                        if v.push(p).contains(k) {
                            let a = choose|a: int| 0 <= a < v.push(p).len() && v.push(p)[a] == k;
                            if a < v.len() {
                                assert(v[a] == k);
                            }
                        }
                        if v.contains(k) {
                            let a = choose|a: int| 0 <= a < v.len() && v[a] == k;
                            assert(v.push(p)[a] == k);
                        }
                        if k == p {
                            assert(v.push(p)[v.len() as int] == k);
                        }
                    }
                }
                if !self.contains(&pts[j]) && !contains_text(&r, &pts[j]) {
                    r.push(pts[j].clone());
                    proof {
                        lemma_views_push(before, pts@[j as int]);
                    }
                }
                j += 1;
            }
            proof {
                assert(views(pts@).take(j as int) =~= views(pts@));
                assert forall|k: Seq<char>| #[trigger] is_referenced(maps@.take(i + 1), k)
                    <==> (is_referenced(maps@.take(i as int), k) || referenced_points_of(maps@[i as int]).contains(k)) by {
                    let t = maps@.take(i as int);
                    let t2 = maps@.take(i + 1);
                    if is_referenced(t2, k) {
                        let a = choose|a: int| 0 <= a < t2.len() && #[trigger] referenced_points_of(t2[a]).contains(k);
                        if a < i {
                            assert(t[a] == t2[a]);
                        }
                    }
                    if is_referenced(t, k) {
                        let a = choose|a: int| 0 <= a < t.len() && #[trigger] referenced_points_of(t[a]).contains(k);
                        assert(t[a] == t2[a]);
                    }
                    if referenced_points_of(maps@[i as int]).contains(k) {
                        assert(t2[i as int] == maps@[i as int]);
                    }
                }
            }
            i += 1;
        }
        proof {
            assert(maps@.take(i as int) =~= maps@);
        }
        r
    }

    /// The coordinate cached for `pt`, if any.
    pub fn get(&self, pt: &String) -> (r: Option<GeoCoords>)
        requires
            self.wf(),
        ensures
            r == (if self@.dom().contains(pt@) { Some(self@[pt@]) } else { None }),
    {
        match self.find(pt) {
            Some(i) => {
                proof {
                    lemma_map_of_entry(self.entries@, i as int);
                }
                Some(self.entries[i].1)
            },
            None => {
                proof {
                    if self@.dom().contains(pt@) {
                        lemma_map_of_dom(self.entries@, pt@);
                    }
                }
                None
            },
        }
    }

    /// Whether `pt` has been resolved already.
    pub fn contains(&self, pt: &String) -> (r: bool)
        requires
            self.wf(),
        ensures
            r == self@.dom().contains(pt@),
    {
        self.get(pt).is_some()
    }
}

/// The conversion endpoint of the what3words API, up to the words.
pub const W3W_CONVERT_PREFIX: &'static str = "https://api.what3words.com/v3/convert-to-coordinates?words=";

/// A client of the what3words geocoding service.
pub struct What3WordsClient {
    api_key: String,
}

impl What3WordsClient {
    pub closed spec fn api_key_view(&self) -> Seq<char> {
        self.api_key@
    }

    pub fn new(api_key: String) -> (r: What3WordsClient)
        ensures
            r.api_key_view() == api_key@,
    {
        What3WordsClient { api_key }
    }

    /// The address that converts `words` to coordinates.
    pub fn convert_uri(&self, words: &String) -> (r: String)
        ensures
            r@ == W3W_CONVERT_PREFIX@ + words@ + "&key="@ + self.api_key_view(),
    {
        let mut r = String::from_str(W3W_CONVERT_PREFIX);
        r.append(words.as_str());
        r.append("&key=");
        r.append(self.api_key.as_str());
        r
    }
}

} // verus!
