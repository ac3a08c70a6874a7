use map_prep::download::{decimal_bytes, hash_uri, CachedDownloader};
use map_prep::error::{FormatError, MapError};
use map_prep::geo::{GeoCoords, MapLocation, MapSpec};
use map_prep::gmaps::{GoogleMaps, MapMarker};
use map_prep::location::{LocationCache, What3WordsClient};
use map_prep::viewport::{bounding_box, canvas_size, plan, BoundingBox, CanvasSize, MAX_MAP_EDGE_PX};

const DEG: i64 = 1_000_000_000;

fn pt(lat: i64, lon: i64) -> GeoCoords {
    GeoCoords::new(lat, lon)
}

fn loc(id: &str, title: &str, p: &str) -> MapLocation {
    MapLocation::new(id.to_string(), title.to_string(), p.to_string(), None)
}

fn spec(from: &str, to: &str, locations: Vec<MapLocation>) -> MapSpec {
    MapSpec::new("m1".to_string(), "Map".to_string(), from.to_string(), to.to_string(), locations)
}

#[test]
fn geo_coords_accessors() {
    let c = GeoCoords::new(51 * DEG, -DEG / 10);
    assert_eq!(c.latitude(), 51_000_000_000);
    assert_eq!(c.longitude(), -100_000_000);
}

#[test]
fn map_accessors_and_referenced_points() {
    let m = spec("a.b.c", "d.e.f", vec![loc("p1", "Park", "g.h.i"), loc("p2", "Zoo", "a.b.c")]);
    assert_eq!(m.id(), "m1");
    assert_eq!(m.title(), "Map");
    assert_eq!(m.locations().len(), 2);
    let l = &m.locations()[0];
    assert_eq!(l.id(), "p1");
    assert_eq!(l.title(), "Park");
    assert_eq!(l.pt(), "g.h.i");
    assert_eq!(l.description(), None);
    let with_desc = MapLocation::new("x".to_string(), "X".to_string(), "y".to_string(), Some("about".to_string()));
    assert_eq!(with_desc.description(), Some("about".to_string()));
    assert_eq!(m.referenced_points(), vec!["a.b.c", "d.e.f", "g.h.i", "a.b.c"]);
}

#[test]
fn plan_rejects_no_points() {
    assert!(matches!(plan(&vec![]), Err(MapError::InsufficientPoints)));
    assert!(bounding_box(&vec![]).is_none());
}

#[test]
fn plan_single_point_is_degenerate() {
    assert!(matches!(plan(&vec![pt(DEG, 2 * DEG)]), Err(MapError::DegenerateViewport)));
}

#[test]
fn plan_same_latitude_is_degenerate() {
    let pts = vec![pt(DEG, 0), pt(DEG, 5 * DEG), pt(DEG, -3 * DEG)];
    assert!(matches!(plan(&pts), Err(MapError::DegenerateViewport)));
}

#[test]
fn plan_same_longitude_is_degenerate() {
    let pts = vec![pt(0, DEG), pt(3 * DEG, DEG)];
    assert!(matches!(plan(&pts), Err(MapError::DegenerateViewport)));
}

#[test]
fn bounding_box_is_coordinatewise_extent() {
    let pts = vec![pt(2 * DEG, -DEG), pt(-DEG, 4 * DEG), pt(DEG, 0)];
    let b = bounding_box(&pts).unwrap();
    assert_eq!(b, BoundingBox { min_lat: -DEG, max_lat: 2 * DEG, min_lon: -DEG, max_lon: 4 * DEG });
}

#[test]
fn plan_wide_box() {
    let pts = vec![pt(0, 0), pt(DEG, 2 * DEG)];
    let (_, c) = plan(&pts).unwrap();
    assert_eq!(c, CanvasSize { width: 2500, height: 1250 });
}

#[test]
fn plan_tall_box() {
    let pts = vec![pt(0, 0), pt(3 * DEG, DEG)];
    let (_, c) = plan(&pts).unwrap();
    assert_eq!(c, CanvasSize { width: 833, height: 2500 });
}

#[test]
fn plan_square_box() {
    let pts = vec![pt(-DEG, -DEG), pt(DEG, DEG)];
    let (_, c) = plan(&pts).unwrap();
    assert_eq!(c, CanvasSize { width: MAX_MAP_EDGE_PX, height: MAX_MAP_EDGE_PX });
}

#[test]
fn aspect_ratio_within_one_pixel() {
    // ratio 3: height 833, and 833 * 3 = 2499
    let b = BoundingBox { min_lat: 0, max_lat: DEG, min_lon: 0, max_lon: 3 * DEG };
    let c = canvas_size(&b).unwrap();
    assert_eq!(c.width, 2500);
    assert!((c.height as i64 * 3 - 2500).abs() <= 1);
}

#[test]
fn aspect_ratio_truncation_with_large_ratio() {
    // ratio 1000: 2500 / 1000 truncates to 2
    let b = BoundingBox { min_lat: 0, max_lat: 1, min_lon: 0, max_lon: 1000 };
    assert_eq!(canvas_size(&b).unwrap(), CanvasSize { width: 2500, height: 2 });
}

#[test]
fn cache_insert_and_get() {
    let mut cache = LocationCache::new();
    let key = "index.home.raft".to_string();
    assert!(cache.get(&key).is_none());
    assert!(!cache.contains(&key));
    cache.insert(&key, pt(51 * DEG, 0));
    assert_eq!(cache.get(&key), Some(pt(51 * DEG, 0)));
    assert_eq!(cache.len(), 1);
}

#[test]
fn cache_never_overwrites() {
    let mut cache = LocationCache::new();
    let key = "a.b.c".to_string();
    cache.insert(&key, pt(1, 2));
    cache.insert(&key, pt(3, 4));
    assert_eq!(cache.get(&key), Some(pt(1, 2)));
    assert_eq!(cache.len(), 1);
}

#[test]
fn cache_keeps_entries_across_resolutions() {
    let mut cache = LocationCache::new();
    let keys: Vec<String> = vec!["a".to_string(), "b".to_string(), "c".to_string(), "a".to_string()];
    for (i, k) in keys.iter().enumerate() {
        cache.insert(k, pt(i as i64, i as i64));
    }
    assert_eq!(cache.get(&"a".to_string()), Some(pt(0, 0)));
    assert_eq!(cache.get(&"b".to_string()), Some(pt(1, 1)));
    assert_eq!(cache.get(&"c".to_string()), Some(pt(2, 2)));
}

#[test]
fn cache_entries_round_trip() {
    let mut cache = LocationCache::new();
    cache.insert(&"x.y.z".to_string(), pt(5, -6));
    cache.insert(&"u.v.w".to_string(), pt(-7, 8));
    let stored = cache.entries();
    let back = LocationCache::from_entries(&stored).unwrap();
    assert_eq!(back.len(), 2);
    assert_eq!(back.get(&"x.y.z".to_string()), Some(pt(5, -6)));
    assert_eq!(back.get(&"u.v.w".to_string()), Some(pt(-7, 8)));
    let empty = LocationCache::from_entries(&LocationCache::new().entries()).unwrap();
    assert_eq!(empty.len(), 0);
}

#[test]
fn cache_rejects_duplicate_keys() {
    let stored = vec![("a".to_string(), pt(1, 1)), ("b".to_string(), pt(2, 2)), ("a".to_string(), pt(3, 3))];
    match LocationCache::from_entries(&stored) {
        Err(MapError::CacheCorrupt(k)) => assert_eq!(k, "a"),
        other => panic!("unexpected {:?}", other.is_ok()),
    }
}

#[test]
fn missing_points_each_once_in_order() {
    let mut cache = LocationCache::new();
    cache.insert(&"d.e.f".to_string(), pt(1, 1));
    let maps = vec![
        spec("a.b.c", "d.e.f", vec![loc("p1", "Park", "g.h.i"), loc("p2", "Zoo", "a.b.c")]),
        spec("g.h.i", "j.k.l", vec![]),
    ];
    assert_eq!(cache.missing_points(&maps), vec!["a.b.c", "g.h.i", "j.k.l"]);
}

#[test]
fn w3w_convert_uri() {
    let client = What3WordsClient::new("KEY".to_string());
    assert_eq!(
        client.convert_uri(&"index.home.raft".to_string()),
        "https://api.what3words.com/v3/convert-to-coordinates?words=index.home.raft&key=KEY"
    );
}

#[test]
fn decimal_digits_of_hash() {
    assert_eq!(decimal_bytes(0), b"0".to_vec());
    assert_eq!(decimal_bytes(1234567890), b"1234567890".to_vec());
    assert_eq!(decimal_bytes(u64::MAX), u64::MAX.to_string().into_bytes());
}

#[test]
fn entry_file_name_layout() {
    let d = CachedDownloader::new("cache".to_string(), "png");
    // "123" in base64 is "MTIz"
    assert_eq!(d.entry_file_name("m1", 123), "m1-MTIz.png");
    // "12" needs one padding character, "1" two
    assert_eq!(d.entry_file_name("m1", 12), "m1-MTI=.png");
    assert_eq!(d.entry_file_name("m1", 1), "m1-MQ==.png");
}

#[test]
fn entry_path_joins_directory() {
    let uri = "https://example.com/map?size=1x1";
    let name = CachedDownloader::new("cache".to_string(), "png").entry_file_name("m1", hash_uri(uri));
    assert_eq!(CachedDownloader::new("cache".to_string(), "png").entry_path("m1", uri), format!("cache/{}", name));
    assert_eq!(CachedDownloader::new("cache/".to_string(), "png").entry_path("m1", uri), format!("cache/{}", name));
    assert_eq!(CachedDownloader::new(String::new(), "png").entry_path("m1", uri), name);
}

#[test]
fn download_is_idempotent() {
    let d = CachedDownloader::new("cache".to_string(), "png");
    let uri = "https://example.com/map?size=1x1";
    let first = d.plan_download("m1", uri, false);
    assert!(first.fetch);
    let second = d.plan_download("m1", uri, true);
    assert!(!second.fetch);
    assert_eq!(first.path, second.path);
}

#[test]
fn download_key_depends_on_uri() {
    let d = CachedDownloader::new("cache".to_string(), "png");
    let a = d.entry_path("m1", "https://example.com/map?size=1x1");
    let b = d.entry_path("m1", "https://example.com/map?size=1x2");
    assert_ne!(a, b);
    assert_ne!(hash_uri("https://example.com/map?size=1x1"), hash_uri("https://example.com/map?size=1x2"));
}

fn resolved_cache() -> LocationCache {
    let mut cache = LocationCache::new();
    cache.insert(&"index.home.raft".to_string(), pt(51_520_847_000, -195_521_000));
    cache.insert(&"filled.count.soap".to_string(), pt(51_520_188_000, -195_440_000));
    cache.insert(&"other.point.here".to_string(), pt(51_521_188_000, -193_440_000));
    cache
}

#[test]
fn end_to_end_single_point_is_degenerate() {
    let m = spec("index.home.raft", "filled.count.soap", vec![loc("p1", "Park", "filled.count.soap")]);
    let maps = vec![m];
    let mut cache = LocationCache::new();
    assert_eq!(cache.missing_points(&maps).len(), 2);
    cache.insert(&"index.home.raft".to_string(), pt(51_520_847_000, -195_521_000));
    cache.insert(&"filled.count.soap".to_string(), pt(51_520_188_000, -195_440_000));
    let g = GoogleMaps::new("KEY".to_string());
    assert!(matches!(g.prepare(&maps[0], &cache), Err(MapError::DegenerateViewport)));
}

#[test]
fn end_to_end_two_points() {
    let m = spec(
        "index.home.raft",
        "filled.count.soap",
        vec![loc("p1", "Park", "filled.count.soap"), loc("p2", "zoo", "other.point.here")],
    );
    let g = GoogleMaps::new("KEY".to_string());
    let req = g.prepare(&m, &resolved_cache()).unwrap();
    assert_eq!(req.api_key, "KEY");
    assert_eq!(req.size.width.max(req.size.height), 2500);
    // width 2_000_000, height 1_000_000
    assert_eq!(req.size, CanvasSize { width: 2500, height: 1250 });
    assert_eq!(req.visible, vec![pt(51_520_847_000, -195_521_000), pt(51_520_188_000, -195_440_000)]);
    assert_eq!(
        req.markers,
        vec![
            MapMarker { location: pt(51_520_188_000, -195_440_000), label: 'P' },
            MapMarker { location: pt(51_521_188_000, -193_440_000), label: 'z' },
        ]
    );
}

#[test]
fn prepare_reports_missing_location() {
    let m = spec("index.home.raft", "nowhere.at.all", vec![loc("p1", "Park", "filled.count.soap")]);
    let g = GoogleMaps::new("KEY".to_string());
    match g.prepare(&m, &resolved_cache()) {
        Err(MapError::LookupFailure(p)) => assert_eq!(p, "nowhere.at.all"),
        other => panic!("unexpected {:?}", other),
    }
}

#[test]
fn prepare_rejects_empty_title() {
    let m = spec("index.home.raft", "filled.count.soap", vec![loc("p1", "", "filled.count.soap")]);
    let g = GoogleMaps::new("KEY".to_string());
    match g.prepare(&m, &resolved_cache()) {
        Err(MapError::InvalidMarkerLabel(id)) => assert_eq!(id, "p1"),
        other => panic!("unexpected {:?}", other),
    }
}

#[test]
fn prepare_rejects_unlabelable_title() {
    let m = spec("index.home.raft", "filled.count.soap", vec![loc("p7", "#1 spot", "filled.count.soap")]);
    let g = GoogleMaps::new("KEY".to_string());
    assert!(matches!(g.prepare(&m, &resolved_cache()), Err(MapError::InvalidMarkerLabel(_))));
}

#[test]
fn prepare_without_points_of_interest() {
    let m = spec("index.home.raft", "filled.count.soap", vec![]);
    let g = GoogleMaps::new("KEY".to_string());
    assert!(matches!(g.prepare(&m, &resolved_cache()), Err(MapError::InsufficientPoints)));
}

#[test]
fn format_error_message() {
    assert_eq!(FormatError::Unknown.message(), "unknown data store error");
    assert_eq!(FormatError::IoError("disk full".to_string()).message(), "disk full");
}
