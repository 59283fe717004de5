use std::io::Write;

use miaosuan::globe_tiles::{
    facing_tiles, fallback_protected, fully_covered_by_target, gibs_url, globe_zoom_for, tile_image,
    GlobeKey, GlobeTileCache,
};
use miaosuan::stream::{Status, StatusMap};
use miaosuan::tiles::{
    build_tile_payload, cache_file_name, extract_template, is_fresh, keys_covering, region_of,
    report_gunzip, tile_url, unpack, zoom_for, CacheSweep, SourceStep, TileCache, TileKey,
    TileSource, CACHE_TTL, FALLBACK_TEMPLATE,
};
use miaosuan::web_cache::{gibs_cache_key, ofm_cache_key, usable_hit};

fn key(x: i32) -> TileKey {
    TileKey { z: 13, x, y: 7 }
}

fn xy_of(lat: f64, lon: f64, z: u8) -> (i32, i32) {
    let n = (1u64 << z) as f64;
    let x = ((lon + 180.0) / 360.0 * n).floor() as i32;
    let y = ((1.0 - lat.to_radians().tan().asinh() / std::f64::consts::PI) / 2.0 * n).floor() as i32;
    (x, y)
}

#[test]
fn cache_keys_are_stable_and_distinct() {
    assert_eq!(gibs_cache_key(4, 9, 5), "https://msdos.tiles/gibs/4/5/9");
    assert_eq!(ofm_cache_key(10, 370, 244), "https://msdos.tiles/ofm/10/370/244");
    assert_ne!(gibs_cache_key(4, 9, 5), ofm_cache_key(4, 9, 5));
}

#[test]
fn cache_keys_tell_neighbours_apart() {
    assert_ne!(ofm_cache_key(1, 11, 1), ofm_cache_key(1, 1, 11));
    assert_ne!(gibs_cache_key(1, 11, 1), gibs_cache_key(11, 1, 1));
    assert_eq!(usable_hit(Some(vec![])), None);
    assert_eq!(usable_hit(Some(vec![1])), Some(vec![1]));
    assert_eq!(usable_hit(None), None);
}

#[test]
fn covering_keys() {
    let a = xy_of(21.30, -158.05, 13);
    let b = xy_of(21.45, -157.85, 13);
    let keys = keys_covering(a, b, 13);
    assert!(keys.contains(&TileKey { z: 13, x: 503, y: 3599 }));
    assert!(keys.len() >= 2);
}

#[test]
fn covering_goes_column_by_column() {
    let keys = keys_covering((2, 5), (1, 4), 3);
    let places: Vec<(i32, i32)> = keys.iter().map(|k| (k.x, k.y)).collect();
    assert_eq!(places, vec![(1, 4), (1, 5), (2, 4), (2, 5)]);
    assert!(keys.iter().all(|k| k.z == 3));
}

#[test]
fn zoom_selection() {
    let ground = |lat: f64| (40_075_016.7 * lat.to_radians().cos() * 100.0) as u64;
    let view = |mpp: f64| (mpp * 1600.0 * 100.0) as u64;
    let far = zoom_for(view(1200.0), ground(21.35));
    let near = zoom_for(view(5.0), ground(21.35));
    assert!(far <= 10, "far zoom = {far}");
    assert_eq!(near, 14);
    let mid = zoom_for(view(60.0), ground(21.35));
    assert!(far <= mid && mid <= near);
}

#[test]
fn zoom_is_rounded_and_held() {
    // log2(37323000 / 768000) = 5.6, log2(37323000 / 38400) = 9.92
    assert_eq!(zoom_for(192_000_000, 3_732_300_000), 6);
    assert_eq!(zoom_for(9_600_000, 3_732_300_000), 10);
    assert_eq!(zoom_for(0, 4_007_501_670), 14);
    assert_eq!(zoom_for(1, 0), 6);
}

#[test]
fn template_extraction() {
    let json = r#"{"tilejson":"3.0.0","tiles":["https://tiles.openfreemap.org/planet/20260906_080001_pt/{z}/{x}/{y}.pbf"]}"#;
    let t = extract_template(json).unwrap();
    assert!(t.starts_with("https://") && t.contains("{z}/{x}/{y}"));
    assert!(extract_template("no url here").is_none());
}

#[test]
fn template_edges() {
    assert!(extract_template("\"tiles\":[\"http://a\"]").is_none());
    assert!(extract_template("https://a\" \"tiles\"").is_none());
    assert!(extract_template("\"tiles\" https://open").is_none());
    assert_eq!(extract_template("\"tiles\"é https://ü\"x"), Some("https://ü".to_string()));
}

#[test]
fn addresses_of_tiles() {
    let k = TileKey { z: 13, x: 503, y: -3 };
    assert_eq!(tile_url("h/{z}/{x}/{y}.pbf?{z}", k), "h/13/503/-3.pbf?13");
    assert_eq!(tile_url("plain", k), "plain");
    assert_eq!(cache_file_name(k), "tile_13_503_-3.pbf");
    assert!(gibs_url(GlobeKey { z: 4, x: 9, y: 5 }).ends_with("_Level8/4/5/9.jpg"));
}

#[test]
fn the_template_is_loaded_once() {
    let mut s = TileSource::default();
    assert_eq!(s.step(None), SourceStep::Load);
    assert_eq!(s.step(None), SourceStep::Wait);
    assert_eq!(s.step(Some(None)), SourceStep::Wait);
    assert_eq!(s.step(None), SourceStep::Ready);
    assert_eq!(s.template.as_deref(), Some(FALLBACK_TEMPLATE));
    let mut t = TileSource::default();
    assert_eq!(t.step(None), SourceStep::Load);
    assert_eq!(t.step(Some(Some("t".to_string()))), SourceStep::Ready);
    assert_eq!(t.template.as_deref(), Some("t"));
}

#[test]
fn cached_tiles_grow_old() {
    assert!(is_fresh(0, 0));
    assert!(is_fresh(CACHE_TTL, 0));
    assert!(!is_fresh(CACHE_TTL, 1));
}

#[test]
fn the_oldest_files_go_first() {
    let mut s = CacheSweep::new(&[30, 10, 20, 10], vec![4, 3, 2, 1], 9);
    assert_eq!(s.victim(), Some(1));
    s.tried(true);
    assert_eq!(s.remaining, 7);
    assert_eq!(s.victim(), Some(3));
    s.tried(false);
    assert_eq!(s.victim(), Some(2));
    s.tried(true);
    assert_eq!(s.victim(), Some(0));
    s.tried(true);
    assert_eq!(s.victim(), None);
    assert_eq!(CacheSweep::new(&[1, 2], vec![4, 5], 9).victim(), None);
    let half = CacheSweep::new(&[1, 2], vec![4, 6], 9);
    assert_eq!(half.victim(), Some(0));
}

#[test]
fn gzip_streams_are_unpacked() {
    let mut e = flate2::write::GzEncoder::new(Vec::new(), flate2::Compression::default());
    e.write_all(b"hello tile").unwrap();
    let packed = e.finish().unwrap();
    assert_eq!(unpack(packed.clone()), Ok(b"hello tile".to_vec()));
    assert_eq!(unpack(b"plain".to_vec()), Ok(b"plain".to_vec()));
    let broken = unpack(packed[..12].to_vec()).unwrap_err();
    assert!(broken.starts_with("gzip 解压失败: "), "{broken}");
    assert_eq!(report_gunzip(Err("x".to_string())), Err("gzip 解压失败: x".to_string()));
}

#[test]
fn payloads_count_their_parts() {
    let p = build_tile_payload(key(1), &[]).unwrap();
    assert_eq!((p.key, p.n_polys, p.n_lines), (key(1), 0, 0));
    assert!(build_tile_payload(key(1), &[0xff; 11]).is_none());
}

#[test]
fn a_stream_keeps_its_limits() {
    let mut c = TileCache::default();
    let wanted: Vec<TileKey> = (0..6).map(key).collect();
    let ms = 1_000_000;
    // Too early, then one request for each interval, up to four at once.
    assert_eq!(c.request(&wanted, 100 * ms, 0), None);
    assert_eq!(c.request(&wanted, 50 * ms, 0), Some(key(0)));
    assert_eq!(c.request(&wanted, 100 * ms, 0), None);
    for i in 1..4 {
        assert_eq!(c.request(&wanted, 150 * ms, 0), Some(key(i)));
    }
    assert_eq!(c.request(&wanted, 1000 * ms, 0), None);
    assert_eq!(c.stream.inflight, 4);
    // One is loaded, one fails and is tried again after twenty seconds.
    let f = c.frame(&wanted, &[(key(0), true), (key(1), false)], 0, 5);
    assert_eq!(f.fetch, Some(key(4)));
    assert!(f.unload.is_empty());
    assert_eq!((c.loaded_count(), c.failed, c.stream.inflight), (1, 0, 3));
    assert!(c.is_fetching(key(2)) && !c.is_fetching(key(0)));
    assert_eq!(c.request(&[key(0), key(1)], 150 * ms, 20_000 * ms), None);
    assert_eq!(c.request(&[key(0), key(1)], 150 * ms, 20_000 * ms + 5), Some(key(1)));
}

#[test]
fn old_tiles_are_dropped_but_never_wanted_ones() {
    let mut c = TileCache::default();
    for i in 0..30 {
        c.request(&[key(i)], 150_000_000, 0);
        c.finish(key(i), true, 0);
    }
    assert_eq!(c.loaded_count(), 30);
    assert_eq!(c.evict(&[key(2)]), vec![key(0), key(1)]);
    c.touch(&[key(2)]);
    assert_eq!(c.evict(&[key(2)]), vec![key(3), key(4), key(5), key(6)]);
    assert_eq!(c.loaded_count(), 24);
    assert_eq!(c.request(&[key(3)], 150_000_000, 0), Some(key(3)));
}

#[test]
fn the_loaded_region_grows() {
    let mut c = TileCache::default();
    for k in [TileKey { z: 1, x: 0, y: 0 }, TileKey { z: 30, x: 1 << 29, y: 3 }] {
        c.request(&[k], 150_000_000, 0);
        c.finish(k, true, 0);
    }
    let r = c.loaded_region.unwrap();
    assert_eq!((r.west, r.north, r.east, r.south), (0, 0, (1 << 29) + 1, 1 << 29));
    assert_eq!(region_of(TileKey { z: 30, x: -2, y: 5 }).west, -2);
}

fn gk(z: u8, x: u32, y: u32) -> GlobeKey {
    GlobeKey { z, x, y }
}

#[test]
fn coarse_tile_hidden_only_when_fully_covered() {
    let mut tiles: StatusMap<GlobeKey> = StatusMap::new();
    let coarse = gk(4, 2, 1);
    assert!(!fully_covered_by_target(coarse, 5, &tiles));
    for (x, y) in [(4, 2), (5, 2), (4, 3)] {
        tiles.insert(gk(5, x, y), Status::Loaded);
    }
    assert!(!fully_covered_by_target(coarse, 5, &tiles));
    tiles.insert(gk(5, 5, 3), Status::Loaded);
    assert!(fully_covered_by_target(coarse, 5, &tiles));
    assert!(!fully_covered_by_target(gk(5, 4, 2), 5, &tiles));
    assert!(!fully_covered_by_target(coarse, 4, &tiles));
}

#[test]
fn failed_tiles_protect_their_ancestors_from_eviction() {
    let mut tiles: StatusMap<GlobeKey> = StatusMap::new();
    tiles.insert(gk(5, 4, 2), Status::Failed { retry_at: 1 });
    let protected = fallback_protected(&tiles);
    assert!(protected.contains(&gk(4, 2, 1)));
    assert!(protected.contains(&gk(3, 1, 0)));
    assert!(protected.contains(&gk(0, 0, 0)));
    assert!(!protected.contains(&gk(4, 3, 1)));
    let mut clean: StatusMap<GlobeKey> = StatusMap::new();
    clean.insert(gk(5, 4, 2), Status::Loaded);
    assert!(fallback_protected(&clean).is_empty());
}

#[test]
fn globe_levels() {
    assert_eq!(globe_zoom_for(6_371_000_000 + 1_000_000), 8);
    assert_eq!(globe_zoom_for(18_475_900_000), 4);
    // 140888730 metres up, the whole equator fills no more pixels than a single tile has.
    assert_eq!(globe_zoom_for(6_371_000_000 + 140_889_000_000), 0);
    assert_eq!(globe_zoom_for(0), 8);
}

#[test]
fn facing_tiles_are_taken_row_by_row() {
    let keys = facing_tiles(1, &[true, false, true, true]);
    assert_eq!(keys, vec![gk(1, 0, 0), gk(1, 0, 1), gk(1, 1, 1)]);
}

#[test]
fn stand_ins_survive_a_full_cache() {
    let mut c = GlobeTileCache::default();
    let all: Vec<GlobeKey> = (0..125).map(|i| gk(7, i, 0)).collect();
    for k in &all {
        assert_eq!(c.frame(&[*k], &[], &[], 0, 300_000_000, 0).fetch, Some(*k));
        c.frame(&[*k], &[(*k, true)], &[], 0, 0, 0);
    }
    // The limit of 120 is kept; tile 0 to 4 went first.
    assert_eq!((c.loaded(), c.capacity()), (120, 120));
    assert!(!c.stream.tiles.entries.iter().any(|(k, _)| k.x < 5));
    // A finer tile on the way protects the tile that covers it.
    let child = gk(8, 10, 0);
    let f = c.frame(&[child], &[], &[gk(7, 5, 0), gk(7, 6, 0)], 8, 300_000_000, 0);
    assert_eq!(f.fetch, Some(child));
    assert_eq!(f.hidden, vec![false, false]);
    assert!(c.is_fetching(child));
    let extra = gk(7, 0, 0);
    c.frame(&[extra], &[], &[], 0, 300_000_000, 0);
    let dropped = c.frame(&[extra], &[(extra, true)], &[], 0, 0, 0).unload;
    assert_eq!(dropped, vec![gk(7, 6, 0)]);
}

#[test]
fn pictures_of_the_globe_are_decoded() {
    let mut bytes = Vec::new();
    let img = image::RgbImage::from_pixel(16, 8, image::Rgb([200, 10, 10]));
    img.write_to(&mut std::io::Cursor::new(&mut bytes), image::ImageFormat::Jpeg).unwrap();
    let picture = tile_image(&bytes).unwrap();
    assert_eq!((picture.width, picture.height), (16, 8));
    assert_eq!(picture.rgba.len(), 16 * 8 * 4);
    assert!(picture.rgba[0] > 150 && picture.rgba[3] == 255);
    let e = tile_image(b"nothing").unwrap_err();
    assert!(e.starts_with("JPEG 解码失败: "), "{e}");
}
