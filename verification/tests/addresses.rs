use miaosuan::decimal::{compare_size, Bound, Size};
use miaosuan::weburl::{format_globe, format_map, parse_hash, InitialView, LastUrl};

#[test]
fn map_roundtrip() {
    let url = format_map(2_135_498, -15_792_512, 10_008);
    assert_eq!(url, "#map=21.35498,-157.92512,10008");
    match parse_hash(&url) {
        Some(InitialView::Chart { lat, lon, alt_m }) => {
            assert!((lat.parse::<f64>().unwrap() - 21.35498).abs() < 1e-5);
            assert!((lon.parse::<f64>().unwrap() - (-157.92512)).abs() < 1e-5);
            assert!((alt_m.parse::<f32>().unwrap() - 10_008.0).abs() < 1.0);
        }
        other => panic!("{other:?}"),
    }
}

#[test]
fn globe_roundtrip() {
    let url = format_globe(35_680, 139_770, 12_000_000);
    match parse_hash(&url) {
        Some(InitialView::Globe { lat, lon, alt_m }) => {
            assert!((lat.parse::<f32>().unwrap() - 35.68).abs() < 1e-3);
            assert!((lon.parse::<f32>().unwrap() - 139.77).abs() < 1e-3);
            assert!((alt_m.parse::<f32>().unwrap() - 12_000_000.0).abs() < 1.0);
        }
        other => panic!("{other:?}"),
    }
}

#[test]
fn globe_default_alt() {
    match parse_hash("#globe=21.4,-158.0") {
        Some(InitialView::Globe { alt_m, .. }) => {
            assert!((alt_m.parse::<f32>().unwrap() - 12_000_000.0).abs() < 1.0)
        }
        other => panic!("{other:?}"),
    }
}

#[test]
fn invalid_hashes_rejected() {
    assert!(parse_hash("").is_none());
    assert!(parse_hash("#map=1,2").is_none());
    assert!(parse_hash("#map=99,0,1000").is_none());
    assert!(parse_hash("#map=0,0,99").is_none());
    assert!(parse_hash("#map=0,0,9999999").is_none());
    assert!(parse_hash("#foo=1,2,3").is_none());
}

/// Whether the limits of the map hold of the numbers as machine numbers.
fn map_ok(lat: &str, lon: &str, alt: &str) -> bool {
    let (lat, lon, alt): (f64, f64, f32) =
        (lat.parse().unwrap(), lon.parse().unwrap(), alt.parse().unwrap());
    (-85.0..=85.0).contains(&lat) && (-180.0..=180.0).contains(&lon)
        && (100.0..=2_000_000.0).contains(&alt)
}

fn globe_ok(lat: &str, lon: &str, alt: &str) -> bool {
    let (lat, lon, alt): (f32, f32, f32) =
        (lat.parse().unwrap(), lon.parse().unwrap(), alt.parse().unwrap());
    (-85.0..=85.0).contains(&lat) && (-180.0..=180.0).contains(&lon)
        && (10_000.0..=20_000_000.0).contains(&alt)
}

#[test]
fn limits_are_those_of_machine_numbers() {
    let lats = [
        "85", "-85", "85.00000000000000710542735760100185871124267578125",
        "85.00000000000000710542735760100185871124267578126", "85.000003814697265625",
        "85.000003814697265626", "+8.5e1", "850e-1", "1e400", "-1e-400", "inf", "NaN", "00085.0", ".5",
    ];
    let lons = [
        "180", "-180.0000000000000142108547152020037174224853515625",
        "-180.0000000000000142108547152020037174224853515626", "180.00000762939453125",
        "180.00000762939453126", "0", "1e99999999999999999999999999999999999999999999",
    ];
    let alts = [
        "100", "99.999996185302734375", "99.999996185302734374", "2000000", "2000000.0625",
        "2000000.06250001", "9999.99951171875", "9999.9995117187", "20000001", "20000001.5", "-500", "-0",
        "1e5", "nan",
    ];
    for lat in lats {
        for lon in lons {
            for alt in alts {
                let map = parse_hash(&format!("#map={lat},{lon},{alt}"));
                assert_eq!(map.is_some(), map_ok(lat, lon, alt), "map {lat} {lon} {alt}");
                let globe = parse_hash(&format!("##globe={lat},{lon},{alt},rest"));
                assert_eq!(globe.is_some(), globe_ok(lat, lon, alt), "globe {lat} {lon} {alt}");
            }
        }
    }
}

#[test]
fn other_fragments() {
    assert!(parse_hash("map=1,2,300").is_some());
    assert!(parse_hash("#map").is_none());
    assert!(parse_hash("#map=1,2,x").is_none());
    assert!(parse_hash("#globe=1,2,").is_none());
    assert!(parse_hash("#globe=1").is_none());
    assert!(parse_hash("#map=1,2,300=").is_none());
    assert!(parse_hash("#ma#p=1,2,300").is_none());
}

#[test]
fn numbers_are_formatted() {
    assert_eq!(format_map(-5, 0, 0), "#map=-0.00005,0.00000,0");
    assert_eq!(format_globe(-85_000, 180_000, 7), "#globe=-85.000,180.000,7");
}

#[test]
fn sizes_are_compared_exactly() {
    let b = Bound { whole: 2, frac: 5, places: 1 };
    assert_eq!(compare_size("2.5", &b), Size::Equal);
    assert_eq!(compare_size("-0.25e1", &b), Size::Equal);
    assert_eq!(compare_size("2.4999999999999999999999999999999999999999", &b), Size::Below);
    assert_eq!(compare_size("25000e-3", &b), Size::Above);
    assert_eq!(compare_size("0e99", &b), Size::Below);
}

#[test]
fn addresses_are_written_now_and_then() {
    let mut u = LastUrl::default();
    assert!(!u.due(299_999));
    assert!(u.due(1));
    assert!(u.differs("#a"));
    u.wrote("#a".to_string());
    assert!(!u.differs("#a") && !u.due(5));
}
