use ble_cube::{BleCube, BleObservation};

fn obs(rssi: i8, mac: [u8; 6], timestamp: i64, lat_e7: i64, lon_e7: i64) -> BleObservation {
    BleObservation { rssi, mac, timestamp, lat_e7, lon_e7 }
}

// San Francisco and Oakland, in degrees scaled by 10^7.
const SF_LAT: i64 = 377_749_000;
const SF_LON: i64 = -1_224_194_000;
const OAK_LAT: i64 = 378_044_000;
const OAK_LON: i64 = -1_222_712_000;

#[test]
fn test_basic_insert_and_query() {
    let mut cube = BleCube::new();

    let obs1 = obs(
        -65,
        [0xAA, 0xBB, 0xCC, 0xDD, 0xEE, 0xFF],
        1700000000,
        SF_LAT,
        SF_LON,
    );

    let id = cube.insert(obs1);
    assert_eq!(id, 0);
    assert_eq!(cube.len(), 1);

    let results = cube.query_mac(&[0xAA, 0xBB, 0xCC, 0xDD, 0xEE, 0xFF]);
    assert_eq!(results.len(), 1);
    assert_eq!(results[0].rssi, -65);
}

#[test]
fn test_rssi_range_query() {
    let mut cube = BleCube::new();

    cube.insert(obs(-50, [0; 6], 0, 0, 0));
    cube.insert(obs(-70, [0; 6], 0, 0, 0));
    cube.insert(obs(-90, [0; 6], 0, 0, 0));

    let results = cube.query_rssi_range(-80, -60);
    assert_eq!(results.len(), 1);
    assert_eq!(results[0].rssi, -70);

    let results_gte = cube.query_rssi_gte(-70);
    assert_eq!(results_gte.len(), 2); // -50 and -70
}

#[test]
fn test_geo_radius_query() {
    let mut cube = BleCube::new();

    // San Francisco
    cube.insert(obs(-60, [0; 6], 0, SF_LAT, SF_LON));

    // Oakland (about 13km away)
    cube.insert(obs(-60, [0; 6], 0, OAK_LAT, OAK_LON));

    // Query 10km radius around SF
    let results = cube.query_geo_radius(SF_LAT, SF_LON, 10000);
    assert_eq!(results.len(), 1);

    // Query 20km radius
    let results = cube.query_geo_radius(SF_LAT, SF_LON, 20000);
    assert_eq!(results.len(), 2);
}

#[test]
fn test_get_returns_inserted_values() {
    let mut cube = BleCube::new();
    let a = obs(-40, [1, 2, 3, 4, 5, 6], 100, 10, -20);
    let b = obs(-41, [6, 5, 4, 3, 2, 1], 200, -30, 40);
    assert_eq!(cube.insert(a), 0);
    assert_eq!(cube.insert(b), 1);
    assert_eq!(cube.get(0), Some(a));
    assert_eq!(cube.get(1), Some(b));
    assert_eq!(cube.get(2), None);
    assert!(!cube.is_empty());
}

#[test]
fn test_is_empty_on_new() {
    let cube = BleCube::default();
    assert!(cube.is_empty());
    assert_eq!(cube.len(), 0);
    assert_eq!(cube.get(0), None);
    let with_cap = BleCube::with_capacity(64);
    assert!(with_cap.is_empty());
}

#[test]
fn test_query_mac_insertion_order() {
    let mut cube = BleCube::new();
    let m = [9, 9, 9, 9, 9, 9];
    cube.insert(obs(-10, m, 5, 0, 0));
    cube.insert(obs(-20, [0; 6], 6, 0, 0));
    cube.insert(obs(-30, m, 7, 0, 0));
    let results = cube.query_mac(&m);
    assert_eq!(results.len(), 2);
    assert_eq!(results[0].rssi, -10);
    assert_eq!(results[1].rssi, -30);
    assert!(cube.query_mac(&[8; 6]).is_empty());
}

#[test]
fn test_get_all_macs_sorted_distinct() {
    let mut cube = BleCube::new();
    cube.insert(obs(-1, [2, 0, 0, 0, 0, 1], 0, 0, 0));
    cube.insert(obs(-2, [1, 0, 0, 0, 0, 2], 0, 0, 0));
    cube.insert(obs(-3, [2, 0, 0, 0, 0, 1], 0, 0, 0));
    cube.insert(obs(-4, [1, 255, 0, 0, 0, 0], 0, 0, 0));
    let macs = cube.get_all_macs();
    assert_eq!(
        macs,
        vec![
            [1, 0, 0, 0, 0, 2],
            [1, 255, 0, 0, 0, 0],
            [2, 0, 0, 0, 0, 1]
        ]
    );
}

#[test]
fn test_rssi_threshold_queries() {
    let mut cube = BleCube::new();
    cube.insert(obs(-50, [0; 6], 0, 0, 0));
    cube.insert(obs(-70, [0; 6], 0, 0, 0));
    cube.insert(obs(-90, [0; 6], 0, 0, 0));

    assert_eq!(cube.query_rssi(-70).len(), 1);
    assert_eq!(cube.query_rssi(-60).len(), 0);
    assert_eq!(cube.query_rssi_gt(-70).len(), 1);
    assert_eq!(cube.query_rssi_lt(-70).len(), 1);
    assert_eq!(cube.query_rssi_lte(-70).len(), 2);
    // Results come grouped by ascending strength.
    let all = cube.query_rssi_range(i8::MIN, i8::MAX);
    assert_eq!(all.len(), 3);
    assert_eq!(all[0].rssi, -90);
    assert_eq!(all[1].rssi, -70);
    assert_eq!(all[2].rssi, -50);
}

#[test]
fn test_rssi_gt_at_domain_top_is_empty() {
    let mut cube = BleCube::new();
    cube.insert(obs(i8::MAX, [0; 6], 0, 0, 0));
    assert_eq!(cube.query_rssi_gt(i8::MAX).len(), 0);
    assert_eq!(cube.query_rssi_gte(i8::MAX).len(), 1);
    assert_eq!(cube.query_rssi_lt(i8::MIN).len(), 0);
}

#[test]
fn test_time_queries() {
    let mut cube = BleCube::new();
    cube.insert(obs(0, [0; 6], 100, 0, 0));
    cube.insert(obs(0, [0; 6], 200, 0, 0));
    cube.insert(obs(0, [0; 6], 300, 0, 0));

    assert_eq!(cube.query_timestamp(200).len(), 1);
    assert_eq!(cube.query_timestamp(250).len(), 0);
    assert_eq!(cube.query_time_range(100, 200).len(), 2);
    assert_eq!(cube.query_time_after(200).len(), 1);
    assert_eq!(cube.query_time_after(i64::MAX).len(), 0);
    assert_eq!(cube.query_time_before(200).len(), 1);
    assert_eq!(cube.query_time_before(i64::MIN).len(), 0);
}

#[test]
fn test_repeated_queries_identical() {
    let mut cube = BleCube::new();
    cube.insert(obs(-50, [1; 6], 10, SF_LAT, SF_LON));
    cube.insert(obs(-70, [2; 6], 20, OAK_LAT, OAK_LON));
    cube.insert(obs(-90, [1; 6], 30, 0, 0));

    assert_eq!(cube.query_rssi_range(-80, -40), cube.query_rssi_range(-80, -40));
    assert_eq!(
        cube.query_geo_radius(SF_LAT, SF_LON, 20000),
        cube.query_geo_radius(SF_LAT, SF_LON, 20000)
    );
    assert_eq!(cube.query_mac(&[1; 6]), cube.query_mac(&[1; 6]));
    assert_eq!(cube.get_all_macs(), cube.get_all_macs());
    assert_eq!(
        cube.query_multi(Some([1; 6]), Some((-128, 0)), None, None),
        cube.query_multi(Some([1; 6]), Some((-128, 0)), None, None)
    );
}

#[test]
fn test_radius_monotone_scenario() {
    let mut cube = BleCube::new();
    cube.insert(obs(0, [0; 6], 0, SF_LAT, SF_LON));
    cube.insert(obs(0, [0; 6], 0, OAK_LAT, OAK_LON));
    cube.insert(obs(0, [0; 6], 0, 0, 0));
    let radii = [0i64, 5_000, 10_000, 15_000, 20_000, 1_000_000];
    for w in radii.windows(2) {
        let small = cube.query_geo_radius(SF_LAT, SF_LON, w[0]);
        let large = cube.query_geo_radius(SF_LAT, SF_LON, w[1]);
        for rec in &small {
            assert!(large.contains(rec));
        }
    }
    // A negative radius matches nothing.
    assert!(cube.query_geo_radius(SF_LAT, SF_LON, -1).is_empty());
}

#[test]
fn test_geo_bbox_query() {
    let mut cube = BleCube::new();
    cube.insert(obs(0, [0; 6], 0, 10_000_000, 10_000_000));
    cube.insert(obs(0, [0; 6], 0, 30_000_000, 30_000_000));
    let inside = cube.query_geo_bbox(0, 0, 20_000_000, 20_000_000);
    assert_eq!(inside.len(), 1);
    assert_eq!(inside[0].lat_e7, 10_000_000);
    // Bounds are inclusive.
    let edge = cube.query_geo_bbox(10_000_000, 10_000_000, 10_000_000, 10_000_000);
    assert_eq!(edge.len(), 1);
    let none = cube.query_geo_bbox(40_000_000, 40_000_000, 50_000_000, 50_000_000);
    assert!(none.is_empty());
}

#[test]
fn test_polygon_two_vertices_empty() {
    let mut cube = BleCube::new();
    cube.insert(obs(0, [0; 6], 0, 0, 0));
    let line = vec![(-10_000_000i64, -10_000_000i64), (10_000_000, 10_000_000)];
    assert!(cube.query_geo_polygon(&line).is_empty());
    let empty: Vec<(i64, i64)> = Vec::new();
    assert!(cube.query_geo_polygon(&empty).is_empty());
}

#[test]
fn test_polygon_triangle_containment() {
    let mut cube = BleCube::new();
    // Inside the triangle with corners at the origin, 2 degrees north,
    // and 2 degrees east.
    cube.insert(obs(-1, [0; 6], 0, 5_000_000, 5_000_000));
    // Inside the triangle's bounding box but outside the hypotenuse.
    cube.insert(obs(-2, [0; 6], 0, 15_000_000, 15_000_000));
    let triangle = vec![
        (0i64, 0i64),
        (20_000_000, 0),
        (0, 20_000_000),
    ];
    let results = cube.query_geo_polygon(&triangle);
    assert_eq!(results.len(), 1);
    assert_eq!(results[0].rssi, -1);
}

#[test]
fn test_multi_no_filters_returns_all_in_order() {
    let mut cube = BleCube::new();
    cube.insert(obs(-10, [1; 6], 1, 0, 0));
    cube.insert(obs(-20, [2; 6], 2, 0, 0));
    cube.insert(obs(-30, [3; 6], 3, 0, 0));
    let results = cube.query_multi(None, None, None, None);
    assert_eq!(results.len(), 3);
    assert_eq!(results[0].rssi, -10);
    assert_eq!(results[1].rssi, -20);
    assert_eq!(results[2].rssi, -30);
}

#[test]
fn test_multi_combined_filters() {
    let mut cube = BleCube::new();
    let m = [7, 7, 7, 7, 7, 7];
    cube.insert(obs(-50, m, 100, SF_LAT, SF_LON));
    cube.insert(obs(-90, m, 100, SF_LAT, SF_LON)); // fails rssi filter
    cube.insert(obs(-50, [0; 6], 100, SF_LAT, SF_LON)); // fails mac filter
    cube.insert(obs(-50, m, 900, SF_LAT, SF_LON)); // fails time filter
    cube.insert(obs(-50, m, 100, OAK_LAT, OAK_LON)); // fails geo filter

    let results = cube.query_multi(
        Some(m),
        Some((-60, -40)),
        Some((0, 500)),
        Some((SF_LAT, SF_LON, 10_000)),
    );
    assert_eq!(results.len(), 1);
    assert_eq!(results[0].rssi, -50);
    assert_eq!(results[0].timestamp, 100);

    // Each filter alone keeps its own matches.
    assert_eq!(cube.query_multi(Some(m), None, None, None).len(), 4);
    assert_eq!(cube.query_multi(None, Some((-60, -40)), None, None).len(), 4);
    assert_eq!(cube.query_multi(None, None, Some((0, 500)), None).len(), 4);
    assert_eq!(
        cube.query_multi(None, None, None, Some((SF_LAT, SF_LON, 10_000))).len(),
        4
    );
}

#[test]
fn test_geo_radius_small_distance_at_equator() {
    let mut cube = BleCube::new();
    // Origin, and a point 0.01 degrees north: about 1,112 meters away.
    cube.insert(obs(0, [0; 6], 0, 0, 0));
    cube.insert(obs(0, [0; 6], 0, 100_000, 0));
    assert_eq!(cube.query_geo_radius(0, 0, 1_300).len(), 2);
    assert_eq!(cube.query_geo_radius(0, 0, 900).len(), 1);
    assert_eq!(cube.query_geo_radius(0, 0, 0).len(), 1);
}

#[test]
fn test_mac_byte_order_distinguished() {
    let mut cube = BleCube::new();
    cube.insert(obs(-1, [0, 0, 0, 0, 1, 2], 0, 0, 0));
    cube.insert(obs(-2, [0, 0, 0, 0, 2, 1], 0, 0, 0));
    let a = cube.query_mac(&[0, 0, 0, 0, 1, 2]);
    let b = cube.query_mac(&[0, 0, 0, 0, 2, 1]);
    assert_eq!(a.len(), 1);
    assert_eq!(a[0].rssi, -1);
    assert_eq!(b.len(), 1);
    assert_eq!(b[0].rssi, -2);
    // Lexicographic order of the listed addresses follows the bytes.
    assert_eq!(
        cube.get_all_macs(),
        vec![[0, 0, 0, 0, 1, 2], [0, 0, 0, 0, 2, 1]]
    );
}

#[test]
fn test_haversine_distance_sf_oakland() {
    // About 13.4 km; this bound is what separates the two radius
    // outcomes of the San Francisco / Oakland scenario.
    let d = ble_cube::geomath::haversine_m(SF_LAT, SF_LON, OAK_LAT, OAK_LON);
    assert!(12_000 < d && d < 14_000, "distance was {}", d);
    // Symmetric inputs, and zero at a coincident point.
    assert_eq!(
        ble_cube::geomath::haversine_m(OAK_LAT, OAK_LON, SF_LAT, SF_LON),
        d
    );
    assert_eq!(ble_cube::geomath::haversine_m(SF_LAT, SF_LON, SF_LAT, SF_LON), 0);
}
