use geoguess::distance::{distance_km, distance_meters, Coordinate};

fn coord(lat_udeg: i64, lon_udeg: i64) -> Coordinate {
    Coordinate { lat_udeg, lon_udeg }
}

const LONDON: Coordinate = Coordinate { lat_udeg: 51_507_400, lon_udeg: -127_800 };
const PARIS: Coordinate = Coordinate { lat_udeg: 48_856_600, lon_udeg: 2_352_200 };
const NEW_YORK: Coordinate = Coordinate { lat_udeg: 40_712_800, lon_udeg: -74_006_000 };

#[test]
fn distance_to_self_is_zero() {
    for c in [LONDON, PARIS, NEW_YORK, coord(0, 0), coord(-90_000_000, 13_000_000)] {
        assert_eq!(distance_meters(&c, &c), 0);
    }
}

#[test]
fn distance_is_symmetric() {
    let pairs = [
        (LONDON, PARIS),
        (LONDON, NEW_YORK),
        (PARIS, NEW_YORK),
        (coord(10_000_000, 179_900_000), coord(-10_000_000, -179_900_000)),
        (coord(89_000_000, 0), coord(-89_000_000, 12_345)),
    ];
    for (a, b) in pairs {
        assert_eq!(distance_meters(&a, &b), distance_meters(&b, &a));
    }
}

#[test]
fn distance_ignores_longitude_wraparound() {
    let a = coord(51_507_400, -127_800);
    let b = coord(48_856_600, 2_352_200);
    let b_wrapped = coord(48_856_600, 2_352_200 + 360_000_000);
    assert_eq!(distance_meters(&a, &b), distance_meters(&a, &b_wrapped));
    let same_wrapped = coord(51_507_400, -127_800 + 360_000_000);
    assert_eq!(distance_meters(&a, &same_wrapped), 0);
}

#[test]
fn sample_distances_match_known_values() {
    let london_paris = distance_km(&LONDON, &PARIS);
    assert!((343..=344).contains(&london_paris), "London-Paris was {} km", london_paris);
    let london_ny = distance_km(&LONDON, &NEW_YORK);
    assert!((5570..=5580).contains(&london_ny), "London-New York was {} km", london_ny);
}

#[test]
fn sample_distances_satisfy_triangle_inequality() {
    let lp = distance_meters(&LONDON, &PARIS);
    let ln = distance_meters(&LONDON, &NEW_YORK);
    let pn = distance_meters(&PARIS, &NEW_YORK);
    assert!(lp + pn >= ln);
    assert!(lp + ln >= pn);
    assert!(ln + pn >= lp);
}

#[test]
fn distance_agrees_with_reference_haversine() {
    let cases = [
        (LONDON, PARIS),
        (LONDON, NEW_YORK),
        (PARIS, NEW_YORK),
        (coord(0, 0), coord(0, 180_000_000)),
        (coord(-33_868_800, 151_209_300), coord(40_712_800, -74_006_000)),
    ];
    for (a, b) in cases {
        let ga = geoutils::Location::new(a.lat_udeg as f64 / 1e6, a.lon_udeg as f64 / 1e6);
        let gb = geoutils::Location::new(b.lat_udeg as f64 / 1e6, b.lon_udeg as f64 / 1e6);
        let reference = ga.haversine_distance_to(&gb).meters();
        let ours = distance_meters(&a, &b) as f64;
        assert!(
            (ours - reference).abs() <= reference * 0.001 + 1.0,
            "ours {} reference {}",
            ours,
            reference
        );
    }
}

#[test]
fn antipodal_points_are_half_circumference_apart() {
    let d = distance_meters(&coord(0, 0), &coord(0, 180_000_000));
    // pi * 6_371_000, within a tenth of a percent
    assert!((d as i64 - 20_015_086).abs() < 20_015, "antipodal distance was {}", d);
}
