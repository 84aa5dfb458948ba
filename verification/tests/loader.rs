use geoguess::loader::{load_locations, parse_coord_field, LoadError};

#[test]
fn loads_rows_with_both_decimal_separators() {
    let data = "id,lat,lon,name\n1,48.8566,2.3522,Paris\n2,\"40,7128\",\"-74,0060\",NYC\n";
    let records = load_locations(data.as_bytes()).unwrap();
    assert_eq!(records.len(), 2);
    assert_eq!(records[0].name, "Paris");
    assert_eq!(records[0].coord.lat_udeg, 48_856_600);
    assert_eq!(records[0].coord.lon_udeg, 2_352_200);
    assert_eq!(records[1].name, "NYC");
    // the comma-as-decimal latitude 40,7128 must parse as 40.7128
    assert_eq!(records[1].coord.lat_udeg, 40_712_800);
    assert_eq!(records[1].coord.lon_udeg, -74_006_000);
}

#[test]
fn header_only_file_fails_fast() {
    let data = "id,lat,lon,name\n";
    let err = load_locations(data.as_bytes()).unwrap_err();
    assert!(matches!(err, LoadError::NoRecords));
}

#[test]
fn empty_file_fails_fast() {
    let err = load_locations(b"").unwrap_err();
    assert!(matches!(err, LoadError::NoRecords));
}

#[test]
fn non_numeric_latitude_is_a_bad_number() {
    let data = "id,lat,lon,name\n1,abc,2.3522,Paris\n";
    let err = load_locations(data.as_bytes()).unwrap_err();
    assert!(matches!(err, LoadError::BadNumber { row: 0, col: 1 }));
}

#[test]
fn non_numeric_longitude_is_a_bad_number() {
    let data = "id,lat,lon,name\n1,48.8566,2.3522,Paris\n2,1.0,x,Nowhere\n";
    let err = load_locations(data.as_bytes()).unwrap_err();
    assert!(matches!(err, LoadError::BadNumber { row: 1, col: 2 }));
}

#[test]
fn unclosed_quote_is_malformed() {
    let data = "id,lat,lon,name\n1,\"48.8566,2.3522,Paris\n2,40,7128,-74,NYC\n";
    let err = load_locations(data.as_bytes()).unwrap_err();
    assert!(matches!(err, LoadError::Malformed { .. }));
}

#[test]
fn first_failing_row_wins() {
    let data = "id,lat,lon,name\n1,oops,2.3522,Paris\n2,also,bad,Nowhere\n";
    let err = load_locations(data.as_bytes()).unwrap_err();
    assert!(matches!(err, LoadError::BadNumber { row: 0, col: 1 }));
}

#[test]
fn parses_plain_decimal_fields() {
    assert_eq!(parse_coord_field("40.7128"), Some(40_712_800));
    assert_eq!(parse_coord_field("40,7128"), Some(40_712_800));
    assert_eq!(parse_coord_field("-0.1278"), Some(-127_800));
    assert_eq!(parse_coord_field("+2.5"), Some(2_500_000));
    assert_eq!(parse_coord_field("40"), Some(40_000_000));
    assert_eq!(parse_coord_field("40."), Some(40_000_000));
    assert_eq!(parse_coord_field(".5"), Some(500_000));
    assert_eq!(parse_coord_field("-.5"), Some(-500_000));
    assert_eq!(parse_coord_field("0.0000019"), Some(1));
    assert_eq!(parse_coord_field("-0.0000019"), Some(-1));
}

#[test]
fn rejects_non_decimal_fields() {
    assert_eq!(parse_coord_field(""), None);
    assert_eq!(parse_coord_field("-"), None);
    assert_eq!(parse_coord_field("."), None);
    assert_eq!(parse_coord_field("abc"), None);
    assert_eq!(parse_coord_field("1.2.3"), None);
    assert_eq!(parse_coord_field("1e5"), None);
    assert_eq!(parse_coord_field(" 1"), None);
    assert_eq!(parse_coord_field("1 "), None);
    assert_eq!(parse_coord_field("--1"), None);
    assert_eq!(parse_coord_field("1234567890123"), None);
}

#[test]
fn records_keep_file_order() {
    let data = "id,lat,lon,name\n1,1,1,A\n2,2,2,B\n3,3,3,C\n";
    let records = load_locations(data.as_bytes()).unwrap();
    let names: Vec<&str> = records.iter().map(|r| r.name.as_str()).collect();
    assert_eq!(names, ["A", "B", "C"]);
}

#[test]
fn short_row_is_a_missing_field() {
    let rows: Vec<Vec<String>> = vec![vec!["1".to_string(), "2.0".to_string()]];
    let err = geoguess::loader::records_from_rows(&rows).unwrap_err();
    assert!(matches!(err, LoadError::MissingField { row: 0, col: 2 }));
}

#[test]
fn one_field_row_misses_the_latitude_column() {
    let rows: Vec<Vec<String>> = vec![vec!["1".to_string()]];
    let err = geoguess::loader::records_from_rows(&rows).unwrap_err();
    assert!(matches!(err, LoadError::MissingField { row: 0, col: 1 }));
}

#[test]
fn four_field_rows_build_records() {
    let rows: Vec<Vec<String>> = vec![
        vec!["1".to_string(), "51.5074".to_string(), "-0.1278".to_string(), "London".to_string()],
    ];
    let records = geoguess::loader::records_from_rows(&rows).unwrap();
    assert_eq!(records.len(), 1);
    assert_eq!(records[0].name, "London");
    assert_eq!(records[0].coord.lat_udeg, 51_507_400);
    assert_eq!(records[0].coord.lon_udeg, -127_800);
}
