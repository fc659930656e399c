//! The coordinate numeral grammar and coordinate strings.

use grekko::Coordinate;
use grekko::check_coordinate_string;
use grekko::parse_coordinate_string;
use grekko::ResolveError;
use grekko::numbers::parse_micro;

#[test]
fn test_parse_micro_exact_values() {
    assert_eq!(parse_micro("57.099011"), Some(57099011));
    assert_eq!(parse_micro("-2.252854"), Some(-2252854));
    assert_eq!(parse_micro("0.0"), Some(0));
    assert_eq!(parse_micro("99.999999"), Some(99999999));
    assert_eq!(parse_micro("12"), Some(12000000));
    assert_eq!(parse_micro("-0.5"), Some(-500000));
}

#[test]
fn test_parse_micro_rejects_bad_numerals() {
    assert_eq!(parse_micro(""), None);
    assert_eq!(parse_micro("abc"), None);
    assert_eq!(parse_micro("1.2345678"), None);
    assert_eq!(parse_micro("1."), None);
    assert_eq!(parse_micro(".5"), None);
    assert_eq!(parse_micro("1.2.3"), None);
    assert_eq!(parse_micro("-"), None);
}

#[test]
fn test_parse_coordinate_string() {
    assert_eq!(
        parse_coordinate_string("57.099011;-2.252854"),
        Some(Coordinate { lat_micro: 57099011, lon_micro: -2252854 })
    );
    assert_eq!(parse_coordinate_string("57.099011"), None);
    assert_eq!(parse_coordinate_string("a;b"), None);
}

#[test]
fn test_coordinate_validity() {
    let sentinel = Coordinate { lat_micro: 99999999, lon_micro: 0 };
    assert!(!sentinel.is_valid());
    let usable = Coordinate { lat_micro: 57099011, lon_micro: -2252854 };
    assert!(usable.is_valid());
}

#[test]
fn test_check_coordinate_string() {
    let ok = check_coordinate_string("57.099011;-2.252854".to_string()).unwrap();
    assert_eq!(ok, "57.099011;-2.252854");
    assert_eq!(
        check_coordinate_string("99.999999;0.000000".to_string()).unwrap_err(),
        ResolveError::InvalidLocation
    );
    assert_eq!(
        check_coordinate_string("gibberish".to_string()).unwrap_err(),
        ResolveError::RecordParseError
    );
}
