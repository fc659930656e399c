//! Key normalization behavior.

use grekko::build_cache_key;
use grekko::COORDINATES_SEPARATOR;

#[test]
fn test_build_cache_key() {
    let key = "IMAGINARY; -,POSTCODE";
    let key = build_cache_key(&String::from(key));
    assert!(!key.contains(' '));
    assert!(!key.contains('-'));
    assert!(!key.contains(','));
    assert!(!key.contains(COORDINATES_SEPARATOR));
    assert_eq!(key, "IMAGINARYPOSTCODE")
}

#[test]
fn test_normalize_idempotent() {
    let raw = "AB1 0AJ;--, x";
    let once = build_cache_key(raw);
    let twice = build_cache_key(once.as_str());
    assert_eq!(once, twice);

    let empty_once = build_cache_key("");
    let empty_twice = build_cache_key(empty_once.as_str());
    assert_eq!(empty_once, empty_twice);
    assert_eq!(empty_once, "");
}

#[test]
fn test_normalize_collapses_equivalent_formats() {
    let a = build_cache_key("AB1 0AJ");
    let b = build_cache_key("AB1-0AJ");
    let c = build_cache_key("AB10AJ");
    assert_eq!(a, b);
    assert_eq!(b, c);
    assert_eq!(a, "AB10AJ");
}
