//! Resolution through the engine: fallback scans, the cache path, the
//! bootstrap protocol, and the Sentinel Filter.

use grekko::build_cache_key;
use grekko::CacheStore;
use grekko::Coordinate;
use grekko::Geocoder;
use grekko::ResolveError;
use grekko::forward_search_file;
use grekko::reverse_search_file;
use grekko::split_lines;

fn dataset_lines() -> Vec<String> {
    vec![
        "postcode,latitude,longitude".to_string(),
        "AB1 0AJ,57.099011,-2.252854".to_string(),
        "AB1 0AX,57.100300,-2.270731".to_string(),
        "XX9 9XX,99.999999,0.000000".to_string(),
    ]
}

#[test]
fn test_search_postcode() {
    let lines = dataset_lines();
    let coordinates = Coordinate { lat_micro: 57099011, lon_micro: -2252854 };
    let postcode = forward_search_file(&lines, &coordinates).unwrap();
    assert_eq!(postcode, "AB1 0AJ")
}

#[test]
fn test_search_coordinates() {
    let lines = dataset_lines();
    let coordinates = reverse_search_file(&lines, &String::from("AB1-0AJ")).unwrap();
    assert_eq!(coordinates, "57.099011;-2.252854")
}

#[test]
fn test_bootstrap_postcode_cache() {
    let mut geocoder = Geocoder::new(dataset_lines(), CacheStore::new(true));
    assert_eq!(geocoder.is_bootstrapped(), true);
}

#[test]
fn test_bootstrap_runs_at_most_one_bulk_load() {
    let mut geocoder = Geocoder::new(dataset_lines(), CacheStore::new(true));
    assert_eq!(geocoder.store_bulk_writes(), 0);
    assert!(geocoder.is_bootstrapped());
    assert_eq!(geocoder.store_bulk_writes(), 1);
    assert!(geocoder.is_bootstrapped());
    assert_eq!(geocoder.store_bulk_writes(), 1);
}

#[test]
fn test_bootstrap_skips_load_when_store_populated() {
    let mut store = CacheStore::new(true);
    // Two valid records: write two entries by hand so that the count
    // reconciliation already matches the dataset.
    store.hset("POSTCODE", "AB10AJ", "57.099011;-2.252854".to_string()).unwrap();
    store.hset("POSTCODE", "AB10AX", "57.100300;-2.270731".to_string()).unwrap();
    let mut geocoder = Geocoder::new(dataset_lines(), CacheStore::new(true));
    assert!(geocoder.is_bootstrapped());
    let mut pre_populated = Geocoder::new(dataset_lines(), store);
    assert!(pre_populated.is_bootstrapped());
    assert_eq!(pre_populated.store_bulk_writes(), 0);
}

#[test]
fn test_bootstrap_unreachable_store_reports_false() {
    let mut geocoder = Geocoder::new(dataset_lines(), CacheStore::new(false));
    assert_eq!(geocoder.is_bootstrapped(), false);
    assert_eq!(geocoder.bootstrap_cache("POSTCODE"), false);
}

#[test]
fn test_bootstrap_cache_unknown_table() {
    let mut geocoder = Geocoder::new(dataset_lines(), CacheStore::new(true));
    assert_eq!(geocoder.bootstrap_cache("NOT_A_TABLE"), false);
}

#[test]
fn test_reverse_search_via_cache() {
    let mut geocoder = Geocoder::new(dataset_lines(), CacheStore::new(true));
    let coordinates = geocoder.reverse_search("AB1-0AJ").unwrap();
    assert_eq!(coordinates, "57.099011;-2.252854");
    let count = geocoder.store_record_count("POSTCODE").unwrap();
    assert_eq!(count, 2);
}

#[test]
fn test_reverse_search_fallback_when_store_unreachable() {
    let mut geocoder = Geocoder::new(dataset_lines(), CacheStore::new(false));
    let coordinates = geocoder.reverse_search("AB1 0AJ").unwrap();
    assert_eq!(coordinates, "57.099011;-2.252854");
}

#[test]
fn test_round_trip_example() {
    // Dataset record ("AB1 0AJ", 57.099011, -2.252854).
    let mut geocoder = Geocoder::new(dataset_lines(), CacheStore::new(true));
    let coordinates = geocoder.reverse_search("AB1-0AJ").unwrap();
    assert_eq!(coordinates, "57.099011;-2.252854");
    let location = geocoder.get_location_from_postcode("AB1-0AJ").unwrap();
    assert_eq!(location, Coordinate { lat_micro: 57099011, lon_micro: -2252854 });
    let postcode = geocoder.forward_search(&location).unwrap();
    assert_eq!(build_cache_key(postcode.as_str()), "AB10AJ");
}

#[test]
fn test_round_trip_fallback() {
    let mut geocoder = Geocoder::new(dataset_lines(), CacheStore::new(false));
    let location = geocoder.get_location_from_postcode("AB1 0AX").unwrap();
    assert_eq!(location, Coordinate { lat_micro: 57100300, lon_micro: -2270731 });
    let postcode = geocoder.forward_search(&location).unwrap();
    assert_eq!(postcode, "AB1 0AX");
}

#[test]
fn test_sentinel_yields_invalid_location_on_scan() {
    let mut geocoder = Geocoder::new(dataset_lines(), CacheStore::new(false));
    let err = geocoder.reverse_search("XX9 9XX").unwrap_err();
    assert_eq!(err, ResolveError::InvalidLocation);
}

#[test]
fn test_sentinel_never_enters_cache() {
    let mut geocoder = Geocoder::new(dataset_lines(), CacheStore::new(true));
    assert!(geocoder.is_bootstrapped());
    // Only the two usable records were loaded; the sentinel record was
    // skipped silently, so its postcode resolves to nothing.
    assert_eq!(geocoder.store_record_count("POSTCODE").unwrap(), 2);
    let err = geocoder.reverse_search("XX9 9XX").unwrap_err();
    assert_eq!(err, ResolveError::NotFound);
    // And the forward lookup never sees the sentinel pair.
    let sentinel = Coordinate { lat_micro: 99999999, lon_micro: 0 };
    let err = geocoder.forward_search(&sentinel).unwrap_err();
    assert_eq!(err, ResolveError::InvalidLocation);
}

#[test]
fn test_missing_postcode_not_found() {
    let mut geocoder = Geocoder::new(dataset_lines(), CacheStore::new(true));
    assert_eq!(geocoder.reverse_search("ZZ1 1ZZ").unwrap_err(), ResolveError::NotFound);
    let mut fallback = Geocoder::new(dataset_lines(), CacheStore::new(false));
    assert_eq!(fallback.reverse_search("ZZ1 1ZZ").unwrap_err(), ResolveError::NotFound);
}

#[test]
fn test_malformed_matching_row_is_surfaced() {
    let lines = vec![
        "postcode,latitude,longitude".to_string(),
        "BAD 1AA,not-a-number,0.0".to_string(),
        "AB1 0AJ,57.099011,-2.252854".to_string(),
    ];
    // The malformed row is tolerated while scanning for another
    // postcode, and surfaced when it is itself the match.
    let ok = reverse_search_file(&lines, "AB1 0AJ").unwrap();
    assert_eq!(ok, "57.099011;-2.252854");
    let err = reverse_search_file(&lines, "BAD 1AA").unwrap_err();
    assert_eq!(err, ResolveError::RecordParseError);
}

#[test]
fn test_split_lines_handles_crlf_and_trailing_newline() {
    let text = "postcode,latitude,longitude\r\nAB1 0AJ,57.099011,-2.252854\r\n";
    let lines = split_lines(text);
    assert_eq!(lines.len(), 3);
    assert_eq!(lines[0], "postcode,latitude,longitude");
    assert_eq!(lines[1], "AB1 0AJ,57.099011,-2.252854");
    assert_eq!(lines[2], "");
    let coordinates = reverse_search_file(&lines, "AB1 0AJ").unwrap();
    assert_eq!(coordinates, "57.099011;-2.252854");
}

#[test]
fn test_reverse_search_cache_table_raw_lookup() {
    let mut store = CacheStore::new(true);
    store.hset("POSTCODE", "AB10AJ", "57.099011;-2.252854".to_string()).unwrap();
    let geocoder = Geocoder::new(dataset_lines(), store);
    let raw = geocoder.reverse_search_cache_table("AB10AJ").unwrap();
    assert_eq!(raw, "57.099011;-2.252854");
    assert_eq!(
        geocoder.reverse_search_cache_table("MISSING").unwrap_err(),
        ResolveError::NotFound
    );
}

#[test]
fn test_forward_search_cache_table_lookup() {
    let mut store = CacheStore::new(true);
    store.hset("POSTCODE", "AB10AJ", "57.099011;-2.252854".to_string()).unwrap();
    let geocoder = Geocoder::new(dataset_lines(), store);
    let coordinates = Coordinate { lat_micro: 57099011, lon_micro: -2252854 };
    let postcode = geocoder.forward_search_cache_table(&coordinates).unwrap();
    assert_eq!(postcode, "AB10AJ");
}

#[test]
fn test_count_valid_records_excludes_sentinel_and_header() {
    let lines = dataset_lines();
    assert_eq!(grekko::count_valid_records(&lines), 2);
}
