//! The Cache Store model: table operations, the value codec, and the
//! batched bulk write.

use grekko::build_bulk_entries;
use grekko::CacheStore;
use grekko::POSTCODE_TABLE_NAME;
use grekko::ResolveError;

#[test]
fn test_count() {
    let mut store = CacheStore::new(true);
    store.set("TEST_TABLE_COUNT", "TEST", "TEST").unwrap();
    let table_count = store.count("TEST_TABLE_COUNT").unwrap();
    assert_ne!(table_count, 0);
}

#[test]
fn test_count_0() {
    let store = CacheStore::new(true);
    let table_count = store.count("TEST").unwrap();
    assert_eq!(table_count, 0);
}

#[test]
fn test_set() {
    let mut store = CacheStore::new(true);
    store.hdel("TEST_TABLE", "TEST").unwrap();
    let result = store.set("TEST_TABLE", "TEST", "TEST").unwrap();
    assert_eq!(
        result,
        "Wrote TEST to table: TEST_TABLE with key TEST and result 1"
    );
}

#[test]
fn test_hdel() {
    let mut store = CacheStore::new(true);
    let table_count = store.count("TEST_DEL_TABLE").unwrap();
    println!("{}", table_count);
    if table_count == 0 {
        store.hdel("TEST_DEL_TABLE", "TEST").unwrap();
    }
    store.set("TEST_DEL_TABLE", "TEST", "TEST").unwrap();
    store.hdel("TEST_DEL_TABLE", "TEST").unwrap();
    let table_count = store.count("TEST_DEL_TABLE").unwrap();
    assert_eq!(table_count, 0);
}

#[test]
fn test_get() {
    let mut store = CacheStore::new(true);
    store.set("TEST_GET_TABLE", "TEST", "TEST").unwrap();
    let get: String = store.get("TEST_GET_TABLE", "TEST").unwrap();
    assert_eq!(get, "TEST")
}

#[test]
fn test_get_postcode() {}

#[test]
fn test_get_coordinates() {
    let mut store = CacheStore::new(true);
    let key = "IMAGINARYPOSTCODE";
    store.hdel(POSTCODE_TABLE_NAME, key).unwrap();
    store.set(POSTCODE_TABLE_NAME, key, "0.0;0.0").unwrap();
    let coordinates = store.get_coordinates(key).unwrap();
    assert_eq!(coordinates, "\"0.0;0.0\"")
}

#[test]
fn test_bulk_set() {
    let lines = vec![
        "postcode,latitude,longitude".to_string(),
        "TEST1,0.0,0.0".to_string(),
    ];
    let entries = build_bulk_entries(&lines);
    let mut store = CacheStore::new(true);
    let set_count = store.bulk_set(POSTCODE_TABLE_NAME, &entries);
    assert_eq!(set_count, Some(()));
}

#[test]
fn mod_test_count() {
    let mut store = CacheStore::new(true);
    store.set("TEST_TABLE_COUNT", "TEST", "TEST").unwrap();
    let table_count = store.count("TEST_TABLE_COUNT").unwrap();
    assert_ne!(table_count, 0);
}

#[test]
fn mod_test_count_0() {
    let store = CacheStore::new(true);
    let table_count = store.count("TEST").unwrap();
    assert_eq!(table_count, 0);
}

#[test]
fn mod_test_set() {
    let mut store = CacheStore::new(true);
    store.hdel("TEST_TABLE", "TEST").unwrap();
    let result = store.set("TEST_TABLE", "TEST", "TEST").unwrap();
    assert_eq!(
        result,
        "Wrote TEST to table: TEST_TABLE with key TEST and result 1"
    );
}

#[test]
fn mod_test_hdel() {
    let mut store = CacheStore::new(true);
    let table_count = store.count("TEST_DEL_TABLE").unwrap();
    println!("{}", table_count);
    if table_count == 0 {
        store.hdel("TEST_DEL_TABLE", "TEST").unwrap();
    }
    store.set("TEST_DEL_TABLE", "TEST", "TEST").unwrap();
    store.hdel("TEST_DEL_TABLE", "TEST").unwrap();
    let table_count = store.count("TEST_DEL_TABLE").unwrap();
    assert_eq!(table_count, 0);
}

#[test]
fn mod_test_get() {
    let mut store = CacheStore::new(true);
    store.set("TEST_GET_TABLE", "TEST", "TEST").unwrap();
    let get: String = store.get("TEST_GET_TABLE", "TEST").unwrap();
    assert_eq!(get, "TEST")
}

#[test]
fn mod_test_get_postcode() {}

#[test]
fn mod_test_get_coordinates() {
    let mut store = CacheStore::new(true);
    let key = "IMAGINARYPOSTCODE";
    store.hdel(POSTCODE_TABLE_NAME, key).unwrap();
    store.set(POSTCODE_TABLE_NAME, key, "0.0;0.0").unwrap();
    let coordinates = store.get_coordinates(key).unwrap();
    assert_eq!(coordinates, "\"0.0;0.0\"")
}

#[test]
fn mod_test_bulk_set() {
    let lines = vec![
        "postcode,latitude,longitude".to_string(),
        "TEST1,0.0,0.0".to_string(),
    ];
    let entries = build_bulk_entries(&lines);
    let mut store = CacheStore::new(true);
    let set_count = store.bulk_set(POSTCODE_TABLE_NAME, &entries);
    assert_eq!(set_count, Some(()));
}

#[test]
fn test_set_overwrite_reports_zero() {
    let mut store = CacheStore::new(true);
    store.set("T", "K", "first").unwrap();
    let result = store.set("T", "K", "second").unwrap();
    assert_eq!(result, "Wrote second to table: T with key K and result 0");
    assert_eq!(store.get("T", "K").unwrap(), "second");
    assert_eq!(store.count("T").unwrap(), 1);
}

#[test]
fn test_codec_round_trip_with_escapes() {
    let mut store = CacheStore::new(true);
    let value = "say \"hi\" \\ there";
    store.set("T", "K", value).unwrap();
    assert_eq!(store.get("T", "K").unwrap(), value);
    assert_eq!(store.hget("T", "K").unwrap(), "\"say \\\"hi\\\" \\\\ there\"");
}

#[test]
fn test_get_undecodable_value_fails() {
    let mut store = CacheStore::new(true);
    store.hset("T", "K", "no quotes".to_string()).unwrap();
    assert_eq!(store.get("T", "K").unwrap_err(), ResolveError::RecordParseError);
}

#[test]
fn test_del_clears_whole_table() {
    let mut store = CacheStore::new(true);
    store.set("A", "K1", "1").unwrap();
    store.set("A", "K2", "2").unwrap();
    store.set("B", "K1", "3").unwrap();
    assert_eq!(store.del("A").unwrap(), 2);
    assert_eq!(store.count("A").unwrap(), 0);
    assert_eq!(store.count("B").unwrap(), 1);
}

#[test]
fn test_unreachable_store_refuses_operations() {
    let mut store = CacheStore::new(false);
    assert_eq!(store.count("T").unwrap_err(), ResolveError::StoreUnavailable);
    assert_eq!(store.hget("T", "K").unwrap_err(), ResolveError::StoreUnavailable);
    assert!(store.set("T", "K", "V").is_none());
    assert_eq!(store.hdel("T", "K").unwrap_err(), ResolveError::StoreUnavailable);
    assert_eq!(store.del("T").unwrap_err(), ResolveError::StoreUnavailable);
    assert_eq!(store.bulk_set("T", &Vec::new()), None);
    assert_eq!(
        store.get_coordinates("AB10AJ").unwrap_err(),
        ResolveError::StoreUnavailable
    );
}

#[test]
fn test_get_geo_pos_filters_sentinel() {
    let mut store = CacheStore::new(true);
    store.hset(POSTCODE_TABLE_NAME, "GOOD", "57.099011;-2.252854".to_string()).unwrap();
    store.hset(POSTCODE_TABLE_NAME, "BAD", "99.999999;0.000000".to_string()).unwrap();
    let good = store.get_geo_pos("GOOD").unwrap();
    assert_eq!(good.lat_micro, 57099011);
    assert_eq!(good.lon_micro, -2252854);
    assert_eq!(store.get_geo_pos("BAD").unwrap_err(), ResolveError::InvalidLocation);
    assert_eq!(store.get_geo_pos("NONE").unwrap_err(), ResolveError::NotFound);
}
