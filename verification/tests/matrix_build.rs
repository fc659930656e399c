//! The Matrix Assembler: request ordering, partial-batch semantics,
//! and the mapping of a provider response.

use grekko::CacheStore;
use grekko::Coordinate;
use grekko::Geocoder;
use grekko::MatrixError;
use grekko::get_matrix;

fn dataset_lines() -> Vec<String> {
    vec![
        "postcode,latitude,longitude".to_string(),
        "BS1 3AA,51.455691,-2.586119".to_string(),
        "BA2 1AA,51.375932,-2.382291".to_string(),
        "BS1 1AA,51.449516,-2.578370".to_string(),
        "LS1 1AA,53.796800,-1.545600".to_string(),
        "LS1 2AA,53.797000,-1.546100".to_string(),
        "LS1 3AA,53.797200,-1.546600".to_string(),
        "LS1 4AA,53.797400,-1.547100".to_string(),
        "LS1 5AA,53.797600,-1.547600".to_string(),
        "LS1 6AA,53.797800,-1.548100".to_string(),
        "LS1 7AA,53.798000,-1.548600".to_string(),
    ]
}

fn coordinate_of(geocoder: &mut Geocoder, postcode: &str) -> Coordinate {
    geocoder.get_location_from_postcode(postcode).unwrap()
}

#[test]
fn test_matrix_ordering_jobs_then_vehicles() {
    let mut geocoder = Geocoder::new(dataset_lines(), CacheStore::new(true));
    let j1 = coordinate_of(&mut geocoder, "BS1 3AA");
    let j2 = coordinate_of(&mut geocoder, "BA2 1AA");
    let v1 = coordinate_of(&mut geocoder, "BS1 1AA");

    let jobs = vec!["BS1 3AA".to_string(), "BA2 1AA".to_string()];
    let vehicles = vec!["BS1 1AA".to_string()];
    let request = geocoder.build_matrix_request(&jobs, &vehicles).unwrap();
    assert_eq!(request.coordinates, vec![j1, j2, v1]);
    assert!(request.unresolved.is_empty());

    // Swapping the argument order swaps the coordinate order.
    let swapped = geocoder.build_matrix_request(&vehicles, &jobs).unwrap();
    assert_eq!(swapped.coordinates, vec![v1, j1, j2]);
}

#[test]
fn test_partial_batch_reports_failures() {
    let mut geocoder = Geocoder::new(dataset_lines(), CacheStore::new(true));
    let jobs: Vec<String> = vec![
        "BS1 3AA", "BA2 1AA", "BS1 1AA", "LS1 1AA", "LS1 2AA", "NO1 1NO", "LS1 3AA", "LS1 4AA",
        "LS1 5AA", "LS1 6AA", "LS1 7AA",
    ]
    .into_iter()
    .map(String::from)
    .collect();
    let request = geocoder.build_matrix_request(&jobs, &Vec::new()).unwrap();
    assert_eq!(request.coordinates.len(), 10);
    assert_eq!(request.unresolved, vec!["NO1 1NO".to_string()]);
}

#[test]
fn test_matrix_all_unresolved_fails() {
    let mut geocoder = Geocoder::new(dataset_lines(), CacheStore::new(true));
    let jobs = vec!["NO1 1NO".to_string(), "NO2 2NO".to_string()];
    let err = geocoder.build_matrix_request(&jobs, &Vec::new()).unwrap_err();
    assert_eq!(err, MatrixError::AllUnresolved);
}

#[test]
fn test_empty_request_is_allowed() {
    let mut geocoder = Geocoder::new(dataset_lines(), CacheStore::new(true));
    let request = geocoder.build_matrix_request(&Vec::new(), &Vec::new()).unwrap();
    assert!(request.coordinates.is_empty());
    assert!(request.unresolved.is_empty());
}

#[test]
fn test_get_matrix_flattens_response() {
    let durations = vec![vec![0, 108, 149], vec![937, 0, 41], vec![896, 33, 0]];
    let distances = vec![vec![0, 1200, 1800], vec![9000, 0, 500], vec![8600, 400, 0]];
    let matrix = get_matrix("Ok", &durations, &distances, 3).unwrap();
    assert_eq!(matrix.size, 3);
    assert_eq!(matrix.travel_times, vec![0, 108, 149, 937, 0, 41, 896, 33, 0]);
    assert_eq!(matrix.distances, vec![0, 1200, 1800, 9000, 0, 500, 8600, 400, 0]);
}

#[test]
fn test_get_matrix_rejects_bad_status() {
    let rows = vec![vec![0]];
    let err = get_matrix("NoRoute", &rows, &rows, 1).unwrap_err();
    assert_eq!(err, MatrixError::MatrixProviderError);
}

#[test]
fn test_get_matrix_rejects_ragged_response() {
    let durations = vec![vec![0, 1], vec![2]];
    let distances = vec![vec![0, 1], vec![2, 0]];
    let err = get_matrix("Ok", &durations, &distances, 2).unwrap_err();
    assert_eq!(err, MatrixError::MatrixProviderError);
    let err = get_matrix("Ok", &distances, &durations, 2).unwrap_err();
    assert_eq!(err, MatrixError::MatrixProviderError);
    let err = get_matrix("Ok", &distances, &distances, 3).unwrap_err();
    assert_eq!(err, MatrixError::MatrixProviderError);
}
