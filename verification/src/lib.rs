//! A UK postcode geocoding engine: a bidirectional postcode/coordinate
//! resolver over a reference dataset, a cache-aside bootstrap protocol
//! against a key/value store, and assembly of the pairwise travel matrix
//! request that feeds an external routing computation.
//!
//! The store itself and all file and network traffic live outside this
//! crate; the crate owns the resolution rules, the dataset grammar, the
//! bootstrap state machine and the matrix bookkeeping, each with a
//! verified contract.

pub mod codec;
pub mod coords;
pub mod dataset;
pub mod errors;
pub mod geocoding;
pub mod keys;
pub mod matrix;
pub mod numbers;
pub mod store;
pub mod text;
pub mod users;

pub use coords::Coordinate;
pub use coords::check_coordinate_string;
pub use coords::parse_coordinate_string;
pub use dataset::build_bulk_entries;
pub use dataset::count_valid_records;
pub use dataset::forward_search_file;
pub use dataset::reverse_search_file;
pub use dataset::split_lines;
pub use errors::MatrixError;
pub use errors::ResolveError;
pub use geocoding::BootstrapState;
pub use geocoding::Geocoder;
pub use keys::COORDINATES_SEPARATOR;
pub use keys::POSTCODE_TABLE_NAME;
pub use keys::build_cache_key;
pub use matrix::Matrix;
pub use matrix::MatrixRequest;
pub use matrix::get_matrix;
pub use store::CacheStore;
pub use users::Claims;
pub use users::UserFail;
