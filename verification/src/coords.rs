//! Coordinate pairs and coordinate strings. A stored coordinate is the
//! string `"{latitude};{longitude}"`; the engine reads it as a pair of
//! exact micro-degree counts and filters the sentinel placeholder that
//! marks "no coordinate on file".

use vstd::prelude::*;
use vstd::string::*;
use crate::errors::ResolveError;
use crate::numbers::decimal_val_micro;
use crate::numbers::parse_micro;
use crate::numbers::valid_decimal;
use crate::text::find_char;
use crate::text::find_first;
use crate::text::lemma_find_char;

verus! {

/// Latitude of the sentinel placeholder, in micro-degrees (99.999999).
pub const SENTINEL_LAT_MICRO: i64 = 99999999;

/// Longitude of the sentinel placeholder, in micro-degrees (0.000000).
pub const SENTINEL_LON_MICRO: i64 = 0;

/// A coordinate pair in micro-degrees: exact integer counts of one
/// millionth of a degree, latitude then longitude.
#[derive(Clone, Copy, Debug, PartialEq, Eq, Structural)]
pub struct Coordinate {
    pub lat_micro: i64,
    pub lon_micro: i64,
}

impl Coordinate {
    /// The placeholder pair `(99.999999, 0.000000)` that the source
    /// dataset uses for "no coordinate on file".
    pub open spec fn spec_is_sentinel(self) -> bool {
        self.lat_micro == SENTINEL_LAT_MICRO && self.lon_micro == SENTINEL_LON_MICRO
    }

    /// Sentinel Filter: a coordinate pair is usable exactly when it is
    /// not the sentinel placeholder.
    pub fn is_valid(&self) -> (b: bool)
        ensures
            b == !self.spec_is_sentinel(),
    {
        !(self.lat_micro == SENTINEL_LAT_MICRO && self.lon_micro == SENTINEL_LON_MICRO)
    }
}

/// The coordinate pair denoted by a `"lat;lon"` string, when both
/// halves are valid numerals.
pub open spec fn coord_of_string(s: Seq<char>) -> Option<Coordinate> {
    let p = find_char(s, ';');
    if p == s.len() {
        None
    } else {
        let latp = s.subrange(0, p);
        let lonp = s.subrange(p + 1, s.len() as int);
        if valid_decimal(latp) && valid_decimal(lonp) {
            Some(
                Coordinate {
                    lat_micro: decimal_val_micro(latp) as i64,
                    lon_micro: decimal_val_micro(lonp) as i64,
                },
            )
        } else {
            None
        }
    }
}

/// Parse a `"lat;lon"` coordinate string.
pub fn parse_coordinate_string(s: &str) -> (r: Option<Coordinate>)
    ensures
        r == coord_of_string(s@),
{
    proof {
        lemma_find_char(s@, ';');
    }
    let len = s.unicode_len();
    let p = find_first(s, ';');
    if p == len {
        return None;
    }
    let latp = s.substring_char(0, p);
    let lonp = s.substring_char(p + 1, len);
    proof {
        assert(latp@ =~= s@.subrange(0, p as int));
        assert(lonp@ =~= s@.subrange(p as int + 1, s@.len() as int));
    }
    match parse_micro(latp) {
        None => None,
        Some(lat) => {
            match parse_micro(lonp) {
                None => None,
                Some(lon) => Some(Coordinate { lat_micro: lat, lon_micro: lon }),
            }
        },
    }
}

/// What the Sentinel Filter says of a stored coordinate string: `None`
/// when the string is a usable coordinate, otherwise the resolution
/// error it maps to.
pub open spec fn coordinate_string_status(s: Seq<char>) -> Option<ResolveError> {
    match coord_of_string(s) {
        None => Some(ResolveError::RecordParseError),
        Some(c) => if c.spec_is_sentinel() {
            Some(ResolveError::InvalidLocation)
        } else {
            None
        },
    }
}

/// Run a resolved coordinate string through the Sentinel Filter: a
/// string that does not parse fails with `RecordParseError`, the
/// sentinel placeholder fails with `InvalidLocation`, and any other
/// coordinate string passes through unchanged.
pub fn check_coordinate_string(coordinates: String) -> (r: Result<String, ResolveError>)
    ensures
        r is Ok <==> coordinate_string_status(coordinates@) is None,
        r is Ok ==> r->Ok_0@ == coordinates@,
        r is Err ==> Some(r->Err_0) == coordinate_string_status(coordinates@),
{
    match parse_coordinate_string(coordinates.as_str()) {
        None => Err(ResolveError::RecordParseError),
        Some(c) => {
            if c.is_valid() {
                Ok(coordinates)
            } else {
                Err(ResolveError::InvalidLocation)
            }
        },
    }
}

} // verus!
