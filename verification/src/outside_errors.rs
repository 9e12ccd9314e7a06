//! The error types of outside crates and of std that the library's errors carry.
use vstd::prelude::*;

verus! {

/// An error of the `geojson` crate, carried through unread.
#[verifier::external_type_specification]
#[verifier::external_body]
pub struct ExGeoJsonError(geojson::Error);

/// An error of the `csv` crate, carried through unread.
#[verifier::external_type_specification]
#[verifier::external_body]
pub struct ExCsvError(csv::Error);

/// An I/O error, carried through unread.
#[verifier::external_type_specification]
#[verifier::external_body]
pub struct ExIoError(std::io::Error);

/// The error of reading an integer from text, carried through unread.
#[verifier::external_type_specification]
#[verifier::external_body]
pub struct ExParseIntError(std::num::ParseIntError);

/// The error of reading a floating-point number from text, carried through unread.
#[verifier::external_type_specification]
#[verifier::external_body]
pub struct ExParseFloatError(std::num::ParseFloatError);

/// An error of the `pmtiles` crate, carried through unread.
#[verifier::external_type_specification]
#[verifier::external_body]
pub struct ExPmtError(pmtiles::PmtError);

/// An error of the `serde_json` crate, carried through unread.
#[verifier::external_type_specification]
#[verifier::external_body]
pub struct ExJsonError(serde_json::Error);

} // verus!
