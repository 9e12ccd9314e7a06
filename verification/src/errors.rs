//! The errors that the library reports.
use vstd::prelude::*;

verus! {

/// Errors that can occur in this library (the `Error` of the catalog tools).
#[derive(Debug)]
pub enum CatalogError {
    /// An error occurred while parsing GeoJSON.
    GeoJSONError(geojson::Error),
    /// An error occurred while reading or writing CSV.
    CSVError(csv::Error),
    /// An IO error occurred.
    IOError(std::io::Error),
    /// An error occurred while parsing an integer.
    ParseIntError(std::num::ParseIntError),
    /// An error occurred while parsing a float.
    ParseFloatError(std::num::ParseFloatError),
    /// An error occurred while accessing the PMTiles archive.
    PMTilesError(pmtiles::PmtError),
    /// An error occurred while parsing JSON.
    JSONError(serde_json::Error),
    /// CatalogFile must be parsed first before accessing its contents.
    CatalogFileNotParsed,
    /// A generic error occurred.
    GenericError(String),
}

impl CatalogError {
    /// The generic error that carries `msg`, as `Error::from(&str)` makes it.
    pub fn from_message(msg: &str) -> (res: CatalogError)
        ensures
            res matches CatalogError::GenericError(m) && m@ == msg@,
    {
        CatalogError::GenericError(String::from_str(msg))
    }
}

} // verus!
