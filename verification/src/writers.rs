//! Writes OpenStreetMap data out, one encoder per supported format.

use vstd::prelude::*;

pub mod json;
pub mod o5m;
pub mod opl;
pub mod xml;

use crate::text::{lower_of, lowercase, str_eq};
use crate::SkywayError;

verus! {

/// The output file formats the library writes.
#[derive(Debug, Clone, Copy, PartialEq, Eq, Structural)]
pub enum OutputFileFormat {
    Json,
    Opl,
    Overpass,
    Xml,
}

/// The format a lowered name selects: `json`, `opl`, `overpass`, or `osm` /
/// `xml` for XML; anything else selects none.
pub open spec fn spec_output_format_of(lowered: Seq<char>) -> Option<OutputFileFormat> {
    if lowered == "json"@ {
        Option::Some(OutputFileFormat::Json)
    } else if lowered == "opl"@ {
        Option::Some(OutputFileFormat::Opl)
    } else if lowered == "osm"@ {
        Option::Some(OutputFileFormat::Xml)
    } else if lowered == "overpass"@ {
        Option::Some(OutputFileFormat::Overpass)
    } else if lowered == "xml"@ {
        Option::Some(OutputFileFormat::Xml)
    } else {
        Option::None
    }
}

impl OutputFileFormat {
    /// The format `s` names, read without regard to case; exactly the
    /// unknown names are refused.
    pub fn from_str(s: &str) -> (r: Result<OutputFileFormat, SkywayError>)
        ensures
            match (r, spec_output_format_of(lower_of(s@))) {
                (Result::Ok(f), Option::Some(sf)) => f == sf,
                (Result::Err(e), Option::None) => e is UnknownOutputFormat,
                _ => false,
            },
    {
        let lowered = lowercase(s);
        if str_eq(&lowered, "json") {
            Result::Ok(OutputFileFormat::Json)
        } else if str_eq(&lowered, "opl") {
            Result::Ok(OutputFileFormat::Opl)
        } else if str_eq(&lowered, "osm") {
            Result::Ok(OutputFileFormat::Xml)
        } else if str_eq(&lowered, "overpass") {
            Result::Ok(OutputFileFormat::Overpass)
        } else if str_eq(&lowered, "xml") {
            Result::Ok(OutputFileFormat::Xml)
        } else {
            Result::Err(SkywayError::UnknownOutputFormat)
        }
    }
}

/// Chooses the output format from the explicit name when one is given, else
/// from the file path's extension; exactly the unknown or missing names are
/// refused.
pub fn parse_output_format(cli_format: &Option<String>, file_path: &Option<String>) -> (r: Result<
    OutputFileFormat,
    SkywayError,
>)
    ensures
        match crate::spec_format_source(cli_format.deep_view(), file_path.deep_view()) {
            Option::Some(name) => match (r, spec_output_format_of(lower_of(name))) {
                (Result::Ok(f), Option::Some(sf)) => f == sf,
                (Result::Err(e), Option::None) => e is UnknownOutputFormat,
                _ => false,
            },
            Option::None => r matches Result::Err(e) && e is UnknownOutputFormat,
        },
{
    match cli_format {
        Option::Some(f) => OutputFileFormat::from_str(f.as_str()),
        Option::None => {
            match crate::get_file_extension(file_path) {
                Option::Some(ext) => OutputFileFormat::from_str(ext),
                Option::None => Result::Err(SkywayError::UnknownOutputFormat),
            }
        },
    }
}

} // verus!
