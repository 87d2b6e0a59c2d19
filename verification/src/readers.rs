//! Reads OpenStreetMap data in, one decoder per supported format.

use vstd::prelude::*;

pub mod opl;
pub mod osmx;
pub mod xml;

use crate::text::{lower_of, lowercase, str_eq};
use crate::SkywayError;

verus! {

/// The input file formats the library reads.
#[derive(Debug, Clone, Copy, PartialEq, Eq, Structural)]
pub enum InputFileFormat {
    Json,
    Opl,
    Pbf,
    Xml,
}

/// The format a lowered name selects: `json`, `opl`, `pbf`, or `osm` / `xml`
/// for XML; anything else selects none.
pub open spec fn spec_input_format_of(lowered: Seq<char>) -> Option<InputFileFormat> {
    if lowered == "json"@ {
        Option::Some(InputFileFormat::Json)
    } else if lowered == "opl"@ {
        Option::Some(InputFileFormat::Opl)
    } else if lowered == "osm"@ {
        Option::Some(InputFileFormat::Xml)
    } else if lowered == "pbf"@ {
        Option::Some(InputFileFormat::Pbf)
    } else if lowered == "xml"@ {
        Option::Some(InputFileFormat::Xml)
    } else {
        Option::None
    }
}

impl InputFileFormat {
    /// The format `s` names, read without regard to case; exactly the
    /// unknown names are refused.
    pub fn from_str(s: &str) -> (r: Result<InputFileFormat, SkywayError>)
        ensures
            match (r, spec_input_format_of(lower_of(s@))) {
                (Result::Ok(f), Option::Some(sf)) => f == sf,
                (Result::Err(e), Option::None) => e is UnknownInputFormat,
                _ => false,
            },
    {
        let lowered = lowercase(s);
        if str_eq(&lowered, "json") {
            Result::Ok(InputFileFormat::Json)
        } else if str_eq(&lowered, "opl") {
            Result::Ok(InputFileFormat::Opl)
        } else if str_eq(&lowered, "osm") {
            Result::Ok(InputFileFormat::Xml)
        } else if str_eq(&lowered, "pbf") {
            Result::Ok(InputFileFormat::Pbf)
        } else if str_eq(&lowered, "xml") {
            Result::Ok(InputFileFormat::Xml)
        } else {
            Result::Err(SkywayError::UnknownInputFormat)
        }
    }
}

/// Chooses the input format from the explicit name when one is given, else
/// from the file path's extension; exactly the unknown or missing names are
/// refused.
pub fn parse_input_format(cli_format: &Option<String>, file_path: &Option<String>) -> (r: Result<
    InputFileFormat,
    SkywayError,
>)
    ensures
        match crate::spec_format_source(cli_format.deep_view(), file_path.deep_view()) {
            Option::Some(name) => match (r, spec_input_format_of(lower_of(name))) {
                (Result::Ok(f), Option::Some(sf)) => f == sf,
                (Result::Err(e), Option::None) => e is UnknownInputFormat,
                _ => false,
            },
            Option::None => r matches Result::Err(e) && e is UnknownInputFormat,
        },
{
    match cli_format {
        Option::Some(f) => InputFileFormat::from_str(f.as_str()),
        Option::None => {
            match crate::get_file_extension(file_path) {
                Option::Some(ext) => InputFileFormat::from_str(ext),
                Option::None => Result::Err(SkywayError::UnknownInputFormat),
            }
        },
    }
}

} // verus!
