//! The OSM Express reader's configuration.  Extracting elements from such a
//! database is not implemented; the type records where the database lives.

use vstd::prelude::*;

verus! {

/// Where an OSM Express database lives on disk.
#[derive(Debug, Clone)]
pub struct OsmxReader {
    pub path: String,
}

} // verus!
