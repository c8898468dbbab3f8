//! RDF serialization formats and the serializer handles built from them.
//! The text formatters themselves are external collaborators; the store
//! only selects and carries the format.

use vstd::prelude::*;

verus! {

/// A graph (triple) serialization format.
#[derive(Clone, Copy, PartialEq, Eq, Structural, Debug)]
pub enum GraphFormat {
    NTriples,
    Turtle,
    RdfXml,
}

/// A dataset (quad) serialization format.
#[derive(Clone, Copy, PartialEq, Eq, Structural, Debug)]
pub enum DatasetFormat {
    NQuads,
    TriG,
}

/// A serializer for RDF graph serialization formats.
pub struct GraphSerializer {
    pub format: GraphFormat,
}

impl GraphSerializer {
    pub fn from_format(format: GraphFormat) -> (r: GraphSerializer)
        ensures
            r.format == format,
    {
        GraphSerializer { format }
    }
}

/// A serializer for RDF dataset serialization formats.
pub struct DatasetSerializer {
    pub format: DatasetFormat,
}

impl DatasetSerializer {
    pub fn from_format(format: DatasetFormat) -> (r: DatasetSerializer)
        ensures
            r.format == format,
    {
        DatasetSerializer { format }
    }
}

} // verus!
