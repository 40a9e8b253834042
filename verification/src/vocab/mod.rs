//! IRIs of the vocabularies that the trees are built from.
pub mod lubm;
pub mod owl;
pub mod rdf;
pub mod rdfs;
