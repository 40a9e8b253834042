//! Class and property hierarchies of an RDF store, kept as multi-parent trees
//! whose nodes are identified by the 128-bit hash of their IRI, and labelled by
//! interval codes `[start, end]` (pre-order number, and that number plus the
//! number of descendants) so that ancestry can be read off two codes.
pub mod hashing;
pub mod interval_node;
pub mod tree_node;
pub mod graph;
pub mod tree;
pub mod links;
pub mod ancestry;
pub mod vocab;
pub mod loading;
pub mod triples;
pub mod reasoning;
pub mod programs;
