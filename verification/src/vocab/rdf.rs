use vstd::prelude::*;

verus! {

pub const PROPERTY: &'static str = "http://www.w3.org/1999/02/22-rdf-syntax-ns#Property";

pub const TYPE: &'static str = "http://www.w3.org/1999/02/22-rdf-syntax-ns#type";

} // verus!
