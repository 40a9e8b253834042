use vstd::prelude::*;

verus! {

pub const SUB_CLASS_OF: &'static str = "http://www.w3.org/2000/01/rdf-schema#subClassOf";

pub const SUB_PROPERTY_OF: &'static str = "http://www.w3.org/2000/01/rdf-schema#subPropertyOf";

pub const DOMAIN: &'static str = "http://www.w3.org/2000/01/rdf-schema#domain";

pub const RANGE: &'static str = "http://www.w3.org/2000/01/rdf-schema#range";

} // verus!
