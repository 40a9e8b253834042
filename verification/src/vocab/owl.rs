use vstd::prelude::*;

verus! {

pub const OWL_CLASS: &'static str = "http://www.w3.org/2002/07/owl#Class";

} // verus!
