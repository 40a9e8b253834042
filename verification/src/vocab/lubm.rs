use vstd::prelude::*;

verus! {

pub const SUB_ORGANIZATION: &'static str = "tju:#subOrganizationOf";

#[allow(non_upper_case_globals)]
pub const UnderGraduate_Degree_From: &'static str = "tju:#undergraduateDegreeFrom";

#[allow(non_upper_case_globals)]
pub const Master_Degree_From: &'static str = "tju:#mastersDegreeFrom";

#[allow(non_upper_case_globals)]
pub const Doctoral_Degree_From: &'static str = "tju:#doctoralDegreeFrom";

pub const WORKS_FOR: &'static str = "tju:#worksFor";

} // verus!
