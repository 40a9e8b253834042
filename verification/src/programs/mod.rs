//! The computing part of the command-line programs, each in the module of
//! the same name: building the trees from the lines of a dataset, and
//! inferring triples from what the store answers.
pub mod ex_query_dbpedia;
pub mod ex_query_lubm1;
pub mod ex_time1;
pub mod load_data;
