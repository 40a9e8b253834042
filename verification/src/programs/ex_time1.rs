//! Timing the loading of datasets, with and without building the trees.
use crate::loading::{class_and_property_trees, line_ok, line_views, two_trees_built, views};
use crate::tree::MultiTree;
use crate::vocab::{lubm, rdfs};
use crate::hashing::str_hash;
use crate::links::{lemma_tree_of_one, lemma_tree_of_two};
use crate::loading::{line_with, term};
use crate::tree::root_parent_key;
use crate::vocab::{owl, rdf};
use vstd::prelude::*;

verus! {

/// The predicates whose lines go to the class tree.
pub open spec fn class_preds() -> Seq<Seq<char>> {
    seq![rdfs::SUB_CLASS_OF@, lubm::SUB_ORGANIZATION@]
}

/// The predicates whose lines go to the property tree.
pub open spec fn property_preds() -> Seq<Seq<char>> {
    seq![rdfs::SUB_PROPERTY_OF@]
}

/// The class tree (`rdfs:subClassOf` and `subOrganizationOf` lines) and
/// the property tree (`rdfs:subPropertyOf` lines) of the dataset whose lines
/// are `lines`, both encoded. Every line must be readable (see
/// [`crate::loading::line_ok`]); `Err` where a tree cannot be encoded.
pub fn construct_tree(lines: &Vec<String>) -> (r: Result<(MultiTree, MultiTree), ()>)
    requires
        forall|i: int|
            0 <= i < lines@.len() ==> line_ok(
                #[trigger] lines@[i]@,
                class_preds() + property_preds(),
            ),
    ensures
        two_trees_built(r, line_views(lines@), class_preds(), property_preds()),
{
    let class_list = vec![rdfs::SUB_CLASS_OF, lubm::SUB_ORGANIZATION];
    let property_list = vec![rdfs::SUB_PROPERTY_OF];
    assert(views(class_list@) =~= class_preds());
    assert(views(property_list@) =~= property_preds());
    class_and_property_trees(lines, &class_list, &property_list)
}

/// The trees that [`construct_tree`] returns, over all lines: the class
/// tree (from `owl:Class`) holds the subject of every line with predicate
/// `SUB_CLASS_OF` or `SUB_ORGANIZATION` as a child of its object (unless the object is the root),
/// and the property tree (from `rdf:Property`) does so for every line with
/// predicate `SUB_PROPERTY_OF`; the nodes of each are exactly its root,
/// `root_parent`, and the subjects and objects of its lines.
pub proof fn lemma_construct_tree_builds(lines: Seq<Seq<char>>, class_tree: MultiTree, property_tree: MultiTree)
    requires
        two_trees_built(Ok((class_tree, property_tree)), lines, class_preds(), property_preds()),
    ensures
        forall|i: int|
            0 <= i < lines.len() && (line_with(#[trigger] lines[i], rdfs::SUB_CLASS_OF@) || line_with(lines[i], lubm::SUB_ORGANIZATION@)) && str_hash(term(lines[i], 2)->0) != str_hash(
                owl::OWL_CLASS@,
            ) ==> class_tree.graph()[str_hash(term(lines[i], 2)->0)].contains(
                str_hash(term(lines[i], 0)->0),
            ),
        forall|k: u128|
            #[trigger] class_tree.nodes().contains_key(k) <==> (k == str_hash(owl::OWL_CLASS@) || k
                == root_parent_key() || exists|i: int|
                0 <= i < lines.len() && (line_with(#[trigger] lines[i], rdfs::SUB_CLASS_OF@) || line_with(lines[i], lubm::SUB_ORGANIZATION@)) && (k == str_hash(
                    term(lines[i], 0)->0,
                ) || k == str_hash(term(lines[i], 2)->0))),
        forall|i: int|
            0 <= i < lines.len() && (line_with(#[trigger] lines[i], rdfs::SUB_PROPERTY_OF@)) && str_hash(term(lines[i], 2)->0) != str_hash(
                rdf::PROPERTY@,
            ) ==> property_tree.graph()[str_hash(term(lines[i], 2)->0)].contains(
                str_hash(term(lines[i], 0)->0),
            ),
        forall|k: u128|
            #[trigger] property_tree.nodes().contains_key(k) <==> (k == str_hash(rdf::PROPERTY@) || k
                == root_parent_key() || exists|i: int|
                0 <= i < lines.len() && (line_with(#[trigger] lines[i], rdfs::SUB_PROPERTY_OF@)) && (k == str_hash(
                    term(lines[i], 0)->0,
                ) || k == str_hash(term(lines[i], 2)->0))),
{
    lemma_tree_of_two(class_tree, owl::OWL_CLASS@, lines, rdfs::SUB_CLASS_OF@, lubm::SUB_ORGANIZATION@);
    lemma_tree_of_one(property_tree, rdf::PROPERTY@, lines, rdfs::SUB_PROPERTY_OF@);
}

} // verus!
