//! Querying the DBpedia ontology, with and without inference.
use crate::loading::{class_and_property_trees, line_ok, two_trees_built, line_views, views, same_str};
use crate::reasoning::{add_inherited, inherited, lemma_inherited_iff, named_ancestor, names_view, Fact};
use crate::tree::MultiTree;
use crate::triples::{triple_view, Triple, TripleSet};
use crate::vocab::{lubm, rdfs};
use std::collections::HashMap;
use crate::hashing::str_hash;
use crate::links::{lemma_tree_of_one, lemma_tree_of_two};
use crate::loading::{line_with, term};
use crate::tree::root_parent_key;
use crate::vocab::{owl, rdf};
use vstd::prelude::*;

verus! {

/// The predicates whose lines go to the class tree.
pub open spec fn class_preds() -> Seq<Seq<char>> {
    seq![rdfs::SUB_CLASS_OF@, lubm::SUB_ORGANIZATION@]
}

/// The predicates whose lines go to the property tree.
pub open spec fn property_preds() -> Seq<Seq<char>> {
    seq![rdfs::SUB_PROPERTY_OF@]
}

/// The class tree (`rdfs:subClassOf` and `subOrganizationOf` lines) and
/// the property tree (`rdfs:subPropertyOf` lines) of the dataset whose lines
/// are `lines`, both encoded. Every line must be readable (see
/// [`crate::loading::line_ok`]); `Err` where a tree cannot be encoded.
pub fn construct_tree(lines: &Vec<String>) -> (r: Result<(MultiTree, MultiTree), ()>)
    requires
        forall|i: int|
            0 <= i < lines@.len() ==> line_ok(
                #[trigger] lines@[i]@,
                class_preds() + property_preds(),
            ),
    ensures
        two_trees_built(r, line_views(lines@), class_preds(), property_preds()),
{
    let class_list = vec![rdfs::SUB_CLASS_OF, lubm::SUB_ORGANIZATION];
    let property_list = vec![rdfs::SUB_PROPERTY_OF];
    assert(views(class_list@) =~= class_preds());
    assert(views(property_list@) =~= property_preds());
    class_and_property_trees(lines, &class_list, &property_list)
}

/// The triples that one fact gives: for a fact between two IRIs whose
/// predicate is `rdfs:subClassOf`, `subOrganizationOf`, `rdfs:domain` or
/// `rdfs:range`, the fact and the same fact of every named ancestor of its
/// object in the class tree; for `rdfs:subPropertyOf`, the same in the
/// property tree; nothing otherwise.
pub open spec fn fact_triples(
    f: Fact,
    class_tree: MultiTree,
    property_tree: MultiTree,
    names: Map<u128, Seq<char>>,
) -> Set<(Seq<char>, Seq<char>, Seq<char>)> {
    match (f.subject, f.object) {
        (Some(s), Some(o)) => {
            let p = f.predicate@;
            if p == rdfs::SUB_CLASS_OF@ || p == lubm::SUB_ORGANIZATION@ {
                set![(s@, p, o@)].union(inherited(s@, p, o@, class_tree, names))
            } else if p == rdfs::SUB_PROPERTY_OF@ {
                set![(s@, p, o@)].union(inherited(s@, p, o@, property_tree, names))
            } else if p == rdfs::DOMAIN@ || p == rdfs::RANGE@ {
                set![(s@, p, o@)].union(inherited(s@, p, o@, class_tree, names))
            } else {
                Set::empty()
            }
        },
        _ => Set::empty(),
    }
}

/// The triples that the facts give, together.
pub open spec fn all_triples(
    facts: Seq<Fact>,
    class_tree: MultiTree,
    property_tree: MultiTree,
    names: Map<u128, Seq<char>>,
) -> Set<(Seq<char>, Seq<char>, Seq<char>)>
    decreases facts.len(),
{
    if facts.len() == 0 {
        Set::empty()
    } else {
        all_triples(facts.drop_last(), class_tree, property_tree, names).union(
            fact_triples(facts.last(), class_tree, property_tree, names),
        )
    }
}

/// The triples inferred from `vec_quad` (see [`fact_triples`]), the names of
/// hashes being those of `names`.
pub fn reason(
    vec_quad: &Vec<Fact>,
    class_tree: &MultiTree,
    property_tree: &MultiTree,
    names: &HashMap<u128, String>,
) -> (r: TripleSet)
    ensures
        r.wf(),
        r.contents() == all_triples(vec_quad@, *class_tree, *property_tree, names_view(names@)),
{
    let ghost nv = names_view(names@);
    let mut all_quad = TripleSet::new();
    let mut i: usize = 0;
    while i < vec_quad.len()
        invariant
            i <= vec_quad.len(),
            nv == names_view(names@),
            all_quad.wf(),
            all_quad.contents() == all_triples(
                vec_quad@.take(i as int),
                *class_tree,
                *property_tree,
                nv,
            ),
        decreases vec_quad.len() - i,
    {
        let quad = &vec_quad[i];
        let ghost before = all_quad.contents();
        proof {
            assert(vec_quad@.take(i + 1).drop_last() =~= vec_quad@.take(i as int));
            assert(vec_quad@.take(i + 1).last() == *quad);
        }
        match (&quad.subject, &quad.object) {
            (Some(s), Some(o)) => {
                let p = &quad.predicate;
                let tree = if same_str(p.as_str(), rdfs::SUB_CLASS_OF) || same_str(
                    p.as_str(),
                    lubm::SUB_ORGANIZATION,
                ) {
                    Some(class_tree)
                } else if same_str(p.as_str(), rdfs::SUB_PROPERTY_OF) {
                    Some(property_tree)
                } else if same_str(p.as_str(), rdfs::DOMAIN) || same_str(p.as_str(), rdfs::RANGE) {
                    Some(class_tree)
                } else {
                    None
                };
                match tree {
                    Some(t) => {
                        let triple = Triple::new(s.clone(), p.clone(), o.clone());
                        assert(triple_view(triple) == (s@, p@, o@));
                        all_quad.insert(triple);
                        add_inherited(&mut all_quad, s, p, o, t, names);
                        assert(all_quad.contents() =~= before.union(
                            fact_triples(*quad, *class_tree, *property_tree, nv),
                        ));
                    },
                    None => {
                        assert(fact_triples(*quad, *class_tree, *property_tree, nv) =~= Set::empty());
                        assert(all_quad.contents() =~= before.union(
                            fact_triples(*quad, *class_tree, *property_tree, nv),
                        ));
                    },
                }
            },
            _ => {
                assert(fact_triples(*quad, *class_tree, *property_tree, nv) =~= Set::empty());
                assert(all_quad.contents() =~= before.union(
                    fact_triples(*quad, *class_tree, *property_tree, nv),
                ));
            },
        }
        i = i + 1;
    }
    assert(vec_quad@.take(vec_quad.len() as int) =~= vec_quad@);
    all_quad
}

/// The fact `f` gives the triple `x`: `f` is between two IRIs `(s, p, o)`,
/// `x` is `(s, p, o)` or `(s, p, n)` for a named ancestor `n` of `o` in the
/// class tree where `p` is `rdfs:subClassOf` or `subOrganizationOf`, in the
/// property tree where `p` is `rdfs:subPropertyOf`, and in the class tree
/// where `p` is `rdfs:domain` or `rdfs:range`; no other predicate gives a
/// triple.
pub open spec fn fact_gives(
    f: Fact,
    class_tree: MultiTree,
    property_tree: MultiTree,
    names: Map<u128, Seq<char>>,
    x: (Seq<char>, Seq<char>, Seq<char>),
) -> bool {
    &&& f.subject is Some
    &&& f.object is Some
    &&& x.0 == f.subject->0@
    &&& x.1 == f.predicate@
    &&& if x.1 == rdfs::SUB_CLASS_OF@ || x.1 == lubm::SUB_ORGANIZATION@ {
        x.2 == f.object->0@ || named_ancestor(class_tree, f.object->0@, names, x.2)
    } else if x.1 == rdfs::SUB_PROPERTY_OF@ {
        x.2 == f.object->0@ || named_ancestor(property_tree, f.object->0@, names, x.2)
    } else if x.1 == rdfs::DOMAIN@ || x.1 == rdfs::RANGE@ {
        x.2 == f.object->0@ || named_ancestor(class_tree, f.object->0@, names, x.2)
    } else {
        false
    }
}

proof fn lemma_fact_gives(
    f: Fact,
    class_tree: MultiTree,
    property_tree: MultiTree,
    names: Map<u128, Seq<char>>,
    x: (Seq<char>, Seq<char>, Seq<char>),
)
    ensures
        fact_triples(f, class_tree, property_tree, names).contains(x) <==> fact_gives(
            f,
            class_tree,
            property_tree,
            names,
            x,
        ),
{
    match (f.subject, f.object) {
        (Some(s), Some(o)) => {
            lemma_inherited_iff(s@, f.predicate@, o@, class_tree, names, x);
            lemma_inherited_iff(s@, f.predicate@, o@, property_tree, names, x);
        },
        _ => {},
    }
}

/// What the inference of [`reason`] answers, over all facts: a triple is
/// inferred exactly when some fact gives it (see [`fact_gives`]): each
/// fact's object is looked up, for its ancestors, in the tree that its
/// predicate decides.
pub proof fn lemma_reason_answers(
    facts: Seq<Fact>,
    class_tree: MultiTree,
    property_tree: MultiTree,
    names: Map<u128, Seq<char>>,
    x: (Seq<char>, Seq<char>, Seq<char>),
)
    ensures
        all_triples(facts, class_tree, property_tree, names).contains(x) <==> exists|k: int|
            0 <= k < facts.len() && fact_gives(#[trigger] facts[k], class_tree, property_tree, names, x),
    decreases facts.len(),
{
    if facts.len() > 0 {
        let init = facts.drop_last();
        let f = facts.last();
        lemma_reason_answers(init, class_tree, property_tree, names, x);
        lemma_fact_gives(f, class_tree, property_tree, names, x);
        assert(facts[facts.len() - 1] == f);
        if exists|k: int| 0 <= k < init.len() && fact_gives(#[trigger] init[k], class_tree, property_tree, names, x) {
            let k = choose|k: int| 0 <= k < init.len() && fact_gives(#[trigger] init[k], class_tree, property_tree, names, x);
            assert(facts[k] == init[k]);
        }
        if exists|k: int| 0 <= k < facts.len() && fact_gives(#[trigger] facts[k], class_tree, property_tree, names, x) {
            let k = choose|k: int| 0 <= k < facts.len() && fact_gives(#[trigger] facts[k], class_tree, property_tree, names, x);
            if k < init.len() {
                assert(init[k] == facts[k]);
            }
        }
    }
}

/// The trees that [`construct_tree`] returns, over all lines: the class
/// tree (from `owl:Class`) holds the subject of every line with predicate
/// `SUB_CLASS_OF` or `SUB_ORGANIZATION` as a child of its object (unless the object is the root),
/// and the property tree (from `rdf:Property`) does so for every line with
/// predicate `SUB_PROPERTY_OF`; the nodes of each are exactly its root,
/// `root_parent`, and the subjects and objects of its lines.
pub proof fn lemma_construct_tree_builds(lines: Seq<Seq<char>>, class_tree: MultiTree, property_tree: MultiTree)
    requires
        two_trees_built(Ok((class_tree, property_tree)), lines, class_preds(), property_preds()),
    ensures
        forall|i: int|
            0 <= i < lines.len() && (line_with(#[trigger] lines[i], rdfs::SUB_CLASS_OF@) || line_with(lines[i], lubm::SUB_ORGANIZATION@)) && str_hash(term(lines[i], 2)->0) != str_hash(
                owl::OWL_CLASS@,
            ) ==> class_tree.graph()[str_hash(term(lines[i], 2)->0)].contains(
                str_hash(term(lines[i], 0)->0),
            ),
        forall|k: u128|
            #[trigger] class_tree.nodes().contains_key(k) <==> (k == str_hash(owl::OWL_CLASS@) || k
                == root_parent_key() || exists|i: int|
                0 <= i < lines.len() && (line_with(#[trigger] lines[i], rdfs::SUB_CLASS_OF@) || line_with(lines[i], lubm::SUB_ORGANIZATION@)) && (k == str_hash(
                    term(lines[i], 0)->0,
                ) || k == str_hash(term(lines[i], 2)->0))),
        forall|i: int|
            0 <= i < lines.len() && (line_with(#[trigger] lines[i], rdfs::SUB_PROPERTY_OF@)) && str_hash(term(lines[i], 2)->0) != str_hash(
                rdf::PROPERTY@,
            ) ==> property_tree.graph()[str_hash(term(lines[i], 2)->0)].contains(
                str_hash(term(lines[i], 0)->0),
            ),
        forall|k: u128|
            #[trigger] property_tree.nodes().contains_key(k) <==> (k == str_hash(rdf::PROPERTY@) || k
                == root_parent_key() || exists|i: int|
                0 <= i < lines.len() && (line_with(#[trigger] lines[i], rdfs::SUB_PROPERTY_OF@)) && (k == str_hash(
                    term(lines[i], 0)->0,
                ) || k == str_hash(term(lines[i], 2)->0))),
{
    lemma_tree_of_two(class_tree, owl::OWL_CLASS@, lines, rdfs::SUB_CLASS_OF@, lubm::SUB_ORGANIZATION@);
    lemma_tree_of_one(property_tree, rdf::PROPERTY@, lines, rdfs::SUB_PROPERTY_OF@);
}

} // verus!
