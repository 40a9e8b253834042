//! Querying LUBM data (full professors and the organisations they work for),
//! with and without inference.
use crate::loading::{build_tree, is_encoded_tree, line_ok, line_views, same_str, tree_encodable, views};
use crate::reasoning::{
    add_inherited, inherited, lemma_inherited_iff, named_ancestor, names_view, Fact,
};
use crate::tree::MultiTree;
use crate::triples::{triple_view, Triple, TripleSet};
use crate::vocab::{lubm, owl, rdf, rdfs};
use std::collections::HashMap;
use crate::hashing::str_hash;
use crate::links::lemma_tree_of_one;
use crate::loading::{line_with, term};
use crate::tree::root_parent_key;
use vstd::prelude::*;

verus! {

/// A fact read from the store, with the classes (the IRIs that
/// `rdf:type` gives) of its subject and of its object.
pub struct TypedFact {
    pub fact: Fact,
    pub subject_types: Vec<String>,
    pub object_types: Vec<String>,
}

/// The predicates whose lines go to the class tree.
pub open spec fn class_preds() -> Seq<Seq<char>> {
    seq![lubm::SUB_ORGANIZATION@]
}

/// The organisation tree (`subOrganizationOf` lines, from the root
/// `owl:Class`) of the dataset whose lines are `lines`, encoded. Every line
/// must be readable (see [`line_ok`]); `Err` where the tree cannot be
/// encoded.
pub fn construct_tree(lines: &Vec<String>) -> (r: Result<MultiTree, ()>)
    requires
        forall|i: int| 0 <= i < lines@.len() ==> line_ok(#[trigger] lines@[i]@, class_preds()),
    ensures
        r is Ok <==> tree_encodable(owl::OWL_CLASS@, line_views(lines@), class_preds()),
        r matches Ok(t) ==> is_encoded_tree(t, owl::OWL_CLASS@, line_views(lines@), class_preds()),
{
    let class_list = vec![lubm::SUB_ORGANIZATION];
    assert(views(class_list@) =~= class_preds());
    match build_tree(lines, owl::OWL_CLASS, &class_list) {
        Some(t) => Ok(t),
        None => Err(()),
    }
}

/// The triples `(x, rel, t)` for the classes `t` of `types`.
pub open spec fn typed(x: Seq<char>, rel: Seq<char>, types: Seq<String>) -> Set<
    (Seq<char>, Seq<char>, Seq<char>),
> {
    types.map_values(|t: String| t@).to_set().map(|t: Seq<char>| (x, rel, t))
}

/// The triples that one fact `(s, p, o)` between two IRIs gives: where `p`
/// is `worksFor`, the fact and the same fact of every named ancestor of `o`
/// in the organisation tree; and, whatever `p`, for every class `t` of `s`,
/// `(s, rdf:type, t)` and `(p, rdfs:domain, t)`, and for every class `t` of
/// `o`, `(o, rdf:type, t)` and `(p, rdfs:range, t)`.
pub open spec fn fact_triples(
    tf: TypedFact,
    class_tree: MultiTree,
    names: Map<u128, Seq<char>>,
) -> Set<(Seq<char>, Seq<char>, Seq<char>)> {
    match (tf.fact.subject, tf.fact.object) {
        (Some(s), Some(o)) => {
            let p = tf.fact.predicate@;
            let works = if p == lubm::WORKS_FOR@ {
                set![(s@, p, o@)].union(inherited(s@, p, o@, class_tree, names))
            } else {
                Set::empty()
            };
            works.union(typed(s@, rdf::TYPE@, tf.subject_types@)).union(
                typed(p, rdfs::DOMAIN@, tf.subject_types@),
            ).union(typed(o@, rdf::TYPE@, tf.object_types@)).union(
                typed(p, rdfs::RANGE@, tf.object_types@),
            )
        },
        _ => Set::empty(),
    }
}

/// The triples that the facts give, together.
pub open spec fn all_triples(
    facts: Seq<TypedFact>,
    class_tree: MultiTree,
    names: Map<u128, Seq<char>>,
) -> Set<(Seq<char>, Seq<char>, Seq<char>)>
    decreases facts.len(),
{
    if facts.len() == 0 {
        Set::empty()
    } else {
        all_triples(facts.drop_last(), class_tree, names).union(
            fact_triples(facts.last(), class_tree, names),
        )
    }
}

/// Adds `(x, rel, t)` for every class `t` of `types`.
fn add_typed(set: &mut TripleSet, x: &String, rel: &String, types: &Vec<String>)
    requires
        old(set).wf(),
    ensures
        final(set).wf(),
        final(set).contents() == old(set).contents().union(typed(x@, rel@, types@)),
{
    let mut i: usize = 0;
    while i < types.len()
        invariant
            i <= types.len(),
            set.wf(),
            set.contents() == old(set).contents().union(typed(x@, rel@, types@.take(i as int))),
        decreases types.len() - i,
    {
        let t = &types[i];
        let triple = Triple::new(x.clone(), rel.clone(), t.clone());
        assert(triple_view(triple) == (x@, rel@, t@));
        let ghost before = set.contents();
        set.insert(triple);
        proof {
            let a = types@.take(i as int).map_values(|t: String| t@);
            let b = types@.take(i + 1).map_values(|t: String| t@);
            assert(b =~= a.push(t@));
            assert forall|y: Seq<char>| b.to_set().contains(y) <==> a.to_set().insert(t@).contains(y) by {
                if b.contains(y) {
                    let j = choose|j: int| 0 <= j < b.len() && b[j] == y;
                    if j < a.len() {
                        assert(a[j] == y);
                    }
                }
                if a.contains(y) {
                    let j = choose|j: int| 0 <= j < a.len() && a[j] == y;
                    assert(b[j] == y);
                }
                if y == t@ {
                    assert(b[i as int] == y);
                }
            }
            assert(b.to_set() =~= a.to_set().insert(t@));
            assert forall|z: (Seq<char>, Seq<char>, Seq<char>)| typed(x@, rel@, types@.take(i + 1)).contains(z)
                <==> typed(x@, rel@, types@.take(i as int)).insert((x@, rel@, t@)).contains(z) by {
                if typed(x@, rel@, types@.take(i + 1)).contains(z) {
                    let y = choose|y: Seq<char>| b.to_set().contains(y) && z == (x@, rel@, y);
                    if y != t@ {
                        assert(a.to_set().contains(y));
                    }
                }
                if typed(x@, rel@, types@.take(i as int)).contains(z) {
                    let y = choose|y: Seq<char>| a.to_set().contains(y) && z == (x@, rel@, y);
                    assert(b.to_set().contains(y));
                }
                if z == (x@, rel@, t@) {
                    assert(b.to_set().contains(t@));
                }
            }
            assert(typed(x@, rel@, types@.take(i + 1)) =~= typed(x@, rel@, types@.take(i as int)).insert(
                (x@, rel@, t@),
            ));
            assert(set.contents() =~= old(set).contents().union(typed(x@, rel@, types@.take(i + 1))));
        }
        i = i + 1;
    }
    assert(types@.take(types.len() as int) =~= types@);
}

/// The number of triples inferred from `subject_facts` (see
/// [`fact_triples`]), the names of hashes being those of `names`.
pub fn reason(
    subject_facts: &Vec<TypedFact>,
    class_tree: &MultiTree,
    names: &HashMap<u128, String>,
) -> (r: usize)
    ensures
        r == all_triples(subject_facts@, *class_tree, names_view(names@)).len(),
{
    let ghost nv = names_view(names@);
    let class_type = rdf::TYPE.to_owned();
    let domain = rdfs::DOMAIN.to_owned();
    let range = rdfs::RANGE.to_owned();
    let mut all_quad = TripleSet::new();
    let mut i: usize = 0;
    while i < subject_facts.len()
        invariant
            i <= subject_facts.len(),
            nv == names_view(names@),
            class_type@ == rdf::TYPE@,
            domain@ == rdfs::DOMAIN@,
            range@ == rdfs::RANGE@,
            all_quad.wf(),
            all_quad.contents() == all_triples(subject_facts@.take(i as int), *class_tree, nv),
        decreases subject_facts.len() - i,
    {
        let tf = &subject_facts[i];
        let ghost before = all_quad.contents();
        proof {
            assert(subject_facts@.take(i + 1).drop_last() =~= subject_facts@.take(i as int));
            assert(subject_facts@.take(i + 1).last() == *tf);
        }
        match (&tf.fact.subject, &tf.fact.object) {
            (Some(s), Some(o)) => {
                let p = &tf.fact.predicate;
                if same_str(p.as_str(), lubm::WORKS_FOR) {
                    let triple = Triple::new(s.clone(), p.clone(), o.clone());
                    assert(triple_view(triple) == (s@, p@, o@));
                    all_quad.insert(triple);
                    add_inherited(&mut all_quad, s, p, o, class_tree, names);
                }
                let ghost mid = all_quad.contents();
                add_typed(&mut all_quad, s, &class_type, &tf.subject_types);
                add_typed(&mut all_quad, p, &domain, &tf.subject_types);
                add_typed(&mut all_quad, o, &class_type, &tf.object_types);
                add_typed(&mut all_quad, p, &range, &tf.object_types);
                assert(all_quad.contents() =~= before.union(fact_triples(*tf, *class_tree, nv)));
            },
            _ => {
                assert(fact_triples(*tf, *class_tree, nv) =~= Set::empty());
                assert(all_quad.contents() =~= before.union(fact_triples(*tf, *class_tree, nv)));
            },
        }
        i = i + 1;
    }
    assert(subject_facts@.take(subject_facts.len() as int) =~= subject_facts@);
    all_quad.len()
}

/// Some class of `types` is `t`.
pub open spec fn has_type(types: Seq<String>, t: Seq<char>) -> bool {
    exists|i: int| 0 <= i < types.len() && #[trigger] types[i]@ == t
}

/// The typed fact `tf` gives the triple `x`: `tf` is between two IRIs
/// `(s, p, o)`, and `x` is `(s, p, o)` or `(s, p, n)` for a named ancestor `n`
/// of `o` in the organisation tree, only where `p` is `worksFor`; or,
/// whatever `p`, `(s, rdf:type, t)` or `(p, rdfs:domain, t)` for a class `t`
/// of `s`, or `(o, rdf:type, t)` or `(p, rdfs:range, t)` for a class `t` of
/// `o`.
pub open spec fn fact_gives(
    tf: TypedFact,
    class_tree: MultiTree,
    names: Map<u128, Seq<char>>,
    x: (Seq<char>, Seq<char>, Seq<char>),
) -> bool {
    let s = tf.fact.subject->0@;
    let p = tf.fact.predicate@;
    let o = tf.fact.object->0@;
    &&& tf.fact.subject is Some
    &&& tf.fact.object is Some
    &&& {
        ||| p == lubm::WORKS_FOR@ && x.0 == s && x.1 == p && (x.2 == o || named_ancestor(
            class_tree,
            o,
            names,
            x.2,
        ))
        ||| x.0 == s && x.1 == rdf::TYPE@ && has_type(tf.subject_types@, x.2)
        ||| x.0 == p && x.1 == rdfs::DOMAIN@ && has_type(tf.subject_types@, x.2)
        ||| x.0 == o && x.1 == rdf::TYPE@ && has_type(tf.object_types@, x.2)
        ||| x.0 == p && x.1 == rdfs::RANGE@ && has_type(tf.object_types@, x.2)
    }
}

proof fn lemma_typed_iff(
    xx: Seq<char>,
    rel: Seq<char>,
    types: Seq<String>,
    y: (Seq<char>, Seq<char>, Seq<char>),
)
    ensures
        typed(xx, rel, types).contains(y) <==> (y.0 == xx && y.1 == rel && has_type(types, y.2)),
{
    let vs = types.map_values(|t: String| t@);
    if typed(xx, rel, types).contains(y) {
        let t = choose|t: Seq<char>| vs.to_set().contains(t) && y == (xx, rel, t);
        assert(vs.contains(t));
        let i = choose|i: int| 0 <= i < vs.len() && vs[i] == t;
        assert(types[i]@ == t);
    }
    if y.0 == xx && y.1 == rel && has_type(types, y.2) {
        let i = choose|i: int| 0 <= i < types.len() && #[trigger] types[i]@ == y.2;
        assert(vs[i] == y.2);
        assert(vs.to_set().contains(y.2));
        assert(y == (xx, rel, y.2));
    }
}

proof fn lemma_fact_gives(
    tf: TypedFact,
    class_tree: MultiTree,
    names: Map<u128, Seq<char>>,
    x: (Seq<char>, Seq<char>, Seq<char>),
)
    ensures
        fact_triples(tf, class_tree, names).contains(x) <==> fact_gives(tf, class_tree, names, x),
{
    match (tf.fact.subject, tf.fact.object) {
        (Some(s), Some(o)) => {
            let p = tf.fact.predicate@;
            lemma_inherited_iff(s@, p, o@, class_tree, names, x);
            lemma_typed_iff(s@, rdf::TYPE@, tf.subject_types@, x);
            lemma_typed_iff(p, rdfs::DOMAIN@, tf.subject_types@, x);
            lemma_typed_iff(o@, rdf::TYPE@, tf.object_types@, x);
            lemma_typed_iff(p, rdfs::RANGE@, tf.object_types@, x);
        },
        _ => {},
    }
}

/// What [`reason`] counts, over all facts: the triples inferred are exactly
/// those that some typed fact gives (see [`fact_gives`]); a fact contributes
/// itself and the ancestors of its object only where its predicate is
/// `worksFor`, and its type, domain and range triples whatever it is.
pub proof fn lemma_reason_answers(
    facts: Seq<TypedFact>,
    class_tree: MultiTree,
    names: Map<u128, Seq<char>>,
    x: (Seq<char>, Seq<char>, Seq<char>),
)
    ensures
        all_triples(facts, class_tree, names).contains(x) <==> exists|k: int|
            0 <= k < facts.len() && fact_gives(#[trigger] facts[k], class_tree, names, x),
    decreases facts.len(),
{
    if facts.len() > 0 {
        let init = facts.drop_last();
        let f = facts.last();
        lemma_reason_answers(init, class_tree, names, x);
        lemma_fact_gives(f, class_tree, names, x);
        assert(facts[facts.len() - 1] == f);
        if exists|k: int| 0 <= k < init.len() && fact_gives(#[trigger] init[k], class_tree, names, x) {
            let k = choose|k: int| 0 <= k < init.len() && fact_gives(#[trigger] init[k], class_tree, names, x);
            assert(facts[k] == init[k]);
        }
        if exists|k: int| 0 <= k < facts.len() && fact_gives(#[trigger] facts[k], class_tree, names, x) {
            let k = choose|k: int| 0 <= k < facts.len() && fact_gives(#[trigger] facts[k], class_tree, names, x);
            if k < init.len() {
                assert(init[k] == facts[k]);
            }
        }
    }
}

/// The tree that [`construct_tree`] returns, over all lines: it holds the
/// subject of every line with predicate `subOrganizationOf` as a child of its
/// object (unless the object is the root `owl:Class`), and its nodes are
/// exactly the root, `root_parent`, and the subjects and objects of these
/// lines; a line with any other predicate adds nothing.
pub proof fn lemma_construct_tree_builds(lines: Seq<Seq<char>>, class_tree: MultiTree)
    requires
        is_encoded_tree(class_tree, owl::OWL_CLASS@, lines, class_preds()),
    ensures
        forall|i: int|
            0 <= i < lines.len() && (line_with(#[trigger] lines[i], lubm::SUB_ORGANIZATION@)) && str_hash(term(lines[i], 2)->0) != str_hash(
                owl::OWL_CLASS@,
            ) ==> class_tree.graph()[str_hash(term(lines[i], 2)->0)].contains(
                str_hash(term(lines[i], 0)->0),
            ),
        forall|k: u128|
            #[trigger] class_tree.nodes().contains_key(k) <==> (k == str_hash(owl::OWL_CLASS@) || k
                == root_parent_key() || exists|i: int|
                0 <= i < lines.len() && (line_with(#[trigger] lines[i], lubm::SUB_ORGANIZATION@)) && (k == str_hash(
                    term(lines[i], 0)->0,
                ) || k == str_hash(term(lines[i], 2)->0))),
{
    lemma_tree_of_one(class_tree, owl::OWL_CLASS@, lines, lubm::SUB_ORGANIZATION@);
}

} // verus!
