//! Inference over the encoded trees: a triple `(s, p, o)` whose object is a
//! class (or property) of a tree also holds of every ancestor of `o` that the
//! store can name.
use crate::graph::ways_at;
use crate::hashing::{hash_str, str_hash};
use crate::tree::MultiTree;
use crate::triples::{triple_view, Triple, TripleSet};
use std::collections::HashMap;
use vstd::prelude::*;

verus! {

broadcast use vstd::std_specs::hash::group_hash_axioms;

/// A triple read from the store: its subject and object where they are IRIs
/// (`None` for a blank node or a literal), and its predicate.
pub struct Fact {
    pub subject: Option<String>,
    pub predicate: String,
    pub object: Option<String>,
}

/// The strings that a map from hashes to strings gives.
pub open spec fn names_view(names: Map<u128, String>) -> Map<u128, Seq<char>> {
    names.map_values(|s: String| s@)
}

/// The names that `names` gives the hashes of the way `w`.
pub open spec fn names_in_way(w: Seq<u128>, names: Map<u128, Seq<char>>) -> Set<Seq<char>>
    decreases w.len(),
{
    if w.len() == 0 {
        Set::empty()
    } else {
        let rest = names_in_way(w.drop_last(), names);
        if names.contains_key(w.last()) {
            rest.insert(names[w.last()])
        } else {
            rest
        }
    }
}

/// The names that `names` gives the hashes of the ways `ws`.
pub open spec fn names_in_ways(ws: Seq<Seq<u128>>, names: Map<u128, Seq<char>>) -> Set<Seq<char>>
    decreases ws.len(),
{
    if ws.len() == 0 {
        Set::empty()
    } else {
        names_in_ways(ws.drop_last(), names).union(names_in_way(ws.last(), names))
    }
}

/// Some way of `ws` holds a hash.
pub open spec fn any_hash(ws: Seq<Seq<u128>>) -> bool {
    exists|i: int| 0 <= i < ws.len() && #[trigger] ws[i].len() > 0
}

/// The triples `(s, p, n)` for the names `n` of `ns`.
pub open spec fn below(s: Seq<char>, p: Seq<char>, ns: Set<Seq<char>>) -> Set<
    (Seq<char>, Seq<char>, Seq<char>),
> {
    ns.map(|n: Seq<char>| (s, p, n))
}

proof fn lemma_below_insert(s: Seq<char>, p: Seq<char>, ns: Set<Seq<char>>, n: Seq<char>)
    ensures
        below(s, p, ns.insert(n)) == below(s, p, ns).insert((s, p, n)),
{
    assert forall|x: (Seq<char>, Seq<char>, Seq<char>)| below(s, p, ns.insert(n)).contains(x) <==> below(
        s,
        p,
        ns,
    ).insert((s, p, n)).contains(x) by {
        if below(s, p, ns.insert(n)).contains(x) {
            let m = choose|m: Seq<char>| ns.insert(n).contains(m) && x == (s, p, m);
            if m != n {
                assert(ns.contains(m));
                assert(below(s, p, ns).contains(x));
            }
        }
        if below(s, p, ns).contains(x) {
            let m = choose|m: Seq<char>| ns.contains(m) && x == (s, p, m);
            assert(ns.insert(n).contains(m));
        }
        if x == (s, p, n) {
            assert(ns.insert(n).contains(n));
        }
    }
    assert(below(s, p, ns.insert(n)) =~= below(s, p, ns).insert((s, p, n)));
}

/// The ancestors of `o` in the tree `t` that the store names, as triples
/// `(s, p, ancestor)`: the names of the hashes on the ways recorded for `o`.
pub open spec fn inherited(
    s: Seq<char>,
    p: Seq<char>,
    o: Seq<char>,
    t: MultiTree,
    names: Map<u128, Seq<char>>,
) -> Set<(Seq<char>, Seq<char>, Seq<char>)> {
    below(s, p, names_in_ways(ways_at(t.ways_index(), str_hash(o)), names))
}

/// Adds to `set` the triples `(s, p, n)` for every ancestor `n` of `o` in
/// `tree` that `names` names (see [`inherited`]); says whether the ways
/// recorded for `o` hold any hash.
pub fn add_inherited(
    set: &mut TripleSet,
    s: &String,
    p: &String,
    o: &String,
    tree: &MultiTree,
    names: &HashMap<u128, String>,
) -> (any: bool)
    requires
        old(set).wf(),
    ensures
        final(set).wf(),
        final(set).contents() == old(set).contents().union(
            inherited(s@, p@, o@, *tree, names_view(names@)),
        ),
        any == any_hash(ways_at(tree.ways_index(), str_hash(o@))),
{
    let ghost nv = names_view(names@);
    let ghost ws = ways_at(tree.ways_index(), str_hash(o@));
    match tree.get_parent_way_by_str(hash_str(o.as_str())) {
        Ok(parent_way) => {
            assert(parent_way@.map_values(|w: Vec<u128>| w@) == ws);
            let mut any = false;
            let mut i: usize = 0;
            while i < parent_way.len()
                invariant
                    i <= parent_way.len(),
                    parent_way@.map_values(|w: Vec<u128>| w@) == ws,
                    nv == names_view(names@),
                    set.wf(),
                    set.contents() == old(set).contents().union(
                        below(s@, p@, names_in_ways(ws.take(i as int), nv)),
                    ),
                    any == any_hash(ws.take(i as int)),
                decreases parent_way.len() - i,
            {
                let way = &parent_way[i];
                let ghost before = set.contents();
                assert(ws[i as int] == way@);
                let mut j: usize = 0;
                while j < way.len()
                    invariant
                        j <= way.len(),
                        nv == names_view(names@),
                        set.wf(),
                        set.contents() == before.union(below(s@, p@, names_in_way(way@.take(j as int), nv))),
                    decreases way.len() - j,
                {
                    let h = way[j];
                    proof {
                        assert(way@.take(j + 1).drop_last() =~= way@.take(j as int));
                        assert(way@.take(j + 1).last() == h);
                    }
                    match names.get(&h) {
                        Some(parent) => {
                            let ghost pv = parent@;
                            assert(nv[h] == pv);
                            let t = Triple::new(s.clone(), p.clone(), parent.clone());
                            assert(triple_view(t) == (s@, p@, pv));
                            set.insert(t);
                            proof {
                                lemma_below_insert(s@, p@, names_in_way(way@.take(j as int), nv), pv);
                                assert(names_in_way(way@.take(j + 1), nv) == names_in_way(way@.take(j as int), nv).insert(pv));
                            }
                            assert(set.contents() =~= before.union(below(s@, p@, names_in_way(way@.take(j + 1), nv))));
                        },
                        None => {
                            assert(!nv.contains_key(h));
                            assert(names_in_way(way@.take(j + 1), nv) == names_in_way(way@.take(j as int), nv));
                        },
                    }
                    j = j + 1;
                }
                if way.len() > 0 {
                    any = true;
                }
                proof {
                    assert(way@.take(way.len() as int) =~= way@);
                    assert(ws.take(i + 1).drop_last() =~= ws.take(i as int));
                    assert(ws.take(i + 1).last() == way@);
                    assert(set.contents() =~= old(set).contents().union(
                        below(s@, p@, names_in_ways(ws.take(i + 1), nv))));
                    if any_hash(ws.take(i + 1)) {
                        let k = choose|k: int| 0 <= k < i + 1 && #[trigger] ws.take(i + 1)[k].len() > 0;
                        if k < i {
                            assert(ws.take(i as int)[k].len() > 0);
                        }
                    }
                    if any_hash(ws.take(i as int)) {
                        let k = choose|k: int| 0 <= k < i && #[trigger] ws.take(i as int)[k].len() > 0;
                        assert(ws.take(i + 1)[k].len() > 0);
                    }
                    if way.len() > 0 {
                        assert(ws.take(i + 1)[i as int].len() > 0);
                    }
                }
                i = i + 1;
            }
            assert(ws.take(parent_way.len() as int) =~= ws);
            any
        },
        Err(()) => {
            assert(ws =~= Seq::<Seq<u128>>::empty());
            assert(names_in_ways(ws, nv) == Set::<Seq<char>>::empty());
            assert(below(s@, p@, Set::<Seq<char>>::empty()) =~= Set::empty());
            assert(set.contents() =~= old(set).contents().union(inherited(s@, p@, o@, *tree, nv)));
            false
        },
    }
}

/// `n` is what `names` names some hash on one of the ways that the tree `t`
/// records for `o`: a named ancestor of `o` in `t`.
pub open spec fn named_ancestor(
    t: MultiTree,
    o: Seq<char>,
    names: Map<u128, Seq<char>>,
    n: Seq<char>,
) -> bool {
    exists|i: int, j: int|
        0 <= i < ways_at(t.ways_index(), str_hash(o)).len() && 0 <= j < ways_at(
            t.ways_index(),
            str_hash(o),
        )[i].len() && names.contains_key(
            #[trigger] ways_at(t.ways_index(), str_hash(o))[i][j],
        ) && names[ways_at(t.ways_index(), str_hash(o))[i][j]] == n
}

proof fn lemma_names_in_way(w: Seq<u128>, names: Map<u128, Seq<char>>, n: Seq<char>)
    ensures
        names_in_way(w, names).contains(n) <==> exists|j: int|
            0 <= j < w.len() && names.contains_key(#[trigger] w[j]) && names[w[j]] == n,
    decreases w.len(),
{
    if w.len() > 0 {
        let init = w.drop_last();
        lemma_names_in_way(init, names, n);
        if exists|j: int| 0 <= j < init.len() && names.contains_key(#[trigger] init[j]) && names[init[j]] == n {
            let j = choose|j: int| 0 <= j < init.len() && names.contains_key(#[trigger] init[j]) && names[init[j]] == n;
            assert(w[j] == init[j]);
        }
        if exists|j: int| 0 <= j < w.len() && names.contains_key(#[trigger] w[j]) && names[w[j]] == n {
            let j = choose|j: int| 0 <= j < w.len() && names.contains_key(#[trigger] w[j]) && names[w[j]] == n;
            if j < init.len() {
                assert(init[j] == w[j]);
            } else {
                assert(w[j] == w.last());
            }
        }
        if names.contains_key(w.last()) && names[w.last()] == n {
            assert(w[w.len() - 1] == w.last());
        }
    }
}

proof fn lemma_names_in_ways(ws: Seq<Seq<u128>>, names: Map<u128, Seq<char>>, n: Seq<char>)
    ensures
        names_in_ways(ws, names).contains(n) <==> exists|i: int, j: int|
            0 <= i < ws.len() && 0 <= j < ws[i].len() && names.contains_key(#[trigger] ws[i][j])
                && names[ws[i][j]] == n,
    decreases ws.len(),
{
    if ws.len() > 0 {
        let init = ws.drop_last();
        lemma_names_in_ways(init, names, n);
        lemma_names_in_way(ws.last(), names, n);
        if exists|i: int, j: int|
            0 <= i < init.len() && 0 <= j < init[i].len() && names.contains_key(#[trigger] init[i][j])
                && names[init[i][j]] == n {
            let (i, j) = choose|i: int, j: int|
                0 <= i < init.len() && 0 <= j < init[i].len() && names.contains_key(#[trigger] init[i][j])
                    && names[init[i][j]] == n;
            assert(ws[i] == init[i]);
            assert(ws[i][j] == init[i][j]);
        }
        if exists|j: int|
            0 <= j < ws.last().len() && names.contains_key(#[trigger] ws.last()[j]) && names[ws.last()[j]] == n {
            let j = choose|j: int|
                0 <= j < ws.last().len() && names.contains_key(#[trigger] ws.last()[j]) && names[ws.last()[j]] == n;
            let i = ws.len() - 1;
            assert(ws[i] == ws.last());
            assert(ws[i][j] == ws.last()[j]);
        }
        if exists|i: int, j: int|
            0 <= i < ws.len() && 0 <= j < ws[i].len() && names.contains_key(#[trigger] ws[i][j])
                && names[ws[i][j]] == n {
            let (i, j) = choose|i: int, j: int|
                0 <= i < ws.len() && 0 <= j < ws[i].len() && names.contains_key(#[trigger] ws[i][j])
                    && names[ws[i][j]] == n;
            if i < init.len() {
                assert(init[i] == ws[i]);
                assert(init[i][j] == ws[i][j]);
            } else {
                assert(ws[i] == ws.last());
                assert(ws.last()[j] == ws[i][j]);
            }
        }
    }
}

/// The triples that [`inherited`] gives are `(s, p, n)` for the named
/// ancestors `n` of `o` in `t`.
pub proof fn lemma_inherited_iff(
    s: Seq<char>,
    p: Seq<char>,
    o: Seq<char>,
    t: MultiTree,
    names: Map<u128, Seq<char>>,
    x: (Seq<char>, Seq<char>, Seq<char>),
)
    ensures
        inherited(s, p, o, t, names).contains(x) <==> (x.0 == s && x.1 == p && named_ancestor(
            t,
            o,
            names,
            x.2,
        )),
{
    let ws = ways_at(t.ways_index(), str_hash(o));
    lemma_names_in_ways(ws, names, x.2);
    let ns = names_in_ways(ws, names);
    if inherited(s, p, o, t, names).contains(x) {
        let n = choose|n: Seq<char>| ns.contains(n) && x == (s, p, n);
        assert(ns.contains(x.2));
    }
    if x.0 == s && x.1 == p && named_ancestor(t, o, names, x.2) {
        assert(ns.contains(x.2));
        assert(x == (s, p, x.2));
        assert(below(s, p, ns).contains((s, p, x.2)));
    }
}

} // verus!
