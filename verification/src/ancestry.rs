//! Ancestry in the child lists of a tree, and how the encoding walk shows
//! it: a node is met below another exactly when a path runs down from the
//! one to the other, the meetings below a meeting form one block of the
//! walk, and in a tree where no node has two parents each node is met once.
use crate::graph::{
    height, height_list, lemma_height_list_bounds, lemma_walk_budgets, lemma_walk_codes,
    lemma_walk_list_codes, occ_at, size, size_list, walk, walk_list, way_below, Occ,
};
use vstd::prelude::*;

verus! {

/// `path` runs down the child lists of `g`: its nodes are nodes of `g`, and
/// each after the first is a child of the one before it.
pub open spec fn is_path(g: Map<u128, Seq<u128>>, path: Seq<u128>) -> bool {
    &&& forall|i: int| 0 <= i < path.len() ==> g.contains_key(#[trigger] path[i])
    &&& forall|i: int| 0 <= i < path.len() - 1 ==> #[trigger] g[path[i]].contains(path[i + 1])
}

/// `a` is a proper ancestor of `b` in `g`: a path of at least one edge runs
/// down from `a` to `b`.
pub open spec fn proper_ancestor(g: Map<u128, Seq<u128>>, a: u128, b: u128) -> bool {
    exists|path: Seq<u128>|
        path.len() >= 2 && path[0] == a && path.last() == b && #[trigger] is_path(g, path)
}

/// Every child is below its parent in `rank`.
pub open spec fn descends(g: Map<u128, Seq<u128>>, rank: spec_fn(u128) -> nat) -> bool {
    forall|y: u128, x: u128| g.contains_key(y) && #[trigger] g[y].contains(x) ==> rank(x) < rank(y)
}

/// No node is a child of two nodes.
pub open spec fn one_parent(g: Map<u128, Seq<u128>>) -> bool {
    forall|x: u128, y1: u128, y2: u128|
        g.contains_key(y1) && g.contains_key(y2) && #[trigger] g[y1].contains(x) && #[trigger] g[y2].contains(x)
            ==> y1 == y2
}

/// A node with `v` put in front of a path that starts at a child of `v`.
proof fn lemma_path_cons(g: Map<u128, Seq<u128>>, v: u128, path: Seq<u128>)
    requires
        g.contains_key(v),
        path.len() >= 1,
        g[v].contains(path[0]),
        is_path(g, path),
    ensures
        is_path(g, seq![v] + path),
        (seq![v] + path).len() >= 2,
        (seq![v] + path)[0] == v,
        (seq![v] + path).last() == path.last(),
{
    let q = seq![v] + path;
    assert forall|i: int| 0 <= i < q.len() implies g.contains_key(#[trigger] q[i]) by {
        if i > 0 {
            assert(q[i] == path[i - 1]);
        }
    }
    assert forall|i: int| 0 <= i < q.len() - 1 implies #[trigger] g[q[i]].contains(q[i + 1]) by {
        if i > 0 {
            let j = i - 1;
            assert(q[i] == path[j]);
            assert(q[i + 1] == path[j + 1]);
            assert(g[path[j]].contains(path[j + 1]));
        } else {
            assert(q[0] == v);
            assert(q[1] == path[0]);
        }
    }
}

/// Along a path the rank goes down, strictly where the path has an edge.
pub proof fn lemma_path_rank(g: Map<u128, Seq<u128>>, rank: spec_fn(u128) -> nat, path: Seq<u128>)
    requires
        descends(g, rank),
        is_path(g, path),
        path.len() >= 1,
    ensures
        rank(path.last()) <= rank(path[0]),
        path.len() >= 2 ==> rank(path.last()) < rank(path[0]),
    decreases path.len(),
{
    if path.len() >= 2 {
        let q = path.drop_last();
        assert(is_path(g, q)) by {
            assert forall|i: int| 0 <= i < q.len() implies g.contains_key(#[trigger] q[i]) by {
                assert(q[i] == path[i]);
            }
            assert forall|i: int| 0 <= i < q.len() - 1 implies #[trigger] g[q[i]].contains(q[i + 1]) by {
                assert(q[i] == path[i]);
                assert(q[i + 1] == path[i + 1]);
            }
        }
        lemma_path_rank(g, rank, q);
        let n = path.len() - 2;
        assert(g[path[n]].contains(path[n + 1]));
        assert(g.contains_key(path[n]));
        assert(q.last() == path[n]);
    }
}

/// Every meeting after the first of the walk below `v` is of a node that a
/// path runs down to from `v`.
pub proof fn lemma_walk_paths(
    g: Map<u128, Seq<u128>>,
    root: u128,
    v: u128,
    p: u128,
    count: int,
    layer: int,
    pway: Seq<u128>,
    fuel: nat,
    k: int,
)
    requires
        g.contains_key(v),
        crate::graph::closed(g),
        0 < k < walk(g, root, v, p, count, layer, pway, fuel).len(),
    ensures
        proper_ancestor(g, v, walk(g, root, v, p, count, layer, pway, fuel)[k].node),
    decreases fuel, 0nat,
{
    let me = occ_at(g, root, v, p, count, layer, pway, fuel);
    let w = walk(g, root, v, p, count, layer, pway, fuel);
    let cf = (fuel - 1) as nat;
    let l = walk_list(g, root, g[v], v, count + 1, layer + 1, me.way, cf);
    assert(w == seq![me] + l);
    assert(w[k] == l[k - 1]);
    lemma_walk_list_paths(g, root, g[v], v, count + 1, layer + 1, me.way, cf, k - 1);
    let x = l[k - 1].node;
    let ci = choose|ci: int|
        0 <= ci < g[v].len() && (g[v][ci] == x || proper_ancestor(g, #[trigger] g[v][ci], x));
    let c = g[v][ci];
    assert(g[v].contains(c));
    assert(g.contains_key(c));
    if c == x {
        lemma_path_cons(g, v, seq![c]);
        assert(is_path(g, seq![v] + seq![c]));
    } else {
        let path = choose|path: Seq<u128>|
            path.len() >= 2 && path[0] == c && path.last() == x && #[trigger] is_path(g, path);
        lemma_path_cons(g, v, path);
        assert(is_path(g, seq![v] + path));
    }
}

proof fn lemma_walk_list_paths(
    g: Map<u128, Seq<u128>>,
    root: u128,
    cs: Seq<u128>,
    p: u128,
    count: int,
    layer: int,
    pway: Seq<u128>,
    fuel: nat,
    k: int,
)
    requires
        crate::graph::closed(g),
        forall|i: int| 0 <= i < cs.len() ==> g.contains_key(#[trigger] cs[i]),
        0 <= k < walk_list(g, root, cs, p, count, layer, pway, fuel).len(),
    ensures
        exists|ci: int|
            0 <= ci < cs.len() && (cs[ci] == walk_list(g, root, cs, p, count, layer, pway, fuel)[k].node
                || proper_ancestor(
                g,
                #[trigger] cs[ci],
                walk_list(g, root, cs, p, count, layer, pway, fuel)[k].node,
            )),
    decreases fuel, cs.len(),
{
    let c2 = count + size_list(g, cs.drop_last(), fuel);
    let a = walk_list(g, root, cs.drop_last(), p, count, layer, pway, fuel);
    let b = walk(g, root, cs.last(), p, c2, layer, pway, fuel);
    let l = walk_list(g, root, cs, p, count, layer, pway, fuel);
    assert(l == a + b);
    if k < a.len() {
        assert(l[k] == a[k]);
        lemma_walk_list_paths(g, root, cs.drop_last(), p, count, layer, pway, fuel, k);
        let ci = choose|ci: int|
            0 <= ci < cs.drop_last().len() && (cs.drop_last()[ci] == a[k].node || proper_ancestor(
                g,
                #[trigger] cs.drop_last()[ci],
                a[k].node,
            ));
        assert(cs[ci] == cs.drop_last()[ci]);
    } else {
        let kb = k - a.len();
        assert(l[k] == b[kb]);
        let ci = cs.len() - 1;
        assert(cs[ci] == cs.last());
        if kb == 0 {
            lemma_walk_codes(g, root, cs.last(), p, c2, layer, pway, fuel);
            assert(b[0].node == cs.last());
        } else {
            lemma_walk_paths(g, root, cs.last(), p, c2, layer, pway, fuel, kb);
        }
    }
}

/// The meetings below a meeting form one block of the walk: from meeting
/// `i` on, the next `size` meetings (`size` counted with the budget left at
/// its depth) are the walk below its node, met below its parent, numbering
/// on from its start.
pub proof fn lemma_subwalk(
    g: Map<u128, Seq<u128>>,
    root: u128,
    v: u128,
    p: u128,
    count: int,
    layer: int,
    pway: Seq<u128>,
    fuel: nat,
    i: int,
)
    requires
        height(g, v, fuel) < fuel,
        0 <= i < walk(g, root, v, p, count, layer, pway, fuel).len(),
    ensures
        ({
            let w = walk(g, root, v, p, count, layer, pway, fuel);
            let o = w[i];
            let fi = (fuel + layer - o.layer) as nat;
            &&& 0 <= fuel + layer - o.layer
            &&& i + size(g, o.node, fi) <= w.len()
            &&& exists|pw: Seq<u128>|
                w.subrange(i, i + size(g, o.node, fi)) == #[trigger] walk(
                    g,
                    root,
                    o.node,
                    o.parent,
                    o.start - 1,
                    o.layer,
                    pw,
                    fi,
                )
        }),
    decreases fuel, 0nat,
{
    let me = occ_at(g, root, v, p, count, layer, pway, fuel);
    let w = walk(g, root, v, p, count, layer, pway, fuel);
    lemma_walk_codes(g, root, v, p, count, layer, pway, fuel);
    if i == 0 {
        assert(w[0] == me);
        assert(w.subrange(0, size(g, v, fuel) as int) =~= w);
        let o = w[0];
        assert(o.start - 1 == count && o.layer == layer && o.node == v && o.parent == p);
        assert((fuel + layer - o.layer) as nat == fuel);
        assert(w.subrange(0, size(g, v, fuel) as int) == walk(
            g,
            root,
            o.node,
            o.parent,
            o.start - 1,
            o.layer,
            pway,
            (fuel + layer - o.layer) as nat,
        ));
    } else {
        let cf = (fuel - 1) as nat;
        let l = walk_list(g, root, g[v], v, count + 1, layer + 1, me.way, cf);
        assert(w == seq![me] + l);
        assert(w[i] == l[i - 1]);
        lemma_subwalk_list(g, root, g[v], v, count + 1, layer + 1, me.way, cf, i - 1);
        let o = w[i];
        let fi = (fuel + layer - o.layer) as nat;
        let pw = choose|pw: Seq<u128>|
            l.subrange(i - 1, i - 1 + size(g, o.node, fi)) == #[trigger] walk(
                g,
                root,
                o.node,
                o.parent,
                o.start - 1,
                o.layer,
                pw,
                fi,
            );
        assert(w.subrange(i, i + size(g, o.node, fi)) =~= l.subrange(i - 1, i - 1 + size(g, o.node, fi)));
    }
}

proof fn lemma_subwalk_list(
    g: Map<u128, Seq<u128>>,
    root: u128,
    cs: Seq<u128>,
    p: u128,
    count: int,
    layer: int,
    pway: Seq<u128>,
    fuel: nat,
    i: int,
)
    requires
        height_list(g, cs, fuel) <= fuel,
        0 <= i < walk_list(g, root, cs, p, count, layer, pway, fuel).len(),
    ensures
        ({
            let w = walk_list(g, root, cs, p, count, layer, pway, fuel);
            let o = w[i];
            let fi = (fuel + layer - o.layer) as nat;
            &&& 0 <= fuel + layer - o.layer
            &&& i + size(g, o.node, fi) <= w.len()
            &&& exists|pw: Seq<u128>|
                w.subrange(i, i + size(g, o.node, fi)) == #[trigger] walk(
                    g,
                    root,
                    o.node,
                    o.parent,
                    o.start - 1,
                    o.layer,
                    pw,
                    fi,
                )
        }),
    decreases fuel, cs.len(),
{
    let c2 = count + size_list(g, cs.drop_last(), fuel);
    let a = walk_list(g, root, cs.drop_last(), p, count, layer, pway, fuel);
    let b = walk(g, root, cs.last(), p, c2, layer, pway, fuel);
    let l = walk_list(g, root, cs, p, count, layer, pway, fuel);
    assert(l == a + b);
    lemma_height_list_bounds(g, cs, fuel, cs.len() - 1);
    assert(height_list(g, cs.drop_last(), fuel) <= height_list(g, cs, fuel));
    let o = l[i];
    let fi = (fuel + layer - o.layer) as nat;
    if i < a.len() {
        assert(l[i] == a[i]);
        lemma_subwalk_list(g, root, cs.drop_last(), p, count, layer, pway, fuel, i);
        let pw = choose|pw: Seq<u128>|
            a.subrange(i, i + size(g, o.node, fi)) == #[trigger] walk(
                g,
                root,
                o.node,
                o.parent,
                o.start - 1,
                o.layer,
                pw,
                fi,
            );
        assert(l.subrange(i, i + size(g, o.node, fi)) =~= a.subrange(i, i + size(g, o.node, fi)));
    } else {
        let ib = i - a.len();
        assert(l[i] == b[ib]);
        lemma_subwalk(g, root, cs.last(), p, c2, layer, pway, fuel, ib);
        let pw = choose|pw: Seq<u128>|
            b.subrange(ib, ib + size(g, o.node, fi)) == #[trigger] walk(
                g,
                root,
                o.node,
                o.parent,
                o.start - 1,
                o.layer,
                pw,
                fi,
            );
        assert(l.subrange(i, i + size(g, o.node, fi)) =~= b.subrange(ib, ib + size(g, o.node, fi)));
    }
}

/// In a walk whose budget covers the height below `v`, every node that a
/// path runs down to from `v` is met after `v`.
pub proof fn lemma_path_met(
    g: Map<u128, Seq<u128>>,
    root: u128,
    v: u128,
    p: u128,
    count: int,
    layer: int,
    pway: Seq<u128>,
    fuel: nat,
    path: Seq<u128>,
)
    requires
        height(g, v, fuel) < fuel,
        path.len() >= 2,
        path[0] == v,
        is_path(g, path),
    ensures
        exists|k: int|
            0 < k < walk(g, root, v, p, count, layer, pway, fuel).len() && #[trigger] walk(
                g,
                root,
                v,
                p,
                count,
                layer,
                pway,
                fuel,
            )[k].node == path.last(),
    decreases path.len(),
{
    let me = occ_at(g, root, v, p, count, layer, pway, fuel);
    let w = walk(g, root, v, p, count, layer, pway, fuel);
    let cf = (fuel - 1) as nat;
    let l = walk_list(g, root, g[v], v, count + 1, layer + 1, me.way, cf);
    assert(w == seq![me] + l);
    let c = path[1];
    assert(g[path[0int]].contains(path[0int + 1]));
    let ci = choose|ci: int| 0 <= ci < g[v].len() && g[v][ci] == c;
    crate::graph::lemma_list_meets_each(g, root, g[v], v, count + 1, layer + 1, me.way, cf, ci);
    let j = choose|j: int| 0 <= j < l.len() && #[trigger] l[j].node == g[v][ci] && l[j].parent == v;
    assert(w[j + 1] == l[j]);
    if path.len() == 2 {
        assert(w[j + 1].node == path.last());
    } else {
        let o = w[j + 1];
        let fi = (fuel + layer - o.layer) as nat;
        lemma_subwalk(g, root, v, p, count, layer, pway, fuel, j + 1);
        lemma_walk_budgets(g, root, v, p, count, layer, pway, fuel);
        let pw = choose|pw: Seq<u128>|
            w.subrange(j + 1, j + 1 + size(g, o.node, fi)) == #[trigger] walk(
                g,
                root,
                o.node,
                o.parent,
                o.start - 1,
                o.layer,
                pw,
                fi,
            );
        let sub = walk(g, root, o.node, o.parent, o.start - 1, o.layer, pw, fi);
        let rest = path.drop_first();
        assert(is_path(g, rest)) by {
            assert forall|t: int| 0 <= t < rest.len() implies g.contains_key(#[trigger] rest[t]) by {
                assert(rest[t] == path[t + 1]);
            }
            assert forall|t: int| 0 <= t < rest.len() - 1 implies #[trigger] g[rest[t]].contains(
                rest[t + 1],
            ) by {
                let u = t + 1;
                assert(rest[t] == path[u]);
                assert(rest[t + 1] == path[u + 1]);
                assert(g[path[u]].contains(path[u + 1]));
            }
        }
        assert(rest[0] == o.node);
        assert(rest.last() == path.last());
        lemma_path_met(g, root, o.node, o.parent, o.start - 1, o.layer, pw, fi, rest);
        let k = choose|k: int| 0 < k < sub.len() && #[trigger] sub[k].node == rest.last();
        assert(sub[k] == w[j + 1 + k]);
        assert(w[j + 1 + k].node == path.last());
    }
}

/// Two paths that end at one node in a graph where no node has two parents:
/// the start of one lies on the other.
proof fn lemma_paths_meet(g: Map<u128, Seq<u128>>, p1: Seq<u128>, p2: Seq<u128>)
    requires
        one_parent(g),
        is_path(g, p1),
        is_path(g, p2),
        p1.len() >= 1,
        p2.len() >= 1,
        p1.last() == p2.last(),
    ensures
        (exists|t: int| 0 <= t < p2.len() && #[trigger] p2[t] == p1[0]) || (exists|t: int|
            0 <= t < p1.len() && #[trigger] p1[t] == p2[0]),
    decreases p1.len() + p2.len(),
{
    if p1.len() == 1 {
        assert(p2[p2.len() - 1] == p1[0]);
    } else if p2.len() == 1 {
        assert(p1[p1.len() - 1] == p2[0]);
    } else {
        let n1 = p1.len() - 2;
        let n2 = p2.len() - 2;
        assert(g[p1[n1]].contains(p1[n1 + 1]));
        assert(g[p2[n2]].contains(p2[n2 + 1]));
        assert(g.contains_key(p1[n1]) && g.contains_key(p2[n2]));
        assert(p1[n1] == p2[n2]);
        let q1 = p1.drop_last();
        let q2 = p2.drop_last();
        assert(is_path(g, q1)) by {
            assert forall|t: int| 0 <= t < q1.len() implies g.contains_key(#[trigger] q1[t]) by {
                assert(q1[t] == p1[t]);
            }
            assert forall|t: int| 0 <= t < q1.len() - 1 implies #[trigger] g[q1[t]].contains(q1[t + 1]) by {
                assert(q1[t] == p1[t]);
                assert(q1[t + 1] == p1[t + 1]);
            }
        }
        assert(is_path(g, q2)) by {
            assert forall|t: int| 0 <= t < q2.len() implies g.contains_key(#[trigger] q2[t]) by {
                assert(q2[t] == p2[t]);
            }
            assert forall|t: int| 0 <= t < q2.len() - 1 implies #[trigger] g[q2[t]].contains(q2[t + 1]) by {
                assert(q2[t] == p2[t]);
                assert(q2[t + 1] == p2[t + 1]);
            }
        }
        lemma_paths_meet(g, q1, q2);
        if exists|t: int| 0 <= t < q2.len() && #[trigger] q2[t] == q1[0] {
            let t = choose|t: int| 0 <= t < q2.len() && #[trigger] q2[t] == q1[0];
            assert(p2[t] == p1[0]);
        } else {
            let t = choose|t: int| 0 <= t < q1.len() && #[trigger] q1[t] == q2[0];
            assert(p1[t] == p2[0]);
        }
    }
}

/// `x` is `a` or lies below it.
pub open spec fn at_or_below(g: Map<u128, Seq<u128>>, a: u128, x: u128) -> bool {
    x == a || proper_ancestor(g, a, x)
}

/// A path from `a` to `x` when `x` is `a` or lies below it.
proof fn lemma_some_path(g: Map<u128, Seq<u128>>, a: u128, x: u128) -> (path: Seq<u128>)
    requires
        g.contains_key(a),
        at_or_below(g, a, x),
    ensures
        path.len() >= 1,
        path[0] == a,
        path.last() == x,
        is_path(g, path),
{
    if x == a {
        let path = seq![a];
        assert(is_path(g, path));
        path
    } else {
        choose|path: Seq<u128>|
            path.len() >= 2 && path[0] == a && path.last() == x && #[trigger] is_path(g, path)
    }
}

/// Below two children of one node, in a graph where no node has two
/// parents and ranks go down, no node lies at or below both.
proof fn lemma_siblings_apart(
    g: Map<u128, Seq<u128>>,
    rank: spec_fn(u128) -> nat,
    v: u128,
    c1: u128,
    c2: u128,
    x: u128,
)
    requires
        descends(g, rank),
        one_parent(g),
        g.contains_key(v),
        g[v].contains(c1),
        g[v].contains(c2),
        g.contains_key(c1),
        g.contains_key(c2),
        c1 != c2,
    ensures
        !(at_or_below(g, c1, x) && at_or_below(g, c2, x)),
{
    if at_or_below(g, c1, x) && at_or_below(g, c2, x) {
        let p1 = lemma_some_path(g, c1, x);
        let p2 = lemma_some_path(g, c2, x);
        lemma_paths_meet(g, p1, p2);
        assert(rank(c1) < rank(v) && rank(c2) < rank(v));
        if exists|t: int| 0 <= t < p2.len() && #[trigger] p2[t] == p1[0] {
            let t = choose|t: int| 0 <= t < p2.len() && #[trigger] p2[t] == p1[0];
            lemma_climb_to_parent(g, rank, v, c1, p2, t);
        } else {
            let t = choose|t: int| 0 <= t < p1.len() && #[trigger] p1[t] == p2[0];
            lemma_climb_to_parent(g, rank, v, c2, p1, t);
        }
    }
}

/// A path from another node `path[0]` to the child `c` of `v` passes
/// through `v`, so it starts at or above `v`.
proof fn lemma_climb_to_parent(
    g: Map<u128, Seq<u128>>,
    rank: spec_fn(u128) -> nat,
    v: u128,
    c: u128,
    path: Seq<u128>,
    t: int,
)
    requires
        descends(g, rank),
        one_parent(g),
        g.contains_key(v),
        g[v].contains(c),
        path[0] != c,
        is_path(g, path),
        0 <= t < path.len(),
        path[t] == c,
    ensures
        rank(v) <= rank(path[0]),
{
    assert(t > 0);
    let y = path[t - 1];
    let u = t - 1;
    assert(g[path[u]].contains(path[u + 1]));
    assert(g.contains_key(y));
    assert(y == v);
    let q = path.take(t);
    assert(is_path(g, q)) by {
        assert forall|s: int| 0 <= s < q.len() implies g.contains_key(#[trigger] q[s]) by {
            assert(q[s] == path[s]);
        }
        assert forall|s: int| 0 <= s < q.len() - 1 implies #[trigger] g[q[s]].contains(q[s + 1]) by {
            assert(q[s] == path[s]);
            assert(q[s + 1] == path[s + 1]);
        }
    }
    lemma_path_rank(g, rank, q);
    assert(q.last() == v);
    assert(q[0] == path[0]);
}

/// In a graph where no node has two parents, ranks go down and no child
/// list repeats a node, the walk below a node meets each node at most once.
pub proof fn lemma_walk_distinct(
    g: Map<u128, Seq<u128>>,
    rank: spec_fn(u128) -> nat,
    root: u128,
    v: u128,
    p: u128,
    count: int,
    layer: int,
    pway: Seq<u128>,
    fuel: nat,
)
    requires
        crate::graph::closed(g),
        descends(g, rank),
        one_parent(g),
        forall|y: u128| g.contains_key(y) ==> #[trigger] g[y].no_duplicates(),
        g.contains_key(v),
    ensures
        forall|i: int, j: int|
            0 <= i < j < walk(g, root, v, p, count, layer, pway, fuel).len() ==> #[trigger] walk(
                g,
                root,
                v,
                p,
                count,
                layer,
                pway,
                fuel,
            )[i].node != #[trigger] walk(g, root, v, p, count, layer, pway, fuel)[j].node,
    decreases fuel, 0nat,
{
    let me = occ_at(g, root, v, p, count, layer, pway, fuel);
    let w = walk(g, root, v, p, count, layer, pway, fuel);
    if fuel > 0 {
        let cf = (fuel - 1) as nat;
        let l = walk_list(g, root, g[v], v, count + 1, layer + 1, me.way, cf);
        assert(w == seq![me] + l);
        assert forall|t: int| 0 <= t < g[v].len() implies g.contains_key(#[trigger] g[v][t]) by {}
        lemma_walk_list_distinct(g, rank, root, g[v], v, count + 1, layer + 1, me.way, cf);
        assert forall|i: int, j: int| 0 <= i < j < w.len() implies #[trigger] w[i].node
            != #[trigger] w[j].node by {
            assert(w[j] == l[j - 1]);
            if i == 0 {
                assert(w[0].node == v);
                lemma_walk_list_paths(g, root, g[v], v, count + 1, layer + 1, me.way, cf, j - 1);
                let x = l[j - 1].node;
                let ci = choose|ci: int|
                    0 <= ci < g[v].len() && (g[v][ci] == x || proper_ancestor(g, #[trigger] g[v][ci], x));
                let c = g[v][ci];
                assert(g[v].contains(c));
                assert(rank(c) < rank(v));
                if c != x {
                    let path = choose|path: Seq<u128>|
                        path.len() >= 2 && path[0] == c && path.last() == x && #[trigger] is_path(g, path);
                    lemma_path_rank(g, rank, path);
                }
            } else {
                assert(w[i] == l[i - 1]);
            }
        }
    } else {
        assert(w.len() == 1);
    }
}

proof fn lemma_walk_list_distinct(
    g: Map<u128, Seq<u128>>,
    rank: spec_fn(u128) -> nat,
    root: u128,
    cs: Seq<u128>,
    p: u128,
    count: int,
    layer: int,
    pway: Seq<u128>,
    fuel: nat,
)
    requires
        crate::graph::closed(g),
        descends(g, rank),
        one_parent(g),
        forall|y: u128| g.contains_key(y) ==> #[trigger] g[y].no_duplicates(),
        g.contains_key(p),
        cs.no_duplicates(),
        forall|t: int| 0 <= t < cs.len() ==> g.contains_key(#[trigger] cs[t]) && g[p].contains(cs[t]),
    ensures
        forall|i: int, j: int|
            0 <= i < j < walk_list(g, root, cs, p, count, layer, pway, fuel).len() ==> #[trigger] walk_list(
                g,
                root,
                cs,
                p,
                count,
                layer,
                pway,
                fuel,
            )[i].node != #[trigger] walk_list(g, root, cs, p, count, layer, pway, fuel)[j].node,
    decreases fuel, cs.len(),
{
    if cs.len() > 0 {
        let init = cs.drop_last();
        let last = cs.last();
        let c2 = count + size_list(g, init, fuel);
        let a = walk_list(g, root, init, p, count, layer, pway, fuel);
        let b = walk(g, root, last, p, c2, layer, pway, fuel);
        let l = walk_list(g, root, cs, p, count, layer, pway, fuel);
        assert(l == a + b);
        assert(init.no_duplicates()) by {
            assert forall|s: int, t: int| 0 <= s < t < init.len() implies init[s] != init[t] by {
                assert(init[s] == cs[s] && init[t] == cs[t]);
            }
        }
        assert forall|t: int| 0 <= t < init.len() implies g.contains_key(#[trigger] init[t]) && g[p].contains(
            init[t],
        ) by {
            assert(init[t] == cs[t]);
        }
        assert(g.contains_key(last) && g[p].contains(last)) by {
            assert(cs[cs.len() - 1] == last);
        }
        lemma_walk_list_distinct(g, rank, root, init, p, count, layer, pway, fuel);
        lemma_walk_distinct(g, rank, root, last, p, c2, layer, pway, fuel);
        assert forall|i: int, j: int| 0 <= i < j < l.len() implies #[trigger] l[i].node
            != #[trigger] l[j].node by {
            if j < a.len() {
                assert(l[i] == a[i] && l[j] == a[j]);
            } else if i >= a.len() {
                assert(l[i] == b[i - a.len()] && l[j] == b[j - a.len()]);
            } else {
                assert(l[i] == a[i] && l[j] == b[j - a.len()]);
                let x = a[i].node;
                lemma_walk_list_paths(g, root, init, p, count, layer, pway, fuel, i);
                let ci = choose|ci: int|
                    0 <= ci < init.len() && (init[ci] == x || proper_ancestor(g, #[trigger] init[ci], x));
                let c = init[ci];
                assert(c == cs[ci]);
                assert(c != last) by {
                    assert(cs[ci] != cs[cs.len() - 1]);
                }
                if x == b[j - a.len()].node {
                    if j - a.len() > 0 {
                        lemma_walk_paths(g, root, last, p, c2, layer, pway, fuel, j - a.len());
                    } else {
                        lemma_walk_codes(g, root, last, p, c2, layer, pway, fuel);
                    }
                    assert(at_or_below(g, last, x));
                    assert(at_or_below(g, c, x));
                    lemma_siblings_apart(g, rank, p, c, last, x);
                }
            }
        }
    }
}

/// Interval codes tell ancestry in a walk that meets each node once: where
/// no node has two parents, ranks go down, no child list repeats a node and
/// the budget covers the height below `v`, meeting `j` lies within the code
/// of meeting `i` (`start_i < start_j <= end_i`) exactly when the node of
/// `i` is a proper ancestor of the node of `j`.
pub proof fn lemma_walk_ancestry(
    g: Map<u128, Seq<u128>>,
    rank: spec_fn(u128) -> nat,
    root: u128,
    v: u128,
    p: u128,
    count: int,
    layer: int,
    pway: Seq<u128>,
    fuel: nat,
    i: int,
    j: int,
)
    requires
        crate::graph::closed(g),
        descends(g, rank),
        one_parent(g),
        forall|y: u128| g.contains_key(y) ==> #[trigger] g[y].no_duplicates(),
        g.contains_key(v),
        height(g, v, fuel) < fuel,
        0 <= i < walk(g, root, v, p, count, layer, pway, fuel).len(),
        0 <= j < walk(g, root, v, p, count, layer, pway, fuel).len(),
    ensures
        ({
            let w = walk(g, root, v, p, count, layer, pway, fuel);
            (w[i].start < w[j].start <= w[i].end) <==> proper_ancestor(g, w[i].node, w[j].node)
        }),
{
    let w = walk(g, root, v, p, count, layer, pway, fuel);
    lemma_walk_codes(g, root, v, p, count, layer, pway, fuel);
    lemma_walk_budgets(g, root, v, p, count, layer, pway, fuel);
    lemma_walk_distinct(g, rank, root, v, p, count, layer, pway, fuel);
    let o = w[i];
    let fi = (fuel + layer - o.layer) as nat;
    assert(w[i].start == count + 1 + i);
    assert(w[j].start == count + 1 + j);
    let b = size(g, o.node, fi);
    assert(o.end - o.start + 1 == b);
    lemma_subwalk(g, root, v, p, count, layer, pway, fuel, i);
    let pw = choose|pw: Seq<u128>|
        w.subrange(i, i + size(g, o.node, fi)) == #[trigger] walk(
            g,
            root,
            o.node,
            o.parent,
            o.start - 1,
            o.layer,
            pw,
            fi,
        );
    let sub = walk(g, root, o.node, o.parent, o.start - 1, o.layer, pw, fi);
    assert(g.contains_key(o.node)) by {
        if i > 0 {
            lemma_walk_paths(g, root, v, p, count, layer, pway, fuel, i);
            let path = choose|path: Seq<u128>|
                path.len() >= 2 && path[0] == v && path.last() == o.node && #[trigger] is_path(g, path);
            assert(path[path.len() - 1] == o.node);
        } else {
            assert(o.node == v);
        }
    }
    if w[i].start < w[j].start <= w[i].end {
        let k = j - i;
        assert(0 < k < b);
        assert(sub[k] == w[j]);
        lemma_walk_paths(g, root, o.node, o.parent, o.start - 1, o.layer, pw, fi, k);
    }
    if proper_ancestor(g, o.node, w[j].node) {
        let path = choose|path: Seq<u128>|
            path.len() >= 2 && path[0] == o.node && path.last() == w[j].node && #[trigger] is_path(
                g,
                path,
            );
        lemma_path_met(g, root, o.node, o.parent, o.start - 1, o.layer, pw, fi, path);
        let k = choose|k: int| 0 < k < sub.len() && #[trigger] sub[k].node == path.last();
        assert(sub[k] == w[i + k]);
        if i + k != j {
            if i + k < j {
                assert(w[i + k].node != w[j].node);
            } else {
                assert(w[j].node != w[i + k].node);
            }
        }
    }
}

/// The nodes of `g` below `v` in rank.
pub open spec fn ranked_below(g: Map<u128, Seq<u128>>, rank: spec_fn(u128) -> nat, v: u128) -> Set<u128> {
    g.dom().filter(|x: u128| rank(x) < rank(v))
}

/// A child `c` of `v` and the nodes below it in rank are all below `v`.
proof fn lemma_ranked_below_child(
    g: Map<u128, Seq<u128>>,
    rank: spec_fn(u128) -> nat,
    v: u128,
    c: u128,
)
    requires
        g.dom().finite(),
        g.contains_key(c),
        rank(c) < rank(v),
    ensures
        1 + ranked_below(g, rank, c).len() <= ranked_below(g, rank, v).len(),
{
    let sc = ranked_below(g, rank, c);
    let sv = ranked_below(g, rank, v);
    g.dom().lemma_len_filter(|x: u128| rank(x) < rank(c));
    g.dom().lemma_len_filter(|x: u128| rank(x) < rank(v));
    assert(!sc.contains(c));
    assert(sc.insert(c).subset_of(sv));
    vstd::set_lib::lemma_len_subset(sc.insert(c), sv);
    vstd::set::axiom_set_insert_len(sc, c);
}

/// Where ranks go down the edges, no path from `v` is longer than the
/// number of nodes below `v` in rank.
pub proof fn lemma_height_by_rank(g: Map<u128, Seq<u128>>, rank: spec_fn(u128) -> nat, v: u128, f: nat)
    requires
        g.dom().finite(),
        crate::graph::closed(g),
        descends(g, rank),
        g.contains_key(v),
    ensures
        height(g, v, f) <= ranked_below(g, rank, v).len(),
    decreases f, 0nat,
{
    if f > 0 {
        lemma_height_list_by_rank(g, rank, v, g[v], (f - 1) as nat);
    }
}

proof fn lemma_height_list_by_rank(
    g: Map<u128, Seq<u128>>,
    rank: spec_fn(u128) -> nat,
    v: u128,
    cs: Seq<u128>,
    f: nat,
)
    requires
        g.dom().finite(),
        crate::graph::closed(g),
        descends(g, rank),
        g.contains_key(v),
        forall|t: int| 0 <= t < cs.len() ==> g[v].contains(#[trigger] cs[t]),
    ensures
        height_list(g, cs, f) <= ranked_below(g, rank, v).len(),
    decreases f, cs.len(),
{
    if cs.len() > 0 {
        let init = cs.drop_last();
        assert forall|t: int| 0 <= t < init.len() implies g[v].contains(#[trigger] init[t]) by {
            assert(init[t] == cs[t]);
        }
        lemma_height_list_by_rank(g, rank, v, init, f);
        let c = cs.last();
        assert(g[v].contains(cs[cs.len() - 1]));
        let ci = choose|ci: int| 0 <= ci < g[v].len() && g[v][ci] == c;
        assert(g.contains_key(g[v][ci]));
        lemma_height_by_rank(g, rank, c, f);
        lemma_ranked_below_child(g, rank, v, c);
    }
}

/// Where ranks go down the edges of a finite graph, no cycle is reachable
/// from any node: no path from it is as long as the number of nodes.
pub proof fn lemma_no_cycle_by_rank(g: Map<u128, Seq<u128>>, rank: spec_fn(u128) -> nat, v: u128)
    requires
        g.dom().finite(),
        crate::graph::closed(g),
        descends(g, rank),
        g.contains_key(v),
    ensures
        height(g, v, g.len()) < g.len(),
{
    lemma_height_by_rank(g, rank, v, g.len());
    let sv = ranked_below(g, rank, v);
    g.dom().lemma_len_filter(|x: u128| rank(x) < rank(v));
    assert(!sv.contains(v));
    assert(sv.insert(v).subset_of(g.dom()));
    vstd::set_lib::lemma_len_subset(sv.insert(v), g.dom());
    vstd::set::axiom_set_insert_len(sv, v);
}

/// `w` is the way of a node met at depth `layer`: at depth 1 the root
/// alone; deeper, `layer - 1` nodes of `g`, none the root, the first the node
/// itself, each after the first a parent of the one before it, and the last
/// a child of the root (every proper ancestor on the path but the root).
pub open spec fn good_way(
    g: Map<u128, Seq<u128>>,
    root: u128,
    w: Seq<u128>,
    node: u128,
    layer: int,
) -> bool {
    if layer == 1 {
        w == seq![root] && node == root
    } else {
        &&& layer >= 2
        &&& w.len() == layer - 1
        &&& w[0] == node
        &&& forall|i: int| 0 <= i < w.len() ==> g.contains_key(#[trigger] w[i]) && w[i] != root
        &&& forall|i: int| 0 <= i < w.len() - 1 ==> #[trigger] g[w[i + 1]].contains(w[i])
        &&& g[root].contains(w[w.len() - 1])
    }
}

proof fn lemma_filter_keeps(s: Seq<u128>, root: u128, v: u128)
    requires
        forall|i: int| 0 <= i < s.len() ==> #[trigger] s[i] != root,
    ensures
        way_below(root, v, s) == seq![v] + s,
    decreases s.len(),
{
    reveal_with_fuel(Seq::filter, 1);
    if s.len() > 0 {
        let init = s.drop_last();
        assert forall|i: int| 0 <= i < init.len() implies #[trigger] init[i] != root by {
            assert(init[i] == s[i]);
        }
        lemma_filter_keeps(init, root, v);
        assert(s[s.len() - 1] != root);
        assert(s =~= init.push(s.last()));
        assert(way_below(root, v, init) == seq![v] + init);
        assert(way_below(root, v, s) =~= way_below(root, v, init).push(s.last()));
        assert(way_below(root, v, s) =~= seq![v] + s);
    } else {
        assert(way_below(root, v, s) =~= seq![v] + s);
    }
}

/// Along a deep way the ranks stay below the root's.
proof fn lemma_way_below_root(
    g: Map<u128, Seq<u128>>,
    rank: spec_fn(u128) -> nat,
    root: u128,
    w: Seq<u128>,
    node: u128,
    layer: int,
    i: int,
)
    requires
        descends(g, rank),
        g.contains_key(root),
        layer >= 2,
        good_way(g, root, w, node, layer),
        0 <= i < w.len(),
    ensures
        rank(w[i]) < rank(root),
    decreases w.len() - i,
{
    if i < w.len() - 1 {
        lemma_way_below_root(g, rank, root, w, node, layer, i + 1);
        assert(g[w[i + 1]].contains(w[i]));
        assert(g.contains_key(w[i + 1]));
    } else {
        assert(g[root].contains(w[w.len() - 1]));
    }
}

/// Every meeting of the walk below `v` records the way of its node (see
/// [`good_way`]) where the meeting of `v` does: the root at depth 1, or a
/// child of a parent whose way is good one level up.
pub proof fn lemma_walk_ways(
    g: Map<u128, Seq<u128>>,
    rank: spec_fn(u128) -> nat,
    root: u128,
    v: u128,
    p: u128,
    count: int,
    layer: int,
    pway: Seq<u128>,
    fuel: nat,
)
    requires
        crate::graph::closed(g),
        descends(g, rank),
        g.contains_key(root),
        g.contains_key(v),
        (layer == 1 && v == root && pway.len() == 0) || (layer >= 2 && g.contains_key(p) && g[p].contains(
            v,
        ) && good_way(g, root, pway, p, layer - 1)),
    ensures
        forall|k: int|
            0 <= k < walk(g, root, v, p, count, layer, pway, fuel).len() ==> good_way(
                g,
                root,
                #[trigger] walk(g, root, v, p, count, layer, pway, fuel)[k].way,
                walk(g, root, v, p, count, layer, pway, fuel)[k].node,
                walk(g, root, v, p, count, layer, pway, fuel)[k].layer,
            ),
    decreases fuel, 0nat,
{
    let me = occ_at(g, root, v, p, count, layer, pway, fuel);
    let w = walk(g, root, v, p, count, layer, pway, fuel);
    // The way of `v`.
    if layer == 1 {
        assert(pway =~= Seq::<u128>::empty());
        lemma_filter_keeps(pway, root, v);
        assert(me.way =~= seq![root]);
    } else if layer == 2 {
        assert(pway =~= seq![root]);
        reveal_with_fuel(Seq::filter, 2);
        assert(pway.drop_last() =~= Seq::<u128>::empty());
        assert(pway.filter(|x: u128| x != root) =~= Seq::<u128>::empty());
        assert(me.way =~= seq![v]);
        assert(p == root);
        assert(rank(v) < rank(root));
    } else {
        assert forall|i: int| 0 <= i < pway.len() implies #[trigger] pway[i] != root by {}
        lemma_filter_keeps(pway, root, v);
        assert(me.way =~= seq![v] + pway);
        lemma_way_below_root(g, rank, root, pway, p, layer - 1, 0);
        assert(rank(v) < rank(p));
        let mw = me.way;
        assert forall|i: int| 0 <= i < mw.len() - 1 implies #[trigger] g[mw[i + 1]].contains(mw[i]) by {
            if i > 0 {
                let j = i - 1;
                assert(mw[i] == pway[j] && mw[i + 1] == pway[j + 1]);
                assert(g[pway[j + 1]].contains(pway[j]));
            } else {
                assert(mw[1] == pway[0]);
            }
        }
        assert forall|i: int| 0 <= i < mw.len() implies g.contains_key(#[trigger] mw[i]) && mw[i] != root by {
            if i > 0 {
                assert(mw[i] == pway[i - 1]);
            }
        }
        assert(mw[mw.len() - 1] == pway[pway.len() - 1]);
    }
    assert(good_way(g, root, me.way, v, layer));
    if fuel == 0 {
        assert(w =~= seq![me]);
    } else {
        let cf = (fuel - 1) as nat;
        let l = walk_list(g, root, g[v], v, count + 1, layer + 1, me.way, cf);
        assert(w == seq![me] + l);
        assert forall|t: int| 0 <= t < g[v].len() implies g.contains_key(#[trigger] g[v][t]) && g[v].contains(
            g[v][t],
        ) by {}
        lemma_walk_list_ways(g, rank, root, g[v], v, count + 1, layer + 1, me.way, cf);
        assert forall|k: int| 0 <= k < w.len() implies good_way(
            g,
            root,
            #[trigger] w[k].way,
            w[k].node,
            w[k].layer,
        ) by {
            if k > 0 {
                assert(w[k] == l[k - 1]);
            }
        }
    }
}

proof fn lemma_walk_list_ways(
    g: Map<u128, Seq<u128>>,
    rank: spec_fn(u128) -> nat,
    root: u128,
    cs: Seq<u128>,
    p: u128,
    count: int,
    layer: int,
    pway: Seq<u128>,
    fuel: nat,
)
    requires
        crate::graph::closed(g),
        descends(g, rank),
        g.contains_key(root),
        layer >= 2,
        g.contains_key(p),
        good_way(g, root, pway, p, layer - 1),
        forall|t: int| 0 <= t < cs.len() ==> g.contains_key(#[trigger] cs[t]) && g[p].contains(cs[t]),
    ensures
        forall|k: int|
            0 <= k < walk_list(g, root, cs, p, count, layer, pway, fuel).len() ==> good_way(
                g,
                root,
                #[trigger] walk_list(g, root, cs, p, count, layer, pway, fuel)[k].way,
                walk_list(g, root, cs, p, count, layer, pway, fuel)[k].node,
                walk_list(g, root, cs, p, count, layer, pway, fuel)[k].layer,
            ),
    decreases fuel, cs.len(),
{
    if cs.len() > 0 {
        let init = cs.drop_last();
        let c2 = count + size_list(g, init, fuel);
        let a = walk_list(g, root, init, p, count, layer, pway, fuel);
        let b = walk(g, root, cs.last(), p, c2, layer, pway, fuel);
        let l = walk_list(g, root, cs, p, count, layer, pway, fuel);
        assert(l == a + b);
        assert forall|t: int| 0 <= t < init.len() implies g.contains_key(#[trigger] init[t]) && g[p].contains(
            init[t],
        ) by {
            assert(init[t] == cs[t]);
        }
        assert(g.contains_key(cs[cs.len() - 1]) && g[p].contains(cs[cs.len() - 1]));
        lemma_walk_list_ways(g, rank, root, init, p, count, layer, pway, fuel);
        lemma_walk_ways(g, rank, root, cs.last(), p, c2, layer, pway, fuel);
        assert forall|k: int| 0 <= k < l.len() implies good_way(
            g,
            root,
            #[trigger] l[k].way,
            l[k].node,
            l[k].layer,
        ) by {
            if k < a.len() {
                assert(l[k] == a[k]);
            } else {
                assert(l[k] == b[k - a.len()]);
            }
        }
    }
}

} // verus!
