//! Child lists and intervals agree: in a tree built by `new` and `insert`,
//! a node is a child of another exactly when it holds an interval for it.
use crate::ancestry::{
    descends, good_way, lemma_walk_ancestry, lemma_walk_distinct, lemma_walk_ways, one_parent,
    proper_ancestor,
};
use crate::graph::{
    closed, height, last_meeting, lemma_children_met, lemma_last_meeting, lemma_post_in_pre,
    lemma_pre_in_post,
    lemma_recorded_interval, lemma_walk_codes, size, walk,
};
use crate::hashing::str_hash;
use crate::loading::{built, inserts, is_encoded_tree, line_with, term, tree_encodable, tree_from};
use crate::tree::{
    encoded, encoded_ways, encoding_walk, encoding_walk_post, fresh_node, inserted, MultiTree, lemma_encoded_intervals,
    lemma_encoding_keeps_shape, root_parent_key, shape, with_node, with_root_parent,
};
use crate::tree_node::{
    drop_first_child, drop_first_parent, lemma_drop_first_child, lemma_drop_first_parent,
    parents_of, with_child, with_parent, without_child, without_parent, NodeModel,
};
use vstd::prelude::*;

verus! {

/// `c` is a child of `p` exactly when `c` holds an interval for `p`.
pub open spec fn edge_agrees(m: Map<u128, NodeModel>, c: u128, p: u128) -> bool {
    m[p].childs.contains(c) <==> parents_of(m[c]).contains(p)
}

/// The child lists and the intervals of the nodes `m` agree: every interval
/// is for a node, no node holds two intervals for one parent, and a node is
/// a child of another exactly when it holds an interval for it.
pub open spec fn linked(m: Map<u128, NodeModel>) -> bool {
    &&& forall|c: u128, q: u128|
        m.contains_key(c) && #[trigger] parents_of(m[c]).contains(q) ==> m.contains_key(q)
    &&& forall|c: u128| m.contains_key(c) ==> #[trigger] parents_of(m[c]).no_duplicates()
    &&& forall|c: u128, p: u128|
        m.contains_key(c) && m.contains_key(p) ==> #[trigger] edge_agrees(m, c, p)
}

/// Children are nodes and no child list repeats a node.
pub open spec fn sound_childs(m: Map<u128, NodeModel>) -> bool {
    &&& closed(shape(m))
    &&& forall|k: u128| m.contains_key(k) ==> #[trigger] m[k].childs.no_duplicates()
}

/// Removing the element at `i` from a sequence without repetitions removes
/// exactly that element.
proof fn lemma_remove_contains(t: Seq<u128>, i: int)
    requires
        t.no_duplicates(),
        0 <= i < t.len(),
    ensures
        t.remove(i).no_duplicates(),
        forall|y: u128| #[trigger] t.remove(i).contains(y) <==> (t.contains(y) && y != t[i]),
{
    let r = t.remove(i);
    assert forall|a: int, b: int| 0 <= a < b < r.len() implies r[a] != r[b] by {
        let sa = if a < i { a } else { a + 1 };
        let sb = if b < i { b } else { b + 1 };
        assert(r[a] == t[sa] && r[b] == t[sb]);
    }
    assert forall|y: u128| #[trigger] r.contains(y) <==> (t.contains(y) && y != t[i]) by {
        if r.contains(y) {
            let j = choose|j: int| 0 <= j < r.len() && r[j] == y;
            let sj = if j < i { j } else { j + 1 };
            assert(t[sj] == y);
            assert(sj != i);
        }
        if t.contains(y) && y != t[i] {
            let j = choose|j: int| 0 <= j < t.len() && t[j] == y;
            if j < i {
                assert(r[j] == y);
            } else {
                assert(j != i);
                assert(r[j - 1] == y);
            }
        }
    }
}

/// Dropping the first child `x` from a list without repetitions removes `x`
/// and nothing else.
proof fn lemma_drop_child_contains(s: Seq<u128>, x: u128)
    requires
        s.no_duplicates(),
    ensures
        drop_first_child(s, x).no_duplicates(),
        forall|y: u128|
            #[trigger] drop_first_child(s, x).contains(y) <==> (s.contains(y) && y != x),
{
    if s.contains(x) {
        let i = choose|i: int| 0 <= i < s.len() && s[i] == x;
        assert forall|j: int| 0 <= j < i implies s[j] != x by {
            assert(s[j] != s[i]);
        }
        lemma_drop_first_child(s, x, i);
        lemma_remove_contains(s, i);
    } else {
        crate::tree_node::lemma_drop_absent_child(s, x);
    }
}

/// Dropping the first interval for `x` from a node whose intervals are for
/// distinct parents removes the parent `x` and no other.
proof fn lemma_drop_parent_contains(n: NodeModel, x: u128)
    requires
        parents_of(n).no_duplicates(),
    ensures
        parents_of(without_parent(n, x)).no_duplicates(),
        forall|y: u128|
            #[trigger] parents_of(without_parent(n, x)).contains(y) <==> (parents_of(n).contains(y)
                && y != x),
{
    let s = n.intervals;
    let t = parents_of(n);
    if t.contains(x) {
        let i = choose|i: int| 0 <= i < t.len() && t[i] == x;
        assert forall|j: int| 0 <= j < i implies s[j].parent != x by {
            assert(t[j] != t[i]);
        }
        lemma_drop_first_parent(s, x, i);
        assert(parents_of(without_parent(n, x)) =~= t.remove(i));
        lemma_remove_contains(t, i);
    } else {
        assert forall|j: int| 0 <= j < s.len() implies s[j].parent != x by {
            assert(t[j] == s[j].parent);
        }
        crate::tree_node::lemma_drop_absent_parent(s, x);
        assert(parents_of(without_parent(n, x)) == t);
    }
}

proof fn lemma_with_child_contains(n: NodeModel, c: u128)
    requires
        n.childs.no_duplicates(),
    ensures
        with_child(n, c).childs.no_duplicates(),
        forall|y: u128| #[trigger] with_child(n, c).childs.contains(y) <==> (n.childs.contains(y) || y == c),
{
    if !n.childs.contains(c) {
        let s = n.childs.push(c);
        assert forall|y: u128| #[trigger] s.contains(y) <==> (n.childs.contains(y) || y == c) by {
            if s.contains(y) {
                let j = choose|j: int| 0 <= j < s.len() && s[j] == y;
                if j < n.childs.len() {
                    assert(n.childs[j] == y);
                }
            }
            if n.childs.contains(y) {
                let j = choose|j: int| 0 <= j < n.childs.len() && n.childs[j] == y;
                assert(s[j] == y);
            }
            if y == c {
                assert(s[s.len() - 1] == c);
            }
        }
    }
}

proof fn lemma_with_parent_contains(n: NodeModel, p: u128)
    requires
        parents_of(n).no_duplicates(),
        !parents_of(n).contains(p),
    ensures
        parents_of(with_parent(n, p)).no_duplicates(),
        forall|y: u128| #[trigger] parents_of(with_parent(n, p)).contains(y) <==> (parents_of(
            n,
        ).contains(y) || y == p),
{
    let t = parents_of(n);
    let s = parents_of(with_parent(n, p));
    assert(s =~= t.push(p));
    assert forall|y: u128| #[trigger] s.contains(y) <==> (t.contains(y) || y == p) by {
        if s.contains(y) {
            let j = choose|j: int| 0 <= j < s.len() && s[j] == y;
            if j < t.len() {
                assert(t[j] == y);
            }
        }
        if t.contains(y) {
            let j = choose|j: int| 0 <= j < t.len() && t[j] == y;
            assert(s[j] == y);
        }
        if y == p {
            assert(s[s.len() - 1] == p);
        }
    }
}

/// A node that is not a child of any node, or a parent of any node, of a
/// tree whose children are nodes.
proof fn lemma_absent_unlinked(m: Map<u128, NodeModel>, k: u128, x: u128)
    requires
        sound_childs(m),
        linked(m),
        !m.contains_key(k),
        m.contains_key(x),
    ensures
        !m[x].childs.contains(k),
        !parents_of(m[x]).contains(k),
{
    if m[x].childs.contains(k) {
        let i = choose|i: int| 0 <= i < m[x].childs.len() && m[x].childs[i] == k;
        assert(shape(m)[x] == m[x].childs);
        assert(shape(m).contains_key(shape(m)[x][i]));
    }
}

/// Making a fresh node keeps the child lists and the intervals in agreement.
proof fn lemma_with_node_linked(m: Map<u128, NodeModel>, k: u128)
    requires
        sound_childs(m),
        linked(m),
    ensures
        sound_childs(with_node(m, k)),
        linked(with_node(m, k)),
{
    if !m.contains_key(k) {
        let m1 = m.insert(k, fresh_node(k));
        assert(parents_of(fresh_node(k)) =~= Seq::<u128>::empty());
        assert forall|v: u128, i: int|
            shape(m1).contains_key(v) && 0 <= i < shape(m1)[v].len() implies #[trigger] shape(
            m1,
        ).contains_key(shape(m1)[v][i]) by {
            assert(v != k);
            assert(shape(m)[v] == shape(m1)[v]);
            assert(shape(m).contains_key(shape(m)[v][i]));
        }
        assert forall|c: u128, q: u128|
            m1.contains_key(c) && #[trigger] parents_of(m1[c]).contains(q) implies m1.contains_key(
            q,
        ) by {
            if c != k {
                assert(parents_of(m[c]).contains(q));
            }
        }
        assert forall|c: u128, p: u128| m1.contains_key(c) && m1.contains_key(p) implies #[trigger] edge_agrees(
            m1,
            c,
            p,
        ) by {
            if c == k && p != k {
                lemma_absent_unlinked(m, k, p);
            } else if p == k && c != k {
                lemma_absent_unlinked(m, k, c);
            } else if c != k && p != k {
                assert(edge_agrees(m, c, p));
            }
        }
    }
}

/// A tree with one fresh node has child lists and intervals in agreement.
pub proof fn lemma_fresh_linked(k: u128)
    ensures
        linked(map![k => fresh_node(k)]),
        sound_childs(map![k => fresh_node(k)]),
{
    let m = map![k => fresh_node(k)];
    assert(parents_of(fresh_node(k)) =~= Seq::<u128>::empty());
    assert(shape(m)[k] =~= Seq::<u128>::empty());
}

/// Inserting keeps the child lists and the intervals in agreement, children
/// nodes and child lists free of repetition.
pub proof fn lemma_insert_keeps_linked(m: Map<u128, NodeModel>, root: u128, c: u128, p: u128)
    requires
        m.contains_key(root),
        sound_childs(m),
        linked(m),
    ensures
        sound_childs(inserted(m, root, c, p).0),
        linked(inserted(m, root, c, p).0),
        inserted(m, root, c, p).0.dom() == m.dom().insert(c).insert(p),
        parents_of(inserted(m, root, c, p).0[c]).contains(p),
        !m.contains_key(p) ==> parents_of(inserted(m, root, c, p).0[p]).contains(root),
        forall|y: u128, x: u128|
            #![trigger inserted(m, root, c, p).0[y].childs.contains(x)]
            inserted(m, root, c, p).0.contains_key(y) && inserted(m, root, c, p).0[y].childs.contains(
                x,
            ) ==> (m.contains_key(y) && m[y].childs.contains(x)) || (y == p && x == c) || (y
                == root && x == p && !m.contains_key(p)),
        forall|x: u128, y: u128|
            #![trigger parents_of(inserted(m, root, c, p).0[x]).contains(y)]
            m.contains_key(x) && x != c && parents_of(m[x]).contains(y) ==> parents_of(
                inserted(m, root, c, p).0[x],
            ).contains(y),
{
    let pe = m.contains_key(p);
    lemma_with_node_linked(m, c);
    lemma_with_node_linked(with_node(m, c), p);
    let m1 = with_node(with_node(m, c), p);
    assert(m1.dom() =~= m.dom().insert(c).insert(p));
    assert forall|y: u128| #[trigger] m1.contains_key(y) && !m.contains_key(y) implies m1[y].childs
        =~= Seq::<u128>::empty() && parents_of(m1[y]) =~= Seq::<u128>::empty() by {}
    assert forall|y: u128| #[trigger] m.contains_key(y) implies m1[y] == m[y] by {}
    if m1[p].childs.contains(c) {
        assert(m1.contains_key(c) && m1.contains_key(p));
        assert(edge_agrees(m1, c, p));
        assert(m.contains_key(p));
        assert(m.contains_key(c));
        assert(m1 =~= m);
    }
    if !m1[p].childs.contains(c) {
        assert(m1.contains_key(c) && m1.contains_key(p) && m1.contains_key(root));
        assert(edge_agrees(m1, c, p));
        assert(!parents_of(m1[c]).contains(p));
        lemma_with_child_contains(m1[p], c);
        let m2 = m1.insert(p, with_child(m1[p], c));
        let had_root = parents_of(m2[c]).contains(root);
        if had_root {
            assert(p != root) by {
                if p == root {
                    assert(c != p);
                    assert(m2[c] == m1[c]);
                }
            }
        }
        let m3 = if had_root {
            m2.insert(root, without_child(m2[root], c))
        } else {
            m2
        };
        let m4 = if had_root {
            m3.insert(c, without_parent(m3[c], root))
        } else {
            m3
        };
        let m5a = m4.insert(root, with_child(m4[root], p));
        let m5 = if !pe {
            m5a.insert(p, with_parent(m5a[p], root))
        } else {
            m4
        };
        let m6 = m5.insert(c, with_parent(m5[c], p));
        assert(inserted(m, root, c, p).0 == m6);
        if had_root {
            lemma_drop_child_contains(m2[root].childs, c);
            lemma_drop_parent_contains(m3[c], root);
        }
        // `had_root` needs a node that was there, so a new `p` is not `c`
        // unless `c` was new too.
        if !pe {
            assert(p != root);
            assert(parents_of(m1[p]) =~= Seq::<u128>::empty());
            assert(m1[p].childs =~= Seq::<u128>::empty());
            assert(!m1[root].childs.contains(p)) by {
                lemma_absent_unlinked(m, p, root);
            }
            if p == c {
                assert(!had_root);
            }
        }
        // The child lists of `m4`.
        assert(m4[root].childs.no_duplicates()) by {
            if had_root {
            } else {
                assert(m4[root] == m2[root]);
            }
        }
        lemma_with_child_contains(m4[root], p);
        // The parents of `c` in `m5`.
        assert(parents_of(m5[c]).no_duplicates() && !parents_of(m5[c]).contains(p)
            && forall|y: u128| #[trigger] parents_of(m5[c]).contains(y) <==> ((parents_of(
            m1[c],
        ).contains(y) && !(had_root && y == root)) || (!pe && p == c && y == root))) by {
            if !pe && p == c {
                lemma_with_parent_contains(m5a[p], root);
                assert(m5a[p].intervals == m1[c].intervals);
            } else if had_root {
                assert(m5[c].intervals == m4[c].intervals);
                assert(parents_of(m5[c]) == parents_of(m4[c]));
            } else {
                assert(m5[c].intervals == m1[c].intervals);
            }
        }
        lemma_with_parent_contains(m5[c], p);
        if !pe && p != c {
            lemma_with_parent_contains(m5a[p], root);
            assert(m5a[p].intervals == m1[p].intervals);
        }
        assert forall|y: u128| #[trigger] m6.contains_key(y) implies m6[y].childs.no_duplicates()
            && (forall|x: u128| #[trigger] m6[y].childs.contains(x) <==> (if y == root && !pe {
            (m4[root].childs.contains(x) || x == p)
        } else if y == root && had_root {
            m1[root].childs.contains(x) && x != c
        } else if y == p {
            m1[p].childs.contains(x) || x == c
        } else {
            m1[y].childs.contains(x)
        })) by {
            assert(m1.contains_key(y));
            if y == root && !pe {
                assert(m6[y].childs == with_child(m4[root], p).childs);
            } else if y == root && had_root {
                assert(m6[y].childs == drop_first_child(m2[root].childs, c));
            } else if y == p {
                assert(m6[y].childs == with_child(m1[p], c).childs);
            } else {
                assert(m6[y].childs == m1[y].childs);
            }
        }
        assert forall|x: u128| #[trigger] m6.contains_key(x) implies parents_of(m6[x]).no_duplicates()
            && (forall|y: u128| #[trigger] parents_of(m6[x]).contains(y) <==> (if x == c {
            (parents_of(m1[c]).contains(y) && !(had_root && y == root)) || (!pe && p == c && y
                == root) || y == p
        } else if x == p && !pe {
            y == root
        } else {
            parents_of(m1[x]).contains(y)
        })) by {
            assert(m1.contains_key(x));
            if x == c {
                assert(m6[x] == with_parent(m5[c], p));
            } else if x == p && !pe {
                assert(m6[x] == with_parent(m5a[p], root));
            } else {
                assert(m6[x].intervals == m1[x].intervals);
                assert(parents_of(m6[x]) == parents_of(m1[x]));
                assert(parents_of(m1[x]).no_duplicates());
            }
        }
        assert forall|v: u128, i: int|
            shape(m6).contains_key(v) && 0 <= i < shape(m6)[v].len() implies #[trigger] shape(
            m6,
        ).contains_key(shape(m6)[v][i]) by {
            let x = shape(m6)[v][i];
            assert(m6[v].childs.contains(x));
            assert(m1.contains_key(v));
            if !(x == c || x == p) {
                assert(m1[v].childs.contains(x) || (v == root && m4[root].childs.contains(x)));
                if m1[v].childs.contains(x) {
                    let j = choose|j: int| 0 <= j < m1[v].childs.len() && m1[v].childs[j] == x;
                    assert(shape(m1)[v][j] == x);
                    assert(shape(m1).contains_key(shape(m1)[v][j]));
                } else {
                    assert(m4[root].childs.contains(x));
                    assert(m4[root].childs == m2[root].childs || had_root);
                    if had_root {
                        assert(m2[root].childs.contains(x));
                    }
                    let j = choose|j: int| 0 <= j < m1[root].childs.len() && m1[root].childs[j] == x;
                    assert(shape(m1)[root][j] == x);
                    assert(shape(m1).contains_key(shape(m1)[root][j]));
                }
            }
        }
        assert forall|cc: u128, q: u128|
            m6.contains_key(cc) && #[trigger] parents_of(m6[cc]).contains(q) implies m6.contains_key(
            q,
        ) by {
            assert(m1.contains_key(cc));
            if parents_of(m1[cc]).contains(q) {
            }
        }
        assert forall|x: u128, y: u128| m6.contains_key(x) && m6.contains_key(y) implies #[trigger] edge_agrees(
            m6,
            x,
            y,
        ) by {
            assert(edge_agrees(m1, x, y));
            assert(edge_agrees(m1, x, root));
            if !pe {
                assert(edge_agrees(m1, p, y));
                assert(!m1[y].childs.contains(p)) by {
                    if m.contains_key(y) {
                        lemma_absent_unlinked(m, p, y);
                        assert(m1[y] == m[y]);
                    } else {
                        assert(m1[y].childs =~= Seq::<u128>::empty());
                    }
                }
            }
        }
    }
}


/// Inserting an edge a second time is refused and changes nothing: once
/// `insert(c, p)` has run on a tree whose child lists and intervals agree,
/// `c` is a child of `p`, so inserting `(c, p)` again returns `false` and
/// leaves every node as it is.
pub proof fn lemma_insert_again_refused(m: Map<u128, NodeModel>, root: u128, c: u128, p: u128)
    requires
        m.contains_key(root),
        sound_childs(m),
        linked(m),
    ensures
        ({
            let m1 = inserted(m, root, c, p).0;
            &&& m1[p].childs.contains(c)
            &&& inserted(m1, root, c, p) == (m1, false)
        }),
{
    crate::tree::lemma_insert_links(m, root, c, p);
    lemma_insert_keeps_linked(m, root, c, p);
    let (m1, added) = inserted(m, root, c, p);
    if added {
        let n = m1[c].intervals.len();
        assert(parents_of(m1[c])[n - 1] == p);
        assert(parents_of(m1[c]).contains(p));
        assert(edge_agrees(m1, c, p));
    }
    crate::tree::lemma_insert_links(m1, root, c, p);
}

/// Inserting the edges of some lines, one after the other, keeps the child
/// lists and the intervals in agreement, and keeps the root.
pub proof fn lemma_built_linked(
    m: Map<u128, NodeModel>,
    root: u128,
    lines: Seq<Seq<char>>,
    preds: Seq<Seq<char>>,
)
    requires
        m.contains_key(root),
        sound_childs(m),
        linked(m),
    ensures
        built(m, root, lines, preds).contains_key(root),
        sound_childs(built(m, root, lines, preds)),
        linked(built(m, root, lines, preds)),
    decreases lines.len(),
{
    if lines.len() > 0 {
        lemma_built_linked(m, root, lines.drop_last(), preds);
        let m0 = built(m, root, lines.drop_last(), preds);
        let l = lines.last();
        if term(l, 1) is Some && preds.contains(term(l, 1)->0) && term(l, 0) is Some && term(
            l,
            2,
        ) is Some {
            let c = str_hash(term(l, 0)->0);
            let p = str_hash(term(l, 2)->0);
            crate::tree::lemma_insert_links(m0, root, c, p);
            lemma_insert_keeps_linked(m0, root, c, p);
        }
    }
}

/// In a tree built from lines, a node is a child of another exactly when it
/// holds an interval for it, every interval is for a node, and no node holds
/// two intervals for one parent.
pub proof fn lemma_tree_from_linked(root: Seq<char>, lines: Seq<Seq<char>>, preds: Seq<Seq<char>>)
    ensures
        linked(tree_from(root, lines, preds)),
        sound_childs(tree_from(root, lines, preds)),
{
    lemma_fresh_linked(str_hash(root));
    lemma_built_linked(
        map![str_hash(root) => fresh_node(str_hash(root))],
        str_hash(root),
        lines,
        preds,
    );
}

/// `rank` puts the root above every other node.
pub open spec fn root_on_top(root: u128, rank: spec_fn(u128) -> nat) -> bool {
    forall|x: u128| x != root ==> #[trigger] rank(x) < rank(root)
}

/// Every edge that `lines` insert against `preds` goes down in `rank`: the
/// inserted edges form no cycle.
pub open spec fn edges_ranked(
    lines: Seq<Seq<char>>,
    preds: Seq<Seq<char>>,
    rank: spec_fn(u128) -> nat,
) -> bool {
    forall|i: int|
        0 <= i < lines.len() && term(#[trigger] lines[i], 1) is Some && preds.contains(
            term(lines[i], 1)->0,
        ) && term(lines[i], 0) is Some && term(lines[i], 2) is Some ==> rank(
            str_hash(term(lines[i], 0)->0),
        ) < rank(str_hash(term(lines[i], 2)->0))
}

/// Every child is below its parent in `rank`, and every node but the root
/// holds an interval.
pub open spec fn ranked(m: Map<u128, NodeModel>, root: u128, rank: spec_fn(u128) -> nat) -> bool {
    &&& forall|y: u128, x: u128|
        m.contains_key(y) && #[trigger] m[y].childs.contains(x) ==> rank(x) < rank(y)
    &&& forall|x: u128| m.contains_key(x) && x != root ==> #[trigger] parents_of(m[x]).len() > 0
}

proof fn lemma_insert_ranked(
    m: Map<u128, NodeModel>,
    root: u128,
    c: u128,
    p: u128,
    rank: spec_fn(u128) -> nat,
)
    requires
        m.contains_key(root),
        sound_childs(m),
        linked(m),
        ranked(m, root, rank),
        root_on_top(root, rank),
        rank(c) < rank(p),
    ensures
        ranked(inserted(m, root, c, p).0, root, rank),
{
    lemma_insert_keeps_linked(m, root, c, p);
    let m6 = inserted(m, root, c, p).0;
    assert forall|y: u128, x: u128| m6.contains_key(y) && #[trigger] m6[y].childs.contains(x) implies rank(
        x,
    ) < rank(y) by {
        if m.contains_key(y) && m[y].childs.contains(x) {
        } else if y == p && x == c {
        } else {
            assert(rank(p) < rank(root));
        }
    }
    assert forall|x: u128| m6.contains_key(x) && x != root implies #[trigger] parents_of(m6[x]).len()
        > 0 by {
        if x == c {
        } else if x == p && !m.contains_key(p) {
        } else {
            assert(m.contains_key(x));
            assert(parents_of(m[x]).len() > 0);
            assert(parents_of(m[x]).contains(parents_of(m[x])[0]));
            assert(parents_of(m6[x]).contains(parents_of(m[x])[0]));
        }
    }
}

proof fn lemma_built_ranked(
    m: Map<u128, NodeModel>,
    root: u128,
    lines: Seq<Seq<char>>,
    preds: Seq<Seq<char>>,
    rank: spec_fn(u128) -> nat,
)
    requires
        m.contains_key(root),
        sound_childs(m),
        linked(m),
        ranked(m, root, rank),
        root_on_top(root, rank),
        edges_ranked(lines, preds, rank),
    ensures
        ranked(built(m, root, lines, preds), root, rank),
    decreases lines.len(),
{
    if lines.len() > 0 {
        let init = lines.drop_last();
        assert forall|i: int|
            0 <= i < init.len() && term(#[trigger] init[i], 1) is Some && preds.contains(
                term(init[i], 1)->0,
            ) && term(init[i], 0) is Some && term(init[i], 2) is Some implies rank(
            str_hash(term(init[i], 0)->0),
        ) < rank(str_hash(term(init[i], 2)->0)) by {
            assert(init[i] == lines[i]);
        }
        lemma_built_ranked(m, root, init, preds, rank);
        lemma_built_linked(m, root, init, preds);
        let m0 = built(m, root, init, preds);
        let l = lines.last();
        if term(l, 1) is Some && preds.contains(term(l, 1)->0) && term(l, 0) is Some && term(
            l,
            2,
        ) is Some {
            assert(lines[lines.len() - 1] == l);
            let c = str_hash(term(l, 0)->0);
            let p = str_hash(term(l, 2)->0);
            lemma_insert_ranked(m0, root, c, p, rank);
        }
    }
}

/// The walk that encodes a ranked tree meets every node of it: each node but
/// the root holds an interval for a parent above it, which is met, and a
/// child of a node met is met below it.
proof fn lemma_every_node_met(
    m: Map<u128, NodeModel>,
    root: u128,
    rank: spec_fn(u128) -> nat,
    x: u128,
)
    requires
        m.contains_key(root),
        m.contains_key(x),
        linked(m),
        ranked(m, root, rank),
        root_on_top(root, rank),
        ({
            let m1 = with_root_parent(m, root);
            let g = shape(m1);
            height(g, root, g.len()) < g.len()
        }),
    ensures
        ({
            let m1 = with_root_parent(m, root);
            let g = shape(m1);
            let w = walk(g, root, root, m1[root].intervals[0].parent, 0, 1, Seq::empty(), g.len());
            exists|i: int| 0 <= i < w.len() && #[trigger] w[i].node == x
        }),
    decreases rank(root) - rank(x),
{
    let m1 = with_root_parent(m, root);
    let g = shape(m1);
    let p0 = m1[root].intervals[0].parent;
    let w = walk(g, root, root, p0, 0, 1, Seq::empty(), g.len());
    lemma_walk_codes(g, root, root, p0, 0, 1, Seq::empty(), g.len());
    if x == root {
        assert(w[0].node == root);
    } else {
        assert(rank(x) < rank(root));
        let q = parents_of(m[x])[0];
        assert(parents_of(m[x]).contains(q));
        assert(m.contains_key(q));
        assert(edge_agrees(m, x, q));
        assert(m[q].childs.contains(x));
        assert(rank(x) < rank(q));
        if q != root {
            assert(rank(q) < rank(root));
        }
        lemma_every_node_met(m, root, rank, q);
        let i = choose|i: int| 0 <= i < w.len() && #[trigger] w[i].node == q;
        assert(m1.contains_key(q));
        assert(g[q] == m1[q].childs);
        assert(m1[q].childs == m[q].childs);
        lemma_children_met(g, root, root, p0, 0, 1, Seq::empty(), g.len(), i, x);
        let j = choose|j: int| 0 <= j < w.len() && #[trigger] w[j].node == x && w[j].parent == q;
    }
}

/// The README's law for every stored interval: in a tree built from lines
/// whose inserted edges form no cycle (some rank puts every child below its
/// parent and the root above every other node), once encoded, every
/// interval of every node starts at 1 or later and ends at its start plus
/// the number of nodes in the tree unfolded below its node (what
/// `count_childs_by_str` gives), within the numbers handed out.
pub proof fn lemma_every_interval_coded(
    root_s: Seq<char>,
    lines: Seq<Seq<char>>,
    preds: Seq<Seq<char>>,
    rank: spec_fn(u128) -> nat,
    k: u128,
    t: int,
)
    requires
        root_on_top(str_hash(root_s), rank),
        edges_ranked(lines, preds, rank),
        tree_encodable(root_s, lines, preds),
        encoded(tree_from(root_s, lines, preds), str_hash(root_s)).contains_key(k),
        0 <= t < encoded(tree_from(root_s, lines, preds), str_hash(root_s))[k].intervals.len(),
    ensures
        ({
            let e = encoded(tree_from(root_s, lines, preds), str_hash(root_s));
            let g = shape(e);
            let iv = e[k].intervals[t];
            &&& 1 <= iv.start <= iv.end <= size(g, str_hash(root_s), g.len())
            &&& iv.end - iv.start == size(g, k, g.len()) - 1
        }),
{
    let root = str_hash(root_s);
    let m = tree_from(root_s, lines, preds);
    let m0 = map![root => fresh_node(root)];
    lemma_tree_from_linked(root_s, lines, preds);
    lemma_fresh_linked(root);
    assert(parents_of(fresh_node(root)) =~= Seq::<u128>::empty());
    assert(ranked(m0, root, rank));
    lemma_built_linked(m0, root, lines, preds);
    lemma_built_ranked(m0, root, lines, preds, rank);
    assert(m.contains_key(root));
    // The root holds no interval before encoding: a parent of it would be
    // above it.
    assert(parents_of(m[root]).len() == 0) by {
        if parents_of(m[root]).len() > 0 {
            let q = parents_of(m[root])[0];
            assert(parents_of(m[root]).contains(q));
            assert(edge_agrees(m, root, q));
            assert(rank(root) < rank(q));
        }
    }
    let m1 = with_root_parent(m, root);
    let g = shape(m1);
    let p0 = m1[root].intervals[0].parent;
    assert(p0 == root_parent_key());
    lemma_encoding_keeps_shape(m, root);
    assert(shape(encoded(m, root)) == g);
    crate::graph::lemma_record_all_keeps_shape(m1, encoding_walk_post(m1, root, p0));
    assert(m1.contains_key(k));
    assert(encoded(m, root)[k].intervals.len() == m1[k].intervals.len());
    lemma_encoded_intervals(m, root, k, t);
    let q = m1[k].intervals[t].parent;
    let w = walk(g, root, root, p0, 0, 1, Seq::empty(), g.len());
    let os = encoding_walk_post(m1, root, p0);
    // The walk meets `k` below `q`.
    let j: int = if k == root {
        assert(t == 0);
        lemma_walk_codes(g, root, root, p0, 0, 1, Seq::empty(), g.len());
        assert(w[0].node == root && w[0].parent == p0);
        0
    } else {
        assert(m.contains_key(k)) by {
            if !m.contains_key(k) {
                assert(m1[k] == fresh_node(k));
            }
        }
        assert(m1[k] == m[k]);
        assert(parents_of(m[k])[t] == q);
        assert(parents_of(m[k]).contains(q));
        assert(m.contains_key(q));
        assert(edge_agrees(m, k, q));
        lemma_every_node_met(m, root, rank, q);
        let i = choose|i: int| 0 <= i < w.len() && #[trigger] w[i].node == q;
        assert(g[q] == m[q].childs);
        lemma_children_met(g, root, root, p0, 0, 1, Seq::empty(), g.len(), i, k);
        choose|j: int| 0 <= j < w.len() && #[trigger] w[j].node == k && w[j].parent == q
    };
    assert(w[j].node == k && w[j].parent == q);
    lemma_pre_in_post(g, root, root, p0, 0, 1, Seq::empty(), g.len(), j);
    let jj = choose|jj: int| 0 <= jj < os.len() && os[jj] == w[j];
    lemma_last_meeting(os, k, q);
    assert(os[jj].node == k && os[jj].parent == q);
    assert(last_meeting(os, k, q) >= 0);
}

/// Once a tree built from lines whose inserted edges form no cycle is
/// encoded, no node holds an interval still without a code (start 0), so
/// `find_first_unencoded_parent` gives `usize::MAX` for every node.
pub proof fn lemma_nothing_left_unencoded(
    root_s: Seq<char>,
    lines: Seq<Seq<char>>,
    preds: Seq<Seq<char>>,
    rank: spec_fn(u128) -> nat,
    k: u128,
)
    requires
        root_on_top(str_hash(root_s), rank),
        edges_ranked(lines, preds, rank),
        tree_encodable(root_s, lines, preds),
        encoded(tree_from(root_s, lines, preds), str_hash(root_s)).contains_key(k),
    ensures
        forall|j: int|
            0 <= j < encoded(tree_from(root_s, lines, preds), str_hash(root_s))[k].intervals.len()
                ==> #[trigger] encoded(tree_from(root_s, lines, preds), str_hash(
                root_s,
            ))[k].intervals[j].start != 0,
{
    let e = encoded(tree_from(root_s, lines, preds), str_hash(root_s));
    assert forall|j: int| 0 <= j < e[k].intervals.len() implies #[trigger] e[k].intervals[j].start
        != 0 by {
        lemma_every_interval_coded(root_s, lines, preds, rank, k, j);
    }
}

/// What holds of a tree built from lines whose inserted edges form no cycle:
/// its child lists and intervals agree, ranks go down its edges, the root
/// holds no interval, and the child lists of the tree once `root_parent` is
/// added are closed, go down in rank and repeat no node.
proof fn lemma_ranked_tree_facts(
    root_s: Seq<char>,
    lines: Seq<Seq<char>>,
    preds: Seq<Seq<char>>,
    rank: spec_fn(u128) -> nat,
)
    requires
        root_on_top(str_hash(root_s), rank),
        edges_ranked(lines, preds, rank),
    ensures
        ({
            let root = str_hash(root_s);
            let m = tree_from(root_s, lines, preds);
            let m1 = with_root_parent(m, root);
            let g = shape(m1);
            &&& m.contains_key(root)
            &&& linked(m)
            &&& sound_childs(m)
            &&& ranked(m, root, rank)
            &&& parents_of(m[root]).len() == 0
            &&& m1[root].intervals.len() == 1
            &&& m1[root].intervals[0].parent == root_parent_key()
            &&& forall|x: u128| #[trigger] m.contains_key(x) && x != root ==> m1[x] == m[x]
            &&& forall|x: u128| #[trigger] m.contains_key(x) ==> g[x] == m[x].childs
            &&& crate::graph::closed(g)
            &&& descends(g, rank)
            &&& forall|y: u128| g.contains_key(y) ==> #[trigger] g[y].no_duplicates()
        }),
{
    let root = str_hash(root_s);
    let m = tree_from(root_s, lines, preds);
    let m0 = map![root => fresh_node(root)];
    lemma_tree_from_linked(root_s, lines, preds);
    lemma_fresh_linked(root);
    assert(parents_of(fresh_node(root)) =~= Seq::<u128>::empty());
    assert(ranked(m0, root, rank));
    lemma_built_linked(m0, root, lines, preds);
    lemma_built_ranked(m0, root, lines, preds, rank);
    assert(parents_of(m[root]).len() == 0) by {
        if parents_of(m[root]).len() > 0 {
            let q = parents_of(m[root])[0];
            assert(parents_of(m[root]).contains(q));
            assert(edge_agrees(m, root, q));
            assert(rank(root) < rank(q));
        }
    }
    let mn = with_node(m, root_parent_key());
    lemma_with_node_linked(m, root_parent_key());
    let m1 = with_root_parent(m, root);
    let g = shape(m1);
    assert(shape(m1) =~= shape(mn));
    assert(m[root].intervals.len() == 0);
    assert(mn[root] == m[root]);
    assert forall|y: u128, x: u128| g.contains_key(y) && #[trigger] g[y].contains(x) implies rank(x)
        < rank(y) by {
        if m.contains_key(y) {
            assert(g[y] == m[y].childs);
        } else {
            assert(g[y] == fresh_node(y).childs);
        }
    }
}

/// No node of `m` holds intervals for two parents.
pub open spec fn single_parents(m: Map<u128, NodeModel>) -> bool {
    forall|x: u128| m.contains_key(x) ==> #[trigger] parents_of(m[x]).len() <= 1
}

/// The README's ancestry law for the stored codes of an encoded tree: in a
/// tree built from lines whose inserted edges form no cycle and where no node
/// has two parents, once encoded, every node holds one interval, and node
/// `a` is a proper ancestor of node `b` exactly when the code of `b` starts
/// within the code of `a` (`start_a < start_b <= end_a`).
pub proof fn lemma_stored_codes_tell_ancestry(
    root_s: Seq<char>,
    lines: Seq<Seq<char>>,
    preds: Seq<Seq<char>>,
    rank: spec_fn(u128) -> nat,
    a: u128,
    b: u128,
)
    requires
        root_on_top(str_hash(root_s), rank),
        edges_ranked(lines, preds, rank),
        tree_encodable(root_s, lines, preds),
        single_parents(tree_from(root_s, lines, preds)),
        tree_from(root_s, lines, preds).contains_key(a),
        tree_from(root_s, lines, preds).contains_key(b),
    ensures
        ({
            let e = encoded(tree_from(root_s, lines, preds), str_hash(root_s));
            let ca = e[a].intervals[0];
            let cb = e[b].intervals[0];
            &&& e[a].intervals.len() == 1
            &&& e[b].intervals.len() == 1
            &&& (ca.start < cb.start <= ca.end) <==> proper_ancestor(shape(e), a, b)
        }),
{
    let root = str_hash(root_s);
    let m = tree_from(root_s, lines, preds);
    lemma_ranked_tree_facts(root_s, lines, preds, rank);
    let m1 = with_root_parent(m, root);
    let g = shape(m1);
    let f = g.len();
    let p0 = m1[root].intervals[0].parent;
    lemma_encoding_keeps_shape(m, root);
    assert(shape(encoded(m, root)) == g);
    assert(one_parent(g)) by {
        assert forall|x: u128, y1: u128, y2: u128|
            g.contains_key(y1) && g.contains_key(y2) && #[trigger] g[y1].contains(x)
                && #[trigger] g[y2].contains(x) implies y1 == y2 by {
            assert(m.contains_key(y1)) by {
                if !m.contains_key(y1) {
                    assert(g[y1] == fresh_node(y1).childs);
                }
            }
            assert(m.contains_key(y2)) by {
                if !m.contains_key(y2) {
                    assert(g[y2] == fresh_node(y2).childs);
                }
            }
            let i1 = choose|i1: int| 0 <= i1 < m[y1].childs.len() && m[y1].childs[i1] == x;
            assert(shape(m)[y1][i1] == x);
            assert(shape(m).contains_key(shape(m)[y1][i1]));
            assert(m.contains_key(x));
            assert(edge_agrees(m, x, y1));
            assert(edge_agrees(m, x, y2));
            let ps = parents_of(m[x]);
            let t1 = choose|t1: int| 0 <= t1 < ps.len() && ps[t1] == y1;
            let t2 = choose|t2: int| 0 <= t2 < ps.len() && ps[t2] == y2;
            assert(ps.len() <= 1);
        }
    }
    let ia = lemma_stored_code(root_s, lines, preds, rank, a);
    let ib = lemma_stored_code(root_s, lines, preds, rank, b);
    lemma_walk_ancestry(g, rank, root, root, p0, 0, 1, Seq::empty(), f, ia, ib);
}

/// In such a tree, once encoded, a node holds one interval, and its code is
/// that of the one meeting of it in the encoding walk.
proof fn lemma_stored_code(
    root_s: Seq<char>,
    lines: Seq<Seq<char>>,
    preds: Seq<Seq<char>>,
    rank: spec_fn(u128) -> nat,
    x: u128,
) -> (i: int)
    requires
        root_on_top(str_hash(root_s), rank),
        edges_ranked(lines, preds, rank),
        tree_encodable(root_s, lines, preds),
        single_parents(tree_from(root_s, lines, preds)),
        tree_from(root_s, lines, preds).contains_key(x),
        one_parent(shape(with_root_parent(tree_from(root_s, lines, preds), str_hash(root_s)))),
    ensures
        ({
            let root = str_hash(root_s);
            let m = tree_from(root_s, lines, preds);
            let m1 = with_root_parent(m, root);
            let g = shape(m1);
            let w = walk(g, root, root, m1[root].intervals[0].parent, 0, 1, Seq::empty(), g.len());
            let e = encoded(m, root);
            &&& 0 <= i < w.len()
            &&& w[i].node == x
            &&& e[x].intervals.len() == 1
            &&& e[x].intervals[0].start == w[i].start
            &&& e[x].intervals[0].end == w[i].end
        }),
{
    let root = str_hash(root_s);
    let m = tree_from(root_s, lines, preds);
    lemma_ranked_tree_facts(root_s, lines, preds, rank);
    let m1 = with_root_parent(m, root);
    let g = shape(m1);
    let f = g.len();
    let p0 = m1[root].intervals[0].parent;
    let w = walk(g, root, root, p0, 0, 1, Seq::empty(), f);
    let os = encoding_walk_post(m1, root, p0);
    assert(m1.contains_key(x));
    assert(m1[x].intervals.len() == 1) by {
        if x != root {
            assert(m1[x] == m[x]);
            assert(parents_of(m[x]).len() <= 1);
            assert(parents_of(m[x]).len() > 0);
        }
    }
    crate::graph::lemma_record_all_keeps_shape(m1, os);
    let q = m1[x].intervals[0].parent;
    // The walk meets `x` below `q`.
    let j: int = if x == root {
        lemma_walk_codes(g, root, root, p0, 0, 1, Seq::empty(), f);
        assert(w[0].node == root && w[0].parent == p0);
        0
    } else {
        assert(m1[x] == m[x]);
        assert(parents_of(m[x])[0] == q);
        assert(parents_of(m[x]).contains(q));
        assert(m.contains_key(q));
        assert(edge_agrees(m, x, q));
        lemma_every_node_met(m, root, rank, q);
        let i0 = choose|i0: int| 0 <= i0 < w.len() && #[trigger] w[i0].node == q;
        lemma_children_met(g, root, root, p0, 0, 1, Seq::empty(), f, i0, x);
        choose|j: int| 0 <= j < w.len() && #[trigger] w[j].node == x && w[j].parent == q
    };
    assert(w[j].node == x && w[j].parent == q);
    lemma_pre_in_post(g, root, root, p0, 0, 1, Seq::empty(), f, j);
    let jj = choose|jj: int| 0 <= jj < os.len() && os[jj] == w[j];
    lemma_last_meeting(os, x, q);
    assert(os[jj].node == x && os[jj].parent == q);
    let li = last_meeting(os, x, q);
    assert(li >= 0);
    lemma_recorded_interval(m1, os, x, 0);
    // The last meeting is the meeting `j`: the walk meets `x` once.
    lemma_post_in_pre(g, root, root, p0, 0, 1, Seq::empty(), f, li);
    let k = choose|k: int| 0 <= k < w.len() && w[k] == os[li];
    lemma_walk_distinct(g, rank, root, root, p0, 0, 1, Seq::empty(), f);
    if k != j {
        if k < j {
            assert(w[k].node != w[j].node);
        } else {
            assert(w[j].node != w[k].node);
        }
    }
    assert(os[li] == w[j]);
    lemma_walk_codes(g, root, root, p0, 0, 1, Seq::empty(), f);
    assert(w[j].start == 1 + j);
    let bj = w[j].end - w[j].start + 1;
    assert(j + bj <= w.len());
    assert(w.len() == size(g, root, f));
    j
}

proof fn lemma_built_finite(
    m: Map<u128, NodeModel>,
    root: u128,
    lines: Seq<Seq<char>>,
    preds: Seq<Seq<char>>,
)
    requires
        m.contains_key(root),
        sound_childs(m),
        linked(m),
        m.dom().finite(),
    ensures
        built(m, root, lines, preds).dom().finite(),
    decreases lines.len(),
{
    if lines.len() > 0 {
        lemma_built_finite(m, root, lines.drop_last(), preds);
        lemma_built_linked(m, root, lines.drop_last(), preds);
        let m0 = built(m, root, lines.drop_last(), preds);
        let l = lines.last();
        if term(l, 1) is Some && preds.contains(term(l, 1)->0) && term(l, 0) is Some && term(
            l,
            2,
        ) is Some {
            let c = str_hash(term(l, 0)->0);
            let p = str_hash(term(l, 2)->0);
            lemma_insert_keeps_linked(m0, root, c, p);
        }
    }
}

/// A tree built from lines whose inserted edges form no cycle has no cycle
/// below its root, so it can be encoded exactly when its unfolded tree
/// has at most `u32::MAX` nodes and its depth fits a `u16`: on such lines
/// `construct_tree` fails only past these limits.
pub proof fn lemma_ranked_tree_encodable(
    root_s: Seq<char>,
    lines: Seq<Seq<char>>,
    preds: Seq<Seq<char>>,
    rank: spec_fn(u128) -> nat,
)
    requires
        root_on_top(str_hash(root_s), rank),
        edges_ranked(lines, preds, rank),
    ensures
        ({
            let root = str_hash(root_s);
            let g = shape(with_root_parent(tree_from(root_s, lines, preds), root));
            &&& height(g, root, g.len()) < g.len()
            &&& tree_encodable(root_s, lines, preds) <==> (size(g, root, g.len()) <= u32::MAX && 1
                + height(g, root, g.len()) <= u16::MAX)
        }),
{
    let root = str_hash(root_s);
    let m = tree_from(root_s, lines, preds);
    lemma_ranked_tree_facts(root_s, lines, preds, rank);
    let m0 = map![root => fresh_node(root)];
    lemma_fresh_linked(root);
    assert(m0.dom() =~= set![root]);
    lemma_built_finite(m0, root, lines, preds);
    let m1 = with_root_parent(m, root);
    let g = shape(m1);
    assert(g.dom() =~= m.dom().insert(root_parent_key()));
    crate::ancestry::lemma_no_cycle_by_rank(g, rank, root);
}

/// In a tree built by `new` and inserts (from lines), inserting an edge a
/// second time is refused and changes nothing.
pub proof fn lemma_built_insert_again(
    root_s: Seq<char>,
    lines: Seq<Seq<char>>,
    preds: Seq<Seq<char>>,
    c: u128,
    p: u128,
)
    ensures
        ({
            let m = tree_from(root_s, lines, preds);
            let m1 = inserted(m, str_hash(root_s), c, p).0;
            inserted(m1, str_hash(root_s), c, p) == (m1, false)
        }),
{
    let root = str_hash(root_s);
    lemma_tree_from_linked(root_s, lines, preds);
    lemma_fresh_linked(root);
    lemma_built_linked(map![root => fresh_node(root)], root, lines, preds);
    lemma_insert_again_refused(tree_from(root_s, lines, preds), root, c, p);
}

/// Inserting keeps every child of every node but the root, and makes `c` a
/// child of `p` where `p` is not the root.
proof fn lemma_insert_keeps_edges(m: Map<u128, NodeModel>, root: u128, c: u128, p: u128)
    requires
        m.contains_key(root),
        sound_childs(m),
        linked(m),
    ensures
        forall|y: u128, x: u128|
            #![trigger inserted(m, root, c, p).0[y].childs.contains(x)]
            m.contains_key(y) && y != root && m[y].childs.contains(x) ==> inserted(
                m,
                root,
                c,
                p,
            ).0[y].childs.contains(x),
        p != root ==> inserted(m, root, c, p).0[p].childs.contains(c),
{
    crate::tree::lemma_insert_links(m, root, c, p);
    lemma_insert_keeps_linked(m, root, c, p);
    let m1 = with_node(with_node(m, c), p);
    assert forall|y: u128| #[trigger] m.contains_key(y) implies m1[y] == m[y] by {}
    if !m1[p].childs.contains(c) {
        let m2 = m1.insert(p, with_child(m1[p], c));
        if m.contains_key(p) {
            assert(m1[p].childs.no_duplicates());
            lemma_with_child_contains(m1[p], c);
        }
        let m6 = inserted(m, root, c, p).0;
        assert forall|y: u128, x: u128|
            m.contains_key(y) && y != root && m[y].childs.contains(x) implies #[trigger] m6[y].childs.contains(x) by {
            if y == p {
                assert(m2[p].childs.contains(x));
                assert(m6[p].childs == m2[p].childs);
            } else {
                assert(m6[y].childs == m1[y].childs);
            }
        }
    }
}

/// The edges that the lines insert into a tree: inserting below `o` each
/// line's subject `s` (where its predicate is one of `preds`) leaves `s` a
/// child of `o` in the tree built, unless `o` is the root, keeps every child
/// of every node but the root, and makes the nodes exactly those there were
/// and the subjects and objects of these lines.
pub proof fn lemma_built_edges(
    m: Map<u128, NodeModel>,
    root: u128,
    lines: Seq<Seq<char>>,
    preds: Seq<Seq<char>>,
)
    requires
        m.contains_key(root),
        sound_childs(m),
        linked(m),
    ensures
        forall|y: u128, x: u128|
            #![trigger built(m, root, lines, preds)[y].childs.contains(x)]
            m.contains_key(y) && y != root && m[y].childs.contains(x) ==> built(
                m,
                root,
                lines,
                preds,
            )[y].childs.contains(x),
        forall|i: int|
            0 <= i < lines.len() && inserts(#[trigger] lines[i], preds) && str_hash(
                term(lines[i], 2)->0,
            ) != root ==> built(m, root, lines, preds)[str_hash(term(lines[i], 2)->0)].childs.contains(
                str_hash(term(lines[i], 0)->0),
            ),
        forall|k: u128|
            #[trigger] built(m, root, lines, preds).contains_key(k) <==> (m.contains_key(k)
                || exists|i: int|
                0 <= i < lines.len() && inserts(#[trigger] lines[i], preds) && (k == str_hash(
                    term(lines[i], 0)->0,
                ) || k == str_hash(term(lines[i], 2)->0))),
    decreases lines.len(),
{
    if lines.len() > 0 {
        let init = lines.drop_last();
        lemma_built_edges(m, root, init, preds);
        lemma_built_linked(m, root, init, preds);
        let m0 = built(m, root, init, preds);
        let l = lines.last();
        let mm = built(m, root, lines, preds);
        assert(lines[lines.len() - 1] == l);
        assert forall|i: int| 0 <= i < init.len() implies #[trigger] init[i] == lines[i] by {}
        if inserts(l, preds) {
            let c = str_hash(term(l, 0)->0);
            let p = str_hash(term(l, 2)->0);
            lemma_insert_keeps_edges(m0, root, c, p);
            lemma_insert_keeps_linked(m0, root, c, p);
            assert(mm == inserted(m0, root, c, p).0);
            assert forall|i: int|
                0 <= i < lines.len() && inserts(#[trigger] lines[i], preds) && str_hash(
                    term(lines[i], 2)->0,
                ) != root implies mm[str_hash(term(lines[i], 2)->0)].childs.contains(
                str_hash(term(lines[i], 0)->0),
            ) by {
                if i < init.len() {
                    assert(init[i] == lines[i]);
                    let y = str_hash(term(lines[i], 2)->0);
                    let x = str_hash(term(lines[i], 0)->0);
                    assert(m0[y].childs.contains(x));
                    assert(m0.contains_key(y));
                }
            }
            assert forall|k: u128| #[trigger] mm.contains_key(k) <==> (m.contains_key(k)
                || exists|i: int|
                0 <= i < lines.len() && inserts(#[trigger] lines[i], preds) && (k == str_hash(
                    term(lines[i], 0)->0,
                ) || k == str_hash(term(lines[i], 2)->0))) by {
                if exists|i: int|
                    0 <= i < init.len() && inserts(#[trigger] init[i], preds) && (k == str_hash(
                        term(init[i], 0)->0,
                    ) || k == str_hash(term(init[i], 2)->0)) {
                    let i = choose|i: int|
                        0 <= i < init.len() && inserts(#[trigger] init[i], preds) && (k == str_hash(
                            term(init[i], 0)->0,
                        ) || k == str_hash(term(init[i], 2)->0));
                    assert(lines[i] == init[i]);
                }
                if exists|i: int|
                    0 <= i < lines.len() && inserts(#[trigger] lines[i], preds) && (k == str_hash(
                        term(lines[i], 0)->0,
                    ) || k == str_hash(term(lines[i], 2)->0)) {
                    let i = choose|i: int|
                        0 <= i < lines.len() && inserts(#[trigger] lines[i], preds) && (k == str_hash(
                            term(lines[i], 0)->0,
                        ) || k == str_hash(term(lines[i], 2)->0));
                    if i < init.len() {
                        assert(init[i] == lines[i]);
                    }
                }
            }
        } else {
            assert(mm == m0);
            assert forall|k: u128| #[trigger] mm.contains_key(k) <==> (m.contains_key(k)
                || exists|i: int|
                0 <= i < lines.len() && inserts(#[trigger] lines[i], preds) && (k == str_hash(
                    term(lines[i], 0)->0,
                ) || k == str_hash(term(lines[i], 2)->0))) by {
                if exists|i: int|
                    0 <= i < init.len() && inserts(#[trigger] init[i], preds) && (k == str_hash(
                        term(init[i], 0)->0,
                    ) || k == str_hash(term(init[i], 2)->0)) {
                    let i = choose|i: int|
                        0 <= i < init.len() && inserts(#[trigger] init[i], preds) && (k == str_hash(
                            term(init[i], 0)->0,
                        ) || k == str_hash(term(init[i], 2)->0));
                    assert(lines[i] == init[i]);
                }
                if exists|i: int|
                    0 <= i < lines.len() && inserts(#[trigger] lines[i], preds) && (k == str_hash(
                        term(lines[i], 0)->0,
                    ) || k == str_hash(term(lines[i], 2)->0)) {
                    let i = choose|i: int|
                        0 <= i < lines.len() && inserts(#[trigger] lines[i], preds) && (k == str_hash(
                            term(lines[i], 0)->0,
                        ) || k == str_hash(term(lines[i], 2)->0));
                    if i < init.len() {
                        assert(init[i] == lines[i]);
                    }
                }
            }
            assert forall|i: int|
                0 <= i < lines.len() && inserts(#[trigger] lines[i], preds) && str_hash(
                    term(lines[i], 2)->0,
                ) != root implies mm[str_hash(term(lines[i], 2)->0)].childs.contains(
                str_hash(term(lines[i], 0)->0),
            ) by {
                assert(i < init.len());
                assert(init[i] == lines[i]);
            }
        }
    }
}

/// The tree that reading lines against `preds` builds and encodes holds,
/// for every line whose predicate is one of `preds`, its subject as a child
/// of its object (unless the object is the root); and its nodes are exactly
/// the root, `root_parent`, and the subjects and objects of these lines.
pub proof fn lemma_encoded_tree_edges(
    t: MultiTree,
    root_s: Seq<char>,
    lines: Seq<Seq<char>>,
    preds: Seq<Seq<char>>,
)
    requires
        is_encoded_tree(t, root_s, lines, preds),
    ensures
        forall|i: int|
            0 <= i < lines.len() && inserts(#[trigger] lines[i], preds) && str_hash(
                term(lines[i], 2)->0,
            ) != str_hash(root_s) ==> t.graph()[str_hash(term(lines[i], 2)->0)].contains(
                str_hash(term(lines[i], 0)->0),
            ),
        forall|k: u128|
            #[trigger] t.nodes().contains_key(k) <==> (k == str_hash(root_s) || k == root_parent_key()
                || exists|i: int|
                0 <= i < lines.len() && inserts(#[trigger] lines[i], preds) && (k == str_hash(
                    term(lines[i], 0)->0,
                ) || k == str_hash(term(lines[i], 2)->0))),
{
    let root = str_hash(root_s);
    let m0 = map![root => fresh_node(root)];
    let m = tree_from(root_s, lines, preds);
    lemma_fresh_linked(root);
    lemma_built_edges(m0, root, lines, preds);
    lemma_built_linked(m0, root, lines, preds);
    lemma_encoding_keeps_shape(m, root);
    let m1 = with_root_parent(m, root);
    assert forall|y: u128| #[trigger] m.contains_key(y) implies shape(m1)[y] == m[y].childs by {
        assert(with_node(m, root_parent_key())[y] == m[y]);
    }
    assert forall|i: int|
        0 <= i < lines.len() && inserts(#[trigger] lines[i], preds) && str_hash(
            term(lines[i], 2)->0,
        ) != root implies t.graph()[str_hash(term(lines[i], 2)->0)].contains(
        str_hash(term(lines[i], 0)->0),
    ) by {
        let y = str_hash(term(lines[i], 2)->0);
        assert(m.contains_key(y));
        assert(t.graph()[y] == shape(m1)[y]);
    }
}

proof fn lemma_inserts_among(l: Seq<char>, preds: Seq<Seq<char>>)
    ensures
        inserts(l, preds) <==> exists|j: int| 0 <= j < preds.len() && line_with(l, #[trigger] preds[j]),
{
    if inserts(l, preds) {
        let j = choose|j: int| 0 <= j < preds.len() && preds[j] == term(l, 1)->0;
        assert(line_with(l, preds[j]));
    }
}

/// The tree that reading lines against the predicates `a` and `b` builds
/// and encodes holds, for every line with predicate `a` or `b`, its subject
/// as a child of its object (unless the object is the root); its nodes are
/// exactly the root, `root_parent`, and the subjects and objects of these
/// lines: a line with any other predicate adds nothing.
pub proof fn lemma_tree_of_two(
    t: MultiTree,
    root_s: Seq<char>,
    lines: Seq<Seq<char>>,
    a: Seq<char>,
    b: Seq<char>,
)
    requires
        is_encoded_tree(t, root_s, lines, seq![a, b]),
    ensures
        forall|i: int|
            0 <= i < lines.len() && (line_with(#[trigger] lines[i], a) || line_with(lines[i], b))
                && str_hash(term(lines[i], 2)->0) != str_hash(root_s) ==> t.graph()[str_hash(
                term(lines[i], 2)->0,
            )].contains(str_hash(term(lines[i], 0)->0)),
        forall|k: u128|
            #[trigger] t.nodes().contains_key(k) <==> (k == str_hash(root_s) || k == root_parent_key()
                || exists|i: int|
                0 <= i < lines.len() && (line_with(#[trigger] lines[i], a) || line_with(lines[i], b))
                    && (k == str_hash(term(lines[i], 0)->0) || k == str_hash(term(lines[i], 2)->0))),
{
    let preds = seq![a, b];
    lemma_encoded_tree_edges(t, root_s, lines, preds);
    assert forall|l: Seq<char>| #[trigger] inserts(l, preds) <==> (line_with(l, a) || line_with(l, b)) by {
        lemma_inserts_among(l, preds);
        if line_with(l, a) {
            assert(preds[0] == a);
        }
        if line_with(l, b) {
            assert(preds[1] == b);
        }
    }
    assert forall|k: u128| #[trigger] t.nodes().contains_key(k) <==> (k == str_hash(root_s) || k
        == root_parent_key() || exists|i: int|
        0 <= i < lines.len() && (line_with(#[trigger] lines[i], a) || line_with(lines[i], b)) && (k
            == str_hash(term(lines[i], 0)->0) || k == str_hash(term(lines[i], 2)->0))) by {
        if exists|i: int|
            0 <= i < lines.len() && inserts(#[trigger] lines[i], preds) && (k == str_hash(
                term(lines[i], 0)->0,
            ) || k == str_hash(term(lines[i], 2)->0)) {
            let i = choose|i: int|
                0 <= i < lines.len() && inserts(#[trigger] lines[i], preds) && (k == str_hash(
                    term(lines[i], 0)->0,
                ) || k == str_hash(term(lines[i], 2)->0));
            assert(line_with(lines[i], a) || line_with(lines[i], b));
        }
        if exists|i: int|
            0 <= i < lines.len() && (line_with(#[trigger] lines[i], a) || line_with(lines[i], b)) && (k
                == str_hash(term(lines[i], 0)->0) || k == str_hash(term(lines[i], 2)->0)) {
            let i = choose|i: int|
                0 <= i < lines.len() && (line_with(#[trigger] lines[i], a) || line_with(lines[i], b))
                    && (k == str_hash(term(lines[i], 0)->0) || k == str_hash(term(lines[i], 2)->0));
            assert(inserts(lines[i], preds));
        }
    }
}

/// The same for a single predicate `a`.
pub proof fn lemma_tree_of_one(t: MultiTree, root_s: Seq<char>, lines: Seq<Seq<char>>, a: Seq<char>)
    requires
        is_encoded_tree(t, root_s, lines, seq![a]),
    ensures
        forall|i: int|
            0 <= i < lines.len() && line_with(#[trigger] lines[i], a) && str_hash(term(lines[i], 2)->0)
                != str_hash(root_s) ==> t.graph()[str_hash(term(lines[i], 2)->0)].contains(
                str_hash(term(lines[i], 0)->0),
            ),
        forall|k: u128|
            #[trigger] t.nodes().contains_key(k) <==> (k == str_hash(root_s) || k == root_parent_key()
                || exists|i: int|
                0 <= i < lines.len() && line_with(#[trigger] lines[i], a) && (k == str_hash(
                    term(lines[i], 0)->0,
                ) || k == str_hash(term(lines[i], 2)->0))),
{
    let preds = seq![a];
    lemma_encoded_tree_edges(t, root_s, lines, preds);
    assert forall|l: Seq<char>| #[trigger] inserts(l, preds) <==> line_with(l, a) by {
        lemma_inserts_among(l, preds);
        if line_with(l, a) {
            assert(preds[0] == a);
        }
    }
    assert forall|k: u128| #[trigger] t.nodes().contains_key(k) <==> (k == str_hash(root_s) || k
        == root_parent_key() || exists|i: int|
        0 <= i < lines.len() && line_with(#[trigger] lines[i], a) && (k == str_hash(
            term(lines[i], 0)->0,
        ) || k == str_hash(term(lines[i], 2)->0))) by {
        if exists|i: int|
            0 <= i < lines.len() && inserts(#[trigger] lines[i], preds) && (k == str_hash(
                term(lines[i], 0)->0,
            ) || k == str_hash(term(lines[i], 2)->0)) {
            let i = choose|i: int|
                0 <= i < lines.len() && inserts(#[trigger] lines[i], preds) && (k == str_hash(
                    term(lines[i], 0)->0,
                ) || k == str_hash(term(lines[i], 2)->0));
            assert(line_with(lines[i], a));
        }
        if exists|i: int|
            0 <= i < lines.len() && line_with(#[trigger] lines[i], a) && (k == str_hash(
                term(lines[i], 0)->0,
            ) || k == str_hash(term(lines[i], 2)->0)) {
            let i = choose|i: int|
                0 <= i < lines.len() && line_with(#[trigger] lines[i], a) && (k == str_hash(
                    term(lines[i], 0)->0,
                ) || k == str_hash(term(lines[i], 2)->0));
            assert(inserts(lines[i], preds));
        }
    }
}

/// The ways that encoding records follow the parents: where the child
/// lists (with `root_parent` added) go down in some rank, the way recorded
/// for a node met at depth `layer` is, at depth 1, the root alone, and
/// deeper, `layer - 1` nodes: the node, then each parent up the walk, the
/// last a child of the root, the root itself left out (see [`good_way`]).
pub proof fn lemma_encoded_ways_follow_parents(
    m: Map<u128, NodeModel>,
    root: u128,
    rank: spec_fn(u128) -> nat,
)
    requires
        m.contains_key(root),
        closed(shape(with_root_parent(m, root))),
        descends(shape(with_root_parent(m, root)), rank),
    ensures
        ({
            let m1 = with_root_parent(m, root);
            let w = encoding_walk(m1, root, m1[root].intervals[0].parent);
            &&& encoded_ways(m, root).len() == w.len()
            &&& forall|k: int|
                0 <= k < w.len() ==> good_way(
                    shape(m1),
                    root,
                    #[trigger] encoded_ways(m, root)[k],
                    w[k].node,
                    w[k].layer,
                )
        }),
{
    let m1 = with_root_parent(m, root);
    let g = shape(m1);
    let p0 = m1[root].intervals[0].parent;
    assert(g.contains_key(root));
    lemma_walk_ways(g, rank, root, root, p0, 0, 1, Seq::empty(), g.len());
}

/// For a tree built from lines whose inserted edges form no cycle, every way
/// that encoding records follows the parents (see
/// [`lemma_encoded_ways_follow_parents`]).
pub proof fn lemma_built_ways_follow_parents(
    root_s: Seq<char>,
    lines: Seq<Seq<char>>,
    preds: Seq<Seq<char>>,
    rank: spec_fn(u128) -> nat,
)
    requires
        root_on_top(str_hash(root_s), rank),
        edges_ranked(lines, preds, rank),
    ensures
        ({
            let m = tree_from(root_s, lines, preds);
            let root = str_hash(root_s);
            let m1 = with_root_parent(m, root);
            let w = encoding_walk(m1, root, m1[root].intervals[0].parent);
            &&& encoded_ways(m, root).len() == w.len()
            &&& forall|k: int|
                0 <= k < w.len() ==> good_way(
                    shape(m1),
                    root,
                    #[trigger] encoded_ways(m, root)[k],
                    w[k].node,
                    w[k].layer,
                )
        }),
{
    lemma_ranked_tree_facts(root_s, lines, preds, rank);
    lemma_encoded_ways_follow_parents(tree_from(root_s, lines, preds), str_hash(root_s), rank);
}

} // verus!
