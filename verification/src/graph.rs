//! The mathematics of a tree: its child lists as a map from a node's hash to
//! the hashes of its children, the tree that a walk from a node unfolds
//! (a node with two parents is met once below each of them), and what
//! encoding records in it.
use crate::interval_node::IntervalModel;
use crate::tree_node::{encoded_below, parents_of, NodeModel};
use vstd::prelude::*;

verus! {

/// One meeting of a node in the walk that encodes a tree: the node, the
/// parent it is met below, its interval code and depth, and the way from it
/// up to the top (the node first, the root left out of what follows it).
pub ghost struct Occ {
    pub node: u128,
    pub parent: u128,
    pub start: int,
    pub end: int,
    pub layer: int,
    pub way: Seq<u128>,
}

/// Every child of every node is a node.
pub open spec fn closed(g: Map<u128, Seq<u128>>) -> bool {
    forall|v: u128, i: int|
        g.contains_key(v) && 0 <= i < g[v].len() ==> #[trigger] g.contains_key(g[v][i])
}

/// The length of the longest path down from `v`, cut off at `fuel` edges.
/// It is below `fuel` exactly when no path from `v` runs that long; with
/// `fuel` the number of nodes, exactly when no cycle is reachable from `v`.
pub open spec fn height(g: Map<u128, Seq<u128>>, v: u128, fuel: nat) -> nat
    decreases fuel, 0nat,
{
    if fuel == 0 {
        0
    } else {
        height_list(g, g[v], (fuel - 1) as nat)
    }
}

/// The largest of `1 + height(c)` over the nodes `c` of `cs` (0 for none).
pub open spec fn height_list(g: Map<u128, Seq<u128>>, cs: Seq<u128>, fuel: nat) -> nat
    decreases fuel, cs.len(),
{
    if cs.len() == 0 {
        0
    } else {
        let a = height_list(g, cs.drop_last(), fuel);
        let b = 1 + height(g, cs.last(), fuel);
        if a >= b {
            a
        } else {
            b
        }
    }
}

/// The number of nodes in the tree unfolded below `v`, `v` included: a node
/// below two parents counts once below each.
pub open spec fn size(g: Map<u128, Seq<u128>>, v: u128, fuel: nat) -> nat
    decreases fuel, 0nat,
{
    if fuel == 0 {
        1
    } else {
        1 + size_list(g, g[v], (fuel - 1) as nat)
    }
}

/// The sum of `size(c)` over the nodes `c` of `cs`.
pub open spec fn size_list(g: Map<u128, Seq<u128>>, cs: Seq<u128>, fuel: nat) -> nat
    decreases fuel, cs.len(),
{
    if cs.len() == 0 {
        0
    } else {
        size_list(g, cs.drop_last(), fuel) + size(g, cs.last(), fuel)
    }
}

/// The way of a node met below a parent whose way is `pway`: the node, then
/// that way without the root.
pub open spec fn way_below(root: u128, v: u128, pway: Seq<u128>) -> Seq<u128> {
    seq![v] + pway.filter(|x: u128| x != root)
}

/// The meeting of `v` below `p` when `count` numbers have been handed out
/// before it: it gets `count + 1`, and its interval ends at the number of the
/// last node of its unfolded subtree.
pub open spec fn occ_at(
    g: Map<u128, Seq<u128>>,
    root: u128,
    v: u128,
    p: u128,
    count: int,
    layer: int,
    pway: Seq<u128>,
    fuel: nat,
) -> Occ {
    Occ {
        node: v,
        parent: p,
        start: count + 1,
        end: count + size(g, v, fuel),
        layer,
        way: way_below(root, v, pway),
    }
}

/// The meetings of the tree unfolded below `v`, in pre-order (a node before
/// its children, children in their order).
pub open spec fn walk(
    g: Map<u128, Seq<u128>>,
    root: u128,
    v: u128,
    p: u128,
    count: int,
    layer: int,
    pway: Seq<u128>,
    fuel: nat,
) -> Seq<Occ>
    decreases fuel, 0nat,
{
    let me = occ_at(g, root, v, p, count, layer, pway, fuel);
    if fuel == 0 {
        seq![me]
    } else {
        seq![me] + walk_list(
            g,
            root,
            g[v],
            v,
            count + 1,
            layer + 1,
            me.way,
            (fuel - 1) as nat,
        )
    }
}

/// The pre-order walks below the nodes of `cs`, one after the other, the
/// numbering going on from one to the next.
pub open spec fn walk_list(
    g: Map<u128, Seq<u128>>,
    root: u128,
    cs: Seq<u128>,
    p: u128,
    count: int,
    layer: int,
    pway: Seq<u128>,
    fuel: nat,
) -> Seq<Occ>
    decreases fuel, cs.len(),
{
    if cs.len() == 0 {
        seq![]
    } else {
        walk_list(g, root, cs.drop_last(), p, count, layer, pway, fuel) + walk(
            g,
            root,
            cs.last(),
            p,
            count + size_list(g, cs.drop_last(), fuel),
            layer,
            pway,
            fuel,
        )
    }
}

/// The same meetings as [`walk`], in post-order (a node after its children).
pub open spec fn walk_post(
    g: Map<u128, Seq<u128>>,
    root: u128,
    v: u128,
    p: u128,
    count: int,
    layer: int,
    pway: Seq<u128>,
    fuel: nat,
) -> Seq<Occ>
    decreases fuel, 0nat,
{
    let me = occ_at(g, root, v, p, count, layer, pway, fuel);
    if fuel == 0 {
        seq![me]
    } else {
        walk_list_post(g, root, g[v], v, count + 1, layer + 1, me.way, (fuel - 1) as nat) + seq![
            me,
        ]
    }
}

/// The post-order walks below the nodes of `cs`, one after the other.
pub open spec fn walk_list_post(
    g: Map<u128, Seq<u128>>,
    root: u128,
    cs: Seq<u128>,
    p: u128,
    count: int,
    layer: int,
    pway: Seq<u128>,
    fuel: nat,
) -> Seq<Occ>
    decreases fuel, cs.len(),
{
    if cs.len() == 0 {
        seq![]
    } else {
        walk_list_post(g, root, cs.drop_last(), p, count, layer, pway, fuel) + walk_post(
            g,
            root,
            cs.last(),
            p,
            count + size_list(g, cs.drop_last(), fuel),
            layer,
            pway,
            fuel,
        )
    }
}

/// The nodes once the meeting `o` is recorded: every interval of `o.node`
/// for the parent `o.parent` takes the code of `o`.
pub open spec fn record(m: Map<u128, NodeModel>, o: Occ) -> Map<u128, NodeModel> {
    if m.contains_key(o.node) {
        m.insert(
            o.node,
            encoded_below(m[o.node], o.parent, o.start as u32, o.end as u32, o.layer as u16),
        )
    } else {
        m
    }
}

/// The nodes once the meetings `os` are recorded, one after the other.
pub open spec fn record_all(m: Map<u128, NodeModel>, os: Seq<Occ>) -> Map<u128, NodeModel>
    decreases os.len(),
{
    if os.len() == 0 {
        m
    } else {
        record(record_all(m, os.drop_last()), os.last())
    }
}

/// The ways of a sequence of meetings.
pub open spec fn ways_of(os: Seq<Occ>) -> Seq<Seq<u128>> {
    os.map_values(|o: Occ| o.way)
}

/// The index of ways by their first node, once the ways `ws` are added to
/// `m`, one after the other, each at the end of the list of its first node.
pub open spec fn group_ways(m: Map<u128, Seq<Seq<u128>>>, ws: Seq<Seq<u128>>) -> Map<
    u128,
    Seq<Seq<u128>>,
>
    decreases ws.len(),
{
    if ws.len() == 0 {
        m
    } else {
        let m0 = group_ways(m, ws.drop_last());
        let w = ws.last();
        let k = w[0];
        m0.insert(k, (if m0.contains_key(k) { m0[k] } else { Seq::empty() }).push(w))
    }
}

// ---------------------------------------------------------------- lemmas

pub proof fn lemma_height_list_bounds(g: Map<u128, Seq<u128>>, cs: Seq<u128>, fuel: nat, i: int)
    requires
        0 <= i < cs.len(),
    ensures
        height_list(g, cs, fuel) >= 1 + height(g, cs[i], fuel),
    decreases cs.len(),
{
    if i < cs.len() - 1 {
        lemma_height_list_bounds(g, cs.drop_last(), fuel, i);
    }
}

pub proof fn lemma_size_list_step(g: Map<u128, Seq<u128>>, cs: Seq<u128>, fuel: nat, i: int)
    requires
        0 <= i < cs.len(),
    ensures
        size_list(g, cs.take(i + 1), fuel) == size_list(g, cs.take(i), fuel) + size(g, cs[i], fuel),
{
    assert(cs.take(i + 1).drop_last() =~= cs.take(i));
}

pub proof fn lemma_size_list_prefix(g: Map<u128, Seq<u128>>, cs: Seq<u128>, fuel: nat, i: int)
    requires
        0 <= i <= cs.len(),
    ensures
        size_list(g, cs.take(i), fuel) <= size_list(g, cs, fuel),
    decreases cs.len() - i,
{
    if i < cs.len() {
        lemma_size_list_step(g, cs, fuel, i);
        lemma_size_list_prefix(g, cs, fuel, i + 1);
    } else {
        assert(cs.take(i) =~= cs);
    }
}

pub proof fn lemma_record_all_append(m: Map<u128, NodeModel>, a: Seq<Occ>, b: Seq<Occ>)
    ensures
        record_all(m, a + b) == record_all(record_all(m, a), b),
    decreases b.len(),
{
    if b.len() == 0 {
        assert(a + b =~= a);
    } else {
        assert((a + b).drop_last() =~= a + b.drop_last());
        lemma_record_all_append(m, a, b.drop_last());
    }
}

pub proof fn lemma_record_all_keeps_shape(m: Map<u128, NodeModel>, os: Seq<Occ>)
    ensures
        record_all(m, os).dom() == m.dom(),
        forall|k: u128|
            #![trigger record_all(m, os)[k]]
            m.contains_key(k) ==> record_all(m, os)[k].childs == m[k].childs && record_all(
                m,
                os,
            )[k].data == m[k].data && record_all(m, os)[k].index == m[k].index && record_all(
                m,
                os,
            )[k].intervals.len() == m[k].intervals.len() && parents_of(record_all(m, os)[k])
                == parents_of(m[k]),
    decreases os.len(),
{
    if os.len() > 0 {
        lemma_record_all_keeps_shape(m, os.drop_last());
        let m0 = record_all(m, os.drop_last());
        assert(record_all(m, os).dom() =~= m0.dom());
        let o = os.last();
        if m0.contains_key(o.node) {
            let n = m0[o.node];
            let e = encoded_below(n, o.parent, o.start as u32, o.end as u32, o.layer as u16);
            assert(parents_of(e) =~= parents_of(n));
        }
    }
}

/// The sum of `size(st[i], fs[i])` over a stack of nodes, each with its own
/// budget.
pub open spec fn sizes_total(g: Map<u128, Seq<u128>>, st: Seq<u128>, fs: Seq<nat>) -> nat
    decreases st.len(),
{
    if st.len() == 0 || fs.len() == 0 {
        0
    } else {
        sizes_total(g, st.drop_last(), fs.drop_last()) + size(g, st.last(), fs.last())
    }
}

// ------------------------------------------------ the interval code laws

/// The meetings `w`, numbered from `count + 1`, have nested codes: meeting
/// `i` is numbered `count + 1 + i`, and its code `[start, end]` spans the
/// block of meetings from `i` on that are deeper than it (up to the first
/// one that is not, if any).
pub open spec fn nested_codes(w: Seq<Occ>, count: int) -> bool {
    forall|i: int|
        #![trigger w[i]]
        0 <= i < w.len() ==> {
            let b = w[i].end - w[i].start + 1;
            &&& w[i].start == count + 1 + i
            &&& 1 <= b
            &&& i + b <= w.len()
            &&& forall|k: int| i < k < i + b ==> #[trigger] w[k].layer > w[i].layer
            &&& i + b < w.len() ==> w[i + b].layer <= w[i].layer
        }
}

proof fn lemma_nested_cons(me: Occ, w: Seq<Occ>, count: int)
    requires
        nested_codes(w, count + 1),
        me.start == count + 1,
        me.end == count + 1 + w.len(),
        forall|k: int| 0 <= k < w.len() ==> #[trigger] w[k].layer > me.layer,
    ensures
        nested_codes(seq![me] + w, count),
{
    let r = seq![me] + w;
    assert forall|i: int| #![trigger r[i]] 0 <= i < r.len() implies {
        let b = r[i].end - r[i].start + 1;
        &&& r[i].start == count + 1 + i
        &&& 1 <= b
        &&& i + b <= r.len()
        &&& forall|k: int| i < k < i + b ==> #[trigger] r[k].layer > r[i].layer
        &&& i + b < r.len() ==> r[i + b].layer <= r[i].layer
    } by {
        if i == 0 {
            assert forall|k: int| 0 < k < r.len() implies #[trigger] r[k].layer > r[0].layer by {
                assert(r[k] == w[k - 1]);
            }
        } else {
            assert(r[i] == w[i - 1]);
            let b = w[i - 1].end - w[i - 1].start + 1;
            assert forall|k: int| i < k < i + b implies #[trigger] r[k].layer > r[i].layer by {
                assert(r[k] == w[k - 1]);
                assert(w[k - 1].layer > w[i - 1].layer);
            }
            if i + b < r.len() {
                assert(r[i + b] == w[i - 1 + b]);
            }
        }
    }
}

proof fn lemma_nested_concat(a: Seq<Occ>, bs: Seq<Occ>, count: int, layer: int)
    requires
        nested_codes(a, count),
        nested_codes(bs, count + a.len()),
        forall|k: int| 0 <= k < a.len() ==> #[trigger] a[k].layer >= layer,
        bs.len() > 0 ==> bs[0].layer == layer,
    ensures
        nested_codes(a + bs, count),
{
    let r = a + bs;
    assert forall|i: int| #![trigger r[i]] 0 <= i < r.len() implies {
        let b = r[i].end - r[i].start + 1;
        &&& r[i].start == count + 1 + i
        &&& 1 <= b
        &&& i + b <= r.len()
        &&& forall|k: int| i < k < i + b ==> #[trigger] r[k].layer > r[i].layer
        &&& i + b < r.len() ==> r[i + b].layer <= r[i].layer
    } by {
        if i < a.len() {
            assert(r[i] == a[i]);
            let b = a[i].end - a[i].start + 1;
            assert forall|k: int| i < k < i + b implies #[trigger] r[k].layer > r[i].layer by {
                assert(r[k] == a[k]);
                assert(a[k].layer > a[i].layer);
            }
            if i + b < r.len() {
                if i + b < a.len() {
                    assert(r[i + b] == a[i + b]);
                } else {
                    assert(r[i + b] == bs[0]);
                }
            }
        } else {
            let ii = i - a.len();
            assert(r[i] == bs[ii]);
            let b = bs[ii].end - bs[ii].start + 1;
            assert forall|k: int| i < k < i + b implies #[trigger] r[k].layer > r[i].layer by {
                assert(r[k] == bs[k - a.len()]);
                assert(bs[k - a.len()].layer > bs[ii].layer);
            }
            if i + b < r.len() {
                assert(r[i + b] == bs[ii + b]);
            }
        }
    }
}

/// The walk below `v` has `size(v)` meetings, the first being `v` at depth
/// `layer` and all others deeper, with nested codes numbered from
/// `count + 1`.
pub proof fn lemma_walk_codes(
    g: Map<u128, Seq<u128>>,
    root: u128,
    v: u128,
    p: u128,
    count: int,
    layer: int,
    pway: Seq<u128>,
    fuel: nat,
)
    ensures
        ({
            let w = walk(g, root, v, p, count, layer, pway, fuel);
            &&& w.len() == size(g, v, fuel)
            &&& w[0] == occ_at(g, root, v, p, count, layer, pway, fuel)
            &&& forall|k: int| 0 < k < w.len() ==> #[trigger] w[k].layer > layer
            &&& nested_codes(w, count)
        }),
    decreases fuel, 0nat,
{
    let me = occ_at(g, root, v, p, count, layer, pway, fuel);
    let w = walk(g, root, v, p, count, layer, pway, fuel);
    if fuel == 0 {
        assert(w =~= seq![me]);
        assert(nested_codes(w, count)) by {
            assert(w[0] == me);
        }
    } else {
        let cf = (fuel - 1) as nat;
        let wl = walk_list(g, root, g[v], v, count + 1, layer + 1, me.way, cf);
        lemma_walk_list_codes(g, root, g[v], v, count + 1, layer + 1, me.way, cf);
        assert(w == seq![me] + wl);
        lemma_nested_cons(me, wl, count);
        assert forall|k: int| 0 < k < w.len() implies #[trigger] w[k].layer > layer by {
            assert(w[k] == wl[k - 1]);
        }
    }
}

/// The walks below the nodes `cs`, one after the other, have
/// `size_list(cs)` meetings, none shallower than `layer`, the first (if any)
/// at `layer`, with nested codes numbered from `count + 1`.
pub proof fn lemma_walk_list_codes(
    g: Map<u128, Seq<u128>>,
    root: u128,
    cs: Seq<u128>,
    p: u128,
    count: int,
    layer: int,
    pway: Seq<u128>,
    fuel: nat,
)
    ensures
        ({
            let w = walk_list(g, root, cs, p, count, layer, pway, fuel);
            &&& w.len() == size_list(g, cs, fuel)
            &&& forall|k: int| 0 <= k < w.len() ==> #[trigger] w[k].layer >= layer
            &&& w.len() > 0 ==> w[0].layer == layer
            &&& nested_codes(w, count)
        }),
    decreases fuel, cs.len(),
{
    let w = walk_list(g, root, cs, p, count, layer, pway, fuel);
    if cs.len() == 0 {
        assert(nested_codes(w, count));
    } else {
        let a = walk_list(g, root, cs.drop_last(), p, count, layer, pway, fuel);
        let c2 = count + size_list(g, cs.drop_last(), fuel);
        let bs = walk(g, root, cs.last(), p, c2, layer, pway, fuel);
        lemma_walk_list_codes(g, root, cs.drop_last(), p, count, layer, pway, fuel);
        lemma_walk_codes(g, root, cs.last(), p, c2, layer, pway, fuel);
        assert(w == a + bs);
        lemma_nested_concat(a, bs, count, layer);
        assert forall|k: int| 0 <= k < w.len() implies #[trigger] w[k].layer >= layer by {
            if k < a.len() {
                assert(w[k] == a[k]);
            } else {
                assert(w[k] == bs[k - a.len()]);
            }
        }
        if a.len() > 0 {
            assert(w[0] == a[0]);
        } else {
            assert(w[0] == bs[0]);
        }
    }
}

/// Interval codes tell ancestry: in an encoding walk, meeting `j` comes
/// after meeting `i` within its code (`start_i < start_j <= end_i`) exactly
/// when every meeting from `i` to `j` is deeper than `i`, that is, when `j`
/// is met in the tree unfolded below `i`; and `start_i` is the pre-order
/// number of `i`.
pub proof fn lemma_codes_tell_ancestry(
    g: Map<u128, Seq<u128>>,
    root: u128,
    v: u128,
    p: u128,
    count: int,
    layer: int,
    pway: Seq<u128>,
    fuel: nat,
    i: int,
    j: int,
)
    requires
        0 <= i < j < walk(g, root, v, p, count, layer, pway, fuel).len(),
    ensures
        ({
            let w = walk(g, root, v, p, count, layer, pway, fuel);
            &&& w[i].start == count + 1 + i
            &&& w[i].start < w[j].start
            &&& (w[j].start <= w[i].end <==> forall|k: int|
                i < k <= j ==> #[trigger] w[k].layer > w[i].layer)
        }),
{
    let w = walk(g, root, v, p, count, layer, pway, fuel);
    lemma_walk_codes(g, root, v, p, count, layer, pway, fuel);
    assert(w[i].start == count + 1 + i);
    assert(w[j].start == count + 1 + j);
    let b = w[i].end - w[i].start + 1;
    if w[j].start <= w[i].end {
        assert forall|k: int| i < k <= j implies #[trigger] w[k].layer > w[i].layer by {
            assert(k < i + b);
        }
    } else {
        assert(i + b <= j);
        assert(w[i + b].layer <= w[i].layer);
        if forall|k: int| i < k <= j ==> #[trigger] w[k].layer > w[i].layer {
            assert(w[i + b].layer > w[i].layer);
        }
    }
}

/// The index of the last meeting of the node `k` below the parent `q` among
/// `os`, or -1 where there is none.
pub open spec fn last_meeting(os: Seq<Occ>, k: u128, q: u128) -> int
    decreases os.len(),
{
    if os.len() == 0 {
        -1
    } else if os.last().node == k && os.last().parent == q {
        os.len() - 1
    } else {
        last_meeting(os.drop_last(), k, q)
    }
}

/// [`last_meeting`] is the last meeting of `k` below `q`: a meeting of `k`
/// below `q` with none after it, or -1 where there is none at all.
pub proof fn lemma_last_meeting(os: Seq<Occ>, k: u128, q: u128)
    ensures
        -1 <= last_meeting(os, k, q) < os.len(),
        last_meeting(os, k, q) >= 0 ==> os[last_meeting(os, k, q)].node == k
            && os[last_meeting(os, k, q)].parent == q,
        forall|j: int|
            last_meeting(os, k, q) < j < os.len() ==> !(#[trigger] os[j].node == k && os[j].parent
                == q),
    decreases os.len(),
{
    if os.len() > 0 {
        let init = os.drop_last();
        lemma_last_meeting(init, k, q);
        if !(os.last().node == k && os.last().parent == q) {
            let li = last_meeting(init, k, q);
            if li >= 0 {
                assert(os[li] == init[li]);
            }
            assert forall|j: int| li < j < os.len() implies !(#[trigger] os[j].node == k
                && os[j].parent == q) by {
                if j < init.len() {
                    assert(os[j] == init[j]);
                }
            }
        }
    }
}

/// The code that a meeting gives an interval for the parent `q`.
pub open spec fn code_of(o: Occ, q: u128) -> IntervalModel {
    IntervalModel { start: o.start as u32, end: o.end as u32, layer: o.layer as u16, parent: q }
}

/// What encoding leaves in an interval: recording the meetings `os` one after
/// the other gives the interval number `t` of the node `k` (for the parent
/// `q`) the code of the last meeting of `k` below `q`, and leaves it as it
/// was where `k` is never met below `q`.
pub proof fn lemma_recorded_interval(m: Map<u128, NodeModel>, os: Seq<Occ>, k: u128, t: int)
    requires
        m.contains_key(k),
        0 <= t < m[k].intervals.len(),
    ensures
        record_all(m, os).contains_key(k),
        record_all(m, os)[k].intervals.len() == m[k].intervals.len(),
        ({
            let q = m[k].intervals[t].parent;
            let i = last_meeting(os, k, q);
            record_all(m, os)[k].intervals[t] == if i < 0 {
                m[k].intervals[t]
            } else {
                code_of(os[i], q)
            }
        }),
    decreases os.len(),
{
    let q = m[k].intervals[t].parent;
    if os.len() > 0 {
        let init = os.drop_last();
        lemma_recorded_interval(m, init, k, t);
        let m0 = record_all(m, init);
        let o = os.last();
        assert(record_all(m, os) == record(m0, o));
        let li = last_meeting(init, k, q);
        assert(m0[k].intervals[t] == if li < 0 {
            m[k].intervals[t]
        } else {
            code_of(init[li], q)
        });
        lemma_last_meeting(init, k, q);
        if li >= 0 {
            assert(init[li] == os[li]);
        }
        assert(m0[k].intervals[t].parent == q);
    }
}

/// The ways listed for `k` in an index of ways (none where `k` is not in it).
pub open spec fn ways_at(m: Map<u128, Seq<Seq<u128>>>, k: u128) -> Seq<Seq<u128>> {
    if m.contains_key(k) {
        m[k]
    } else {
        Seq::empty()
    }
}

/// The index of ways by first node: after adding the ways `ws` to `m`, the
/// ways listed for `k` are those listed before, then the ways of `ws` that
/// start at `k`, in their order; and `k` is in the index exactly when it was
/// before or some way of `ws` starts at it.
pub proof fn lemma_grouped_ways(m: Map<u128, Seq<Seq<u128>>>, ws: Seq<Seq<u128>>, k: u128)
    ensures
        group_ways(m, ws).contains_key(k) <==> (m.contains_key(k) || exists|i: int|
            0 <= i < ws.len() && #[trigger] ws[i][0] == k),
        ways_at(group_ways(m, ws), k) == ways_at(m, k) + ws.filter(|w: Seq<u128>| w[0] == k),
    decreases ws.len(),
{
    reveal_with_fuel(Seq::filter, 1);
    if ws.len() > 0 {
        let init = ws.drop_last();
        lemma_grouped_ways(m, init, k);
        let w = ws.last();
        let m0 = group_ways(m, init);
        if w[0] == k {
            assert(ways_at(group_ways(m, ws), k) =~= ways_at(m0, k).push(w));
            assert(ways_at(group_ways(m, ws), k) =~= ways_at(m, k) + ws.filter(
                |w: Seq<u128>| w[0] == k,
            ));
            assert(ws[ws.len() - 1][0] == k);
        } else {
            assert(ways_at(group_ways(m, ws), k) == ways_at(m0, k));
            if exists|i: int| 0 <= i < ws.len() && #[trigger] ws[i][0] == k {
                let i = choose|i: int| 0 <= i < ws.len() && #[trigger] ws[i][0] == k;
                assert(i < init.len());
                assert(init[i][0] == k);
            }
            if exists|i: int| 0 <= i < init.len() && #[trigger] init[i][0] == k {
                let i = choose|i: int| 0 <= i < init.len() && #[trigger] init[i][0] == k;
                assert(ws[i][0] == k);
            }
        }
    } else {
        assert(ws.filter(|w: Seq<u128>| w[0] == k) =~= Seq::<Seq<u128>>::empty());
        assert(ways_at(m, k) + Seq::<Seq<u128>>::empty() =~= ways_at(m, k));
    }
}

/// Indexing the same ways twice lists each of them twice: starting from an
/// empty index, the ways listed for `k` after a second indexing are those
/// after the first, twice over, and `k` is listed exactly when it was.
pub proof fn lemma_regroup_repeats(ws: Seq<Seq<u128>>, k: u128)
    ensures
        ({
            let once = group_ways(Map::empty(), ws);
            let twice = group_ways(once, ws);
            &&& twice.contains_key(k) <==> once.contains_key(k)
            &&& ways_at(twice, k) == ways_at(once, k) + ways_at(once, k)
        }),
{
    let e = Map::<u128, Seq<Seq<u128>>>::empty();
    let once = group_ways(e, ws);
    lemma_grouped_ways(e, ws, k);
    lemma_grouped_ways(once, ws, k);
    assert(ways_at(e, k) =~= Seq::<Seq<u128>>::empty());
    assert(ways_at(once, k) =~= ws.filter(|w: Seq<u128>| w[0] == k));
}

// ------------------------------------------------------------ budgets

/// Where the height below `v` is under the budget, one more edge of budget
/// changes neither the height nor the size.
pub proof fn lemma_stable(g: Map<u128, Seq<u128>>, v: u128, f: nat)
    requires
        height(g, v, f) < f,
    ensures
        height(g, v, f + 1) == height(g, v, f),
        size(g, v, f + 1) == size(g, v, f),
    decreases f, 0nat,
{
    lemma_stable_list(g, g[v], (f - 1) as nat);
}

proof fn lemma_stable_list(g: Map<u128, Seq<u128>>, cs: Seq<u128>, f: nat)
    requires
        height_list(g, cs, f) <= f,
    ensures
        height_list(g, cs, f + 1) == height_list(g, cs, f),
        size_list(g, cs, f + 1) == size_list(g, cs, f),
    decreases f, cs.len(),
{
    if cs.len() > 0 {
        lemma_height_list_bounds(g, cs, f, cs.len() - 1);
        assert(height_list(g, cs.drop_last(), f) <= height_list(g, cs, f));
        lemma_stable_list(g, cs.drop_last(), f);
        lemma_stable(g, cs.last(), f);
    }
}

/// Where the height below `v` is under the budget `f`, any larger budget
/// gives the same height and size.
pub proof fn lemma_stable_to(g: Map<u128, Seq<u128>>, v: u128, f: nat, big: nat)
    requires
        height(g, v, f) < f,
        f <= big,
    ensures
        height(g, v, big) == height(g, v, f),
        size(g, v, big) == size(g, v, f),
    decreases big - f,
{
    if f < big {
        lemma_stable(g, v, f);
        lemma_stable_to(g, v, f + 1, big);
    }
}

/// Where the height below `v` is under the budget `f`, one more edge of
/// budget changes neither walk below `v`.
pub proof fn lemma_walk_stable(
    g: Map<u128, Seq<u128>>,
    root: u128,
    v: u128,
    p: u128,
    count: int,
    layer: int,
    pway: Seq<u128>,
    f: nat,
)
    requires
        height(g, v, f) < f,
    ensures
        walk(g, root, v, p, count, layer, pway, f + 1) == walk(g, root, v, p, count, layer, pway, f),
        walk_post(g, root, v, p, count, layer, pway, f + 1) == walk_post(
            g,
            root,
            v,
            p,
            count,
            layer,
            pway,
            f,
        ),
    decreases f, 0nat,
{
    lemma_stable(g, v, f);
    let me = occ_at(g, root, v, p, count, layer, pway, f);
    lemma_walk_list_stable(g, root, g[v], v, count + 1, layer + 1, me.way, (f - 1) as nat);
    assert((f + 1 - 1) as nat == f);
}

proof fn lemma_walk_list_stable(
    g: Map<u128, Seq<u128>>,
    root: u128,
    cs: Seq<u128>,
    p: u128,
    count: int,
    layer: int,
    pway: Seq<u128>,
    f: nat,
)
    requires
        height_list(g, cs, f) <= f,
    ensures
        walk_list(g, root, cs, p, count, layer, pway, f + 1) == walk_list(
            g,
            root,
            cs,
            p,
            count,
            layer,
            pway,
            f,
        ),
        walk_list_post(g, root, cs, p, count, layer, pway, f + 1) == walk_list_post(
            g,
            root,
            cs,
            p,
            count,
            layer,
            pway,
            f,
        ),
    decreases f, cs.len(),
{
    if cs.len() > 0 {
        lemma_height_list_bounds(g, cs, f, cs.len() - 1);
        assert(height_list(g, cs.drop_last(), f) <= height_list(g, cs, f));
        lemma_stable_list(g, cs.drop_last(), f);
        lemma_walk_list_stable(g, root, cs.drop_last(), p, count, layer, pway, f);
        let c2 = count + size_list(g, cs.drop_last(), f);
        lemma_walk_stable(g, root, cs.last(), p, c2, layer, pway, f);
    }
}

/// Where the height below `v` is under the budget `f`, any larger budget
/// gives the same walks below `v`.
pub proof fn lemma_walk_stable_to(
    g: Map<u128, Seq<u128>>,
    root: u128,
    v: u128,
    p: u128,
    count: int,
    layer: int,
    pway: Seq<u128>,
    f: nat,
    big: nat,
)
    requires
        height(g, v, f) < f,
        f <= big,
    ensures
        walk(g, root, v, p, count, layer, pway, big) == walk(g, root, v, p, count, layer, pway, f),
        walk_post(g, root, v, p, count, layer, pway, big) == walk_post(
            g,
            root,
            v,
            p,
            count,
            layer,
            pway,
            f,
        ),
    decreases big - f,
{
    if f < big {
        lemma_walk_stable(g, root, v, p, count, layer, pway, f);
        lemma_stable(g, v, f);
        lemma_walk_stable_to(g, root, v, p, count, layer, pway, f + 1, big);
    }
}

/// Every meeting of the post-order walk is a meeting of the pre-order one.
pub proof fn lemma_post_in_pre(
    g: Map<u128, Seq<u128>>,
    root: u128,
    v: u128,
    p: u128,
    count: int,
    layer: int,
    pway: Seq<u128>,
    fuel: nat,
    j: int,
)
    requires
        0 <= j < walk_post(g, root, v, p, count, layer, pway, fuel).len(),
    ensures
        walk(g, root, v, p, count, layer, pway, fuel).contains(
            walk_post(g, root, v, p, count, layer, pway, fuel)[j],
        ),
    decreases fuel, 0nat,
{
    let me = occ_at(g, root, v, p, count, layer, pway, fuel);
    let w = walk(g, root, v, p, count, layer, pway, fuel);
    let wp = walk_post(g, root, v, p, count, layer, pway, fuel);
    if fuel == 0 {
        assert(w[0] == wp[j]);
    } else {
        let cf = (fuel - 1) as nat;
        let l = walk_list(g, root, g[v], v, count + 1, layer + 1, me.way, cf);
        let lp = walk_list_post(g, root, g[v], v, count + 1, layer + 1, me.way, cf);
        assert(w == seq![me] + l);
        assert(wp == lp + seq![me]);
        if j < lp.len() {
            assert(wp[j] == lp[j]);
            lemma_post_in_pre_list(g, root, g[v], v, count + 1, layer + 1, me.way, cf, j);
            let i = choose|i: int| 0 <= i < l.len() && l[i] == lp[j];
            assert(w[i + 1] == l[i]);
        } else {
            assert(wp[j] == me);
            assert(w[0] == me);
        }
    }
}

proof fn lemma_post_in_pre_list(
    g: Map<u128, Seq<u128>>,
    root: u128,
    cs: Seq<u128>,
    p: u128,
    count: int,
    layer: int,
    pway: Seq<u128>,
    fuel: nat,
    j: int,
)
    requires
        0 <= j < walk_list_post(g, root, cs, p, count, layer, pway, fuel).len(),
    ensures
        walk_list(g, root, cs, p, count, layer, pway, fuel).contains(
            walk_list_post(g, root, cs, p, count, layer, pway, fuel)[j],
        ),
    decreases fuel, cs.len(),
{
    if cs.len() > 0 {
        let c2 = count + size_list(g, cs.drop_last(), fuel);
        let a = walk_list(g, root, cs.drop_last(), p, count, layer, pway, fuel);
        let ap = walk_list_post(g, root, cs.drop_last(), p, count, layer, pway, fuel);
        let b = walk(g, root, cs.last(), p, c2, layer, pway, fuel);
        let bp = walk_post(g, root, cs.last(), p, c2, layer, pway, fuel);
        let l = walk_list(g, root, cs, p, count, layer, pway, fuel);
        let lp = walk_list_post(g, root, cs, p, count, layer, pway, fuel);
        assert(l == a + b);
        assert(lp == ap + bp);
        if j < ap.len() {
            assert(lp[j] == ap[j]);
            lemma_post_in_pre_list(g, root, cs.drop_last(), p, count, layer, pway, fuel, j);
            let i = choose|i: int| 0 <= i < a.len() && a[i] == ap[j];
            assert(l[i] == a[i]);
        } else {
            assert(lp[j] == bp[j - ap.len()]);
            lemma_post_in_pre(g, root, cs.last(), p, c2, layer, pway, fuel, j - ap.len());
            let i = choose|i: int| 0 <= i < b.len() && b[i] == bp[j - ap.len()];
            assert(l[a.len() + i] == b[i]);
        }
    }
}

/// Every meeting of the pre-order walk is a meeting of the post-order one.
pub proof fn lemma_pre_in_post(
    g: Map<u128, Seq<u128>>,
    root: u128,
    v: u128,
    p: u128,
    count: int,
    layer: int,
    pway: Seq<u128>,
    fuel: nat,
    j: int,
)
    requires
        0 <= j < walk(g, root, v, p, count, layer, pway, fuel).len(),
    ensures
        walk_post(g, root, v, p, count, layer, pway, fuel).contains(
            walk(g, root, v, p, count, layer, pway, fuel)[j],
        ),
    decreases fuel, 0nat,
{
    let me = occ_at(g, root, v, p, count, layer, pway, fuel);
    let w = walk(g, root, v, p, count, layer, pway, fuel);
    let wp = walk_post(g, root, v, p, count, layer, pway, fuel);
    if fuel == 0 {
        assert(wp[0] == w[j]);
    } else {
        let cf = (fuel - 1) as nat;
        let l = walk_list(g, root, g[v], v, count + 1, layer + 1, me.way, cf);
        let lp = walk_list_post(g, root, g[v], v, count + 1, layer + 1, me.way, cf);
        assert(w == seq![me] + l);
        assert(wp == lp + seq![me]);
        if j > 0 {
            assert(w[j] == l[j - 1]);
            lemma_pre_in_post_list(g, root, g[v], v, count + 1, layer + 1, me.way, cf, j - 1);
            let i = choose|i: int| 0 <= i < lp.len() && lp[i] == l[j - 1];
            assert(wp[i] == lp[i]);
        } else {
            assert(wp[lp.len() as int] == me);
        }
    }
}

proof fn lemma_pre_in_post_list(
    g: Map<u128, Seq<u128>>,
    root: u128,
    cs: Seq<u128>,
    p: u128,
    count: int,
    layer: int,
    pway: Seq<u128>,
    fuel: nat,
    j: int,
)
    requires
        0 <= j < walk_list(g, root, cs, p, count, layer, pway, fuel).len(),
    ensures
        walk_list_post(g, root, cs, p, count, layer, pway, fuel).contains(
            walk_list(g, root, cs, p, count, layer, pway, fuel)[j],
        ),
    decreases fuel, cs.len(),
{
    if cs.len() > 0 {
        let c2 = count + size_list(g, cs.drop_last(), fuel);
        let a = walk_list(g, root, cs.drop_last(), p, count, layer, pway, fuel);
        let ap = walk_list_post(g, root, cs.drop_last(), p, count, layer, pway, fuel);
        let b = walk(g, root, cs.last(), p, c2, layer, pway, fuel);
        let bp = walk_post(g, root, cs.last(), p, c2, layer, pway, fuel);
        let l = walk_list(g, root, cs, p, count, layer, pway, fuel);
        let lp = walk_list_post(g, root, cs, p, count, layer, pway, fuel);
        assert(l == a + b);
        assert(lp == ap + bp);
        if j < a.len() {
            assert(l[j] == a[j]);
            lemma_pre_in_post_list(g, root, cs.drop_last(), p, count, layer, pway, fuel, j);
            let i = choose|i: int| 0 <= i < ap.len() && ap[i] == a[j];
            assert(lp[i] == ap[i]);
        } else {
            assert(l[j] == b[j - a.len()]);
            lemma_pre_in_post(g, root, cs.last(), p, c2, layer, pway, fuel, j - a.len());
            let i = choose|i: int| 0 <= i < bp.len() && bp[i] == b[j - a.len()];
            assert(lp[ap.len() + i] == bp[i]);
        }
    }
}

/// Some meeting of `os` is of the node `k` below the parent `q`.
pub open spec fn meets(os: Seq<Occ>, k: u128, q: u128) -> bool {
    exists|i: int| 0 <= i < os.len() && #[trigger] os[i].node == k && os[i].parent == q
}

/// The walks below the nodes of `cs`, met below `p`, meet each of them
/// below `p`.
pub proof fn lemma_list_meets_each(
    g: Map<u128, Seq<u128>>,
    root: u128,
    cs: Seq<u128>,
    p: u128,
    count: int,
    layer: int,
    pway: Seq<u128>,
    fuel: nat,
    i: int,
)
    requires
        0 <= i < cs.len(),
    ensures
        meets(walk_list(g, root, cs, p, count, layer, pway, fuel), cs[i], p),
    decreases cs.len(),
{
    let c2 = count + size_list(g, cs.drop_last(), fuel);
    let a = walk_list(g, root, cs.drop_last(), p, count, layer, pway, fuel);
    let b = walk(g, root, cs.last(), p, c2, layer, pway, fuel);
    let l = walk_list(g, root, cs, p, count, layer, pway, fuel);
    assert(l == a + b);
    if i < cs.len() - 1 {
        lemma_list_meets_each(g, root, cs.drop_last(), p, count, layer, pway, fuel, i);
        assert(cs.drop_last()[i] == cs[i]);
        let j = choose|j: int| 0 <= j < a.len() && #[trigger] a[j].node == cs[i] && a[j].parent == p;
        assert(l[j] == a[j]);
        assert(l[j].node == cs[i] && l[j].parent == p);
    } else {
        assert(b[0] == occ_at(g, root, cs.last(), p, c2, layer, pway, fuel));
        assert(l[a.len() as int] == b[0]);
        assert(l[a.len() as int].node == cs[i] && l[a.len() as int].parent == p);
    }
}

/// In a walk whose budget covers the height below `v`, every child of a
/// node met is met below it.
pub proof fn lemma_children_met(
    g: Map<u128, Seq<u128>>,
    root: u128,
    v: u128,
    p: u128,
    count: int,
    layer: int,
    pway: Seq<u128>,
    fuel: nat,
    i: int,
    k: u128,
)
    requires
        height(g, v, fuel) < fuel,
        0 <= i < walk(g, root, v, p, count, layer, pway, fuel).len(),
        g[walk(g, root, v, p, count, layer, pway, fuel)[i].node].contains(k),
    ensures
        meets(
            walk(g, root, v, p, count, layer, pway, fuel),
            k,
            walk(g, root, v, p, count, layer, pway, fuel)[i].node,
        ),
    decreases fuel, 0nat,
{
    let me = occ_at(g, root, v, p, count, layer, pway, fuel);
    let w = walk(g, root, v, p, count, layer, pway, fuel);
    let cf = (fuel - 1) as nat;
    let l = walk_list(g, root, g[v], v, count + 1, layer + 1, me.way, cf);
    assert(w == seq![me] + l);
    if i == 0 {
        assert(w[0] == me);
        let ci = choose|ci: int| 0 <= ci < g[v].len() && g[v][ci] == k;
        lemma_list_meets_each(g, root, g[v], v, count + 1, layer + 1, me.way, cf, ci);
        let j = choose|j: int| 0 <= j < l.len() && #[trigger] l[j].node == k && l[j].parent == v;
        assert(w[j + 1] == l[j]);
    } else {
        assert(w[i] == l[i - 1]);
        lemma_children_met_list(g, root, g[v], v, count + 1, layer + 1, me.way, cf, i - 1, k);
        let x = l[i - 1].node;
        let j = choose|j: int| 0 <= j < l.len() && #[trigger] l[j].node == k && l[j].parent == x;
        assert(w[j + 1] == l[j]);
    }
}

proof fn lemma_children_met_list(
    g: Map<u128, Seq<u128>>,
    root: u128,
    cs: Seq<u128>,
    p: u128,
    count: int,
    layer: int,
    pway: Seq<u128>,
    fuel: nat,
    i: int,
    k: u128,
)
    requires
        height_list(g, cs, fuel) <= fuel,
        0 <= i < walk_list(g, root, cs, p, count, layer, pway, fuel).len(),
        g[walk_list(g, root, cs, p, count, layer, pway, fuel)[i].node].contains(k),
    ensures
        meets(
            walk_list(g, root, cs, p, count, layer, pway, fuel),
            k,
            walk_list(g, root, cs, p, count, layer, pway, fuel)[i].node,
        ),
    decreases fuel, cs.len(),
{
    let c2 = count + size_list(g, cs.drop_last(), fuel);
    let a = walk_list(g, root, cs.drop_last(), p, count, layer, pway, fuel);
    let b = walk(g, root, cs.last(), p, c2, layer, pway, fuel);
    let l = walk_list(g, root, cs, p, count, layer, pway, fuel);
    assert(l == a + b);
    lemma_height_list_bounds(g, cs, fuel, cs.len() - 1);
    assert(height_list(g, cs.drop_last(), fuel) <= height_list(g, cs, fuel));
    if i < a.len() {
        assert(l[i] == a[i]);
        lemma_children_met_list(g, root, cs.drop_last(), p, count, layer, pway, fuel, i, k);
        let x = a[i].node;
        let j = choose|j: int| 0 <= j < a.len() && #[trigger] a[j].node == k && a[j].parent == x;
        assert(l[j] == a[j]);
    } else {
        assert(l[i] == b[i - a.len()]);
        lemma_children_met(g, root, cs.last(), p, c2, layer, pway, fuel, i - a.len(), k);
        let x = b[i - a.len()].node;
        let j = choose|j: int| 0 <= j < b.len() && #[trigger] b[j].node == k && b[j].parent == x;
        assert(l[a.len() + j] == b[j]);
    }
}

/// Heights and sizes below a node depend only on the child lists of the
/// nodes below it: a graph that agrees with `g0` on the nodes of `g0` gives
/// the same ones below a node of `g0` whose children are nodes.
pub proof fn lemma_extend_graph(
    g0: Map<u128, Seq<u128>>,
    g1: Map<u128, Seq<u128>>,
    v: u128,
    f: nat,
)
    requires
        closed(g0),
        forall|x: u128| #[trigger] g0.contains_key(x) ==> g1.contains_key(x) && g1[x] == g0[x],
        g0.contains_key(v),
    ensures
        height(g1, v, f) == height(g0, v, f),
        size(g1, v, f) == size(g0, v, f),
    decreases f, 0nat,
{
    if f > 0 {
        lemma_extend_graph_list(g0, g1, g0[v], (f - 1) as nat);
    }
}

proof fn lemma_extend_graph_list(g0: Map<u128, Seq<u128>>, g1: Map<u128, Seq<u128>>, cs: Seq<u128>, f: nat)
    requires
        closed(g0),
        forall|x: u128| #[trigger] g0.contains_key(x) ==> g1.contains_key(x) && g1[x] == g0[x],
        forall|t: int| 0 <= t < cs.len() ==> g0.contains_key(#[trigger] cs[t]),
    ensures
        height_list(g1, cs, f) == height_list(g0, cs, f),
        size_list(g1, cs, f) == size_list(g0, cs, f),
    decreases f, cs.len(),
{
    if cs.len() > 0 {
        let init = cs.drop_last();
        assert forall|t: int| 0 <= t < init.len() implies g0.contains_key(#[trigger] init[t]) by {
            assert(init[t] == cs[t]);
        }
        lemma_extend_graph_list(g0, g1, init, f);
        assert(g0.contains_key(cs[cs.len() - 1]));
        lemma_extend_graph(g0, g1, cs.last(), f);
    }
}

/// In a walk whose budget covers the height below `v`, each meeting `i` has
/// the budget `fuel + layer - layer_i`, which covers the height below its
/// node, and its code spans the size of the tree below it with that budget.
pub proof fn lemma_walk_budgets(
    g: Map<u128, Seq<u128>>,
    root: u128,
    v: u128,
    p: u128,
    count: int,
    layer: int,
    pway: Seq<u128>,
    fuel: nat,
)
    requires
        height(g, v, fuel) < fuel,
    ensures
        forall|i: int|
            #![trigger walk(g, root, v, p, count, layer, pway, fuel)[i]]
            0 <= i < walk(g, root, v, p, count, layer, pway, fuel).len() ==> {
                let o = walk(g, root, v, p, count, layer, pway, fuel)[i];
                let fi = fuel + layer - o.layer;
                &&& 0 <= fi <= fuel
                &&& height(g, o.node, fi as nat) < fi
                &&& o.end - o.start + 1 == size(g, o.node, fi as nat)
            },
    decreases fuel, 0nat,
{
    let me = occ_at(g, root, v, p, count, layer, pway, fuel);
    let w = walk(g, root, v, p, count, layer, pway, fuel);
    let cf = (fuel - 1) as nat;
    let wl = walk_list(g, root, g[v], v, count + 1, layer + 1, me.way, cf);
    lemma_walk_list_budgets(g, root, g[v], v, count + 1, layer + 1, me.way, cf);
    assert(w == seq![me] + wl);
    assert forall|i: int| 0 <= i < w.len() implies {
        let o = #[trigger] w[i];
        let fi = fuel + layer - o.layer;
        &&& 0 <= fi <= fuel
        &&& height(g, o.node, fi as nat) < fi
        &&& o.end - o.start + 1 == size(g, o.node, fi as nat)
    } by {
        if i > 0 {
            assert(w[i] == wl[i - 1]);
        }
    }
}

proof fn lemma_walk_list_budgets(
    g: Map<u128, Seq<u128>>,
    root: u128,
    cs: Seq<u128>,
    p: u128,
    count: int,
    layer: int,
    pway: Seq<u128>,
    fuel: nat,
)
    requires
        height_list(g, cs, fuel) <= fuel,
    ensures
        forall|i: int|
            #![trigger walk_list(g, root, cs, p, count, layer, pway, fuel)[i]]
            0 <= i < walk_list(g, root, cs, p, count, layer, pway, fuel).len() ==> {
                let o = walk_list(g, root, cs, p, count, layer, pway, fuel)[i];
                let fi = fuel + layer - o.layer;
                &&& 0 <= fi <= fuel
                &&& height(g, o.node, fi as nat) < fi
                &&& o.end - o.start + 1 == size(g, o.node, fi as nat)
            },
    decreases fuel, cs.len(),
{
    let w = walk_list(g, root, cs, p, count, layer, pway, fuel);
    if cs.len() > 0 {
        let a = walk_list(g, root, cs.drop_last(), p, count, layer, pway, fuel);
        let c2 = count + size_list(g, cs.drop_last(), fuel);
        let bs = walk(g, root, cs.last(), p, c2, layer, pway, fuel);
        lemma_height_list_bounds(g, cs, fuel, cs.len() - 1);
        assert(height_list(g, cs.drop_last(), fuel) <= height_list(g, cs, fuel));
        lemma_walk_list_budgets(g, root, cs.drop_last(), p, count, layer, pway, fuel);
        lemma_walk_budgets(g, root, cs.last(), p, c2, layer, pway, fuel);
        assert(w == a + bs);
        assert forall|i: int| 0 <= i < w.len() implies {
            let o = #[trigger] w[i];
            let fi = fuel + layer - o.layer;
            &&& 0 <= fi <= fuel
            &&& height(g, o.node, fi as nat) < fi
            &&& o.end - o.start + 1 == size(g, o.node, fi as nat)
        } by {
            if i < a.len() {
                assert(w[i] == a[i]);
            } else {
                assert(w[i] == bs[i - a.len()]);
            }
        }
    }
}

/// The interval code of every meeting in the encoding walk from `root` (with
/// the number of nodes as budget) ends at its start plus the number of nodes
/// in the tree unfolded below its node, which is what `count_childs_by_str`
/// counts.
pub proof fn lemma_code_counts_descendants(g: Map<u128, Seq<u128>>, root: u128, p: u128, i: int)
    requires
        height(g, root, g.len()) < g.len(),
        0 <= i < walk(g, root, root, p, 0, 1, Seq::empty(), g.len()).len(),
    ensures
        ({
            let o = walk(g, root, root, p, 0, 1, Seq::empty(), g.len())[i];
            o.end - o.start == size(g, o.node, g.len()) - 1
        }),
{
    lemma_walk_budgets(g, root, root, p, 0, 1, Seq::empty(), g.len());
    let o = walk(g, root, root, p, 0, 1, Seq::empty(), g.len())[i];
    let fi = (g.len() + 1 - o.layer) as nat;
    lemma_stable_to(g, o.node, fi, g.len());
}

} // verus!
