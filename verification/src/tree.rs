//! A multi-parent tree of classes (or properties): nodes are kept by the
//! hash of their IRI, a node with no parent hangs below the root, and
//! `encode` gives every node an interval code below each of its parents.
use crate::graph::{
    closed, group_ways, height, height_list, last_meeting, lemma_code_counts_descendants,
    lemma_height_list_bounds, lemma_last_meeting, lemma_post_in_pre, lemma_record_all_append,
    lemma_recorded_interval, lemma_walk_codes, lemma_extend_graph, lemma_stable,
    lemma_record_all_keeps_shape, lemma_size_list_prefix, lemma_size_list_step, lemma_stable_to,
    lemma_walk_stable_to, occ_at, record,
    record_all, size, size_list, sizes_total, walk, walk_list, walk_list_post, walk_post,
    way_below, ways_of, Occ,
};
use crate::hashing::{hash_str, str_hash};
use crate::interval_node::IntervalModel;
use crate::tree_node::{
    lemma_drop_child_keeps, parents_of, with_child, with_parent, without_child, without_parent,
    MultiTreeNode, NodeModel,
};
use std::collections::HashMap;
use vstd::prelude::*;

verus! {

broadcast use vstd::std_specs::hash::group_hash_axioms;

/// A node that has just been made for the hash `k`.
pub open spec fn fresh_node(k: u128) -> NodeModel {
    NodeModel { data: k, childs: Seq::empty(), intervals: Seq::empty(), index: 0 }
}

/// The nodes `m`, with a fresh node for `k` where there is none.
pub open spec fn with_node(m: Map<u128, NodeModel>, k: u128) -> Map<u128, NodeModel> {
    if m.contains_key(k) {
        m
    } else {
        m.insert(k, fresh_node(k))
    }
}

/// The child lists of the nodes `m`.
pub open spec fn shape(m: Map<u128, NodeModel>) -> Map<u128, Seq<u128>> {
    m.map_values(|n: NodeModel| n.childs)
}

/// The hash of the IRI of the node that `encode` hangs the root below.
pub open spec fn root_parent_key() -> u128 {
    str_hash("root_parent"@)
}

/// The nodes once `initial_root` has run: a node for `root_parent` exists,
/// and the root has one more interval, for it.
pub open spec fn with_root_parent(m: Map<u128, NodeModel>, root: u128) -> Map<u128, NodeModel> {
    let m1 = with_node(m, root_parent_key());
    m1.insert(
        root,
        NodeModel {
            intervals: m1[root].intervals.push(
                IntervalModel { start: 0, end: 0, layer: 0, parent: root_parent_key() },
            ),
            ..m1[root]
        },
    )
}

/// The tree below `root` can be encoded: no cycle is reachable from it
/// (no path from it is as long as the number of nodes), its unfolded tree
/// has at most `u32::MAX` nodes, and its depth fits a `u16`.
pub open spec fn encodable(m: Map<u128, NodeModel>, root: u128) -> bool {
    let g = shape(m);
    let f = g.len();
    &&& height(g, root, f) < f
    &&& size(g, root, f) <= u32::MAX
    &&& 1 + height(g, root, f) <= u16::MAX
}

#[derive(Clone)]
pub struct MultiTree {
    root: u128,
    hash_str_node: HashMap<u128, MultiTreeNode>,
    parent_way: Vec<Vec<u128>>,
    hash_parent_by_str: HashMap<u128, Vec<Vec<u128>>>,
}

impl MultiTree {
    /// The hash of the root's IRI.
    pub closed spec fn root_key(&self) -> u128 {
        self.root
    }

    /// The nodes, by hash.
    pub closed spec fn nodes(&self) -> Map<u128, NodeModel> {
        self.hash_str_node@.map_values(|n: MultiTreeNode| n@)
    }

    /// The ways recorded by encoding, in the order they were met.
    pub closed spec fn ways(&self) -> Seq<Seq<u128>> {
        self.parent_way@.map_values(|w: Vec<u128>| w@)
    }

    /// The recorded ways, by the hash of their first node.
    pub closed spec fn ways_index(&self) -> Map<u128, Seq<Seq<u128>>> {
        self.hash_parent_by_str@.map_values(|ws: Vec<Vec<u128>>| ws@.map_values(|w: Vec<u128>| w@))
    }

    /// The child lists.
    pub open spec fn graph(&self) -> Map<u128, Seq<u128>> {
        shape(self.nodes())
    }

    /// Well-formedness: the root is a node, a node is kept under its own
    /// hash, children are nodes and are not repeated, ways are not empty.
    pub open spec fn wf(&self) -> bool {
        &&& self.nodes().contains_key(self.root_key())
        &&& forall|k: u128| #[trigger] self.nodes().contains_key(k) ==> self.nodes()[k].data == k
        &&& closed(self.graph())
        &&& forall|k: u128| #[trigger]
            self.nodes().contains_key(k) ==> self.nodes()[k].childs.no_duplicates()
        &&& forall|i: int| 0 <= i < self.ways().len() ==> #[trigger] self.ways()[i].len() > 0
    }
}


/// A copy of a way.
fn copy_way(w: &Vec<u128>) -> (r: Vec<u128>)
    ensures
        r@ == w@,
{
    let r = w.clone();
    assert(r@ =~= w@);
    r
}

/// A copy of a list of ways.
fn copy_ways(ws: &Vec<Vec<u128>>) -> (r: Vec<Vec<u128>>)
    ensures
        r@.map_values(|w: Vec<u128>| w@) == ws@.map_values(|w: Vec<u128>| w@),
{
    let mut r: Vec<Vec<u128>> = Vec::new();
    let mut i: usize = 0;
    while i < ws.len()
        invariant
            i <= ws.len(),
            r@.len() == i,
            forall|j: int| 0 <= j < i ==> #[trigger] r@[j]@ == ws@[j]@,
        decreases ws.len() - i,
    {
        r.push(copy_way(&ws[i]));
        i = i + 1;
    }
    assert(r@.map_values(|w: Vec<u128>| w@) =~= ws@.map_values(|w: Vec<u128>| w@));
    r
}

impl MultiTree {
    /// A tree with the single node `data`, its root.
    pub fn new(data: &str) -> (t: Self)
        ensures
            t.wf(),
            t.root_key() == str_hash(data@),
            t.nodes() == map![str_hash(data@) => fresh_node(str_hash(data@))],
            t.ways() == Seq::<Seq<u128>>::empty(),
            t.ways_index() == Map::<u128, Seq<Seq<u128>>>::empty(),
    {
        let root_strhash = hash_str(data);
        let mut hash: HashMap<u128, MultiTreeNode> = HashMap::new();
        hash.insert(root_strhash, MultiTreeNode::new(data));
        let t = MultiTree {
            root: root_strhash,
            hash_str_node: hash,
            hash_parent_by_str: HashMap::new(),
            parent_way: Vec::new(),
        };
        assert(t.nodes() =~= map![root_strhash => fresh_node(root_strhash)]);
        assert(t.ways() =~= Seq::<Seq<u128>>::empty());
        assert(t.ways_index() =~= Map::<u128, Seq<Seq<u128>>>::empty());
        assert(t.graph() =~= map![root_strhash => Seq::<u128>::empty()]);
        t
    }

    /// Whether `other` is the root (has the root's hash).
    pub fn is_root(&self, other: &MultiTreeNode) -> (r: bool)
        ensures
            r == (other@.data == self.root_key()),
    {
        self.root == other.get_data()
    }

    pub fn get_root(&self) -> (r: &MultiTreeNode)
        requires
            self.wf(),
        ensures
            r@ == self.nodes()[self.root_key()],
    {
        let r = self.hash_str_node.get(&self.root);
        assert(self.nodes().contains_key(self.root));
        r.unwrap()
    }

    /// Whether the tree has a node for the IRI `value`.
    pub fn if_exist(&self, value: &str) -> (r: bool)
        ensures
            r == self.nodes().contains_key(str_hash(value@)),
    {
        self.hash_str_node.contains_key(&hash_str(value))
    }

    /// The node with the hash `strhash`, if there is one.
    pub fn get_node_by_strhash(&self, strhash: u128) -> (r: Result<&MultiTreeNode, ()>)
        ensures
            self.nodes().contains_key(strhash) <==> r is Ok,
            r matches Ok(n) ==> n@ == self.nodes()[strhash],
    {
        match self.hash_str_node.get(&strhash) {
            Some(node) => Ok(node),
            None => Err(()),
        }
    }

    /// The number of parents of the node for the IRI `node_str`.
    pub fn count_parents_by_str(&self, node_str: &str) -> (r: Result<usize, ()>)
        ensures
            self.nodes().contains_key(str_hash(node_str@)) <==> r is Ok,
            r matches Ok(n) ==> n == self.nodes()[str_hash(node_str@)].intervals.len(),
    {
        match self.hash_str_node.get(&hash_str(node_str)) {
            Some(node) => Ok(node.get_interval_nodes().len()),
            None => Err(()),
        }
    }

    /// The ways recorded for the node with the hash `strhash`: one per
    /// meeting of it in an encoding, each from it up to the top.
    pub fn get_parent_way_by_str(&self, strhash: u128) -> (r: Result<Vec<Vec<u128>>, ()>)
        ensures
            self.ways_index().contains_key(strhash) <==> r is Ok,
            r matches Ok(ws) ==> ws@.map_values(|w: Vec<u128>| w@) == self.ways_index()[strhash],
    {
        if self.hash_parent_by_str.contains_key(&strhash) {
            match self.hash_parent_by_str.get(&strhash) {
                Some(ws) => Ok(copy_ways(ws)),
                None => Err(()),
            }
        } else {
            Err(())
        }
    }

    /// Makes a node for the IRI `value` unless there is one; its hash.
    fn construct_node(&mut self, value: &str) -> (k: u128)
        requires
            old(self).wf(),
        ensures
            final(self).wf(),
            k == str_hash(value@),
            final(self).nodes() == with_node(old(self).nodes(), k),
            final(self).root_key() == old(self).root_key(),
            final(self).ways() == old(self).ways(),
            final(self).ways_index() == old(self).ways_index(),
    {
        let k = hash_str(value);
        if !self.hash_str_node.contains_key(&k) {
            let treenode = MultiTreeNode::new(value);
            self.hash_str_node.insert(k, treenode);
            assert(self.nodes() =~= old(self).nodes().insert(k, fresh_node(k)));
            assert forall|q: u128| #[trigger] self.nodes().contains_key(q) implies self.nodes()[q].data
                == q && self.nodes()[q].childs.no_duplicates() by {
                if q != k {
                    assert(old(self).nodes().contains_key(q));
                }
            }
            assert forall|v: u128, i: int|
                self.graph().contains_key(v) && 0 <= i < self.graph()[v].len() implies #[trigger] self.graph().contains_key(
                self.graph()[v][i]) by {
                if v != k {
                    assert(old(self).graph().contains_key(v));
                    assert(old(self).graph()[v] == self.graph()[v]);
                    assert(old(self).graph().contains_key(old(self).graph()[v][i]));
                }
            }
            assert(self.nodes().contains_key(self.root_key()));
            assert(closed(self.graph()));
            assert(self.ways() == old(self).ways());
        }
        k
    }
}

impl MultiTree {
    /// Encodes the tree unfolded below `current_node`, met below `parent`
    /// after `count` numbers were handed out, at depth `layer`, below a parent
    /// whose way is `parent_way`: records, in pre-order, the way of each node
    /// met; gives, in post-order, each node met the code `[start, end]` of
    /// that meeting in its intervals for the parent it was met below; and
    /// returns the last number handed out.
    pub fn recursive(
        &mut self,
        current_node: u128,
        parent: u128,
        count: u32,
        layer: u16,
        parent_way: Vec<u128>,
    ) -> (r: u32)
        requires
            old(self).wf(),
            old(self).nodes().contains_key(current_node),
            height(old(self).graph(), current_node, old(self).graph().len()) < old(
                self,
            ).graph().len(),
            count + size(old(self).graph(), current_node, old(self).graph().len()) <= u32::MAX,
            layer + height(old(self).graph(), current_node, old(self).graph().len())
                <= u16::MAX,
        ensures
            final(self).wf(),
            r == count + size(old(self).graph(), current_node, old(self).graph().len()),
            final(self).root_key() == old(self).root_key(),
            final(self).nodes() == record_all(
                old(self).nodes(),
                walk_post(
                    old(self).graph(),
                    old(self).root_key(),
                    current_node,
                    parent,
                    count as int,
                    layer as int,
                    parent_way@,
                    old(self).graph().len(),
                ),
            ),
            final(self).ways() == old(self).ways() + ways_of(
                walk(
                    old(self).graph(),
                    old(self).root_key(),
                    current_node,
                    parent,
                    count as int,
                    layer as int,
                    parent_way@,
                    old(self).graph().len(),
                ),
            ),
            final(self).ways_index() == old(self).ways_index(),
        decreases height(self.graph(), current_node, self.graph().len()),
    {
        let ghost g = self.graph();
        let ghost root = self.root;
        let ghost f = self.graph().len();
        let ghost old_nodes = self.nodes();
        let ghost old_ways = self.ways();
        let ghost me = occ_at(g, root, current_node, parent, count as int, layer as int, parent_way@, f);

        let mut current = count + 1;
        let mut way: Vec<u128> = Vec::new();
        way.push(current_node);
        let mut i: usize = 0;
        while i < parent_way.len()
            invariant
                i <= parent_way.len(),
                way@ == way_below(root, current_node, parent_way@.take(i as int)),
                root == self.root,
            decreases parent_way.len() - i,
        {
            let node = parent_way[i];
            assert(parent_way@.take(i + 1).drop_last() =~= parent_way@.take(i as int));
            reveal_with_fuel(Seq::filter, 1);
            if node != self.root {
                way.push(node);
            }
            assert(way@ =~= way_below(root, current_node, parent_way@.take(i + 1)));
            i = i + 1;
        }
        assert(parent_way@.take(parent_way.len() as int) =~= parent_way@);
        assert(way@ == me.way);
        self.parent_way.push(copy_way(&way));
        assert(self.ways() =~= old_ways.push(me.way));

        let childs = copy_way(self.get_node_by_strhash(current_node).unwrap().get_childs());
        assert(childs@ == g[current_node]);
        assert(f > 0);
        assert(self.graph() == g);

        let ghost cf = (f - 1) as nat;
        let ghost mid_nodes = self.nodes();
        let ghost mid_ways = self.ways();
        let mut j: usize = 0;
        while j < childs.len()
            invariant
                j <= childs.len(),
                g.contains_key(current_node),
                childs@ == g[current_node],
                self.wf(),
                self.graph() == g,
                self.root_key() == root,
                f == cf + 1,
                f == g.len(),
                g == old(self).graph(),
                height(g, current_node, f) < f,
                count + size(g, current_node, f) <= u32::MAX,
                layer + height(g, current_node, f) <= u16::MAX,
                current == count + 1 + size_list(g, childs@.take(j as int), cf),
                self.nodes() == record_all(
                    mid_nodes,
                    walk_list_post(g, root, childs@.take(j as int), current_node, count + 1,
                        layer + 1, way@, cf),
                ),
                self.ways() == mid_ways + ways_of(
                    walk_list(g, root, childs@.take(j as int), current_node, count + 1,
                        layer + 1, way@, cf),
                ),
                self.ways_index() == old(self).ways_index(),
            decreases childs.len() - j,
        {
            let c = childs[j];
            proof {
                lemma_height_list_bounds(g, childs@, cf, j as int);
                lemma_size_list_step(g, childs@, cf, j as int);
                lemma_size_list_prefix(g, childs@, cf, j + 1);
                assert(g[current_node][j as int] == c);
                assert(g.contains_key(c));
            }
            let ghost before_nodes = self.nodes();
            let ghost before_ways = self.ways();
            proof {
                lemma_stable_to(g, c, cf, f);
                lemma_walk_stable_to(g, root, c, current_node, current as int, layer + 1, way@, cf, f);
                assert(height(g, current_node, f) == height_list(g, g[current_node], cf));
                assert(height(g, c, f) < height(g, current_node, f));
                assert(self.graph().len() == f);
            }
            current = self.recursive(c, current_node, current, layer + 1, copy_way(&way));
            proof {
                let t = childs@.take(j + 1);
                assert(t.drop_last() =~= childs@.take(j as int));
                assert(t.last() == c);
                let wl = walk_list_post(g, root, childs@.take(j as int), current_node, count + 1,
                    layer + 1, way@, cf);
                let wc = walk_post(g, root, c, current_node, count + 1 + size_list(g, childs@.take(j as int), cf),
                    layer + 1, way@, cf);
                lemma_record_all_append(mid_nodes, wl, wc);
                lemma_record_all_keeps_shape(before_nodes, wc);
                assert(self.graph() =~= g);
                let pl = walk_list(g, root, childs@.take(j as int), current_node, count + 1,
                    layer + 1, way@, cf);
                let pc = walk(g, root, c, current_node, count + 1 + size_list(g, childs@.take(j as int), cf),
                    layer + 1, way@, cf);
                assert(ways_of(pl + pc) =~= ways_of(pl) + ways_of(pc));
                assert(self.ways() =~= mid_ways + ways_of(pl + pc));
            }
            j = j + 1;
        }
        assert(childs@.take(childs.len() as int) =~= childs@);

        let mut node = self.hash_str_node.remove(&current_node).unwrap();
        node.encode_below(parent, count + 1, current, layer);
        self.hash_str_node.insert(current_node, node);
        proof {
            let wl = walk_list_post(g, root, childs@, current_node, count + 1, layer + 1, way@, cf);
            lemma_record_all_keeps_shape(mid_nodes, wl);
            lemma_record_all_append(old_nodes, seq![], wl);
            assert(old_nodes == mid_nodes);
            assert(me.end == current);
            lemma_record_all_append(old_nodes, wl, seq![me]);
            assert(seq![me].drop_last() =~= Seq::<Occ>::empty());
            assert(record_all(record_all(old_nodes, wl), Seq::<Occ>::empty()) == record_all(old_nodes, wl));
            assert(record_all(record_all(old_nodes, wl), seq![me]) == record(record_all(old_nodes, wl), me));
            assert(wl + seq![me] == walk_post(g, root, current_node, parent, count as int, layer as int, parent_way@, f));
            assert(self.nodes() =~= record(record_all(old_nodes, wl), me));
            assert(self.graph() =~= g);
            let pl = walk_list(g, root, childs@, current_node, count + 1, layer + 1, way@, cf);
            assert(ways_of(seq![me] + pl) =~= seq![me.way] + ways_of(pl));
            assert(self.ways() =~= old_ways + ways_of(walk(g, root, current_node, parent, count as int, layer as int, parent_way@, f)));
        }
        current
    }
}

/// The meetings, in pre-order, of the walk that encodes the tree `m` from
/// `root`, met below `p`, numbering from 1, at depth 1.
pub open spec fn encoding_walk(m: Map<u128, NodeModel>, root: u128, p: u128) -> Seq<Occ> {
    walk(shape(m), root, root, p, 0, 1, Seq::empty(), shape(m).len())
}

/// The same meetings in post-order.
pub open spec fn encoding_walk_post(m: Map<u128, NodeModel>, root: u128, p: u128) -> Seq<Occ> {
    walk_post(shape(m), root, root, p, 0, 1, Seq::empty(), shape(m).len())
}

/// The nodes `m` of a tree with the root `root` once `encode` has run.
pub open spec fn encoded(m: Map<u128, NodeModel>, root: u128) -> Map<u128, NodeModel> {
    let m1 = with_root_parent(m, root);
    let p = m1[root].intervals[0].parent;
    record_all(m1, encoding_walk_post(m1, root, p))
}

/// The ways that `encode` records for a tree with the nodes `m` and the root
/// `root`, in pre-order.
pub open spec fn encoded_ways(m: Map<u128, NodeModel>, root: u128) -> Seq<Seq<u128>> {
    let m1 = with_root_parent(m, root);
    let p = m1[root].intervals[0].parent;
    ways_of(encoding_walk(m1, root, p))
}

impl MultiTree {
    /// Encodes the whole tree from the root, met below the parent of its first
    /// interval.
    pub fn tao(&mut self)
        requires
            old(self).wf(),
            old(self).nodes()[old(self).root_key()].intervals.len() > 0,
            encodable(old(self).nodes(), old(self).root_key()),
        ensures
            final(self).wf(),
            final(self).root_key() == old(self).root_key(),
            final(self).nodes() == record_all(
                old(self).nodes(),
                encoding_walk_post(
                    old(self).nodes(),
                    old(self).root_key(),
                    old(self).nodes()[old(self).root_key()].intervals[0].parent,
                ),
            ),
            final(self).ways() == old(self).ways() + ways_of(
                encoding_walk(
                    old(self).nodes(),
                    old(self).root_key(),
                    old(self).nodes()[old(self).root_key()].intervals[0].parent,
                ),
            ),
            final(self).ways_index() == old(self).ways_index(),
    {
        let count: u32 = 0;
        let way: Vec<u128> = Vec::new();
        let root = self.root;
        let ivs = self.get_root().get_interval_nodes();
        assert(ivs@.map_values(|iv: crate::interval_node::IntervalNode| iv@)[0] == ivs@[0]@);
        let root_parent = ivs[0].get_parent();
        assert(way@ =~= Seq::<u128>::empty());
        self.recursive(root, root_parent, count, 1u16, way);
    }

    /// Hangs the root below the node `root_parent`, made where there is none.
    pub fn initial_root(&mut self)
        requires
            old(self).wf(),
        ensures
            final(self).wf(),
            final(self).root_key() == old(self).root_key(),
            final(self).nodes() == with_root_parent(old(self).nodes(), old(self).root_key()),
            final(self).ways() == old(self).ways(),
            final(self).ways_index() == old(self).ways_index(),
    {
        let rp = self.construct_node("root_parent");
        let ghost m1 = self.nodes();
        let root = self.root;
        assert(self.nodes().contains_key(root));
        let mut node = self.hash_str_node.remove(&root).unwrap();
        node.add_parent(rp);
        self.hash_str_node.insert(root, node);
        assert(self.nodes() =~= with_root_parent(old(self).nodes(), root));
        assert(self.graph() =~= m1.map_values(|n: NodeModel| n.childs));
        assert forall|q: u128| #[trigger] self.nodes().contains_key(q) implies self.nodes()[q].data
            == q && self.nodes()[q].childs.no_duplicates() by {
            assert(m1.contains_key(q));
        }
    }

    /// Indexes every recorded way under its first node, at the end of the
    /// ways already indexed there.
    pub fn parent_way_by_strhash(&mut self)
        requires
            old(self).wf(),
        ensures
            final(self).wf(),
            final(self).root_key() == old(self).root_key(),
            final(self).nodes() == old(self).nodes(),
            final(self).ways() == old(self).ways(),
            final(self).ways_index() == group_ways(old(self).ways_index(), old(self).ways()),
    {
        let mut i: usize = 0;
        while i < self.parent_way.len()
            invariant
                i <= self.parent_way.len(),
                self.wf(),
                self.root_key() == old(self).root_key(),
                self.nodes() == old(self).nodes(),
                self.ways() == old(self).ways(),
                self.ways_index() == group_ways(old(self).ways_index(), old(self).ways().take(i as int)),
            decreases self.parent_way.len() - i,
        {
            let way = copy_way(&self.parent_way[i]);
            assert(self.ways()[i as int] == way@);
            assert(way@.len() > 0);
            let k = way[0];
            let ghost before = self.ways_index();
            let ghost raw = self.hash_parent_by_str@;
            let ghost way_v = way@;
            self.hash_parent_by_str.entry(k).or_insert(Vec::new()).push(way);
            assert(self.hash_parent_by_str@.contains_key(k));
            assert(self.hash_parent_by_str@[k]@ == (if raw.contains_key(k) { raw[k]@ } else { Seq::empty() }).push(self.hash_parent_by_str@[k]@.last()));
            assert(self.hash_parent_by_str@[k]@.last()@ == way_v);
            assert(self.hash_parent_by_str@ == raw.insert(k, self.hash_parent_by_str@[k]));
            proof {
                let nk = self.hash_parent_by_str@[k]@;
                assert(nk.map_values(|w: Vec<u128>| w@) =~= (if before.contains_key(k) { before[k] } else { Seq::empty() }).push(way_v));
                let ws = old(self).ways();
                assert(ws.take(i + 1).drop_last() =~= ws.take(i as int));
                assert(ws.take(i + 1).last() == way@);
                assert(self.ways_index() =~= before.insert(
                    k,
                    (if before.contains_key(k) { before[k] } else { Seq::empty() }).push(way_v),
                ));
            }
            i = i + 1;
        }
        assert(old(self).ways().take(self.parent_way.len() as int) =~= old(self).ways());
    }

    /// Encodes the tree: hangs the root below `root_parent`, gives every node
    /// an interval code below each parent it is met below (see [`Self::tao`]),
    /// and indexes the recorded ways by their first node.
    pub fn encode(&mut self)
        requires
            old(self).wf(),
            encodable(
                with_root_parent(old(self).nodes(), old(self).root_key()),
                old(self).root_key(),
            ),
        ensures
            final(self).wf(),
            final(self).root_key() == old(self).root_key(),
            final(self).nodes() == encoded(old(self).nodes(), old(self).root_key()),
            final(self).ways() == old(self).ways() + encoded_ways(
                old(self).nodes(),
                old(self).root_key(),
            ),
            final(self).ways_index() == group_ways(
                old(self).ways_index(),
                old(self).ways() + encoded_ways(old(self).nodes(), old(self).root_key()),
            ),
    {
        self.initial_root();
        let ivs = self.get_root().get_interval_nodes();
        assert(ivs@.map_values(|iv: crate::interval_node::IntervalNode| iv@).len() == ivs@.len());
        let _root_parent = ivs[0].get_parent();
        self.tao();
        self.parent_way_by_strhash();
    }
}

/// The nodes `m` once `insert(c, p)` has run on a tree with the root `root`,
/// and whether it added `c` below `p`. Nodes for `c` and `p` are made where
/// there are none. Unless `c` is a child of `p` already: `c` becomes the last
/// child of `p`; if `c` hung below the root, it is taken from the root's
/// children and loses its first interval for the root; if `p` is new, it is
/// hung below the root; and `c` gets an interval for `p`.
pub open spec fn inserted(m: Map<u128, NodeModel>, root: u128, c: u128, p: u128) -> (Map<
    u128,
    NodeModel,
>, bool) {
    let pe = m.contains_key(p);
    let m1 = with_node(with_node(m, c), p);
    if m1[p].childs.contains(c) {
        (m1, false)
    } else {
        let m2 = m1.insert(p, with_child(m1[p], c));
        let had_root = parents_of(m2[c]).contains(root);
        let m3 = if had_root {
            m2.insert(root, without_child(m2[root], c))
        } else {
            m2
        };
        let m4 = if had_root {
            m3.insert(c, without_parent(m3[c], root))
        } else {
            m3
        };
        let m5 = if !pe {
            let m5a = m4.insert(root, with_child(m4[root], p));
            m5a.insert(p, with_parent(m5a[p], root))
        } else {
            m4
        };
        (m5.insert(c, with_parent(m5[c], p)), true)
    }
}

impl MultiTree {
    /// A well-formed tree has at least one node, and finitely many.
    pub proof fn lemma_nonempty(&self)
        requires
            self.wf(),
        ensures
            self.graph().dom().finite(),
            self.graph().len() > 0,
    {
        assert(self.graph().dom() =~= self.hash_str_node@.dom());
        assert(self.hash_str_node@.dom().finite());
        assert(self.graph().dom().contains(self.root));
        vstd::set_lib::lemma_set_empty_equivalency_len(self.graph().dom());
    }

    /// Replacing a node of a well-formed tree by one with the same hash,
    /// children that are nodes and no repeated child keeps it well-formed.
    proof fn lemma_replace_keeps_wf(self, other: Self, k: u128, n: NodeModel)
        requires
            self.wf(),
            self.nodes().contains_key(k),
            other.nodes() == self.nodes().insert(k, n),
            n.data == k,
            n.childs.no_duplicates(),
            forall|j: int| 0 <= j < n.childs.len() ==> self.nodes().contains_key(#[trigger] n.childs[j]),
            other.root_key() == self.root_key(),
            other.ways() == self.ways(),
        ensures
            other.wf(),
    {
        assert(other.nodes().dom() =~= self.nodes().dom());
        assert forall|v: u128, i: int|
            other.graph().contains_key(v) && 0 <= i < other.graph()[v].len() implies #[trigger] other.graph().contains_key(
            other.graph()[v][i]) by {
            if v == k {
                assert(other.graph()[v] == n.childs);
                assert(self.nodes().contains_key(n.childs[i]));
            } else {
                assert(self.graph().contains_key(v));
                assert(self.graph()[v] == other.graph()[v]);
                assert(self.graph().contains_key(self.graph()[v][i]));
            }
        }
        assert forall|q: u128| #[trigger] other.nodes().contains_key(q) implies other.nodes()[q].data
            == q && other.nodes()[q].childs.no_duplicates() by {
            if q != k {
                assert(self.nodes().contains_key(q));
            }
        }
    }

    /// Adds `c` as a child of the node `k` (see [`MultiTreeNode::add_child`]).
    fn node_add_child(&mut self, k: u128, c: u128) -> (added: bool)
        requires
            old(self).wf(),
            old(self).nodes().contains_key(k),
            old(self).nodes().contains_key(c),
        ensures
            final(self).wf(),
            added == !old(self).nodes()[k].childs.contains(c),
            final(self).nodes() == old(self).nodes().insert(k, with_child(old(self).nodes()[k], c)),
            final(self).root_key() == old(self).root_key(),
            final(self).ways() == old(self).ways(),
            final(self).ways_index() == old(self).ways_index(),
    {
        let mut node = self.hash_str_node.remove(&k).unwrap();
        let added = node.add_child(c);
        self.hash_str_node.insert(k, node);
        proof {
            let n = with_child(old(self).nodes()[k], c);
            assert(self.nodes() =~= old(self).nodes().insert(k, n));
            let s = old(self).nodes()[k].childs;
            assert(s.no_duplicates());
            assert forall|j: int| 0 <= j < n.childs.len() implies old(self).nodes().contains_key(#[trigger] n.childs[j]) by {
                if j < s.len() {
                    assert(old(self).graph()[k] == s);
                    assert(old(self).graph().contains_key(old(self).graph()[k][j]));
                }
            }
            old(self).lemma_replace_keeps_wf(*self, k, n);
        }
        added
    }

    /// Removes the first child `c` of the node `k`.
    fn node_remove_child(&mut self, k: u128, c: u128)
        requires
            old(self).wf(),
            old(self).nodes().contains_key(k),
        ensures
            final(self).wf(),
            final(self).nodes() == old(self).nodes().insert(k, without_child(old(self).nodes()[k], c)),
            final(self).root_key() == old(self).root_key(),
            final(self).ways() == old(self).ways(),
            final(self).ways_index() == old(self).ways_index(),
    {
        let mut node = self.hash_str_node.remove(&k).unwrap();
        node.remove_child(c);
        self.hash_str_node.insert(k, node);
        proof {
            let n = without_child(old(self).nodes()[k], c);
            assert(self.nodes() =~= old(self).nodes().insert(k, n));
            let s = old(self).nodes()[k].childs;
            lemma_drop_child_keeps(s, c);
            assert forall|j: int| 0 <= j < n.childs.len() implies old(self).nodes().contains_key(#[trigger] n.childs[j]) by {
                assert(s.contains(n.childs[j]));
                let i = choose|i: int| 0 <= i < s.len() && s[i] == n.childs[j];
                assert(old(self).graph()[k] == s);
                assert(old(self).graph().contains_key(old(self).graph()[k][i]));
            }
            old(self).lemma_replace_keeps_wf(*self, k, n);
        }
    }

    /// Gives the node `k` an interval for the parent `p`.
    fn node_add_parent(&mut self, k: u128, p: u128)
        requires
            old(self).wf(),
            old(self).nodes().contains_key(k),
        ensures
            final(self).wf(),
            final(self).nodes() == old(self).nodes().insert(k, with_parent(old(self).nodes()[k], p)),
            final(self).root_key() == old(self).root_key(),
            final(self).ways() == old(self).ways(),
            final(self).ways_index() == old(self).ways_index(),
    {
        let mut node = self.hash_str_node.remove(&k).unwrap();
        node.add_parent(p);
        self.hash_str_node.insert(k, node);
        proof {
            let n = with_parent(old(self).nodes()[k], p);
            assert(self.nodes() =~= old(self).nodes().insert(k, n));
            assert forall|j: int| 0 <= j < n.childs.len() implies old(self).nodes().contains_key(#[trigger] n.childs[j]) by {
                assert(old(self).graph()[k] == n.childs);
                assert(old(self).graph().contains_key(old(self).graph()[k][j]));
            }
            old(self).lemma_replace_keeps_wf(*self, k, n);
        }
    }

    /// Removes the first interval of the node `k` for the parent `p`.
    fn node_remove_parent(&mut self, k: u128, p: u128)
        requires
            old(self).wf(),
            old(self).nodes().contains_key(k),
        ensures
            final(self).wf(),
            final(self).nodes() == old(self).nodes().insert(k, without_parent(old(self).nodes()[k], p)),
            final(self).root_key() == old(self).root_key(),
            final(self).ways() == old(self).ways(),
            final(self).ways_index() == old(self).ways_index(),
    {
        let mut node = self.hash_str_node.remove(&k).unwrap();
        node.remove_parent(p);
        self.hash_str_node.insert(k, node);
        proof {
            let n = without_parent(old(self).nodes()[k], p);
            assert(self.nodes() =~= old(self).nodes().insert(k, n));
            assert forall|j: int| 0 <= j < n.childs.len() implies old(self).nodes().contains_key(#[trigger] n.childs[j]) by {
                assert(old(self).graph()[k] == n.childs);
                assert(old(self).graph().contains_key(old(self).graph()[k][j]));
            }
            old(self).lemma_replace_keeps_wf(*self, k, n);
        }
    }
}

impl MultiTree {
    /// Adds the IRI `child_str` as a child of the IRI `parent_str` (see
    /// [`inserted`]); says whether it was added.
    pub fn insert(&mut self, child_str: &str, parent_str: &str) -> (added: bool)
        requires
            old(self).wf(),
        ensures
            final(self).wf(),
            (final(self).nodes(), added) == inserted(
                old(self).nodes(),
                old(self).root_key(),
                str_hash(child_str@),
                str_hash(parent_str@),
            ),
            final(self).root_key() == old(self).root_key(),
            final(self).ways() == old(self).ways(),
            final(self).ways_index() == old(self).ways_index(),
    {
        let if_parent_exist = self.if_exist(parent_str);
        let mut parent_contain_root = false;

        let child = self.construct_node(child_str);
        let parent = self.construct_node(parent_str);
        let ghost m1 = self.nodes();
        let root = self.root;

        if self.node_add_child(parent, child) {
            let ghost m2 = self.nodes();
            let intervals = copy_parents(self.get_node_by_strhash(child).unwrap());
            assert(intervals@ == parents_of(m2[child]));
            let mut i: usize = 0;
            while i < intervals.len()
                invariant
                    i <= intervals.len(),
                    self.wf(),
                    self.root_key() == root,
                    self.ways() == old(self).ways(),
                    self.ways_index() == old(self).ways_index(),
                    m2.contains_key(root),
                    m2[root].childs.no_duplicates(),
                    parent_contain_root == intervals@.take(i as int).contains(root),
                    self.nodes() == (if parent_contain_root {
                        m2.insert(root, without_child(m2[root], child))
                    } else {
                        m2
                    }),
                decreases intervals.len() - i,
            {
                if intervals[i] == root {
                    proof {
                        if parent_contain_root {
                            lemma_drop_child_keeps(m2[root].childs, child);
                            crate::tree_node::lemma_drop_absent_child(
                                without_child(m2[root], child).childs,
                                child,
                            );
                            assert(without_child(without_child(m2[root], child), child)
                                =~= without_child(m2[root], child));
                        }
                    }
                    self.node_remove_child(root, child);
                    assert(self.nodes() =~= m2.insert(root, without_child(m2[root], child)));
                    parent_contain_root = true;
                }
                proof {
                    let t = intervals@.take(i + 1);
                    assert(t =~= intervals@.take(i as int).push(intervals@[i as int]));
                    assert(t.contains(root) == (intervals@.take(i as int).contains(root)
                        || intervals@[i as int] == root)) by {
                        if intervals@[i as int] == root {
                            assert(t[i as int] == root);
                        }
                        if intervals@.take(i as int).contains(root) {
                            let j = choose|j: int| 0 <= j < i && intervals@.take(i as int)[j] == root;
                            assert(t[j] == root);
                        }
                        if t.contains(root) {
                            let j = choose|j: int| 0 <= j < t.len() && t[j] == root;
                            if j < i {
                                assert(intervals@.take(i as int)[j] == root);
                            }
                        }
                    }
                }
                i = i + 1;
            }
            assert(intervals@.take(intervals.len() as int) =~= intervals@);

            if parent_contain_root {
                self.node_remove_parent(child, root);
            }

            if !if_parent_exist {
                self.node_add_child(root, parent);
                self.node_add_parent(parent, root);
            }
            self.node_add_parent(child, parent);
            return true;
        }
        false
    }
}

/// The parents that the intervals of `node` are for.
fn copy_parents(node: &MultiTreeNode) -> (r: Vec<u128>)
    ensures
        r@ == parents_of(node@),
{
    let ivs = node.get_interval_nodes();
    let mut r: Vec<u128> = Vec::new();
    let mut i: usize = 0;
    while i < ivs.len()
        invariant
            i <= ivs.len(),
            ivs@.map_values(|iv: crate::interval_node::IntervalNode| iv@) == node@.intervals,
            r@.len() == i,
            forall|j: int| 0 <= j < i ==> #[trigger] r@[j] == node@.intervals[j].parent,
        decreases ivs.len() - i,
    {
        assert(node@.intervals[i as int] == ivs@[i as int]@);
        r.push(ivs[i].get_parent());
        i = i + 1;
    }
    assert(r@ =~= parents_of(node@));
    r
}

impl MultiTree {
    /// The number of nodes below `node` in the tree unfolded from it (a node
    /// below two parents counts once below each), the children of `node`
    /// being nodes of this tree.
    pub fn count_childs(&self, node: &MultiTreeNode) -> (r: u32)
        requires
            self.wf(),
            forall|j: int|
                0 <= j < node@.childs.len() ==> self.graph().contains_key(#[trigger] node@.childs[j]),
            height_list(self.graph(), node@.childs, (self.graph().len() - 1) as nat) < self.graph().len(),
            1 + size_list(self.graph(), node@.childs, (self.graph().len() - 1) as nat) <= u32::MAX,
        ensures
            r == size_list(self.graph(), node@.childs, (self.graph().len() - 1) as nat),
    {
        let ghost g = self.graph();
        let ghost f0 = (g.len() - 1) as nat;
        let ghost total = 1 + size_list(g, node@.childs, f0);
        let childs = node.get_childs();
        if childs.len() == 0 {
            return 0;
        }
        assert(g.contains_key(self.root_key()));
        proof {
            self.lemma_nonempty();
        }
        assert(childs@.take(childs.len() as int) =~= childs@);
        let mut stack: Vec<u128> = Vec::new();
        let ghost mut fs: Seq<nat> = Seq::empty();
        let mut count: u32 = 1;
        let mut j: usize = childs.len();
        while j > 0
            invariant
                j <= childs.len(),
                childs@ == node@.childs,
                stack@.len() == fs.len(),
                forall|i: int| 0 <= i < stack@.len() ==> g.contains_key(#[trigger] stack@[i]) && height(g, stack@[i], fs[i]) < fs[i],
                forall|i: int| 0 <= i < node@.childs.len() ==> g.contains_key(#[trigger] node@.childs[i]),
                height_list(g, node@.childs, f0) < g.len(),
                f0 == g.len() - 1,
                sizes_total(g, stack@, fs) + size_list(g, childs@.take(j as int), f0) == size_list(g, childs@, f0),
            decreases j,
        {
            j = j - 1;
            let c = childs[j];
            proof {
                crate::graph::lemma_height_list_bounds(g, childs@, f0, j as int);
                lemma_size_list_step(g, childs@, f0, j as int);
                let st2 = stack@.push(c);
                let fs2 = fs.push(f0);
                assert(st2.drop_last() =~= stack@);
                assert(fs2.drop_last() =~= fs);
            }
            stack.push(c);
            proof {
                fs = fs.push(f0);
            }
        }
        assert(childs@.take(0) =~= Seq::<u128>::empty());
        while stack.len() > 0
            invariant
                self.wf(),
                self.graph() == g,
                stack@.len() == fs.len(),
                forall|i: int| 0 <= i < stack@.len() ==> g.contains_key(#[trigger] stack@[i]) && height(g, stack@[i], fs[i]) < fs[i],
                1 <= count,
                count + sizes_total(g, stack@, fs) == total,
                total <= u32::MAX,
            decreases total - count,
        {
            let x = stack.pop().unwrap();
            let ghost fx = fs.last();
            proof {
                fs = fs.drop_last();
                assert(size(g, x, fx) >= 1);
            }
            let ghost base = stack@;
            let ghost base_fs = fs;
            assert(g.contains_key(x));
            let xs = self.get_node_by_strhash(x).unwrap().get_childs();
            assert(xs@ == g[x]);
            let ghost cf = (fx - 1) as nat;
            assert(xs@.take(xs.len() as int) =~= xs@);
            let mut k: usize = xs.len();
            while k > 0
                invariant
                    k <= xs.len(),
                    xs@ == g[x],
                    g.contains_key(x),
                    closed(g),
                    fx > 0,
                    cf == fx - 1,
                    height(g, x, fx) < fx,
                    stack@.len() == fs.len(),
                    forall|i: int| 0 <= i < stack@.len() ==> g.contains_key(#[trigger] stack@[i]) && height(g, stack@[i], fs[i]) < fs[i],
                    sizes_total(g, stack@, fs) + size_list(g, xs@.take(k as int), cf) == sizes_total(g, base, base_fs) + size_list(g, xs@, cf),
                decreases k,
            {
                k = k - 1;
                let c = xs[k];
                proof {
                    crate::graph::lemma_height_list_bounds(g, xs@, cf, k as int);
                    lemma_size_list_step(g, xs@, cf, k as int);
                    assert(g[x][k as int] == c);
                    assert(g.contains_key(c));
                    let st2 = stack@.push(c);
                    let fs2 = fs.push(cf);
                    assert(st2.drop_last() =~= stack@);
                    assert(fs2.drop_last() =~= fs);
                }
                stack.push(c);
                proof {
                    fs = fs.push(cf);
                }
            }
            assert(xs@.take(0) =~= Seq::<u128>::empty());
            count = count + 1;
        }
        count - 1
    }

    /// The number of nodes below the node for the IRI `node_str` in the tree
    /// unfolded from it, if there is such a node.
    pub fn count_childs_by_str(&self, node_str: &str) -> (r: Result<u32, ()>)
        requires
            self.wf(),
            self.nodes().contains_key(str_hash(node_str@)) ==> {
                &&& height(self.graph(), str_hash(node_str@), self.graph().len()) < self.graph().len()
                &&& size(self.graph(), str_hash(node_str@), self.graph().len()) <= u32::MAX
            },
        ensures
            self.nodes().contains_key(str_hash(node_str@)) <==> r is Ok,
            r matches Ok(n) ==> n + 1 == size(self.graph(), str_hash(node_str@), self.graph().len()),
    {
        match self.hash_str_node.get(&hash_str(node_str)) {
            Some(link_node) => {
                proof {
                    let g = self.graph();
                    let k = str_hash(node_str@);
                    self.lemma_nonempty();
                    assert(g[k] == link_node@.childs);
                    assert forall|j: int| 0 <= j < link_node@.childs.len() implies g.contains_key(#[trigger] link_node@.childs[j]) by {
                        assert(g.contains_key(g[k][j]));
                    }
                }
                Ok(self.count_childs(link_node))
            },
            None => Err(()),
        }
    }
}

impl MultiTree {
    /// Measures the tree unfolded below `v` with a budget of `fuel` edges:
    /// its height and its number of nodes, where the height is below `fuel`
    /// and the number of nodes at most `cap`; `None` otherwise.
    pub fn measure(&self, v: u128, fuel: usize, cap: u64) -> (r: Option<(usize, u64)>)
        requires
            self.wf(),
            self.graph().contains_key(v),
        ensures
            r matches Some((h, s)) ==> {
                &&& h == height(self.graph(), v, fuel as nat)
                &&& s == size(self.graph(), v, fuel as nat)
                &&& h < fuel
                &&& s <= cap
            },
            r is None ==> height(self.graph(), v, fuel as nat) >= fuel || size(
                self.graph(),
                v,
                fuel as nat,
            ) > cap,
        decreases fuel,
    {
        let ghost g = self.graph();
        if fuel == 0 || cap == 0 {
            return None;
        }
        let ghost cf = (fuel - 1) as nat;
        let childs = self.get_node_by_strhash(v).unwrap().get_childs();
        assert(childs@ == g[v]);
        let mut h: usize = 0;
        let mut s: u64 = 1;
        let mut j: usize = 0;
        while j < childs.len()
            invariant
                j <= childs.len(),
                childs@ == g[v],
                g == self.graph(),
                self.wf(),
                g.contains_key(v),
                fuel > 0,
                cf == fuel - 1,
                h == height_list(g, childs@.take(j as int), cf),
                h < fuel,
                s == 1 + size_list(g, childs@.take(j as int), cf),
                s <= cap,
            decreases childs.len() - j,
        {
            let c = childs[j];
            proof {
                assert(g[v][j as int] == c);
                assert(g.contains_key(c));
                lemma_size_list_step(g, childs@, cf, j as int);
                lemma_size_list_prefix(g, childs@, cf, j + 1);
                crate::graph::lemma_height_list_bounds(g, childs@, cf, j as int);
                assert(childs@.take(j + 1).drop_last() =~= childs@.take(j as int));
                assert(childs@.take(j + 1).last() == c);
            }
            match self.measure(c, fuel - 1, cap - s) {
                Some((hc, sc)) => {
                    if hc + 1 >= fuel {
                        return None;
                    }
                    if hc + 1 > h {
                        h = hc + 1;
                    }
                    s = s + sc;
                },
                None => {
                    return None;
                },
            }
            j = j + 1;
        }
        assert(childs@.take(childs.len() as int) =~= childs@);
        Some((h, s))
    }

    /// Encodes the tree as [`Self::encode`] does where it can be encoded (see
    /// [`encodable`]), and says whether it was. The root is hung below
    /// `root_parent` either way; where the tree cannot be encoded, nothing
    /// else changes.
    pub fn try_encode(&mut self) -> (ok: bool)
        requires
            old(self).wf(),
        ensures
            final(self).wf(),
            final(self).root_key() == old(self).root_key(),
            ok == encodable(
                with_root_parent(old(self).nodes(), old(self).root_key()),
                old(self).root_key(),
            ),
            ok ==> final(self).nodes() == encoded(old(self).nodes(), old(self).root_key()),
            ok ==> final(self).ways() == old(self).ways() + encoded_ways(
                old(self).nodes(),
                old(self).root_key(),
            ),
            ok ==> final(self).ways_index() == group_ways(
                old(self).ways_index(),
                old(self).ways() + encoded_ways(old(self).nodes(), old(self).root_key()),
            ),
            !ok ==> {
                &&& final(self).nodes() == with_root_parent(old(self).nodes(), old(self).root_key())
                &&& final(self).ways() == old(self).ways()
                &&& final(self).ways_index() == old(self).ways_index()
            },
    {
        self.initial_root();
        let n = self.hash_str_node.len();
        assert(self.graph().len() == n) by {
            assert(self.graph().dom() =~= self.hash_str_node@.dom());
        }
        let root = self.root;
        proof {
            self.lemma_nonempty();
        }
        match self.measure(root, n, 4294967295u64) {
            Some((h, _s)) => {
                if h >= 65535 {
                    return false;
                }
                self.tao();
                self.parent_way_by_strhash();
                true
            },
            None => false,
        }
    }

    /// The count of [`Self::count_childs_by_str`] where it can be made: the
    /// node exists, no cycle is reachable from it and the count fits a `u32`;
    /// `None` where the node exists and the count cannot be made.
    pub fn try_count_childs_by_str(&self, node_str: &str) -> (r: Option<Result<u32, ()>>)
        requires
            self.wf(),
        ensures
            r matches Some(Err(())) <==> !self.nodes().contains_key(str_hash(node_str@)),
            r matches Some(Ok(n)) ==> n + 1 == size(
                self.graph(),
                str_hash(node_str@),
                self.graph().len(),
            ),
            r is None ==> self.nodes().contains_key(str_hash(node_str@)) && (height(
                self.graph(),
                str_hash(node_str@),
                self.graph().len(),
            ) >= self.graph().len() || size(self.graph(), str_hash(node_str@), self.graph().len())
                > u32::MAX),
    {
        let k = hash_str(node_str);
        if !self.hash_str_node.contains_key(&k) {
            return Some(self.count_childs_by_str(node_str));
        }
        let n = self.hash_str_node.len();
        assert(self.graph().len() == n) by {
            assert(self.graph().dom() =~= self.hash_str_node@.dom());
        }
        match self.measure(k, n, 4294967295u64) {
            Some(_) => Some(self.count_childs_by_str(node_str)),
            None => None,
        }
    }
}

/// What an insertion of `c` below `p` leaves: the nodes `c` and `p` exist;
/// `c` is added exactly when it was not a child of `p`, and a refused
/// insertion changes nothing; an added child has, as its last interval, one
/// for `p`, and is a child of `p` unless `p` is the root; and a parent that
/// was new hangs below the root.
pub proof fn lemma_insert_links(m: Map<u128, NodeModel>, root: u128, c: u128, p: u128)
    requires
        m.contains_key(root),
        closed(shape(m)),
    ensures
        inserted(m, root, c, p).0.contains_key(c),
        inserted(m, root, c, p).0.contains_key(p),
        inserted(m, root, c, p).0.contains_key(root),
        inserted(m, root, c, p).1 == !(m.contains_key(p) && m[p].childs.contains(c)),
        !inserted(m, root, c, p).1 ==> inserted(m, root, c, p).0 == m,
        inserted(m, root, c, p).1 ==> inserted(m, root, c, p).0[c].intervals.len() > 0
            && inserted(m, root, c, p).0[c].intervals.last().parent == p,
        inserted(m, root, c, p).1 && p != root ==> inserted(m, root, c, p).0[p].childs.contains(c),
        inserted(m, root, c, p).1 && !m.contains_key(p) && p != root ==> inserted(
            m,
            root,
            c,
            p,
        ).0[root].childs.contains(p) && parents_of(inserted(m, root, c, p).0[p]).contains(root),
{
    let m1 = with_node(with_node(m, c), p);
    if m.contains_key(p) && m[p].childs.contains(c) {
        let i = choose|i: int| 0 <= i < m[p].childs.len() && m[p].childs[i] == c;
        assert(shape(m)[p] == m[p].childs);
        assert(shape(m).contains_key(shape(m)[p][i]));
        assert(m1 == m);
    }
    if !m.contains_key(p) {
        assert(!m1[p].childs.contains(c));
    }
    let (m6, added) = inserted(m, root, c, p);
    if added {
        let pe = m.contains_key(p);
        lemma_with_child_contains(m1[p], c);
        let m2 = m1.insert(p, with_child(m1[p], c));
        assert(m2[p].childs.contains(c));
        let had_root = parents_of(m2[c]).contains(root);
        let m3 = if had_root {
            m2.insert(root, without_child(m2[root], c))
        } else {
            m2
        };
        let m4 = if had_root {
            m3.insert(c, without_parent(m3[c], root))
        } else {
            m3
        };
        if p != root {
            assert(m4[p].childs.contains(c));
        }
        let m5 = if !pe {
            let m5a = m4.insert(root, with_child(m4[root], p));
            lemma_with_child_contains(m4[root], p);
            assert(m5a[root].childs.contains(p));
            m5a.insert(p, with_parent(m5a[p], root))
        } else {
            m4
        };
        if p != root {
            assert(m5[p].childs.contains(c));
        }
        if !pe && p != root {
            assert(m5[root].childs.contains(p));
            let n5 = m5[p].intervals.len();
            assert(parents_of(m5[p])[n5 - 1] == root);
            let pp = parents_of(m6[p]);
            if c == p {
                assert(pp[n5 - 1] == root);
            } else {
                assert(m6[p] == m5[p]);
                assert(pp[n5 - 1] == root);
            }
        }
    }
}

proof fn lemma_with_child_contains(n: NodeModel, c: u128)
    ensures
        with_child(n, c).childs.contains(c),
        forall|x: u128| n.childs.contains(x) ==> with_child(n, c).childs.contains(x),
{
    if !n.childs.contains(c) {
        let s = n.childs.push(c);
        assert(s[s.len() - 1] == c);
        assert forall|x: u128| n.childs.contains(x) implies s.contains(x) by {
            let i = choose|i: int| 0 <= i < n.childs.len() && n.childs[i] == x;
            assert(s[i] == x);
        }
    }
}

/// Encoding changes no child list and makes no node but `root_parent`:
/// the encoded nodes have the same children as before, and the nodes of
/// the tree are those it had, with `root_parent`; the root gains one
/// parent, `root_parent`, at the end of its parents, and no other node's
/// parents change.
pub proof fn lemma_encoding_keeps_shape(m: Map<u128, NodeModel>, root: u128)
    requires
        m.contains_key(root),
    ensures
        shape(encoded(m, root)) == shape(with_root_parent(m, root)),
        encoded(m, root).dom() == m.dom().insert(root_parent_key()),
        parents_of(encoded(m, root)[root]) == parents_of(m[root]).push(root_parent_key()),
        forall|k: u128|
            #![trigger encoded(m, root)[k]]
            m.contains_key(k) && k != root ==> parents_of(encoded(m, root)[k]) == parents_of(m[k]),
{
    let m1 = with_root_parent(m, root);
    let p = m1[root].intervals[0].parent;
    let os = encoding_walk_post(m1, root, p);
    lemma_record_all_keeps_shape(m1, os);
    assert(shape(encoded(m, root)) =~= shape(m1));
    assert(m1.dom() =~= m.dom().insert(root_parent_key()));
    let mn = with_node(m, root_parent_key());
    assert(mn[root] == m[root]);
    assert(parents_of(m1[root]) =~= parents_of(m[root]).push(root_parent_key()));
    assert forall|k: u128|
        #![trigger encoded(m, root)[k]]
        m.contains_key(k) && k != root implies parents_of(encoded(m, root)[k]) == parents_of(m[k]) by {
        assert(m1[k] == m[k]);
    }
}


/// Interval codes of an encoded tree, for every stored interval: encoding
/// keeps each interval's parent, and an interval whose node the walk from
/// the root meets below its parent gets a code that starts at the pre-order
/// number of the last such meeting, at least 1, and ends at its start plus
/// the number of nodes in the tree unfolded below its node, within the
/// numbers handed out; any other interval is left as it was.
pub proof fn lemma_encoded_intervals(m: Map<u128, NodeModel>, root: u128, k: u128, t: int)
    requires
        m.contains_key(root),
        encodable(with_root_parent(m, root), root),
        with_root_parent(m, root).contains_key(k),
        0 <= t < with_root_parent(m, root)[k].intervals.len(),
    ensures
        ({
            let m1 = with_root_parent(m, root);
            let g = shape(m1);
            let iv = encoded(m, root)[k].intervals[t];
            &&& encoded(m, root).contains_key(k)
            &&& encoded(m, root)[k].intervals.len() == m1[k].intervals.len()
            &&& iv.parent == m1[k].intervals[t].parent
            &&& iv == m1[k].intervals[t] || last_meeting(
                encoding_walk_post(m1, root, m1[root].intervals[0].parent),
                k,
                m1[k].intervals[t].parent,
            ) >= 0
            &&& last_meeting(
                encoding_walk_post(m1, root, m1[root].intervals[0].parent),
                k,
                m1[k].intervals[t].parent,
            ) >= 0 ==> {
                &&& 1 <= iv.start <= iv.end <= size(g, root, g.len())
                &&& iv.end - iv.start == size(g, k, g.len()) - 1
            }
        }),
{
    let m1 = with_root_parent(m, root);
    let g = shape(m1);
    let f = g.len();
    let p = m1[root].intervals[0].parent;
    let os = encoding_walk_post(m1, root, p);
    let w = walk(g, root, root, p, 0, 1, Seq::empty(), f);
    lemma_recorded_interval(m1, os, k, t);
    let q = m1[k].intervals[t].parent;
    let i = last_meeting(os, k, q);
    lemma_last_meeting(os, k, q);
    if i >= 0 {
        let o = os[i];
        lemma_post_in_pre(g, root, root, p, 0, 1, Seq::empty(), f, i);
        let j = choose|j: int| 0 <= j < w.len() && w[j] == o;
        lemma_walk_codes(g, root, root, p, 0, 1, Seq::empty(), f);
        assert(w[j].start == 1 + j);
        lemma_code_counts_descendants(g, root, p, j);
        assert(o.node == k && o.parent == q);
        assert(1 <= o.start <= o.end <= size(g, root, f));
    }
}

/// The two counts of a node agree: the number that `count_childs_by_str`
/// gives for it (one less than the size of the tree unfolded below it) is
/// what `count_childs` gives for it (the sum of the sizes below its
/// children), and the two bounds they ask for are the same.
pub proof fn lemma_counts_agree(t: MultiTree, k: u128)
    requires
        t.wf(),
        t.nodes().contains_key(k),
    ensures
        size(t.graph(), k, t.graph().len()) == 1 + size_list(
            t.graph(),
            t.nodes()[k].childs,
            (t.graph().len() - 1) as nat,
        ),
        height(t.graph(), k, t.graph().len()) == height_list(
            t.graph(),
            t.nodes()[k].childs,
            (t.graph().len() - 1) as nat,
        ),
{
    t.lemma_nonempty();
    assert(t.graph()[k] == t.nodes()[k].childs);
}

/// Encoding leaves the count below every node of the tree as it was: where
/// no cycle is reachable from a node, the size of and the height below its
/// unfolded tree are the same in the encoded tree (with `root_parent`,
/// childless, added) as before (what `count_childs_by_str` counts).
pub proof fn lemma_encoding_keeps_counts(m: Map<u128, NodeModel>, root: u128, k: u128)
    requires
        m.contains_key(root),
        m.contains_key(k),
        m.dom().finite(),
        closed(shape(m)),
        height(shape(m), k, shape(m).len()) < shape(m).len(),
    ensures
        ({
            let g0 = shape(m);
            let g1 = shape(encoded(m, root));
            &&& size(g1, k, g1.len()) == size(g0, k, g0.len())
            &&& height(g1, k, g1.len()) == height(g0, k, g0.len())
        }),
{
    let g0 = shape(m);
    lemma_encoding_keeps_shape(m, root);
    let g1 = shape(encoded(m, root));
    assert(g1 == shape(with_root_parent(m, root)));
    assert forall|x: u128| #[trigger] g0.contains_key(x) implies g1.contains_key(x) && g1[x] == g0[x] by {
        assert(with_node(m, root_parent_key())[x] == m[x]);
    }
    assert(g0.dom() == m.dom());
    if m.contains_key(root_parent_key()) {
        assert(g1.dom() =~= g0.dom());
        assert(g1.len() == g0.len());
        lemma_extend_graph(g0, g1, k, g0.len());
    } else {
        assert(g1.dom() =~= g0.dom().insert(root_parent_key()));
        assert(g1.len() == g0.len() + 1);
        lemma_stable(g0, k, g0.len());
        lemma_extend_graph(g0, g1, k, g0.len() + 1);
    }
}

} // verus!
