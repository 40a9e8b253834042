//! A node of a multi-parent tree: its hash, its children (by hash) and one
//! interval code per parent.
use crate::hashing::{hash_str, str_hash};
use crate::interval_node::{IntervalModel, IntervalNode};
use vstd::prelude::*;

verus! {

/// What a [`MultiTreeNode`] holds.
pub struct NodeModel {
    /// The hash of the node's IRI.
    pub data: u128,
    /// The hashes of the children, in the order they were added.
    pub childs: Seq<u128>,
    /// One entry per parent, in the order the parents were added.
    pub intervals: Seq<IntervalModel>,
    pub index: u32,
}

/// The node `n` once every interval of it for the parent `parent` holds the
/// code `[start, end]` at depth `layer`.
pub open spec fn encoded_below(
    n: NodeModel,
    parent: u128,
    start: u32,
    end: u32,
    layer: u16,
) -> NodeModel {
    NodeModel {
        intervals: n.intervals.map_values(
            |iv: IntervalModel|
                if iv.parent == parent {
                    IntervalModel { start, end, layer, ..iv }
                } else {
                    iv
                },
        ),
        ..n
    }
}

/// The parents that the intervals of a node are for.
pub open spec fn parents_of(n: NodeModel) -> Seq<u128> {
    n.intervals.map_values(|iv: IntervalModel| iv.parent)
}

/// `s` without its first `x` (unchanged where there is none).
pub open spec fn drop_first_child(s: Seq<u128>, x: u128) -> Seq<u128>
    decreases s.len(),
{
    if s.len() == 0 {
        s
    } else if s[0] == x {
        s.drop_first()
    } else {
        seq![s[0]] + drop_first_child(s.drop_first(), x)
    }
}

/// `s` without its first interval for the parent `p` (unchanged where there
/// is none).
pub open spec fn drop_first_parent(s: Seq<IntervalModel>, p: u128) -> Seq<IntervalModel>
    decreases s.len(),
{
    if s.len() == 0 {
        s
    } else if s[0].parent == p {
        s.drop_first()
    } else {
        seq![s[0]] + drop_first_parent(s.drop_first(), p)
    }
}

/// The node `n` with `c` as its last child, unless `c` is a child already.
pub open spec fn with_child(n: NodeModel, c: u128) -> NodeModel {
    if n.childs.contains(c) {
        n
    } else {
        NodeModel { childs: n.childs.push(c), ..n }
    }
}

/// The node `n` without its first child `c`.
pub open spec fn without_child(n: NodeModel, c: u128) -> NodeModel {
    NodeModel { childs: drop_first_child(n.childs, c), ..n }
}

/// The node `n` with one more, not yet encoded, interval, for the parent `p`.
pub open spec fn with_parent(n: NodeModel, p: u128) -> NodeModel {
    NodeModel {
        intervals: n.intervals.push(IntervalModel { start: 0, end: 0, layer: 0, parent: p }),
        ..n
    }
}

/// The node `n` without its first interval for the parent `p`.
pub open spec fn without_parent(n: NodeModel, p: u128) -> NodeModel {
    NodeModel { intervals: drop_first_parent(n.intervals, p), ..n }
}

pub proof fn lemma_drop_first_child(s: Seq<u128>, x: u128, i: int)
    requires
        0 <= i < s.len(),
        s[i] == x,
        forall|j: int| 0 <= j < i ==> s[j] != x,
    ensures
        drop_first_child(s, x) == s.remove(i),
    decreases i,
{
    if i > 0 {
        lemma_drop_first_child(s.drop_first(), x, i - 1);
        assert(s.remove(i) =~= seq![s[0]] + s.drop_first().remove(i - 1));
    } else {
        assert(s.remove(0) =~= s.drop_first());
    }
}

pub proof fn lemma_drop_absent_child(s: Seq<u128>, x: u128)
    requires
        !s.contains(x),
    ensures
        drop_first_child(s, x) == s,
    decreases s.len(),
{
    if s.len() > 0 {
        assert(s[0] != x);
        assert(!s.drop_first().contains(x)) by {
            if s.drop_first().contains(x) {
                let j = choose|j: int| 0 <= j < s.drop_first().len() && s.drop_first()[j] == x;
                assert(s[j + 1] == x);
            }
        }
        lemma_drop_absent_child(s.drop_first(), x);
        assert(s =~= seq![s[0]] + s.drop_first());
    }
}

pub proof fn lemma_drop_first_parent(s: Seq<IntervalModel>, p: u128, i: int)
    requires
        0 <= i < s.len(),
        s[i].parent == p,
        forall|j: int| 0 <= j < i ==> s[j].parent != p,
    ensures
        drop_first_parent(s, p) == s.remove(i),
    decreases i,
{
    if i > 0 {
        lemma_drop_first_parent(s.drop_first(), p, i - 1);
        assert(s.remove(i) =~= seq![s[0]] + s.drop_first().remove(i - 1));
    } else {
        assert(s.remove(0) =~= s.drop_first());
    }
}

pub proof fn lemma_drop_absent_parent(s: Seq<IntervalModel>, p: u128)
    requires
        forall|j: int| 0 <= j < s.len() ==> s[j].parent != p,
    ensures
        drop_first_parent(s, p) == s,
    decreases s.len(),
{
    if s.len() > 0 {
        lemma_drop_absent_parent(s.drop_first(), p);
        assert(s =~= seq![s[0]] + s.drop_first());
    }
}

pub proof fn lemma_drop_child_keeps(s: Seq<u128>, x: u128)
    requires
        s.no_duplicates(),
    ensures
        drop_first_child(s, x).no_duplicates(),
        !drop_first_child(s, x).contains(x),
        forall|j: int|
            0 <= j < drop_first_child(s, x).len() ==> s.contains(
                #[trigger] drop_first_child(s, x)[j],
            ),
{
    if s.contains(x) {
        let i = choose|i: int| 0 <= i < s.len() && s[i] == x;
        assert forall|j: int| 0 <= j < i implies s[j] != x by {
            assert(s[j] != s[i]);
        }
        lemma_drop_first_child(s, x, i);
        let r = s.remove(i);
        assert forall|j: int| 0 <= j < r.len() implies s.contains(#[trigger] r[j]) by {
            if j < i {
                assert(s[j] == r[j]);
            } else {
                assert(s[j + 1] == r[j]);
            }
        }
        assert(!r.contains(x)) by {
            if r.contains(x) {
                let j = choose|j: int| 0 <= j < r.len() && r[j] == x;
                if j < i {
                    assert(s[j] == x);
                } else {
                    assert(s[j + 1] == x);
                }
            }
        }
        assert forall|a: int, b: int| 0 <= a < b < r.len() implies r[a] != r[b] by {
            let sa = if a < i { a } else { a + 1 };
            let sb = if b < i { b } else { b + 1 };
            assert(r[a] == s[sa] && r[b] == s[sb]);
        }
    } else {
        lemma_drop_absent_child(s, x);
        assert forall|j: int| 0 <= j < s.len() implies s.contains(#[trigger] s[j]) by {}
    }
}

#[derive(Clone, Debug)]
pub struct MultiTreeNode {
    childs: Vec<u128>,
    data: u128,
    interval_node: Vec<IntervalNode>,
    index: u32,
}

impl View for MultiTreeNode {
    type V = NodeModel;

    closed spec fn view(&self) -> NodeModel {
        NodeModel {
            data: self.data,
            childs: self.childs@,
            intervals: self.interval_node@.map_values(|iv: IntervalNode| iv@),
            index: self.index,
        }
    }
}

impl MultiTreeNode {
    /// A node for the IRI `data`, with no child and no parent.
    pub fn new(data: &str) -> (r: Self)
        ensures
            r@ == (NodeModel {
                data: str_hash(data@),
                childs: Seq::empty(),
                intervals: Seq::empty(),
                index: 0,
            }),
    {
        let r = MultiTreeNode {
            childs: Vec::new(),
            data: hash_str(data),
            interval_node: Vec::new(),
            index: 0,
        };
        assert(r@.intervals =~= Seq::<IntervalModel>::empty());
        r
    }

    pub fn get_data(&self) -> (r: u128)
        ensures
            r == self@.data,
    {
        self.data
    }

    /// Adds `child_node` as the last child, unless it is a child already;
    /// says whether it was added.
    pub fn add_child(&mut self, child_node: u128) -> (added: bool)
        ensures
            added == !old(self)@.childs.contains(child_node),
            final(self)@ == with_child(old(self)@, child_node),
    {
        let mut i: usize = 0;
        while i < self.childs.len()
            invariant
                i <= self.childs.len(),
                forall|j: int| 0 <= j < i ==> self.childs@[j] != child_node,
            decreases self.childs.len() - i,
        {
            if self.childs[i] == child_node {
                return false;
            }
            i = i + 1;
        }
        self.childs.push(child_node);
        true
    }

    /// The position of the first child `child_strhash`, or `usize::MAX` where
    /// there is none.
    pub fn find_child_index(&self, child_strhash: u128) -> (r: usize)
        ensures
            r == usize::MAX <==> !self@.childs.contains(child_strhash),
            r != usize::MAX ==> r < self@.childs.len() && self@.childs[r as int] == child_strhash
                && forall|j: int| 0 <= j < r ==> self@.childs[j] != child_strhash,
    {
        let mut i: usize = 0;
        while i < self.childs.len()
            invariant
                i <= self.childs.len(),
                forall|j: int| 0 <= j < i ==> self.childs@[j] != child_strhash,
            decreases self.childs.len() - i,
        {
            if self.childs[i] == child_strhash {
                return i;
            }
            i = i + 1;
        }
        usize::MAX
    }

    /// Removes the first child `child_strhash`, if there is one.
    pub fn remove_child(&mut self, child_strhash: u128)
        ensures
            final(self)@ == without_child(old(self)@, child_strhash),
    {
        let index = self.find_child_index(child_strhash);
        if index != usize::MAX {
            self.childs.remove(index);
            proof {
                lemma_drop_first_child(old(self)@.childs, child_strhash, index as int);
            }
        } else {
            proof {
                lemma_drop_absent_child(old(self)@.childs, child_strhash);
            }
        }
        assert(self@ =~= without_child(old(self)@, child_strhash));
    }

    /// The position of the first interval for the parent `parent_strhash`, or
    /// `usize::MAX` where there is none.
    pub fn find_parent_index(&self, parent_strhash: u128) -> (r: usize)
        ensures
            r == usize::MAX <==> !parents_of(self@).contains(parent_strhash),
            r != usize::MAX ==> r < self@.intervals.len() && self@.intervals[r as int].parent
                == parent_strhash && forall|j: int|
                0 <= j < r ==> self@.intervals[j].parent != parent_strhash,
    {
        let mut i: usize = 0;
        while i < self.interval_node.len()
            invariant
                i <= self.interval_node.len(),
                forall|j: int| 0 <= j < i ==> self@.intervals[j].parent != parent_strhash,
            decreases self.interval_node.len() - i,
        {
            if self.interval_node[i].get_parent() == parent_strhash {
                assert(parents_of(self@)[i as int] == parent_strhash);
                return i;
            }
            i = i + 1;
        }
        assert forall|j: int| 0 <= j < parents_of(self@).len() implies parents_of(self@)[j]
            != parent_strhash by {
            assert(self@.intervals[j].parent != parent_strhash);
        }
        usize::MAX
    }

    /// Removes the first interval for the parent `parent_strhash`, if there is one.
    pub fn remove_parent(&mut self, parent_strhash: u128)
        ensures
            final(self)@ == without_parent(old(self)@, parent_strhash),
    {
        let index = self.find_parent_index(parent_strhash);
        if index != usize::MAX {
            self.interval_node.remove(index);
            assert(self@.intervals =~= old(self)@.intervals.remove(index as int));
            proof {
                lemma_drop_first_parent(old(self)@.intervals, parent_strhash, index as int);
            }
        } else {
            proof {
                assert forall|j: int| 0 <= j < old(self)@.intervals.len() implies old(
                    self,
                )@.intervals[j].parent != parent_strhash by {
                    assert(parents_of(old(self)@)[j] == old(self)@.intervals[j].parent);
                }
                lemma_drop_absent_parent(old(self)@.intervals, parent_strhash);
            }
        }
        assert(self@ =~= without_parent(old(self)@, parent_strhash));
    }

    /// The intervals, one per parent.
    pub fn get_interval_nodes(&self) -> (r: &Vec<IntervalNode>)
        ensures
            r@.map_values(|iv: IntervalNode| iv@) == self@.intervals,
    {
        &self.interval_node
    }

    /// The children's hashes.
    pub fn get_childs(&self) -> (r: &Vec<u128>)
        ensures
            r@ == self@.childs,
    {
        &self.childs
    }

    /// Adds a not yet encoded interval for the parent `parent`.
    pub fn add_parent(&mut self, parent: u128)
        ensures
            final(self)@ == with_parent(old(self)@, parent),
    {
        self.interval_node.push(IntervalNode::new(parent));
        assert(self@.intervals =~= old(self)@.intervals.push(
            IntervalModel { start: 0, end: 0, layer: 0, parent },
        ));
    }

    pub fn count_parents(&self) -> (r: usize)
        ensures
            r == self@.intervals.len(),
    {
        self.interval_node.len()
    }

    /// Whether the node has an interval for the parent `parent`.
    pub fn if_exist_parent(&self, parent: u128) -> (r: bool)
        ensures
            r == parents_of(self@).contains(parent),
    {
        self.find_parent_index(parent) != usize::MAX
    }

    /// The position of the first interval that has not been encoded (whose
    /// start is 0), or `usize::MAX` where there is none.
    pub fn find_first_unencoded_parent(&self) -> (r: usize)
        ensures
            r == usize::MAX <==> forall|j: int|
                0 <= j < self@.intervals.len() ==> self@.intervals[j].start != 0,
            r != usize::MAX ==> r < self@.intervals.len() && self@.intervals[r as int].start == 0
                && forall|j: int| 0 <= j < r ==> self@.intervals[j].start != 0,
    {
        let mut i: usize = 0;
        while i < self.interval_node.len()
            invariant
                i <= self.interval_node.len(),
                forall|j: int| 0 <= j < i ==> self@.intervals[j].start != 0,
            decreases self.interval_node.len() - i,
        {
            if self.interval_node[i].get_start() == 0 {
                assert(self@.intervals[i as int].start == 0);
                return i;
            }
            i = i + 1;
        }
        usize::MAX
    }

    /// Gives every interval for the parent `parent` the code `[start, end]` at
    /// depth `layer`.
    pub(crate) fn encode_below(&mut self, parent: u128, start: u32, end: u32, layer: u16)
        ensures
            final(self)@ == encoded_below(old(self)@, parent, start, end, layer),
    {
        let ghost target = encoded_below(old(self)@, parent, start, end, layer);
        let mut i: usize = 0;
        while i < self.interval_node.len()
            invariant
                i <= self.interval_node.len(),
                self.interval_node.len() == old(self).interval_node.len(),
                target == encoded_below(old(self)@, parent, start, end, layer),
                self.data == old(self).data,
                self.childs == old(self).childs,
                self.index == old(self).index,
                forall|j: int| 0 <= j < i ==> #[trigger] self@.intervals[j] == target.intervals[j],
                forall|j: int|
                    i <= j < self.interval_node.len() ==> #[trigger] self@.intervals[j]
                        == old(self)@.intervals[j],
            decreases self.interval_node.len() - i,
        {
            let mut iv = self.interval_node[i];
            assert(self@.intervals[i as int] == self.interval_node@[i as int]@);
            assert(iv@ == old(self)@.intervals[i as int]);
            if iv.get_parent() == parent {
                iv.set_start(start);
                iv.set_end(end);
                iv.set_layer(layer);
            }
            assert(iv@ == target.intervals[i as int]);
            let ghost before = self@.intervals;
            self.interval_node.set(i, iv);
            assert(self@.intervals =~= before.update(i as int, iv@));
            i = i + 1;
        }
        assert(self@.intervals =~= target.intervals);
    }
}

} // verus!
