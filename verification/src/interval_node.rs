//! The interval code that a node carries for one of its parents.
use vstd::prelude::*;

verus! {

/// What an [`IntervalNode`] holds: the code `[start, end]`, the depth
/// `layer`, and the hash of the parent that the code is for.
pub struct IntervalModel {
    pub start: u32,
    pub end: u32,
    pub layer: u16,
    pub parent: u128,
}

/// One parent of a node, with the interval code the node has below it.
/// A code of `0` means that the node has not been encoded below that parent.
#[derive(Clone, Copy, Debug)]
pub struct IntervalNode {
    start: u32,
    end: u32,
    layer: u16,
    parent: u128,
}

impl View for IntervalNode {
    type V = IntervalModel;

    closed spec fn view(&self) -> IntervalModel {
        IntervalModel { start: self.start, end: self.end, layer: self.layer, parent: self.parent }
    }
}

impl IntervalNode {
    /// A fresh, not yet encoded, link to the parent with hash `parent`.
    pub fn new(parent: u128) -> (r: Self)
        ensures
            r@ == (IntervalModel { start: 0, end: 0, layer: 0, parent }),
    {
        IntervalNode { start: 0, end: 0, layer: 0, parent }
    }

    /// The hash of the parent.
    pub fn get_parent(&self) -> (p: u128)
        ensures
            p == self@.parent,
    {
        self.parent
    }

    pub fn set_start(&mut self, start: u32)
        ensures
            final(self)@ == (IntervalModel { start, ..old(self)@ }),
    {
        self.start = start;
    }

    pub fn get_start(&self) -> (r: u32)
        ensures
            r == self@.start,
    {
        self.start
    }

    pub fn set_end(&mut self, end: u32)
        ensures
            final(self)@ == (IntervalModel { end, ..old(self)@ }),
    {
        self.end = end;
    }

    pub fn get_end(&self) -> (r: u32)
        ensures
            r == self@.end,
    {
        self.end
    }

    pub fn set_layer(&mut self, layer: u16)
        ensures
            final(self)@ == (IntervalModel { layer, ..old(self)@ }),
    {
        self.layer = layer;
    }

    pub fn get_layer(&self) -> (r: u16)
        ensures
            r == self@.layer,
    {
        self.layer
    }
}

} // verus!
