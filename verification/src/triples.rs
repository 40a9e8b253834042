//! Triples of IRIs and a set of them, kept without repetition.
use vstd::prelude::*;

verus! {

/// A triple of IRIs (or, for an object, a value).
pub struct Triple {
    pub subject: String,
    pub predicate: String,
    pub object: String,
}

/// What a triple holds: its three strings.
pub open spec fn triple_view(t: Triple) -> (Seq<char>, Seq<char>, Seq<char>) {
    (t.subject@, t.predicate@, t.object@)
}

impl Triple {
    pub fn new(subject: String, predicate: String, object: String) -> (t: Self)
        ensures
            t.subject == subject,
            t.predicate == predicate,
            t.object == object,
    {
        Triple { subject, predicate, object }
    }

    /// Whether the triples hold the same strings.
    pub fn same(&self, other: &Triple) -> (r: bool)
        ensures
            r == (triple_view(*self) == triple_view(*other)),
    {
        self.subject == other.subject && self.predicate == other.predicate && self.object
            == other.object
    }
}

/// A set of triples.
pub struct TripleSet {
    items: Vec<Triple>,
}

impl TripleSet {
    /// The triples, in the order they were first added.
    pub closed spec fn seq(&self) -> Seq<(Seq<char>, Seq<char>, Seq<char>)> {
        self.items@.map_values(|t: Triple| triple_view(t))
    }

    /// The triples in the set.
    pub open spec fn contents(&self) -> Set<(Seq<char>, Seq<char>, Seq<char>)> {
        self.seq().to_set()
    }

    /// No triple is kept twice.
    pub open spec fn wf(&self) -> bool {
        self.seq().no_duplicates()
    }

    pub fn new() -> (r: Self)
        ensures
            r.wf(),
            r.contents() == Set::<(Seq<char>, Seq<char>, Seq<char>)>::empty(),
    {
        let r = TripleSet { items: Vec::new() };
        assert(r.seq() =~= Seq::empty());
        assert(r.contents() =~= Set::<(Seq<char>, Seq<char>, Seq<char>)>::empty());
        r
    }

    /// Adds `t` unless the set holds it; says whether it was added.
    pub fn insert(&mut self, t: Triple) -> (added: bool)
        requires
            old(self).wf(),
        ensures
            final(self).wf(),
            added == !old(self).contents().contains(triple_view(t)),
            final(self).contents() == old(self).contents().insert(triple_view(t)),
    {
        let mut i: usize = 0;
        while i < self.items.len()
            invariant
                i <= self.items.len(),
                self.items == old(self).items,
                old(self).wf(),
                forall|j: int| 0 <= j < i ==> #[trigger] self.seq()[j] != triple_view(t),
            decreases self.items.len() - i,
        {
            if self.items[i].same(&t) {
                assert(self.seq()[i as int] == triple_view(t));
                assert(self.contents() =~= old(self).contents().insert(triple_view(t)));
                return false;
            }
            i = i + 1;
        }
        let ghost tv = triple_view(t);
        self.items.push(t);
        assert(self.seq() =~= old(self).seq().push(tv));
        assert(!old(self).seq().contains(tv));
        assert forall|x: (Seq<char>, Seq<char>, Seq<char>)| self.seq().contains(x) <==> (old(
            self,
        ).seq().contains(x) || x == tv) by {
            if self.seq().contains(x) {
                let j = choose|j: int| 0 <= j < self.seq().len() && self.seq()[j] == x;
                if j < old(self).seq().len() {
                    assert(old(self).seq()[j] == x);
                }
            }
            if old(self).seq().contains(x) {
                let j = choose|j: int| 0 <= j < old(self).seq().len() && old(self).seq()[j] == x;
                assert(self.seq()[j] == x);
            }
            if x == tv {
                assert(self.seq()[self.seq().len() - 1] == x);
            }
        }
        assert(self.contents() =~= old(self).contents().insert(tv));
        true
    }

    /// The number of triples in the set.
    pub fn len(&self) -> (r: usize)
        requires
            self.wf(),
        ensures
            r == self.contents().len(),
    {
        proof {
            self.seq().unique_seq_to_set();
        }
        self.items.len()
    }

    /// The triples, each once, in the order they were first added.
    pub fn triples(&self) -> (r: &Vec<Triple>)
        ensures
            r@.map_values(|t: Triple| triple_view(t)) == self.seq(),
    {
        &self.items
    }
}

} // verus!
