//! Building the class and property trees from N-Triples lines such as
//! `<s> <p> <o> .`: a line is split at each space, and a term is a field
//! without its first and last characters (the angle brackets).
use crate::hashing::str_hash;
use crate::graph::group_ways;
use crate::tree::{encodable, encoded, encoded_ways, fresh_node, inserted, with_root_parent, MultiTree};
use crate::tree_node::NodeModel;
use vstd::prelude::*;
use vstd::std_specs::iter::IteratorSpec;

verus! {

broadcast use vstd::string::group_string_axioms;

/// The positions of the spaces of `s`, in order.
pub open spec fn space_positions(s: Seq<char>) -> Seq<int>
    decreases s.len(),
{
    if s.len() == 0 {
        seq![]
    } else {
        let p = space_positions(s.drop_last());
        if s.last() == ' ' {
            p.push(s.len() - 1)
        } else {
            p
        }
    }
}

/// The number of fields of `s` split at each space.
pub open spec fn field_count(s: Seq<char>) -> int {
    space_positions(s).len() + 1int
}

/// Field `k` of `s` split at each space.
pub open spec fn field(s: Seq<char>, k: int) -> Seq<char> {
    let sp = space_positions(s);
    let from = if k == 0 {
        0
    } else {
        sp[k - 1] + 1
    };
    let to = if k < sp.len() {
        sp[k]
    } else {
        s.len() as int
    };
    s.subrange(from, to)
}

/// Term `k` of the line `s`: field `k` without its first and last
/// characters, where the field exists, has at least two characters, and
/// these are ASCII (so that they are its first and last bytes).
pub open spec fn term(s: Seq<char>, k: int) -> Option<Seq<char>> {
    if 0 <= k < field_count(s) && field(s, k).len() >= 2 && (field(s, k)[0] as u32) < 128 && (
    field(s, k).last() as u32) < 128 {
        Some(field(s, k).subrange(1, field(s, k).len() - 1))
    } else {
        None
    }
}

/// The views of some strings.
pub open spec fn views(v: Seq<&str>) -> Seq<Seq<char>> {
    v.map_values(|s: &str| s@)
}

/// The line `l` can be read against the predicates `preds`: it has a
/// predicate term, and where that is one of `preds`, a subject and an object
/// term.
pub open spec fn line_ok(l: Seq<char>, preds: Seq<Seq<char>>) -> bool {
    &&& term(l, 1) is Some
    &&& preds.contains(term(l, 1)->0) ==> term(l, 0) is Some && term(l, 2) is Some
}

/// The line `l` inserts its subject below its object against `preds`: its
/// predicate is one of `preds`, and it has a subject and an object term.
pub open spec fn inserts(l: Seq<char>, preds: Seq<Seq<char>>) -> bool {
    term(l, 1) is Some && preds.contains(term(l, 1)->0) && term(l, 0) is Some && term(l, 2) is Some
}

/// The line `l` has the predicate `p`, a subject and an object term.
pub open spec fn line_with(l: Seq<char>, p: Seq<char>) -> bool {
    term(l, 1) is Some && term(l, 1)->0 == p && term(l, 0) is Some && term(l, 2) is Some
}

/// The nodes `m` of a tree with the root `root` once every line of `lines`
/// whose predicate is one of `preds` has inserted its subject below its
/// object, in order.
pub open spec fn built(
    m: Map<u128, NodeModel>,
    root: u128,
    lines: Seq<Seq<char>>,
    preds: Seq<Seq<char>>,
) -> Map<u128, NodeModel>
    decreases lines.len(),
{
    if lines.len() == 0 {
        m
    } else {
        let m0 = built(m, root, lines.drop_last(), preds);
        let l = lines.last();
        if term(l, 1) is Some && preds.contains(term(l, 1)->0) && term(l, 0) is Some && term(
            l,
            2,
        ) is Some {
            inserted(m0, root, str_hash(term(l, 0)->0), str_hash(term(l, 2)->0)).0
        } else {
            m0
        }
    }
}

/// The characters of `line`.
fn chars_of(line: &str) -> (r: Vec<char>)
    ensures
        r@ == line@,
{
    let mut r: Vec<char> = Vec::new();
    let mut it = line.chars();
    loop
        invariant
            it.remaining() == line@.skip(r@.len() as int),
            r@ == line@.take(r@.len() as int),
            r@.len() <= line@.len(),
        ensures
            r@ == line@,
        decreases line@.len() - r@.len(),
    {
        let ghost before = it.remaining();
        match it.next() {
            Some(c) => {
                proof {
                    assert(before.len() > 0);
                    assert(line@.skip(r@.len() as int).drop_first() =~= line@.skip(r@.len() as int + 1));
                    assert(line@.take(r@.len() as int + 1) =~= line@.take(r@.len() as int).push(c));
                }
                r.push(c);
            },
            None => {
                proof {
                    assert(before.len() == 0);
                    assert(r@ =~= line@);
                }
                break ;
            },
        }
    }
    r
}

/// The positions of the spaces of `cs`.
fn spaces_of(cs: &Vec<char>) -> (r: Vec<usize>)
    ensures
        r@.len() == space_positions(cs@).len(),
        forall|i: int| 0 <= i < r@.len() ==> r@[i] as int == #[trigger] space_positions(cs@)[i],
{
    let mut r: Vec<usize> = Vec::new();
    let mut i: usize = 0;
    while i < cs.len()
        invariant
            i <= cs.len(),
            r@.len() == space_positions(cs@.take(i as int)).len(),
            forall|j: int|
                0 <= j < r@.len() ==> r@[j] as int == #[trigger] space_positions(
                    cs@.take(i as int),
                )[j],
        decreases cs.len() - i,
    {
        proof {
            assert(cs@.take(i + 1).drop_last() =~= cs@.take(i as int));
        }
        if cs[i] == ' ' {
            r.push(i);
        }
        i = i + 1;
    }
    assert(cs@.take(cs.len() as int) =~= cs@);
    r
}

proof fn lemma_space_positions_bounds(s: Seq<char>)
    ensures
        forall|i: int|
            0 <= i < space_positions(s).len() ==> 0 <= #[trigger] space_positions(s)[i] < s.len()
                && s[space_positions(s)[i]] == ' ',
        forall|i: int, j: int|
            0 <= i < j < space_positions(s).len() ==> #[trigger] space_positions(s)[i]
                < #[trigger] space_positions(s)[j],
    decreases s.len(),
{
    if s.len() > 0 {
        let init = s.drop_last();
        lemma_space_positions_bounds(init);
        let p0 = space_positions(init);
        assert forall|i: int| 0 <= i < p0.len() implies s[#[trigger] p0[i]] == ' ' by {
            assert(init[p0[i]] == ' ');
        }
    }
}

/// Term `k` of `line` (see [`term`]), if it has one.
pub fn term_at<'a>(line: &'a str, k: usize) -> (r: Option<&'a str>)
    ensures
        r is Some <==> term(line@, k as int) is Some,
        r matches Some(t) ==> t@ == term(line@, k as int)->0,
{
    let cs = chars_of(line);
    let sp = spaces_of(&cs);
    proof {
        lemma_space_positions_bounds(cs@);
    }
    if k > sp.len() {
        return None;
    }
    let from: usize = if k == 0 {
        0
    } else {
        assert(sp@[k - 1] as int == space_positions(cs@)[k - 1]);
        assert(space_positions(cs@)[k - 1] < cs@.len());
        assert(cs@.len() == cs.len());
        sp[k - 1] + 1
    };
    let to: usize = if k < sp.len() {
        sp[k]
    } else {
        cs.len()
    };
    assert(from <= to) by {
        if 0 < k && k < sp.len() {
            assert(space_positions(cs@)[k - 1] < space_positions(cs@)[k as int]);
        }
    }
    let ghost f = field(line@, k as int);
    assert(f =~= cs@.subrange(from as int, to as int));
    if to - from < 2 {
        return None;
    }
    let first = cs[from];
    let last = cs[to - 1];
    if (first as u32) >= 128 || (last as u32) >= 128 {
        return None;
    }
    let t = line.substring_char(from + 1, to - 1);
    assert(t@ =~= f.subrange(1, f.len() - 1));
    Some(t)
}

/// Whether two strings are equal.
pub fn same_str(a: &str, b: &str) -> (r: bool)
    ensures
        r == (a@ == b@),
{
    a.to_owned() == b.to_owned()
}

/// Whether `p` is one of `preds`.
pub fn is_one_of(p: &str, preds: &Vec<&str>) -> (r: bool)
    ensures
        r == views(preds@).contains(p@),
{
    let mut i: usize = 0;
    while i < preds.len()
        invariant
            i <= preds.len(),
            forall|j: int| 0 <= j < i ==> #[trigger] views(preds@)[j] != p@,
        decreases preds.len() - i,
    {
        if same_str(p, preds[i]) {
            assert(views(preds@)[i as int] == p@);
            return true;
        }
        i = i + 1;
    }
    false
}

/// Whether every line of `lines` can be read against `preds` (see
/// [`line_ok`]).
pub fn lines_ok(lines: &Vec<String>, preds: &Vec<&str>) -> (r: bool)
    ensures
        r == forall|i: int|
            0 <= i < lines@.len() ==> line_ok(#[trigger] lines@[i]@, views(preds@)),
{
    let mut i: usize = 0;
    while i < lines.len()
        invariant
            i <= lines.len(),
            forall|j: int| 0 <= j < i ==> line_ok(#[trigger] lines@[j]@, views(preds@)),
        decreases lines.len() - i,
    {
        let line = lines[i].as_str();
        let ok = match term_at(line, 1) {
            None => false,
            Some(p) => {
                if is_one_of(p, preds) {
                    term_at(line, 0).is_some() && term_at(line, 2).is_some()
                } else {
                    true
                }
            },
        };
        if !ok {
            assert(!line_ok(lines@[i as int]@, views(preds@)));
            return false;
        }
        i = i + 1;
    }
    true
}

/// The views of some lines.
pub open spec fn line_views(lines: Seq<String>) -> Seq<Seq<char>> {
    lines.map_values(|l: String| l@)
}

/// Inserts, line after line, the subject of every line whose predicate is
/// one of `preds` below its object.
pub fn fill_tree(tree: &mut MultiTree, lines: &Vec<String>, preds: &Vec<&str>)
    requires
        old(tree).wf(),
        forall|i: int| 0 <= i < lines@.len() ==> line_ok(#[trigger] lines@[i]@, views(preds@)),
    ensures
        final(tree).wf(),
        final(tree).nodes() == built(
            old(tree).nodes(),
            old(tree).root_key(),
            line_views(lines@),
            views(preds@),
        ),
        final(tree).root_key() == old(tree).root_key(),
        final(tree).ways() == old(tree).ways(),
        final(tree).ways_index() == old(tree).ways_index(),
{
    let mut i: usize = 0;
    while i < lines.len()
        invariant
            i <= lines.len(),
            tree.wf(),
            forall|j: int| 0 <= j < lines@.len() ==> line_ok(#[trigger] lines@[j]@, views(preds@)),
            tree.nodes() == built(
                old(tree).nodes(),
                old(tree).root_key(),
                line_views(lines@).take(i as int),
                views(preds@),
            ),
            tree.root_key() == old(tree).root_key(),
            tree.ways() == old(tree).ways(),
            tree.ways_index() == old(tree).ways_index(),
        decreases lines.len() - i,
    {
        let line = lines[i].as_str();
        proof {
            let ls = line_views(lines@);
            assert(ls.take(i + 1).drop_last() =~= ls.take(i as int));
            assert(ls.take(i + 1).last() == line@);
            assert(line_ok(lines@[i as int]@, views(preds@)));
        }
        match term_at(line, 1) {
            Some(p) => {
                if is_one_of(p, preds) {
                    match (term_at(line, 0), term_at(line, 2)) {
                        (Some(s), Some(o)) => {
                            tree.insert(s, o);
                        },
                        _ => {},
                    }
                }
            },
            None => {},
        }
        i = i + 1;
    }
    assert(line_views(lines@).take(lines.len() as int) =~= line_views(lines@));
}

/// The nodes of a tree with the root `root` built from `lines` against
/// `preds` (before it is encoded).
pub open spec fn tree_from(root: Seq<char>, lines: Seq<Seq<char>>, preds: Seq<Seq<char>>) -> Map<
    u128,
    NodeModel,
> {
    built(map![str_hash(root) => fresh_node(str_hash(root))], str_hash(root), lines, preds)
}

/// The tree built from `lines` against `preds` from the root `root` can be
/// encoded.
pub open spec fn tree_encodable(
    root: Seq<char>,
    lines: Seq<Seq<char>>,
    preds: Seq<Seq<char>>,
) -> bool {
    encodable(with_root_parent(tree_from(root, lines, preds), str_hash(root)), str_hash(root))
}

/// `t` is the tree built from `lines` against `preds` from the root `root`,
/// then encoded.
pub open spec fn is_encoded_tree(
    t: MultiTree,
    root: Seq<char>,
    lines: Seq<Seq<char>>,
    preds: Seq<Seq<char>>,
) -> bool {
    let m = tree_from(root, lines, preds);
    &&& t.wf()
    &&& t.root_key() == str_hash(root)
    &&& t.nodes() == encoded(m, str_hash(root))
    &&& t.ways() == encoded_ways(m, str_hash(root))
    &&& t.ways_index() == group_ways(Map::empty(), encoded_ways(m, str_hash(root)))
}

/// Builds the tree with the root `root` from `lines` against `preds` (see
/// [`built`]) and encodes it; `None` where it cannot be encoded (see
/// [`encodable`]).
pub fn build_tree(lines: &Vec<String>, root: &str, preds: &Vec<&str>) -> (r: Option<MultiTree>)
    requires
        forall|i: int| 0 <= i < lines@.len() ==> line_ok(#[trigger] lines@[i]@, views(preds@)),
    ensures
        r is Some <==> tree_encodable(root@, line_views(lines@), views(preds@)),
        r matches Some(t) ==> is_encoded_tree(t, root@, line_views(lines@), views(preds@)),
{
    let mut tree = MultiTree::new(root);
    fill_tree(&mut tree, lines, preds);
    if tree.try_encode() {
        assert(Seq::<Seq<u128>>::empty() + encoded_ways(tree_from(root@, line_views(lines@), views(preds@)), str_hash(root@))
            =~= encoded_ways(tree_from(root@, line_views(lines@), views(preds@)), str_hash(root@)));
        Some(tree)
    } else {
        None
    }
}

/// `r` is what reading `lines` into a class tree (against `class`) and a
/// property tree (against `prop`) gives: `Ok` exactly when both trees can be
/// encoded, and then the two encoded trees.
pub open spec fn two_trees_built(
    r: Result<(MultiTree, MultiTree), ()>,
    lines: Seq<Seq<char>>,
    class: Seq<Seq<char>>,
    prop: Seq<Seq<char>>,
) -> bool {
    &&& r is Ok <==> {
        &&& tree_encodable(crate::vocab::owl::OWL_CLASS@, lines, class)
        &&& tree_encodable(crate::vocab::rdf::PROPERTY@, lines, prop)
    }
    &&& r matches Ok((c, p)) ==> is_encoded_tree(c, crate::vocab::owl::OWL_CLASS@, lines, class)
        && is_encoded_tree(p, crate::vocab::rdf::PROPERTY@, lines, prop)
}

proof fn lemma_line_ok_part(l: Seq<char>, a: Seq<Seq<char>>, b: Seq<Seq<char>>)
    requires
        line_ok(l, a + b),
    ensures
        line_ok(l, a),
        line_ok(l, b),
{
    let t = term(l, 1)->0;
    if a.contains(t) {
        let i = choose|i: int| 0 <= i < a.len() && a[i] == t;
        assert((a + b)[i] == t);
    }
    if b.contains(t) {
        let i = choose|i: int| 0 <= i < b.len() && b[i] == t;
        assert((a + b)[a.len() + i] == t);
    }
}

/// The class tree (from the root `owl:Class`) and the property tree (from
/// the root `rdf:Property`) built from `lines`: a line whose predicate is one
/// of `class_preds` goes to the first, one of `prop_preds` to the second.
/// Every line must be readable against both (see [`line_ok`]); `Err` where a
/// tree cannot be encoded (see [`encodable`]).
pub(crate) fn class_and_property_trees(
    lines: &Vec<String>,
    class_preds: &Vec<&str>,
    prop_preds: &Vec<&str>,
) -> (r: Result<(MultiTree, MultiTree), ()>)
    requires
        forall|i: int|
            0 <= i < lines@.len() ==> line_ok(
                #[trigger] lines@[i]@,
                views(class_preds@) + views(prop_preds@),
            ),
    ensures
        two_trees_built(r, line_views(lines@), views(class_preds@), views(prop_preds@)),
{
    proof {
        assert forall|i: int| 0 <= i < lines@.len() implies line_ok(#[trigger] lines@[i]@, views(class_preds@))
            && line_ok(lines@[i]@, views(prop_preds@)) by {
            lemma_line_ok_part(lines@[i]@, views(class_preds@), views(prop_preds@));
        }
    }
    let class_tree = build_tree(lines, crate::vocab::owl::OWL_CLASS, class_preds);
    let property_tree = build_tree(lines, crate::vocab::rdf::PROPERTY, prop_preds);
    match (class_tree, property_tree) {
        (Some(c), Some(p)) => Ok((c, p)),
        _ => Err(()),
    }
}

} // verus!
