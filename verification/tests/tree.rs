use oxiuse::hashing::hash_str;
use oxiuse::tree::MultiTree;

fn h(s: &str) -> u128 {
    hash_str(s)
}

/// R is the root; a hangs below R; b and c below a; d below b and below c.
fn diamond() -> MultiTree {
    let mut t = MultiTree::new("R");
    assert!(t.insert("b", "a"));
    assert!(t.insert("c", "a"));
    assert!(t.insert("d", "b"));
    assert!(t.insert("d", "c"));
    t
}

fn code_below(t: &MultiTree, node: &str, parent: &str) -> (u32, u32, u16) {
    let n = t.get_node_by_strhash(h(node)).unwrap();
    let iv = n
        .get_interval_nodes()
        .iter()
        .find(|iv| iv.get_parent() == h(parent))
        .unwrap();
    (iv.get_start(), iv.get_end(), iv.get_layer())
}

#[test]
fn new_tree_has_only_its_root() {
    let t = MultiTree::new("R");
    assert!(t.if_exist("R"));
    assert!(!t.if_exist("a"));
    assert!(t.is_root(t.get_root()));
    assert_eq!(t.get_root().get_data(), h("R"));
    assert_eq!(t.count_parents_by_str("R"), Ok(0));
    assert_eq!(t.count_parents_by_str("a"), Err(()));
    assert!(t.get_node_by_strhash(h("a")).is_err());
    assert!(t.get_parent_way_by_str(h("R")).is_err());
}

#[test]
fn a_new_parent_hangs_below_the_root() {
    let mut t = MultiTree::new("R");
    assert!(t.insert("b", "a"));
    assert!(t.if_exist("a") && t.if_exist("b"));
    assert_eq!(t.get_root().get_childs(), &vec![h("a")]);
    assert_eq!(t.get_node_by_strhash(h("a")).unwrap().get_childs(), &vec![h("b")]);
    assert!(t.get_node_by_strhash(h("a")).unwrap().if_exist_parent(h("R")));
    assert!(t.get_node_by_strhash(h("b")).unwrap().if_exist_parent(h("a")));
}

#[test]
fn a_repeated_insert_is_refused() {
    let mut t = MultiTree::new("R");
    assert!(t.insert("b", "a"));
    assert!(!t.insert("b", "a"));
    assert_eq!(t.count_parents_by_str("b"), Ok(1));
}

#[test]
fn a_node_below_the_root_moves_below_its_new_parent() {
    let mut t = MultiTree::new("R");
    assert!(t.insert("x", "y"));
    assert_eq!(t.get_root().get_childs(), &vec![h("y")]);
    assert!(t.insert("y", "z"));
    assert_eq!(t.get_root().get_childs(), &vec![h("z")]);
    let y = t.get_node_by_strhash(h("y")).unwrap();
    assert!(!y.if_exist_parent(h("R")));
    assert!(y.if_exist_parent(h("z")));
    assert_eq!(t.count_parents_by_str("y"), Ok(1));
}

#[test]
fn encode_gives_preorder_codes() {
    let mut t = diamond();
    t.encode();
    assert_eq!(code_below(&t, "R", "root_parent"), (1, 6, 1));
    assert_eq!(code_below(&t, "a", "R"), (2, 6, 2));
    assert_eq!(code_below(&t, "b", "a"), (3, 4, 3));
    assert_eq!(code_below(&t, "d", "b"), (4, 4, 4));
    assert_eq!(code_below(&t, "c", "a"), (5, 6, 3));
    assert_eq!(code_below(&t, "d", "c"), (6, 6, 4));
    assert!(t.if_exist("root_parent"));
}

#[test]
fn code_ends_at_start_plus_descendants() {
    let mut t = diamond();
    t.encode();
    for (node, parent) in [("R", "root_parent"), ("a", "R"), ("b", "a"), ("c", "a"), ("d", "b")] {
        let (start, end, _) = code_below(&t, node, parent);
        assert_eq!(end - start, t.count_childs_by_str(node).unwrap());
    }
}

#[test]
fn codes_tell_ancestry() {
    let mut t = diamond();
    t.encode();
    let (a0, a1, _) = code_below(&t, "a", "R");
    let (b0, b1, _) = code_below(&t, "b", "a");
    let (c0, _, _) = code_below(&t, "c", "a");
    let (d0, _, _) = code_below(&t, "d", "b");
    // d below b lies within b's code, c does not.
    assert!(b0 < d0 && d0 <= b1);
    assert!(!(b0 < c0 && c0 <= b1));
    // everything below a lies within a's code.
    assert!(a0 < c0 && c0 <= a1);
}

#[test]
fn ways_are_indexed_by_node() {
    let mut t = diamond();
    t.encode();
    assert_eq!(t.get_parent_way_by_str(h("R")), Ok(vec![vec![h("R")]]));
    assert_eq!(t.get_parent_way_by_str(h("a")), Ok(vec![vec![h("a")]]));
    assert_eq!(t.get_parent_way_by_str(h("b")), Ok(vec![vec![h("b"), h("a")]]));
    assert_eq!(
        t.get_parent_way_by_str(h("d")),
        Ok(vec![vec![h("d"), h("b"), h("a")], vec![h("d"), h("c"), h("a")]])
    );
    assert!(t.get_parent_way_by_str(h("zz")).is_err());
}

#[test]
fn counting_descendants() {
    let t = diamond();
    assert_eq!(t.count_childs_by_str("R"), Ok(5));
    assert_eq!(t.count_childs_by_str("a"), Ok(4));
    assert_eq!(t.count_childs_by_str("d"), Ok(0));
    assert_eq!(t.count_childs_by_str("nope"), Err(()));
    let a = t.get_node_by_strhash(h("a")).unwrap();
    assert_eq!(t.count_childs(a), 4);
}

#[test]
fn a_cycle_that_leaves_the_root_is_not_encoded() {
    let mut t = MultiTree::new("R");
    t.insert("b", "a");
    // a is taken from below the root when it gets the parent b.
    t.insert("a", "b");
    assert_eq!(t.get_root().get_childs().len(), 0);
    assert!(t.try_encode());
    assert_eq!(code_below(&t, "R", "root_parent"), (1, 1, 1));
    assert_eq!(t.try_count_childs_by_str("a"), None);
}

#[test]
fn a_cycle_cannot_be_encoded_or_counted() {
    let mut t = MultiTree::new("R");
    t.insert("a", "x");
    t.insert("b", "a");
    t.insert("a", "b");
    assert_eq!(t.try_count_childs_by_str("a"), None);
    assert_eq!(t.try_count_childs_by_str("q"), Some(Err(())));
    assert!(!t.try_encode());
    assert!(t.get_parent_way_by_str(h("a")).is_err());
}

#[test]
fn try_encode_encodes_a_tree() {
    let mut t = diamond();
    assert_eq!(t.try_count_childs_by_str("a"), Some(Ok(4)));
    assert!(t.try_encode());
    assert_eq!(code_below(&t, "c", "a"), (5, 6, 3));
}

#[test]
fn measure_gives_height_and_size() {
    let t = diamond();
    assert_eq!(t.measure(h("R"), 10, 100), Some((3, 6)));
    assert_eq!(t.measure(h("R"), 3, 100), None);
    assert_eq!(t.measure(h("R"), 10, 5), None);
}

#[test]
fn recursive_on_a_subtree() {
    let mut t = diamond();
    t.initial_root();
    let last = t.recursive(h("b"), h("a"), 10, 3, vec![h("a")]);
    assert_eq!(last, 12);
    assert_eq!(code_below(&t, "b", "a"), (11, 12, 3));
    assert_eq!(code_below(&t, "d", "b"), (12, 12, 4));
}

#[test]
fn encoding_twice_indexes_ways_twice() {
    let mut t = diamond();
    t.encode();
    t.encode();
    assert_eq!(
        t.get_parent_way_by_str(h("b")),
        Ok(vec![vec![h("b"), h("a")], vec![h("b"), h("a")], vec![h("b"), h("a")]])
    );
}

#[test]
fn an_interval_keeps_the_last_meeting() {
    let mut t = MultiTree::new("R");
    t.insert("b", "a");
    t.insert("b", "x");
    t.insert("c", "b");
    t.encode();
    // R(1) a(2) b(3) c(4), then x(5) b(6) c(7): b and c are met twice.
    assert_eq!(code_below(&t, "b", "a"), (3, 4, 3));
    assert_eq!(code_below(&t, "b", "x"), (6, 7, 3));
    assert_eq!(code_below(&t, "c", "b"), (7, 7, 4));
    assert_eq!(
        t.get_parent_way_by_str(h("c")),
        Ok(vec![vec![h("c"), h("b"), h("a")], vec![h("c"), h("b"), h("x")]])
    );
}

#[test]
fn an_edge_below_the_root_is_refused_again() {
    let mut t = MultiTree::new("R");
    assert!(t.insert("a", "R"));
    assert!(!t.insert("a", "R"));
    let root = t.get_root();
    assert_eq!(root.get_childs(), &vec![h("a")]);
    let a = t.get_node_by_strhash(h("a")).unwrap();
    assert_eq!(a.get_interval_nodes().len(), 1);
    assert_eq!(a.get_interval_nodes()[0].get_parent(), h("R"));
}

#[test]
fn recursive_at_any_depth() {
    let mut t = MultiTree::new("R");
    let last = t.recursive(h("R"), h("P"), 0, 5, vec![]);
    assert_eq!(last, 1);
}

#[test]
fn both_counts_agree() {
    let t = diamond();
    for name in ["R", "a", "b", "c", "d"] {
        let n = t.get_node_by_strhash(h(name)).unwrap();
        assert_eq!(t.count_childs_by_str(name), Ok(t.count_childs(n)));
    }
}

#[test]
fn every_interval_of_an_encoded_tree_is_coded() {
    let mut t = diamond();
    t.encode();
    for name in ["a", "b", "c", "d"] {
        let n = t.get_node_by_strhash(h(name)).unwrap();
        let below = t.count_childs(n);
        for iv in n.get_interval_nodes() {
            assert!(iv.get_start() >= 1);
            assert_eq!(iv.get_end() - iv.get_start(), below);
        }
    }
}

/// R is the root; a below R; b and c below a; d below b (a tree).
fn single_parent_tree() -> MultiTree {
    let mut t = MultiTree::new("R");
    assert!(t.insert("b", "a"));
    assert!(t.insert("c", "a"));
    assert!(t.insert("d", "b"));
    t
}

#[test]
fn stored_codes_tell_ancestry() {
    let mut t = single_parent_tree();
    t.encode();
    let code = |n: &str| {
        let node = t.get_node_by_strhash(h(n)).unwrap();
        assert_eq!(node.get_interval_nodes().len(), 1);
        let iv = &node.get_interval_nodes()[0];
        (iv.get_start(), iv.get_end())
    };
    let below = [("R", "a"), ("R", "b"), ("R", "c"), ("R", "d"), ("a", "b"), ("a", "c"), ("a", "d"), ("b", "d")];
    for x in ["R", "a", "b", "c", "d"] {
        for y in ["R", "a", "b", "c", "d"] {
            let (sx, ex) = code(x);
            let (sy, _) = code(y);
            let inside = sx < sy && sy <= ex;
            assert_eq!(inside, below.contains(&(x, y)), "{} {}", x, y);
        }
    }
}

#[test]
fn encoding_keeps_counts() {
    let mut t = diamond();
    let before: Vec<_> = ["R", "a", "b", "c", "d"].iter().map(|n| t.count_childs_by_str(n)).collect();
    t.encode();
    let after: Vec<_> = ["R", "a", "b", "c", "d"].iter().map(|n| t.count_childs_by_str(n)).collect();
    assert_eq!(before, after);
    assert!(t.if_exist("root_parent"));
    assert_eq!(t.count_parents_by_str("R"), Ok(1));
}
