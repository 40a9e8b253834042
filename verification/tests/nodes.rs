use oxiuse::hashing::hash_str;
use oxiuse::interval_node::IntervalNode;
use oxiuse::tree_node::MultiTreeNode;

#[test]
fn interval_node_starts_unencoded() {
    let iv = IntervalNode::new(7);
    assert_eq!(iv.get_parent(), 7);
    assert_eq!(iv.get_start(), 0);
    assert_eq!(iv.get_end(), 0);
    assert_eq!(iv.get_layer(), 0);
}

#[test]
fn interval_node_setters() {
    let mut iv = IntervalNode::new(3);
    iv.set_start(5);
    iv.set_end(9);
    iv.set_layer(2);
    assert_eq!(iv.get_start(), 5);
    assert_eq!(iv.get_end(), 9);
    assert_eq!(iv.get_layer(), 2);
    assert_eq!(iv.get_parent(), 3);
}

#[test]
fn node_data_is_hash_of_iri() {
    let n = MultiTreeNode::new("http://a");
    assert_eq!(n.get_data(), hash_str("http://a"));
    assert_ne!(n.get_data(), hash_str("http://b"));
    assert_eq!(n.get_childs().len(), 0);
    assert_eq!(n.count_parents(), 0);
}

#[test]
fn hash_is_siphash_of_bytes() {
    // The hash does not hand the string back, and is the same for the same
    // string.
    // Zero-keyed 128-bit SipHash-2-4 of the UTF-8 bytes.
    assert_eq!(hash_str("a"), 49782709028341628155980056148600343807u128);
    assert_eq!(hash_str("http://a"), 207706131089468204316106916426204917780u128);
    assert_eq!(hash_str("http://a"), hash_str("http://a"));
    assert_ne!(hash_str(""), 0);
    assert_ne!(hash_str("a"), hash_str("b"));
}

#[test]
fn add_child_refuses_a_repeated_child() {
    let mut n = MultiTreeNode::new("p");
    assert!(n.add_child(1));
    assert!(n.add_child(2));
    assert!(!n.add_child(1));
    assert_eq!(n.get_childs(), &vec![1u128, 2]);
}

#[test]
fn find_and_remove_child() {
    let mut n = MultiTreeNode::new("p");
    n.add_child(10);
    n.add_child(20);
    n.add_child(30);
    assert_eq!(n.find_child_index(20), 1);
    assert_eq!(n.find_child_index(40), usize::MAX);
    n.remove_child(20);
    assert_eq!(n.get_childs(), &vec![10u128, 30]);
    n.remove_child(40);
    assert_eq!(n.get_childs(), &vec![10u128, 30]);
}

#[test]
fn parents_are_kept_in_order_and_removed_first_first() {
    let mut n = MultiTreeNode::new("c");
    n.add_parent(1);
    n.add_parent(2);
    n.add_parent(1);
    assert_eq!(n.count_parents(), 3);
    assert!(n.if_exist_parent(2));
    assert!(!n.if_exist_parent(3));
    assert_eq!(n.find_parent_index(1), 0);
    assert_eq!(n.find_parent_index(3), usize::MAX);
    n.remove_parent(1);
    let ps: Vec<u128> = n.get_interval_nodes().iter().map(|iv| iv.get_parent()).collect();
    assert_eq!(ps, vec![2, 1]);
    n.remove_parent(3);
    assert_eq!(n.count_parents(), 2);
}

#[test]
fn first_unencoded_parent() {
    let mut n = MultiTreeNode::new("c");
    assert_eq!(n.find_first_unencoded_parent(), usize::MAX);
    n.add_parent(1);
    n.add_parent(2);
    assert_eq!(n.find_first_unencoded_parent(), 0);
}
