use oxiuse::hashing::hash_str;
use oxiuse::loading::{lines_ok, same_str, term_at, is_one_of};
use oxiuse::programs::{ex_query_dbpedia, ex_query_lubm1, ex_time1, load_data};
use oxiuse::vocab::{lubm, owl, rdf, rdfs};

fn line(s: &str, p: &str, o: &str) -> String {
    format!("<{}> <{}> <{}> .", s, p, o)
}

#[test]
fn terms_of_a_line() {
    let l = "<http://s> <http://p> <http://o> .";
    assert_eq!(term_at(l, 0), Some("http://s"));
    assert_eq!(term_at(l, 1), Some("http://p"));
    assert_eq!(term_at(l, 2), Some("http://o"));
    assert_eq!(term_at(l, 3), None);
    assert_eq!(term_at(l, 4), None);
}

#[test]
fn terms_of_odd_lines() {
    assert_eq!(term_at("", 1), None);
    assert_eq!(term_at("<a>", 1), None);
    assert_eq!(term_at("<a> <> <c>", 1), Some(""));
    assert_eq!(term_at("<a>  <c>", 1), None);
    assert_eq!(term_at("\u{ab}a\u{bb} <p> <o>", 0), None);
    assert_eq!(term_at("<\u{e9}t\u{e9}> <p> <o>", 0), Some("\u{e9}t\u{e9}"));
}

#[test]
fn string_helpers() {
    assert!(same_str("abc", "abc"));
    assert!(!same_str("abc", "abd"));
    let preds = vec![rdfs::SUB_CLASS_OF, lubm::SUB_ORGANIZATION];
    assert!(is_one_of(lubm::SUB_ORGANIZATION, &preds));
    assert!(!is_one_of(rdfs::DOMAIN, &preds));
}

#[test]
fn which_lines_can_be_read() {
    let preds = vec![rdfs::SUB_CLASS_OF];
    let good = vec![line("a", rdfs::SUB_CLASS_OF, "b"), "<x> <y>".to_string()];
    assert!(lines_ok(&good, &preds));
    let missing_object = vec![format!("<a> <{}>", rdfs::SUB_CLASS_OF)];
    assert!(!lines_ok(&missing_object, &preds));
    let no_predicate = vec!["<a>".to_string()];
    assert!(!lines_ok(&no_predicate, &preds));
}

#[test]
fn dbpedia_trees_from_lines() {
    let lines = vec![
        line("http://b", rdfs::SUB_CLASS_OF, "http://a"),
        line("http://u", lubm::SUB_ORGANIZATION, "http://b"),
        line("http://q", rdfs::SUB_PROPERTY_OF, "http://p"),
        line("http://x", rdfs::DOMAIN, "http://y"),
    ];
    let (class_tree, property_tree) = ex_query_dbpedia::construct_tree(&lines).unwrap();
    assert_eq!(class_tree.get_root().get_data(), hash_str(owl::OWL_CLASS));
    assert_eq!(property_tree.get_root().get_data(), hash_str(rdf::PROPERTY));
    assert!(class_tree.if_exist("http://u"));
    assert!(!class_tree.if_exist("http://q"));
    assert!(property_tree.if_exist("http://q"));
    assert!(!class_tree.if_exist("http://x"));
    assert_eq!(
        class_tree.get_parent_way_by_str(hash_str("http://u")),
        Ok(vec![vec![hash_str("http://u"), hash_str("http://b"), hash_str("http://a")]])
    );
    assert_eq!(class_tree.count_childs_by_str(owl::OWL_CLASS), Ok(3));
}

#[test]
fn time1_trees_match_dbpedia_trees() {
    let lines = vec![
        line("http://b", rdfs::SUB_CLASS_OF, "http://a"),
        line("http://u", lubm::SUB_ORGANIZATION, "http://b"),
    ];
    let (c1, _) = ex_time1::construct_tree(&lines).unwrap();
    let (c2, _) = ex_query_dbpedia::construct_tree(&lines).unwrap();
    assert_eq!(c1.get_root().get_childs(), c2.get_root().get_childs());
    assert_eq!(c1.get_root().get_childs().len(), 1);
}

#[test]
fn load_data_trees_skip_organisations() {
    let lines = vec![
        line("http://b", rdfs::SUB_CLASS_OF, "http://a"),
        line("http://u", lubm::SUB_ORGANIZATION, "http://b"),
    ];
    let (class_tree, _) = load_data::construct_tree(&lines).unwrap();
    assert!(class_tree.if_exist("http://b"));
    assert!(!class_tree.if_exist("http://u"));
}

#[test]
fn lubm_tree_takes_only_organisations() {
    let lines = vec![
        line("http://dept", lubm::SUB_ORGANIZATION, "http://univ"),
        line("http://b", rdfs::SUB_CLASS_OF, "http://a"),
    ];
    let t = ex_query_lubm1::construct_tree(&lines).unwrap();
    assert!(t.if_exist("http://dept"));
    assert!(!t.if_exist("http://b"));
}

#[test]
fn unreadable_line_is_refused() {
    let lines = vec![format!("<a> <{}>", rdfs::SUB_CLASS_OF)];
    assert!(!lines_ok(&lines, &vec![rdfs::SUB_CLASS_OF]));
    assert!(!lines_ok(&vec!["<a>".to_string()], &vec![lubm::SUB_ORGANIZATION]));
    let fine = vec![line("http://a", rdfs::SUB_CLASS_OF, "http://b")];
    assert!(lines_ok(&fine, &vec![rdfs::SUB_CLASS_OF]));
}

#[test]
fn cyclic_data_is_an_error() {
    let lines = vec![
        line("http://a", rdfs::SUB_CLASS_OF, "http://x"),
        line("http://b", rdfs::SUB_CLASS_OF, "http://a"),
        line("http://a", rdfs::SUB_CLASS_OF, "http://b"),
    ];
    assert!(load_data::construct_tree(&lines).is_err());
}

#[test]
fn nothing_is_left_unencoded() {
    let lines = vec![
        line("http://b", rdfs::SUB_CLASS_OF, "http://a"),
        line("http://c", rdfs::SUB_CLASS_OF, "http://a"),
        line("http://d", rdfs::SUB_CLASS_OF, "http://b"),
        line("http://d", rdfs::SUB_CLASS_OF, "http://c"),
        line("http://a", rdfs::SUB_CLASS_OF, owl::OWL_CLASS),
    ];
    let (class_tree, _) = load_data::construct_tree(&lines).unwrap();
    for name in [owl::OWL_CLASS, "http://a", "http://b", "http://c", "http://d"] {
        let n = class_tree.get_node_by_strhash(hash_str(name)).unwrap();
        assert_eq!(n.find_first_unencoded_parent(), usize::MAX);
        let below = class_tree.count_childs(n);
        for iv in n.get_interval_nodes() {
            assert!(iv.get_start() >= 1);
            assert_eq!(iv.get_end() - iv.get_start(), below);
        }
    }
}
