use oxiuse::hashing::hash_str;
use oxiuse::programs::ex_query_lubm1::TypedFact;
use oxiuse::programs::{ex_query_dbpedia, ex_query_lubm1, load_data};
use oxiuse::reasoning::Fact;
use oxiuse::triples::{Triple, TripleSet};
use oxiuse::vocab::{lubm, rdf, rdfs};
use std::collections::HashMap;

fn line(s: &str, p: &str, o: &str) -> String {
    format!("<{}> <{}> <{}> .", s, p, o)
}

fn fact(s: &str, p: &str, o: &str) -> Fact {
    Fact { subject: Some(s.to_string()), predicate: p.to_string(), object: Some(o.to_string()) }
}

fn names(iris: &[&str]) -> HashMap<u128, String> {
    iris.iter().map(|s| (hash_str(s), s.to_string())).collect()
}

fn sorted(set: &TripleSet) -> Vec<(String, String, String)> {
    let mut v: Vec<(String, String, String)> = set
        .triples()
        .iter()
        .map(|t| (t.subject.clone(), t.predicate.clone(), t.object.clone()))
        .collect();
    v.sort();
    v
}

fn t(s: &str, p: &str, o: &str) -> (String, String, String) {
    (s.to_string(), p.to_string(), o.to_string())
}

#[test]
fn triple_set_keeps_each_triple_once() {
    let mut set = TripleSet::new();
    assert!(set.insert(Triple::new("a".into(), "b".into(), "c".into())));
    assert!(!set.insert(Triple::new("a".into(), "b".into(), "c".into())));
    assert!(set.insert(Triple::new("a".into(), "b".into(), "d".into())));
    assert_eq!(set.len(), 2);
    assert!(Triple::new("x".into(), "y".into(), "z".into()).same(&Triple::new("x".into(), "y".into(), "z".into())));
}

fn trees() -> (oxiuse::tree::MultiTree, oxiuse::tree::MultiTree) {
    let lines = vec![
        line("http://b", rdfs::SUB_CLASS_OF, "http://a"),
        line("http://c", rdfs::SUB_CLASS_OF, "http://b"),
        line("http://q", rdfs::SUB_PROPERTY_OF, "http://p"),
    ];
    load_data::construct_tree(&lines).unwrap()
}

#[test]
fn dbpedia_reason_adds_named_ancestors() {
    let (class_tree, property_tree) = trees();
    let facts = vec![
        fact("http://x", rdfs::SUB_CLASS_OF, "http://c"),
        fact("http://r", rdfs::SUB_PROPERTY_OF, "http://q"),
        fact("http://x", "http://other", "http://c"),
        Fact { subject: None, predicate: rdfs::SUB_CLASS_OF.to_string(), object: Some("http://c".into()) },
    ];
    // http://b is not named by the store.
    let names = names(&["http://a", "http://c", "http://q", "http://p"]);
    let set = ex_query_dbpedia::reason(&facts, &class_tree, &property_tree, &names);
    let mut expected = vec![
        t("http://x", rdfs::SUB_CLASS_OF, "http://c"),
        t("http://x", rdfs::SUB_CLASS_OF, "http://a"),
        t("http://r", rdfs::SUB_PROPERTY_OF, "http://q"),
        t("http://r", rdfs::SUB_PROPERTY_OF, "http://p"),
    ];
    expected.sort();
    assert_eq!(sorted(&set), expected);
    assert_eq!(set.len(), 4);
}

#[test]
fn dbpedia_reason_keeps_a_fact_about_an_unknown_class() {
    let (class_tree, property_tree) = trees();
    let facts = vec![fact("http://x", rdfs::DOMAIN, "http://unknown")];
    let set = ex_query_dbpedia::reason(&facts, &class_tree, &property_tree, &HashMap::new());
    assert_eq!(sorted(&set), vec![t("http://x", rdfs::DOMAIN, "http://unknown")]);
}

#[test]
fn load_data_reason_drops_a_fact_about_an_unknown_class() {
    let (class_tree, property_tree) = trees();
    let facts = vec![
        fact("http://x", rdfs::DOMAIN, "http://unknown"),
        fact("http://y", rdfs::RANGE, "http://b"),
    ];
    let names = names(&["http://a", "http://b"]);
    let set = load_data::reason(&facts, &class_tree, &property_tree, &names);
    let mut expected = vec![
        t("http://y", rdfs::RANGE, "http://b"),
        t("http://y", rdfs::RANGE, "http://a"),
    ];
    expected.sort();
    assert_eq!(sorted(&set), expected);
}

#[test]
fn lubm_reason_counts_works_for_and_types() {
    let lines = vec![
        line("http://dept", lubm::SUB_ORGANIZATION, "http://univ"),
    ];
    let tree = ex_query_lubm1::construct_tree(&lines).unwrap();
    let names = names(&["http://dept", "http://univ"]);
    let facts = vec![
        TypedFact {
            fact: fact("http://prof", lubm::WORKS_FOR, "http://dept"),
            subject_types: vec!["http://FullProfessor".to_string()],
            object_types: vec!["http://Department".to_string()],
        },
        TypedFact {
            fact: fact("http://prof", "http://name", "http://n"),
            subject_types: vec!["http://FullProfessor".to_string()],
            object_types: vec![],
        },
    ];
    // worksFor: (prof, worksFor, dept), (prof, worksFor, univ)
    // types: (prof, type, FullProfessor), (worksFor, domain, FullProfessor),
    //        (dept, type, Department), (worksFor, range, Department),
    //        (name, domain, FullProfessor)
    assert_eq!(ex_query_lubm1::reason(&facts, &tree, &names), 7);
    let _ = rdf::TYPE;
}
