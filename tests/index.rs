use seroost::index::{round_trip, term_frequencies, Index};
use seroost::table::TermFreq;
use std::collections::HashMap;

fn chars(s: &str) -> Vec<char> {
    s.chars().collect()
}

fn table_of(t: &TermFreq) -> HashMap<String, usize> {
    t.entries().iter().cloned().collect()
}

fn stored(index: &Index) -> HashMap<String, HashMap<String, usize>> {
    index
        .export()
        .into_iter()
        .map(|(p, t)| (p, t.into_iter().collect()))
        .collect()
}

fn from_stored(m: HashMap<String, HashMap<String, usize>>) -> Index {
    Index::import(m.into_iter().map(|(p, t)| (p, t.into_iter().collect())).collect())
}

fn expected(pairs: &[(&str, usize)]) -> HashMap<String, usize> {
    pairs.iter().map(|(t, c)| (t.to_string(), *c)).collect()
}

#[test]
fn counts_repeated_terms() {
    let t = term_frequencies(&chars("the cat and THE dog, the end"));
    assert_eq!(
        table_of(&t),
        expected(&[("the", 3), ("cat", 1), ("and", 1), ("dog", 1), (",", 1), ("end", 1)])
    );
    assert_eq!(t.len(), 6);
    assert_eq!(t.total(), 8);
    assert_eq!(t.count(&"the".to_string()), 3);
    assert_eq!(t.count(&"bird".to_string()), 0);
    assert!(t.contains(&"dog".to_string()));
    assert!(!t.contains(&"bird".to_string()));
}

#[test]
fn empty_document_has_empty_table() {
    let t = term_frequencies(&chars("   "));
    assert_eq!(t.len(), 0);
    assert_eq!(t.total(), 0);
}

#[test]
fn table_add_and_insert() {
    let mut t = TermFreq::new();
    t.add("a".to_string());
    t.add("b".to_string());
    t.add("a".to_string());
    assert_eq!(t.count(&"a".to_string()), 2);
    t.insert("a".to_string(), 7);
    assert_eq!(t.count(&"a".to_string()), 7);
    assert_eq!(t.len(), 2);
    assert_eq!(t.total(), 8);
}

#[test]
fn add_document_builds_the_table() {
    let mut index = Index::new();
    index.add_document("rust.txt".to_string(), &chars("Rust is great"));
    index.add_document("go.txt".to_string(), &chars("Go is fine"));
    assert_eq!(index.len(), 2);
    let rust = index.get(&"rust.txt".to_string()).unwrap();
    assert_eq!(table_of(rust), expected(&[("rust", 1), ("is", 1), ("great", 1)]));
    let go = index.get(&"go.txt".to_string()).unwrap();
    assert_eq!(table_of(go), expected(&[("go", 1), ("is", 1), ("fine", 1)]));
    assert!(index.get(&"c.txt".to_string()).is_none());
}

#[test]
fn same_path_is_replaced_not_duplicated() {
    let mut index = Index::new();
    index.add_document("a.txt".to_string(), &chars("one two"));
    index.add_document("a.txt".to_string(), &chars("three"));
    assert_eq!(index.len(), 1);
    let a = index.get(&"a.txt".to_string()).unwrap();
    assert_eq!(table_of(a), expected(&[("three", 1)]));
}

#[test]
fn import_keeps_the_last_entry_for_a_key() {
    let index = Index::import(vec![
        ("a".to_string(), vec![("x".to_string(), 1), ("x".to_string(), 4), ("y".to_string(), 2)]),
        ("b".to_string(), vec![]),
        ("a".to_string(), vec![("z".to_string(), 3)]),
    ]);
    assert_eq!(index.len(), 2);
    assert_eq!(table_of(index.get(&"a".to_string()).unwrap()), expected(&[("z", 3)]));
    assert_eq!(index.get(&"b".to_string()).unwrap().len(), 0);
    let again = Index::import(vec![("a".to_string(), vec![("x".to_string(), 1), ("x".to_string(), 4)])]);
    assert_eq!(again.get(&"a".to_string()).unwrap().count(&"x".to_string()), 4);
    assert_eq!(index.export().len(), 2);
}

#[test]
fn arrival_order_does_not_change_the_index() {
    let docs = [
        ("a.txt", "alpha beta beta"),
        ("b.txt", "beta gamma"),
        ("c.txt", "Gamma 42 !"),
    ];
    let mut forward = Index::new();
    for (p, t) in docs.iter() {
        forward.add_document(p.to_string(), &chars(t));
    }
    let mut backward = Index::new();
    for (p, t) in docs.iter().rev() {
        backward.add_document(p.to_string(), &chars(t));
    }
    assert_eq!(stored(&forward), stored(&backward));
}

#[test]
fn index_survives_a_json_round_trip() {
    let mut index = Index::new();
    index.add_document("/docs/rust.txt".to_string(), &chars("Rust is great, rust is fast"));
    index.add_document("/docs/empty.txt".to_string(), &chars(""));
    index.add_document("/docs/n.txt".to_string(), &chars("1 2 2 3 3 3"));
    let before = stored(&index);
    let text = serde_json::to_string(&before).unwrap();
    let parsed: HashMap<String, HashMap<String, usize>> = serde_json::from_str(&text).unwrap();
    let again = from_stored(parsed);
    assert_eq!(stored(&again), before);
    assert_eq!(again.len(), 3);
    assert_eq!(
        table_of(again.get(&"/docs/rust.txt".to_string()).unwrap()),
        expected(&[("rust", 2), ("is", 2), ("great", 1), (",", 1), ("fast", 1)])
    );
}

#[test]
fn export_then_import_keeps_everything() {
    let mut index = Index::new();
    index.add_document("x.txt".to_string(), &chars("a b b c c c"));
    index.add_document("y.txt".to_string(), &chars("Z"));
    let again = round_trip(&index);
    assert_eq!(stored(&again), stored(&index));
    assert_eq!(again.get(&"x.txt".to_string()).unwrap().count(&"c".to_string()), 3);
}
