use seroost::index::Index;
use seroost::query::{document_frequency, search, Candidate, SearchOutcome};
use seroost::rank::{rank, RESULT_LIMIT};

fn chars(s: &str) -> Vec<char> {
    s.chars().collect()
}

fn corpus() -> Index {
    let mut index = Index::new();
    index.add_document("rust.txt".to_string(), &chars("Rust is great"));
    index.add_document("go.txt".to_string(), &chars("Go is fine"));
    index
}

fn score(c: &Candidate, documents: usize) -> f64 {
    c.hits
        .iter()
        .map(|&(count, df)| (count as f64 / c.total as f64) * (documents as f64 / df as f64).ln())
        .sum()
}

fn candidates(index: &Index, query: &str) -> (usize, Vec<Candidate>) {
    match search(index, &chars(query)) {
        SearchOutcome::Candidates { documents, candidates } => (documents, candidates),
        SearchOutcome::NoTerms => panic!("query unexpectedly has no terms"),
    }
}

#[test]
fn end_to_end_rust_query() {
    let index = corpus();
    let (documents, cands) = candidates(&index, "rust");
    assert_eq!(documents, 2);
    assert_eq!(cands.len(), 1);
    assert_eq!(cands[0].path, "rust.txt");
    assert_eq!(cands[0].total, 3);
    assert_eq!(cands[0].hits, vec![(1, 1)]);
    let s = score(&cands[0], documents);
    assert!((s - (2.0f64).ln() / 3.0).abs() < 1e-12);
    assert!((s - 0.2310).abs() < 1e-4);
}

#[test]
fn end_to_end_term_in_every_document_scores_nothing() {
    let index = corpus();
    let (documents, cands) = candidates(&index, "is");
    assert_eq!(documents, 2);
    assert!(cands.is_empty());
    assert_eq!(document_frequency(&index, &"is".to_string()), 2);
}

#[test]
fn document_frequency_counts_documents_once() {
    let mut index = corpus();
    index.add_document("r2.txt".to_string(), &chars("rust rust rust"));
    assert_eq!(document_frequency(&index, &"rust".to_string()), 2);
    assert_eq!(document_frequency(&index, &"go".to_string()), 1);
    assert_eq!(document_frequency(&index, &"java".to_string()), 0);
}

#[test]
fn repeated_query_terms_do_not_inflate_document_frequency() {
    let index = corpus();
    let (documents, cands) = candidates(&index, "rust rust");
    assert_eq!(cands.len(), 1);
    assert_eq!(cands[0].hits, vec![(1, 1), (1, 1)]);
    assert!(score(&cands[0], documents) > 0.0);
}

#[test]
fn empty_corpus_gives_no_results() {
    let index = Index::new();
    let (documents, cands) = candidates(&index, "anything at all");
    assert_eq!(documents, 0);
    assert!(cands.is_empty());
}

#[test]
fn blank_query_has_no_terms() {
    let index = corpus();
    assert!(matches!(search(&index, &chars("   \t ")), SearchOutcome::NoTerms));
    assert!(matches!(search(&index, &chars("")), SearchOutcome::NoTerms));
    // A query with terms that match nothing is a different outcome.
    let (_, cands) = candidates(&index, "python");
    assert!(cands.is_empty());
}

#[test]
fn multi_term_query_ranks_by_score() {
    let mut index = Index::new();
    index.add_document("a.txt".to_string(), &chars("rust rust safe"));
    index.add_document("b.txt".to_string(), &chars("rust python go java"));
    index.add_document("c.txt".to_string(), &chars("python only"));
    let (documents, cands) = candidates(&index, "Rust");
    assert_eq!(documents, 3);
    let scored: Vec<(String, u64)> =
        cands.iter().map(|c| (c.path.clone(), score(c, documents).to_bits())).collect();
    let ranked = rank(scored);
    let paths: Vec<&str> = ranked.iter().map(|(p, _)| p.as_str()).collect();
    assert_eq!(paths, vec!["a.txt", "b.txt"]);
}

#[test]
fn rank_breaks_ties_by_path_and_keeps_ten() {
    let mut scored: Vec<(String, u64)> = Vec::new();
    for i in 0..15u64 {
        scored.push((format!("doc{:02}", 14 - i), i % 3));
    }
    let ranked = rank(scored);
    assert_eq!(ranked.len(), RESULT_LIMIT);
    let expected: Vec<(String, u64)> = vec![
        ("doc00", 2), ("doc03", 2), ("doc06", 2), ("doc09", 2), ("doc12", 2),
        ("doc01", 1), ("doc04", 1), ("doc07", 1), ("doc10", 1), ("doc13", 1),
    ]
    .into_iter()
    .map(|(p, k)| (p.to_string(), k))
    .collect();
    assert_eq!(ranked, expected);
}

#[test]
fn rank_of_few_keeps_all() {
    let ranked = rank(vec![("b".to_string(), 5), ("a".to_string(), 5), ("ab".to_string(), 9)]);
    assert_eq!(
        ranked,
        vec![("ab".to_string(), 9), ("a".to_string(), 5), ("b".to_string(), 5)]
    );
    assert!(rank(Vec::new()).is_empty());
}

#[test]
fn score_bits_order_like_scores() {
    let low = 0.125f64;
    let high = 0.5f64;
    let ranked = rank(vec![("low".to_string(), low.to_bits()), ("high".to_string(), high.to_bits())]);
    assert_eq!(ranked[0].0, "high");
}
