use rusty_rag_core::bm25::BM25Index;

#[test]
fn test_build_index() {
    let docs = vec![
        "the cat sat on the mat".to_string(),
        "the dog sat on the log".to_string(),
        "the cat chased the dog".to_string(),
    ];
    let index = BM25Index::new(docs, 1200, 750);
    assert_eq!(index.size(), 3);
    assert_eq!(
        vec![index.doc_length(0), index.doc_length(1), index.doc_length(2)],
        vec![6, 6, 5]
    );
}

#[test]
fn test_search_relevance() {
    let docs = vec![
        "machine learning and deep learning".to_string(),
        "cooking recipes and food preparation".to_string(),
        "neural networks for machine learning".to_string(),
    ];
    let index = BM25Index::new(docs, 1200, 750);
    let results = index.search("machine learning", 3);

    assert!(!results.is_empty());
    assert!(results[0].0 == 0 || results[0].0 == 2);
    assert!(results.iter().all(|&(idx, _)| idx != 1));
}

#[test]
fn test_search_no_match() {
    let docs = vec![
        "the cat sat on the mat".to_string(),
        "the dog sat on the log".to_string(),
    ];
    let index = BM25Index::new(docs, 1200, 750);
    let results = index.search("quantum physics", 5);
    assert!(results.is_empty());
}

#[test]
fn test_empty_index() {
    let index = BM25Index::new(vec![], 1200, 750);
    let results = index.search("anything", 5);
    assert!(results.is_empty());
    assert_eq!(index.size(), 0);
}

#[test]
fn test_top_k_limit() {
    let docs: Vec<String> = (0..20)
        .map(|i| format!("document number {} about rust programming", i))
        .collect();
    let index = BM25Index::new(docs, 1200, 750);
    let results = index.search("rust programming", 5);
    assert!(results.len() <= 5);
}

#[test]
fn test_more_matches_score_higher() {
    let docs = vec![
        "rust programming language systems".to_string(),
        "python scripting language interpreted".to_string(),
        "rust is great for systems programming".to_string(),
    ];
    let index = BM25Index::new(docs, 1200, 750);
    let results = index.search("rust systems programming", 3);

    assert!(results.len() >= 2);
    let top_indices: Vec<usize> = results.iter().map(|r| r.0).collect();
    assert!(top_indices.contains(&0));
    assert!(top_indices.contains(&2));
}

#[test]
fn test_scores_sorted_descending() {
    let docs: Vec<String> = (0..8)
        .map(|i| format!("{} rust", "rust ".repeat(i + 1)))
        .collect();
    let index = BM25Index::new(docs, 1200, 750);
    let results = index.search("rust", 8);
    assert_eq!(results.len(), 8);
    for pair in results.windows(2) {
        assert!(pair[0].1 >= pair[1].1);
    }
}

#[test]
fn test_repeated_term_scores_higher() {
    let docs = vec![
        "apple banana cherry orange".to_string(),
        "apple apple apple cherry".to_string(),
    ];
    let index = BM25Index::new(docs, 1200, 750);
    let results = index.search("apple", 2);
    assert_eq!(results.len(), 2);
    // the document mentioning the term more often comes first
    assert_eq!(results[0].0, 1);
    assert!(results[0].1 > results[1].1);
}

#[test]
fn test_summary_contents() {
    let docs = vec!["a b".to_string(), "c".to_string()];
    let index = BM25Index::new(docs, 1200, 750);
    assert_eq!(
        index.summary(),
        "BM25Index(docs=2, vocab=3, avg_len=1, k1_milli=1200, b_milli=750)"
    );
}

#[test]
fn test_rarer_term_weighs_more() {
    // "common" appears in every document, "rare" in one; with equal term
    // counts the document holding the rare term must outrank the others
    let docs = vec![
        "common alpha".to_string(),
        "common beta".to_string(),
        "common rare".to_string(),
    ];
    let index = BM25Index::new(docs, 1200, 750);
    let results = index.search("common rare", 3);
    assert_eq!(results.len(), 3);
    assert_eq!(results[0].0, 2);
}
