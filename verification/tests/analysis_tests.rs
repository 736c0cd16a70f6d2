use rsearch::{analyze, build_index, is_hidden_name, Index, IndexWriter};

#[test]
fn analyze_keeps_content_verbatim() {
    let doc = analyze("Cats, Dogs & Mice!".to_string());
    assert_eq!("Cats, Dogs & Mice!", doc.content);
}

#[test]
fn analyze_lowercases_terms() {
    let mut idx = IndexWriter::default();
    idx.add(analyze("HeLLo WoRLD".to_string()));
    assert_eq!(Some(&vec![0]), idx.postings.get("hello"));
    assert_eq!(Some(&vec![0]), idx.postings.get("world"));
    assert_eq!(None, idx.postings.get("HeLLo"));
}

#[test]
fn analyze_splits_on_word_boundaries() {
    // Punctuation separates words and is not itself a term.
    let mut idx = IndexWriter::default();
    idx.add(analyze("hello, world! 42".to_string()));
    assert_eq!(Some(&vec![0]), idx.postings.get("hello"));
    assert_eq!(Some(&vec![0]), idx.postings.get("world"));
    assert_eq!(Some(&vec![0]), idx.postings.get("42"));
    assert_eq!(None, idx.postings.get(","));
}

#[test]
fn analyze_deduplicates_terms_per_document() {
    // A term appearing many times in one document posts exactly once.
    let mut idx = IndexWriter::default();
    idx.add(analyze("spam spam spam spam".to_string()));
    assert_eq!(Some(&vec![0]), idx.postings.get("spam"));
}

#[test]
fn analyze_empty_input_yields_no_terms() {
    let doc = analyze(String::new());
    assert_eq!("", doc.content);
    let mut idx = IndexWriter::default();
    idx.add(doc);
    let bytes = idx.write().unwrap();
    // Zero terms, one empty document.
    assert_eq!(
        &[0, 0, 0, 0, 0, 0, 0, 1, 0, 0, 0, 0],
        &bytes[..]
    );
}

#[test]
fn analyze_is_idempotent_under_lowercasing() {
    // Analyzing lowercased content extracts the same term set.
    let text = "The Quick (\"Brown\") Fox CAN'T jump 32.3 feet, right?";
    let mut upper = analyze(text.to_string()).terms;
    let mut lower = analyze(text.to_lowercase()).terms;
    upper.sort();
    lower.sort();
    assert_eq!(upper, lower);
}

#[test]
fn analyze_handles_non_ascii() {
    let mut idx = IndexWriter::default();
    idx.add(analyze("Überraschung Ärger".to_string()));
    assert_eq!(Some(&vec![0]), idx.postings.get("überraschung"));
    assert_eq!(Some(&vec![0]), idx.postings.get("ärger"));
    let index = Index::from(idx);
    assert_eq!(1, index.search("ÜBERRASCHUNG").len());
}

#[test]
fn build_index_matches_sequential_adds() {
    let contents = ["dogs and cats", "but cats are better", "no"];
    let analyzed: Vec<_> = contents
        .iter()
        .map(|c| analyze(c.to_string()))
        .collect();
    let built = build_index(analyzed);

    let mut manual = IndexWriter::default();
    for c in contents.iter() {
        manual.add(analyze(c.to_string()));
    }
    assert_eq!(manual, built);
}

#[test]
fn build_index_assigns_ids_in_order() {
    let analyzed = vec![
        analyze("alpha".to_string()),
        analyze("beta".to_string()),
        analyze("alpha beta".to_string()),
    ];
    let built = build_index(analyzed);
    assert_eq!(Some(&vec![0, 2]), built.postings.get("alpha"));
    assert_eq!(Some(&vec![1, 2]), built.postings.get("beta"));
}

#[test]
fn hidden_names_start_with_a_dot() {
    assert!(is_hidden_name(".git"));
    assert!(is_hidden_name("."));
    assert!(!is_hidden_name("mail"));
    assert!(!is_hidden_name(""));
    assert!(!is_hidden_name("inbox.mbox"));
}
