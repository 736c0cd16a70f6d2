use rsearch::{analyze, Index, IndexWriter};

#[test]
fn add_to_index() {
    let mut idx = IndexWriter::default();

    idx.add(analyze("hello".to_string()));
    idx.add(analyze("world".to_string()));

    assert_eq!(Some(&vec![0]), idx.postings.get("hello"));
    assert_eq!(Some(&vec![1]), idx.postings.get("world"));
}

#[test]
fn search_index() {
    let mut idx = IndexWriter::default();
    let dogs = analyze("dogs and cats are super cool".to_string());
    let cats_better = analyze("but cats are better".to_string());

    let expected = vec![dogs.content.clone(), cats_better.content.clone()];

    idx.add(dogs);
    idx.add(cats_better);
    idx.add(analyze("no".to_string()));

    let results: Vec<String> = Index::from(idx)
        .search("cats")
        .iter()
        .map(|d| d.content.clone())
        .collect();
    assert_eq!(expected, results);
}

#[test]
fn search_union_over_query_terms() {
    let mut idx = IndexWriter::default();
    idx.add(analyze("dogs and cats are super cool".to_string()));
    idx.add(analyze("but cats are better".to_string()));
    idx.add(analyze("no".to_string()));
    let index = Index::from(idx);

    let mut cats: Vec<String> = index
        .search("cats")
        .iter()
        .map(|d| d.content.clone())
        .collect();
    cats.sort();
    let mut expected = vec![
        "dogs and cats are super cool".to_string(),
        "but cats are better".to_string(),
    ];
    expected.sort();
    assert_eq!(expected, cats);

    let only_no: Vec<String> = index
        .search("no")
        .iter()
        .map(|d| d.content.clone())
        .collect();
    assert_eq!(vec!["no".to_string()], only_no);

    assert!(index.search("nonexistent").is_empty());
}

#[test]
fn search_deduplicates_query_terms() {
    let mut idx = IndexWriter::default();
    idx.add(analyze("dogs and cats are super cool".to_string()));
    idx.add(analyze("but cats are better".to_string()));
    idx.add(analyze("no".to_string()));
    let index = Index::from(idx);

    let once: Vec<String> = index
        .search("cats")
        .iter()
        .map(|d| d.content.clone())
        .collect();
    let twice: Vec<String> = index
        .search("cats cats")
        .iter()
        .map(|d| d.content.clone())
        .collect();
    assert_eq!(once, twice);
}

#[test]
fn search_deduplicates_documents() {
    // One document matching two query terms appears once.
    let mut idx = IndexWriter::default();
    idx.add(analyze("dogs and cats".to_string()));
    let index = Index::from(idx);
    let results = index.search("dogs cats");
    assert_eq!(1, results.len());
    assert_eq!("dogs and cats", results[0].content);
}

#[test]
fn search_empty_query_matches_nothing() {
    let mut idx = IndexWriter::default();
    idx.add(analyze("something".to_string()));
    let index = Index::from(idx);
    assert!(index.search("").is_empty());
    assert!(index.search("   ").is_empty());
}

#[test]
fn search_normalizes_query_case() {
    let mut idx = IndexWriter::default();
    idx.add(analyze("Cats are cool".to_string()));
    let index = Index::from(idx);
    assert_eq!(1, index.search("CATS").len());
    assert_eq!(1, index.search("cats").len());
}

#[test]
fn well_formed_index_from_writer() {
    let mut idx = IndexWriter::default();
    idx.add(analyze("hello world".to_string()));
    let index = Index::from(idx);
    assert!(index.is_well_formed());
}
