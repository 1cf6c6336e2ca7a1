use infisearch::librarian::miner::WorkerMiner;

fn fields(pairs: &[(&str, &str)]) -> Vec<(String, String)> {
    pairs.iter().map(|(a, b)| (a.to_string(), b.to_string())).collect()
}

fn postings(m: &WorkerMiner, term: &str) -> Vec<(u32, Vec<(u8, Vec<u32>)>)> {
    let entry = m.terms.iter().find(|e| e.0 == term).expect("term indexed");
    entry
        .1
        .iter()
        .map(|d| (d.doc_id, d.doc_fields.iter().map(|f| (f.field_id, f.field_positions.clone())).collect()))
        .collect()
}

#[test]
fn positions_per_field_and_document() {
    let mut m = WorkerMiner::new(vec![("title".to_string(), 0), ("body".to_string(), 1)]);
    m.index_doc(0, fields(&[("title", "Hello world"), ("body", "Hello again. World!")]));
    m.index_doc(1, fields(&[("title", "hello")]));
    let terms: Vec<&str> = m.terms.iter().map(|e| e.0.as_str()).collect();
    assert_eq!(terms, vec!["hello", "world", "again"]);
    assert_eq!(postings(&m, "hello"), vec![(0, vec![(0, vec![1]), (1, vec![1])]), (1, vec![(0, vec![1])])]);
    assert_eq!(postings(&m, "world"), vec![(0, vec![(0, vec![2]), (1, vec![3])])]);
    assert_eq!(postings(&m, "again"), vec![(0, vec![(1, vec![2])])]);
}

#[test]
fn repeated_term_in_one_field() {
    let mut m = WorkerMiner::new(vec![("body".to_string(), 3)]);
    m.index_doc(7, fields(&[("body", "to be or not to be")]));
    assert_eq!(postings(&m, "to"), vec![(7, vec![(3, vec![1, 5])])]);
    assert_eq!(postings(&m, "be"), vec![(7, vec![(3, vec![2, 6])])]);
}
