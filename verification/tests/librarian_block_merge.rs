use infisearch::librarian::block_merge::merge_block_terms;
use infisearch::librarian::miner::{DocField, TermDoc};

fn doc(id: u32) -> TermDoc {
    TermDoc { doc_id: id, doc_fields: vec![DocField { field_id: 0, field_positions: vec![1] }] }
}

fn summary(res: &[(String, u32, Vec<TermDoc>)]) -> Vec<(String, u32, Vec<u32>)> {
    res.iter().map(|(t, f, ds)| (t.clone(), *f, ds.iter().map(|d| d.doc_id).collect())).collect()
}

#[test]
fn blocks_merge_term_by_term() {
    let b1 = vec![("apple".to_owned(), vec![doc(0), doc(2)]), ("cherry".to_owned(), vec![doc(1)])];
    let b2 = vec![("banana".to_owned(), vec![doc(3)]), ("cherry".to_owned(), vec![doc(4), doc(5)])];
    let b3 = vec![("apple".to_owned(), vec![doc(7)])];
    let res = merge_block_terms(vec![b1, b2, b3]);
    assert_eq!(
        summary(&res),
        vec![
            ("apple".to_owned(), 3, vec![0, 2, 7]),
            ("banana".to_owned(), 1, vec![3]),
            ("cherry".to_owned(), 3, vec![1, 4, 5]),
        ]
    );
    assert!(merge_block_terms(vec![]).is_empty());
}
