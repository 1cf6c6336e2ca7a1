use infisearch::miner::{DocField, TermDoc, WorkerBlockIndexResults, WorkerMinerDocInfo};
use infisearch::spimi_writer::{combine_worker_results, merge_by_doc_id, sort_by_term, write_block, write_term};

fn td(doc_id: u32, fields: Vec<(u32, Vec<u32>)>) -> TermDoc {
    TermDoc {
        doc_id,
        doc_fields: fields.into_iter().map(|(field_tf, positions)| DocField { field_tf, positions }).collect(),
    }
}

fn ids(v: &[TermDoc]) -> Vec<u32> {
    v.iter().map(|t| t.doc_id).collect()
}

fn le(x: u32) -> Vec<u8> {
    x.to_le_bytes().to_vec()
}

#[test]
fn merge_interleaves_sorted_lists() {
    let merged = merge_by_doc_id(vec![
        vec![td(1, vec![]), td(4, vec![]), td(9, vec![])],
        vec![td(2, vec![]), td(3, vec![])],
        vec![],
    ]);
    assert_eq!(ids(&merged), vec![1, 2, 3, 4, 9]);
    assert!(merge_by_doc_id::<TermDoc>(vec![]).is_empty());
}

#[test]
fn write_term_encodes_dictionary_entry_and_postings() {
    let mut dict = Vec::new();
    let mut pl = Vec::new();
    write_term(
        &mut dict,
        &mut pl,
        &"ab".to_owned(),
        vec![vec![td(2, vec![(1, vec![5]), (0, vec![])])], vec![td(1, vec![(0, vec![]), (2, vec![3, 7])])]],
    );
    assert_eq!(dict, vec![2, b'a', b'b', 2, 0, 0, 0]);
    let mut expected = le(1);
    expected.extend([1, 1]);
    expected.extend(le(2));
    expected.extend(le(3));
    expected.extend(le(7));
    expected.extend(le(2));
    expected.extend([1, 0]);
    expected.extend(le(1));
    expected.extend(le(5));
    assert_eq!(pl, expected);
}

#[test]
fn write_block_groups_equal_terms_in_order() {
    let mut dict = Vec::new();
    let mut pl = Vec::new();
    write_block(
        vec![
            ("b".to_owned(), vec![td(5, vec![(1, vec![])])]),
            ("a".to_owned(), vec![td(7, vec![(1, vec![])])]),
            ("b".to_owned(), vec![td(3, vec![(1, vec![])])]),
        ],
        &mut dict,
        &mut pl,
    );
    assert_eq!(dict, vec![1, b'a', 1, 0, 0, 0, 1, b'b', 2, 0, 0, 0]);
    let doc = |id: u32| {
        let mut v = le(id);
        v.extend([1, 0]);
        v.extend(le(1));
        v
    };
    let mut expected = doc(7);
    expected.extend(doc(3));
    expected.extend(doc(5));
    assert_eq!(pl, expected);
}

#[test]
fn empty_block_still_writes_the_empty_term() {
    let mut dict = Vec::new();
    let mut pl = Vec::new();
    write_block(vec![], &mut dict, &mut pl);
    assert_eq!(dict, vec![0, 0, 0, 0, 0]);
    assert!(pl.is_empty());
}

#[test]
fn sort_orders_terms_by_characters() {
    let sorted = sort_by_term(vec![
        ("b".to_owned(), vec![]),
        ("ab".to_owned(), vec![]),
        ("a".to_owned(), vec![]),
        ("我".to_owned(), vec![]),
        ("B".to_owned(), vec![]),
    ]);
    let terms: Vec<&str> = sorted.iter().map(|(t, _)| t.as_str()).collect();
    assert_eq!(terms, vec!["B", "a", "ab", "b", "我"]);
}

#[test]
fn combine_drops_postings_of_workers_without_documents() {
    let info = |id: u32| WorkerMinerDocInfo {
        doc_id: id,
        doc_enums: vec![],
        doc_nums: vec![],
        field_lengths: vec![],
        field_texts: vec![],
    };
    let (terms, infos) = combine_worker_results(vec![
        WorkerBlockIndexResults { terms: vec![("x".to_owned(), vec![])], doc_infos: vec![info(2), info(6)] },
        WorkerBlockIndexResults { terms: vec![("y".to_owned(), vec![])], doc_infos: vec![] },
        WorkerBlockIndexResults { terms: vec![("z".to_owned(), vec![])], doc_infos: vec![info(1), info(9)] },
    ]);
    let names: Vec<&str> = terms.iter().map(|(t, _)| t.as_str()).collect();
    assert_eq!(names, vec!["x", "z"]);
    assert_eq!(infos.iter().map(|i| i.doc_id).collect::<Vec<_>>(), vec![1, 2, 6, 9]);
}
