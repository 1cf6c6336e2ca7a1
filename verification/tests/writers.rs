use infisearch::doc_info::{sort_and_merge_block_doclengths, write_enums, write_nums, BlockDocLengths};
use infisearch::escape_json::escape;
use infisearch::miner::WorkerMinerDocInfo;
use infisearch::pl_writer::{PlWriter, TermDocsForMerge};

fn info(doc_id: u32, enums: Vec<&str>, nums: Vec<Option<i64>>) -> WorkerMinerDocInfo {
    WorkerMinerDocInfo {
        doc_id,
        doc_enums: enums.into_iter().map(|s| s.to_owned()).collect(),
        doc_nums: nums,
        field_lengths: vec![],
        field_texts: vec![],
    }
}

#[test]
fn escape_leaves_plain_text_alone() {
    assert_eq!(escape(b"plain text"), b"plain text".to_vec());
    // control characters before the first escaped byte are left as they are
    assert_eq!(escape(b"\x01"), b"\x01".to_vec());
}

#[test]
fn escape_short_and_unicode_escapes() {
    assert_eq!(escape(b"a\"b\n"), b"a\\\"b\\n".to_vec());
    assert_eq!(escape(b"\\\t\r\x08\x0c"), b"\\\\\\t\\r\\b\\f".to_vec());
    assert_eq!(escape(b"x\x01\"\x1f"), b"x\x01\\\"\\u001F".to_vec());
}

#[test]
fn pl_writer_writes_gaps_between_blocks() {
    let mut w = PlWriter::new(7);
    let docs = vec![
        TermDocsForMerge {
            term: "a".to_owned(),
            doc_freq: 1,
            combined_var_ints: vec![0x81],
            first_doc_id: 3,
            last_doc_id: 3,
        },
        TermDocsForMerge {
            term: "a".to_owned(),
            doc_freq: 1,
            combined_var_ints: vec![0x82, 0x83],
            first_doc_id: 200,
            last_doc_id: 210,
        },
    ];
    assert!(!w.needs_new_file(&docs, 100));
    assert!(w.needs_new_file(&docs, 30));
    let start = w.write_term_postings(&docs);
    assert_eq!(start, 0);
    // gap 3, block postings, gap 197 (two bytes), block postings
    assert_eq!(w.buffer, vec![0x83, 0x81, 0x45, 0x81, 0x82, 0x83]);
    assert_eq!(w.pl_offset, 6);

    let mut cache = Vec::new();
    let bytes = w.flush(5, &mut cache);
    assert_eq!(bytes.len(), 6);
    assert_eq!(cache, vec![7]);
    assert!(w.buffer.is_empty());
    w.change_file(8);
    assert_eq!((w.pl, w.pl_offset, w.prev_pl_offset), (8, 0, 0));
    let bytes = w.flush(5, &mut cache);
    assert!(bytes.is_empty());
    assert_eq!(cache, vec![7]);
    assert_eq!(TermDocsForMerge::default().doc_freq, 0);
}

#[test]
fn write_nums_stores_minimums_and_distances() {
    let mut out = Vec::new();
    let old_values = vec![10, -3];
    let docs = vec![info(1, vec![], vec![Some(12), None]), info(2, vec![], vec![None, Some(0)])];
    write_nums(&old_values, &docs, &vec![100, 5], &mut out);
    let mut expected = vec![2, 0, 0, 0];
    expected.extend_from_slice(&10i64.to_le_bytes());
    expected.extend_from_slice(&(-3i64).to_le_bytes());
    // old: 10-10=0, -3-(-3)=0; new: 12-10=2, 5+3=8, 100-10=90, 0+3=3
    expected.extend_from_slice(&[0x80, 0x80, 0x82, 0x88, 0xda, 0x83]);
    assert_eq!(out, expected);
}

#[test]
fn write_nums_without_fields() {
    let mut out = vec![9];
    write_nums(&vec![1, 2, 3], &vec![info(0, vec![], vec![])], &vec![], &mut out);
    assert_eq!(out, vec![9, 0, 0, 0, 0]);
}

#[test]
fn write_enums_assigns_ids_in_order_and_packs_bits() {
    let mut out = Vec::new();
    let known = vec![vec!["red".to_owned()], vec![]];
    let docs = vec![
        info(1, vec!["blue", "x"], vec![]),
        info(2, vec!["red", ""], vec![]),
        info(3, vec!["blue", "y"], vec![]),
    ];
    // one earlier document with ids 1 and 0
    let lists = write_enums(&known, &vec![1, 0], 1, &docs, &mut out);
    assert_eq!(lists, vec![vec!["red".to_owned(), "blue".to_owned()], vec!["x".to_owned(), "y".to_owned()]]);
    assert_eq!(&out[..6], &[2, 0, 0, 0, 2, 2]);
    // ids, two bits each: 01 00 | 10 01 | 01 00 | 10 10
    assert_eq!(out.len(), 8);
    assert_eq!(out[6], 0b0100_1001);
    assert_eq!(out[7], 0b0100_1010);
}

#[test]
fn write_enums_skips_earlier_documents_without_enum_values() {
    // in incremental indexing the earlier documents come back without enum
    // values: their ids are the ones already written
    let mut out = Vec::new();
    let known = vec![vec!["red".to_owned()]];
    let docs = vec![info(0, vec![], vec![]), info(1, vec!["blue"], vec![])];
    let lists = write_enums(&known, &vec![1], 1, &docs, &mut out);
    assert_eq!(lists, vec![vec!["red".to_owned(), "blue".to_owned()]]);
    assert_eq!(&out[..5], &[1, 0, 0, 0, 2]);
    // ids, two bits each: 01 | 10
    assert_eq!(out.len(), 6);
    assert_eq!(out[5], 0b0110_0000);
}

#[test]
fn block_doc_lengths_order_by_first_doc() {
    let a = BlockDocLengths(vec![info(5, vec![], vec![]), info(6, vec![], vec![])]);
    let b = BlockDocLengths(vec![info(2, vec![], vec![])]);
    assert_eq!(a.first_doc_cmp(&b), std::cmp::Ordering::Greater);
    assert_eq!(b.first_doc_cmp(&a), std::cmp::Ordering::Less);
    assert_eq!(a.first_doc_cmp(&a), std::cmp::Ordering::Equal);
}

#[test]
fn block_doc_lengths_merge_in_first_doc_order() {
    let mut doc_infos = vec![info(0, vec![], vec![])];
    let mut blocks = vec![
        BlockDocLengths(vec![info(5, vec![], vec![]), info(6, vec![], vec![])]),
        BlockDocLengths(vec![info(1, vec![], vec![]), info(2, vec![], vec![])]),
        BlockDocLengths(vec![info(3, vec![], vec![])]),
    ];
    sort_and_merge_block_doclengths(&mut doc_infos, &mut blocks);
    assert!(blocks.is_empty());
    let ids: Vec<u32> = doc_infos.iter().map(|d| d.doc_id).collect();
    assert_eq!(ids, vec![0, 1, 2, 3, 5, 6]);
}

#[test]
fn escaped_text_reads_back_as_json() {
    for text in ["plain", "a\"b\n", "\\\t\r\u{8}\u{c}", "tab\tthen\u{1}\u{1f}", "unicode é and \"quotes\""] {
        let mut literal = vec![b'"'];
        literal.extend_from_slice(&escape(text.as_bytes()));
        literal.push(b'"');
        let back: String = serde_json::from_slice(&literal).expect("escaped text is a JSON string");
        assert_eq!(back, text);
    }
}

#[test]
fn push_without_growing_appends() {
    let mut v: Vec<u32> = Vec::with_capacity(2);
    infisearch::push::push_wo_grow(&mut v, 3);
    infisearch::push::push_wo_grow(&mut v, 4);
    assert_eq!(v, vec![3, 4]);
}
