use infisearch::librarian::block_reader::decode_dict_records;

fn record(out: &mut Vec<u8>, term: &str, doc_freq: u32, pl_offset: u32) {
    out.extend_from_slice(&(term.len() as u32).to_le_bytes());
    out.extend_from_slice(term.as_bytes());
    out.extend_from_slice(&doc_freq.to_le_bytes());
    out.extend_from_slice(&pl_offset.to_le_bytes());
}

#[test]
fn dictionary_records_read_back() {
    let mut bytes = Vec::new();
    record(&mut bytes, "ab", 3, 10);
    record(&mut bytes, "我", 1, 0);
    let (records, end) = decode_dict_records(&bytes, 0, 5).unwrap();
    assert_eq!(records, vec![("ab".to_owned(), 3, 10), ("我".to_owned(), 1, 0)]);
    assert_eq!(end, bytes.len());
    // at most `n` records
    let (records, end) = decode_dict_records(&bytes, 0, 1).unwrap();
    assert_eq!(records, vec![("ab".to_owned(), 3, 10)]);
    assert_eq!(end, 14);
    // fewer than four bytes left: reading stops
    bytes.extend_from_slice(&[1, 2, 3]);
    let (records, end) = decode_dict_records(&bytes, 0, 5).unwrap();
    assert_eq!(records.len(), 2);
    assert_eq!(end, bytes.len() - 3);
}

#[test]
fn cut_or_invalid_records_do_not_read() {
    let mut bytes = Vec::new();
    record(&mut bytes, "abc", 3, 10);
    bytes.pop();
    assert!(decode_dict_records(&bytes, 0, 1).is_none());
    let mut bad = Vec::new();
    bad.extend_from_slice(&1u32.to_le_bytes());
    bad.push(0xff);
    bad.extend_from_slice(&[0; 8]);
    assert!(decode_dict_records(&bad, 0, 1).is_none());
}
