use infisearch::field_store::store_fields;

fn texts() -> Vec<Vec<u8>> {
    vec![b"[1]".to_vec(), b"[2]".to_vec(), b"[3]".to_vec()]
}

#[test]
fn block_starting_on_a_file_boundary() {
    let files = store_fields(false, 0, 2, 1000, 5, 3, &texts());
    assert_eq!(files.len(), 2);
    assert_eq!(files[0].file_number, 1);
    assert_eq!(files[0].subdir, 0);
    assert_eq!(files[0].docs_bytes, b"[1],[2]".to_vec());
    assert_eq!(files[1].file_number, 2);
    assert_eq!(files[1].docs_bytes, b"[3]".to_vec());
}

#[test]
fn block_continuing_a_file() {
    let files = store_fields(true, 3, 2, 1, 0, 0, &texts());
    assert_eq!(files.len(), 2);
    assert_eq!(files[0].file_number, 1);
    assert_eq!(files[0].subdir, 1);
    assert_eq!(files[0].docs_bytes, b"[1]".to_vec());
    assert_eq!(files[1].file_number, 2);
    assert_eq!(files[1].subdir, 2);
    assert_eq!(files[1].docs_bytes, b"[2],[3]".to_vec());
}

#[test]
fn block_within_one_file() {
    let files = store_fields(true, 10, 100, 3, 0, 0, &texts());
    assert_eq!(files.len(), 1);
    assert_eq!(files[0].file_number, 0);
    assert_eq!(files[0].subdir, 0);
    assert_eq!(files[0].docs_bytes, b"[1],[2],[3]".to_vec());
}
