use infisearch::doc_info::{finalize_and_flush, write_enums, write_nums, DocInfos};
use infisearch::metadata::{read_bits_from, MetadataReader};
use infisearch::miner::WorkerMinerDocInfo;
use infisearch::varint::get_var_int_vec;

fn info(doc_id: u32, enums: Vec<&str>, nums: Vec<Option<i64>>) -> WorkerMinerDocInfo {
    WorkerMinerDocInfo {
        doc_id,
        doc_enums: enums.into_iter().map(|s| s.to_owned()).collect(),
        doc_nums: nums,
        field_lengths: vec![],
        field_texts: vec![],
    }
}

/// A metadata file whose document information holds three documents with
/// one field, one enum and one number field.
fn metadata_file() -> Vec<u8> {
    let docs = vec![
        info(0, vec!["red"], vec![Some(5)]),
        info(1, vec!["blue"], vec![None]),
        info(2, vec!["red"], vec![Some(-3)]),
    ];
    let mut doc_info: Vec<u8> = Vec::new();
    doc_info.extend_from_slice(&3u32.to_le_bytes());
    doc_info.extend_from_slice(&3u32.to_le_bytes());
    doc_info.extend_from_slice(&2.5f64.to_bits().to_le_bytes());
    let mut field_lengths = Vec::new();
    for len in [4u32, 200, 1] {
        get_var_int_vec(len, &mut field_lengths);
    }
    doc_info.extend_from_slice(&(field_lengths.len() as u32 + 4).to_le_bytes());
    doc_info.extend_from_slice(&field_lengths);
    let lists = write_enums(&vec![vec![]], &vec![], 0, &docs, &mut doc_info);
    assert_eq!(lists, vec![vec!["red".to_owned(), "blue".to_owned()]]);
    write_nums(&vec![], &docs, &vec![7], &mut doc_info);

    let mut buf = Vec::new();
    buf.extend_from_slice(&12u32.to_le_bytes());
    buf.extend_from_slice(&12u32.to_le_bytes());
    buf.extend_from_slice(&12u32.to_le_bytes());
    buf.extend_from_slice(&doc_info);
    buf
}

#[test]
fn document_information_reads_back_what_was_written() {
    let mut reader = MetadataReader::new(metadata_file());
    let (mut num_docs, mut counter, mut averages, mut num_enums, mut num_nums) = (0, 0, Vec::new(), 0, 0);
    let (enum_ids, nums) =
        reader.read_docinfo_inital_metadata(&mut num_docs, &mut counter, &mut averages, &mut num_enums, &mut num_nums, 1);
    assert_eq!(num_docs, 3);
    assert_eq!(counter, 3);
    assert_eq!(averages.len(), 1);
    assert_eq!(f64::from_bits(averages[0]), 2.5);
    assert_eq!(num_enums, 1);
    assert_eq!(enum_ids, vec![1, 2, 1]);
    assert_eq!(num_nums, 1);
    assert_eq!(nums, vec![5, 7, -3]);
    // the field lengths follow
    assert_eq!(reader.read_docinfo_field_length(), 4);
    assert_eq!(reader.read_docinfo_field_length(), 200);
    assert_eq!(reader.read_docinfo_field_length(), 1);
}

#[test]
fn finalized_document_information_reads_back_after_an_incremental_run() {
    // one earlier document, known by its enum value id and number, then a new one
    let mut old = info(0, vec![], vec![]);
    old.field_lengths = vec![3];
    let mut new = info(1, vec!["blue"], vec![Some(9)]);
    new.field_lengths = vec![300];
    let (doc_info, lists) = finalize_and_flush(
        &vec![old, new],
        2,
        &vec![2.5f64.to_bits()],
        &vec![vec!["red".to_owned()]],
        &vec![1],
        1,
        &vec![4],
        &vec![0],
    );
    assert_eq!(lists, vec![vec!["red".to_owned(), "blue".to_owned()]]);
    let mut buf = Vec::new();
    for _ in 0..3 {
        buf.extend_from_slice(&12u32.to_le_bytes());
    }
    buf.extend_from_slice(&doc_info);
    let mut reader = MetadataReader::new(buf);
    let (mut num_docs, mut counter, mut averages, mut num_enums, mut num_nums) = (0, 0, Vec::new(), 0, 0);
    let (enum_ids, nums) =
        reader.read_docinfo_inital_metadata(&mut num_docs, &mut counter, &mut averages, &mut num_enums, &mut num_nums, 1);
    assert_eq!(num_docs, 2);
    assert_eq!(counter, 2);
    assert_eq!(averages, vec![2.5f64.to_bits()]);
    assert_eq!(num_enums, 1);
    assert_eq!(enum_ids, vec![1, 2]);
    assert_eq!(num_nums, 1);
    assert_eq!(nums, vec![4, 9]);
    assert_eq!(reader.read_docinfo_field_length(), 3);
    assert_eq!(reader.read_docinfo_field_length(), 300);
}

#[test]
fn invalidation_vector_is_the_bytes_before_the_document_information() {
    let mut buf = Vec::new();
    buf.extend_from_slice(&12u32.to_le_bytes());
    buf.extend_from_slice(&12u32.to_le_bytes());
    buf.extend_from_slice(&14u32.to_le_bytes());
    buf.extend_from_slice(&[0b1010, 0xff]);
    let reader = MetadataReader::new(buf);
    let mut out = vec![9];
    reader.get_invalidation_vec(&mut out);
    assert_eq!(out, vec![9, 0b1010, 0xff]);
}

#[test]
fn bits_read_most_significant_first() {
    let bytes = [0b1011_0001u8, 0b1000_0000];
    let mut pos = 0;
    assert_eq!(read_bits_from(&mut pos, 3, &bytes), 0b101);
    assert_eq!(pos, 3);
    assert_eq!(read_bits_from(&mut pos, 6, &bytes), 0b100011);
    assert_eq!(pos, 9);
    assert_eq!(read_bits_from(&mut pos, 0, &bytes), 0);
}

#[test]
fn init_doc_infos_is_empty_for_a_full_run() {
    let infos = DocInfos::init_doc_infos(2, &mut None);
    assert!(infos.doc_infos.is_empty());
    assert!(infos.all_block_doc_lengths.is_empty());
    assert_eq!(infos.average_length_bits, vec![0, 0]);
    assert!(infos.docs_enum_values.is_empty());
    assert!(infos.docs_i64_values.is_empty());
    assert_eq!(infos.original_doc_id_counter, 0);
}

#[test]
fn init_doc_infos_reads_back_the_earlier_run() {
    let mut a = info(0, vec!["red"], vec![Some(5)]);
    a.field_lengths = vec![3, 7];
    let mut b = info(1, vec!["blue"], vec![None]);
    b.field_lengths = vec![200, 0];
    let (doc_info, _) = finalize_and_flush(
        &vec![a, b],
        2,
        &vec![1.5f64.to_bits(), 3.5f64.to_bits()],
        &vec![vec![]],
        &vec![],
        0,
        &vec![],
        &vec![1],
    );
    let mut buf = Vec::new();
    for _ in 0..3 {
        buf.extend_from_slice(&12u32.to_le_bytes());
    }
    buf.extend_from_slice(&doc_info);
    let mut rdr = Some(MetadataReader::new(buf));
    let infos = DocInfos::init_doc_infos(2, &mut rdr);
    assert!(rdr.is_some());
    assert_eq!(infos.original_doc_id_counter, 2);
    assert_eq!(infos.average_length_bits, vec![1.5f64.to_bits(), 3.5f64.to_bits()]);
    assert_eq!(infos.docs_enum_values, vec![1, 2]);
    assert_eq!(infos.docs_i64_values, vec![5, 1]);
    assert_eq!(infos.doc_infos.len(), 2);
    assert_eq!(infos.doc_infos[0].doc_id, 0);
    assert_eq!(infos.doc_infos[0].field_lengths, vec![3, 7]);
    assert_eq!(infos.doc_infos[1].doc_id, 1);
    assert_eq!(infos.doc_infos[1].field_lengths, vec![200, 0]);
    assert!(infos.doc_infos[1].doc_enums.is_empty() && infos.doc_infos[1].doc_nums.is_empty());
    assert!(infos.all_block_doc_lengths.is_empty());
}
