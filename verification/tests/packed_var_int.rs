use infisearch::packed_var_int::PackedVarIntWriter;

#[test]
fn chunks_per_type_share_a_bit_count() {
    let mut w: PackedVarIntWriter<2> = PackedVarIntWriter::new([3, 5], [2, 1]);
    w.write_type(0, 5);
    w.write_type(1, 3);
    w.write_type(0, 2);
    w.write_type(1, 0);
    w.write_type(0, 9);
    // 010 101 | 00001 11 | 010 | 00000 0 | 011 1001
    let bytes = w.flush().to_bytes();
    assert_eq!(bytes.len(), 4);
    assert_eq!(&bytes[..3], &[0x54, 0x3A, 0x01]);
    assert_eq!(bytes[3] & 0xF8, 0xC8);
}

#[test]
fn nothing_written_packs_nothing() {
    let w: PackedVarIntWriter<1> = PackedVarIntWriter::new([5], [4]);
    assert!(w.flush().to_bytes().is_empty());
}
