use infisearch::varint::{
    decode_var_int, decode_var_int_u64, get_var_int, get_var_int_vec, get_var_int_vec_u64, CONTINUATION_MASK,
};

#[test]
fn test_encode() {
    let mut output_buf: [u8; 16] = [0; 16];

    let n = get_var_int(0, &mut output_buf);
    assert_eq!(&output_buf[..n], &[CONTINUATION_MASK | 0]);

    let n = get_var_int(64, &mut output_buf);
    assert_eq!(&output_buf[..n], &[CONTINUATION_MASK | 64]);

    let n = get_var_int(127, &mut output_buf);
    assert_eq!(&output_buf[..n], &[CONTINUATION_MASK | 127]);

    let n = get_var_int(16256, &mut output_buf);
    assert_eq!(&output_buf[..n], &[0, CONTINUATION_MASK | 127]);

    let n = get_var_int(16266, &mut output_buf);
    assert_eq!(&output_buf[..n], &[10, CONTINUATION_MASK | 127]);

    let n = get_var_int(16383, &mut output_buf);
    assert_eq!(&output_buf[..n], &[127, CONTINUATION_MASK | 127]);

    let n = get_var_int(u32::MAX, &mut output_buf);
    assert_eq!(&output_buf[..n], &[127, 127, 127, 127, CONTINUATION_MASK | 15]);
}

#[test]
fn vec_encoders_append() {
    let mut out = vec![9u8];
    get_var_int_vec(300, &mut out);
    assert_eq!(out, vec![9, 44, 0x80 | 2]);
    get_var_int_vec_u64(u64::MAX, &mut out);
    assert_eq!(&out[3..], &[127, 127, 127, 127, 127, 127, 127, 127, 127, 0x80 | 1]);
}

#[test]
fn decode_reads_back_what_was_written() {
    let mut buf = Vec::new();
    for v in [0u32, 1, 127, 128, 16383, 16384, 1 << 21, u32::MAX] {
        get_var_int_vec(v, &mut buf);
    }
    let mut pos = 0;
    for v in [0u32, 1, 127, 128, 16383, 16384, 1 << 21, u32::MAX] {
        assert_eq!(decode_var_int(&buf, &mut pos), v);
    }
    assert_eq!(pos, buf.len());

    let mut buf = Vec::new();
    get_var_int_vec_u64(1 << 40, &mut buf);
    get_var_int_vec_u64(5, &mut buf);
    let mut pos = 0;
    assert_eq!(decode_var_int_u64(&buf, &mut pos), 1 << 40);
    assert_eq!(decode_var_int_u64(&buf, &mut pos), 5);
}

#[test]
fn librarian_encoder_clears_the_last_byte() {
    assert_eq!(infisearch::librarian::varint::get_var_int(5), vec![0]);
    assert_eq!(infisearch::librarian::varint::get_var_int(300), vec![44, 0]);
}
