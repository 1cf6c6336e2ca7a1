use infisearch::searcher::{parse_field_infos, valid_fields};

fn field(out: &mut Vec<u8>, name: &str, weight: f32, k: f32, b: f32) {
    out.push(name.len() as u8);
    out.extend_from_slice(name.as_bytes());
    out.extend_from_slice(&weight.to_le_bytes());
    out.extend_from_slice(&k.to_le_bytes());
    out.extend_from_slice(&b.to_le_bytes());
}

#[test]
fn field_infos_read_back_and_scored_fields_come_longest_first() {
    let mut raw = Vec::new();
    field(&mut raw, "body", 1.0, 1.2, 0.75);
    field(&mut raw, "link", 0.0, 1.2, 0.75);
    field(&mut raw, "title", 2.0, 1.2, 0.5);
    field(&mut raw, "heading", 1.5, 1.0, 0.25);
    let infos = parse_field_infos(&raw).unwrap();
    assert_eq!(infos.len(), 4);
    assert_eq!(infos[2].name, "title");
    assert_eq!(f32::from_bits(infos[2].weight_bits), 2.0);
    assert_eq!(f32::from_bits(infos[2].k_bits), 1.2);
    assert_eq!(f32::from_bits(infos[2].b_bits), 0.5);
    assert_eq!(infos[1].weight_bits, 0);
    assert_eq!(valid_fields(&infos), vec!["heading".to_owned(), "title".to_owned(), "body".to_owned()]);
}

#[test]
fn negative_or_nan_weights_are_not_scored() {
    let mut raw = Vec::new();
    field(&mut raw, "a", -1.0, 0.0, 0.0);
    field(&mut raw, "b", f32::NAN, 0.0, 0.0);
    field(&mut raw, "c", f32::INFINITY, 0.0, 0.0);
    let infos = parse_field_infos(&raw).unwrap();
    assert_eq!(valid_fields(&infos), vec!["c".to_owned()]);
}

#[test]
fn truncated_or_invalid_field_infos_do_not_read() {
    let mut raw = Vec::new();
    field(&mut raw, "body", 1.0, 1.2, 0.75);
    raw.pop();
    assert!(parse_field_infos(&raw).is_none());
    let bad = vec![1u8, 0xff, 0, 0, 0, 0, 0, 0, 0, 0, 0, 0, 0, 0];
    assert!(parse_field_infos(&bad).is_none());
    assert!(parse_field_infos(&[]).unwrap().is_empty());
}
