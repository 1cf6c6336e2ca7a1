use infisearch::librarian::dictionary::{Dictionary, DictionaryEntry};

fn sorted_with(terms: &[&str]) -> Dictionary {
    let mut d = Dictionary::new();
    for t in terms {
        d.add_term(t.to_string());
    }
    d.sort_entries_by_term();
    d
}

#[test]
fn terms_get_ids_in_order_of_first_addition() {
    let mut d = Dictionary::new();
    assert_eq!(d.add_term("apple".to_string()), 0);
    assert_eq!(d.add_term("banana".to_string()), 1);
    assert_eq!(d.add_term("apple".to_string()), 0);
    assert_eq!(d.add_term("cherry".to_string()), 2);
    assert_eq!(d.add_term("banana".to_string()), 1);
    assert_eq!(d.next_term_id, 3);
    assert_eq!(d.entries.len(), 3);
    assert_eq!(d.id_to_term_map, vec!["apple", "banana", "cherry"]);
    assert_eq!(d.entries[2].1, DictionaryEntry { assigned_id: 2, doc_freq: 0, postings_file_name: 0, postings_file_offset: 0 });
}

#[test]
fn entries_sort_by_term() {
    let d = sorted_with(&["cherry", "apricot", "apple"]);
    let terms: Vec<&str> = d.sorted_entries_by_term.iter().map(|e| e.0.as_str()).collect();
    assert_eq!(terms, vec!["apple", "apricot", "cherry"]);
    let ids: Vec<u32> = d.sorted_entries_by_term.iter().map(|e| e.1.assigned_id).collect();
    assert_eq!(ids, vec![2, 1, 0]);
}

#[test]
fn dictionary_table_bytes() {
    let mut d = sorted_with(&["cherry", "apricot", "apple"]);
    d.sorted_entries_by_term[0].1.doc_freq = 3;
    d.sorted_entries_by_term[0].1.postings_file_offset = 10;
    d.sorted_entries_by_term[1].1.doc_freq = 200;
    d.sorted_entries_by_term[1].1.postings_file_name = 1;
    d.sorted_entries_by_term[1].1.postings_file_offset = 300;
    d.sorted_entries_by_term[2].1.doc_freq = 1;
    d.sorted_entries_by_term[2].1.postings_file_name = 1;
    d.sorted_entries_by_term[2].1.postings_file_offset = 2;
    // The integer encoder clears the last byte of each integer.
    assert_eq!(d.dump_dict_table(), vec![0, 0, 10, 0, 1, 72, 0, 44, 1, 0, 0, 2, 0]);
}

#[test]
fn dictionary_string_without_shared_prefixes() {
    let d = sorted_with(&["cherry", "apricot", "apple"]);
    let mut expected = vec![5u8];
    expected.extend_from_slice(b"apple");
    expected.push(7);
    expected.extend_from_slice(b"apricot");
    expected.push(6);
    expected.extend_from_slice(b"cherry");
    assert_eq!(d.dump_daas(), expected);
}

#[test]
fn dictionary_string_front_codes_terms_sharing_the_whole_term() {
    let d = sorted_with(&["interests", "interest", "interesting"]);
    let mut expected = vec![8u8];
    expected.extend_from_slice(b"interest");
    expected.push(123);
    expected.extend_from_slice(&[3, 125]);
    expected.extend_from_slice(b"ing");
    expected.extend_from_slice(&[1, 125]);
    expected.extend_from_slice(b"s");
    expected.push(11);
    expected.extend_from_slice(b"interesting");
    expected.push(9);
    expected.extend_from_slice(b"interests");
    assert_eq!(d.dump_daas(), expected);
}

#[test]
fn dictionary_string_drops_the_last_byte_of_the_prefix() {
    let d = sorted_with(&["abce", "abcd"]);
    let mut expected = vec![4u8];
    expected.extend_from_slice(b"abc");
    expected.push(123);
    expected.extend_from_slice(b"d");
    expected.extend_from_slice(&[1, 125]);
    expected.extend_from_slice(b"e");
    expected.push(4);
    expected.extend_from_slice(b"abce");
    assert_eq!(d.dump_daas(), expected);
    let (table, string) = d.dump();
    assert_eq!(table, vec![0, 0, 0, 0, 0, 0, 0, 0]);
    assert_eq!(string, expected);
}
