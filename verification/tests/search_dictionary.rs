use infisearch::dictionary::{Dictionary, SearchDictionary, TermInfo};

fn dict() -> Dictionary {
    let info = |doc_freq: u32| TermInfo { doc_freq, postings_file_name: 0, postings_file_offset: 0 };
    Dictionary {
        term_infos: vec![
            ("app".to_string(), info(5)),
            ("apple".to_string(), info(3)),
            ("apply".to_string(), info(9)),
            ("apt".to_string(), info(1)),
            ("banana".to_string(), info(2)),
        ],
    }
}

#[test]
fn prefix_terms_closest_doc_freq_first() {
    let d = dict();
    let res = d.get_prefix_terms("app", |_t: &str| false);
    let terms: Vec<(&str, u32)> = res.iter().map(|w| (w.term.as_str(), w.doc_freq_diff)).collect();
    assert_eq!(terms, vec![("apple", 2), ("apply", 4)]);
}

#[test]
fn prefix_terms_stop_words_last() {
    let d = dict();
    let res = d.get_prefix_terms("app", |t: &str| t == "apple");
    let terms: Vec<(&str, bool)> = res.iter().map(|w| (w.term.as_str(), w.is_stop_word)).collect();
    assert_eq!(terms, vec![("apply", false), ("apple", true)]);
}

#[test]
fn prefix_that_is_no_term() {
    let d = dict();
    let res = d.get_prefix_terms("ap", |_t: &str| false);
    let terms: Vec<(&str, u32)> = res.iter().map(|w| (w.term.as_str(), w.doc_freq_diff)).collect();
    assert_eq!(
        terms,
        vec![("apply", u32::MAX - 9), ("app", u32::MAX - 5), ("apple", u32::MAX - 3), ("apt", u32::MAX - 1)]
    );
}

#[test]
fn prefix_without_extensions() {
    let d = dict();
    assert!(d.get_prefix_terms("banana", |_t: &str| false).is_empty());
    assert!(d.get_prefix_terms("c", |_t: &str| false).is_empty());
}
