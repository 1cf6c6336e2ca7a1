use infisearch::dictionary::{Dictionary, TermInfo};
use infisearch::spelling::{edit_distance, BestTermCorrector};

fn chars(s: &str) -> Vec<char> {
    s.chars().collect()
}

fn dict(entries: Vec<(&str, u32)>) -> Dictionary {
    Dictionary {
        term_infos: entries
            .into_iter()
            .map(|(t, df)| {
                (t.to_owned(), TermInfo { doc_freq: df, postings_file_name: 0, postings_file_offset: 0 })
            })
            .collect(),
    }
}

#[test]
fn edit_distances() {
    assert_eq!(edit_distance(&chars("kitten"), &chars("sitting")), 3);
    assert_eq!(edit_distance(&chars(""), &chars("abc")), 3);
    assert_eq!(edit_distance(&chars("abc"), &chars("abc")), 0);
    assert_eq!(edit_distance(&chars("我们"), &chars("我")), 1);
}

#[test]
fn closest_then_most_frequent_term_wins() {
    let d = dict(vec![("apple", 5), ("apply", 10), ("banana", 3)]);
    let mut c = BestTermCorrector::new();
    assert_eq!(c.get_best_corrected_term(&d, "appla"), Some("apply".to_owned()));
    // remembered: the same answer comes back
    assert_eq!(c.get_best_corrected_term(&d, "appla"), Some("apply".to_owned()));
}

#[test]
fn no_close_term_gives_none() {
    let d = dict(vec![("lorem", 2), ("ipsum", 4)]);
    let mut c = BestTermCorrector::new();
    assert_eq!(c.get_best_corrected_term(&d, "zzzzzzzzzzzz"), None);
    assert_eq!(c.get_best_corrected_term(&d, "lore"), Some("lorem".to_owned()));
    // the empty term is among the initial slots and has no correction
    assert_eq!(c.get_best_corrected_term(&d, ""), None);
}

#[test]
fn remembered_corrections_are_used_before_the_dictionary() {
    let d1 = dict(vec![("lorem", 2)]);
    let d2 = dict(vec![("lord", 9)]);
    let mut c = BestTermCorrector::new();
    assert_eq!(c.get_best_corrected_term(&d1, "lore"), Some("lorem".to_owned()));
    assert_eq!(c.get_best_corrected_term(&d2, "lore"), Some("lorem".to_owned()));
    // after eight other terms the slot is reused
    for t in ["a1", "a2", "a3", "a4", "a5", "a6", "a7", "a8"] {
        c.get_best_corrected_term(&d2, t);
    }
    assert_eq!(c.get_best_corrected_term(&d2, "lore"), Some("lord".to_owned()));
}

#[test]
fn edit_distance_is_symmetric() {
    for (a, b) in [("kitten", "sitting"), ("flaw", "lawn"), ("", "abc"), ("same", "same")] {
        assert_eq!(edit_distance(&chars(a), &chars(b)), edit_distance(&chars(b), &chars(a)));
    }
}

#[test]
fn a_closer_rare_term_beats_a_farther_frequent_one() {
    // "documant" is 1 edit from "document" and 2 from "documents"
    let d = dict(vec![("document", 1), ("documents", 100)]);
    let mut c = BestTermCorrector::new();
    assert_eq!(c.get_best_corrected_term(&d, "documant"), Some("document".to_owned()));
}
