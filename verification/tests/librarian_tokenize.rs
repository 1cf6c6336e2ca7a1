use infisearch::librarian::prefix::get_common_unicode_prefix_byte_len;
use infisearch::librarian::tokenize::{
    get_stop_words, get_stop_words_set, split_whitespace, tokenize, wasm_tokenize,
};

#[test]
fn tokenize_lowercases_and_strips_punctuation() {
    assert_eq!(tokenize("Hello, World! (Rust) is-great."), vec!["hello", "world", "rust", "isgreat"]);
    assert_eq!(tokenize("   "), Vec::<String>::new());
    assert_eq!(tokenize("a ... b"), vec!["a", "b"]);
}

#[test]
fn tokenize_drops_overlong_terms() {
    let long = "x".repeat(121);
    let ok = "y".repeat(120);
    assert_eq!(tokenize(&format!("{} {}", long, ok)), vec![ok]);
}

#[test]
fn wasm_tokenize_expands_unless_trailing_space() {
    let r = wasm_tokenize("foo bar".to_owned());
    assert_eq!(r.terms, vec!["foo", "bar"]);
    assert!(r.should_expand);
    let r = wasm_tokenize("foo bar ".to_owned());
    assert!(!r.should_expand);
    let r = wasm_tokenize(String::new());
    assert!(r.should_expand);
    assert!(r.terms.is_empty());
}

#[test]
fn whitespace_words() {
    assert_eq!(split_whitespace("  a  bc\td\n"), vec!["a", "bc", "d"]);
    assert!(split_whitespace("").is_empty());
}

#[test]
fn stop_words() {
    let set = get_stop_words_set();
    assert_eq!(set.len(), 33);
    assert!(set.contains(&"the".to_owned()));
    assert!(!set.contains(&"lorem".to_owned()));
    let json = get_stop_words();
    assert!(json.trim_start().starts_with('['));
    assert!(json.contains("\"with\""));
}

use infisearch::librarian::latin::{
    get_default_stop_words, new_with_options, stemmer_language, EnglishTokenizerOptions, StemmerLanguage,
};

#[test]
fn stemmer_names_select_languages() {
    assert_eq!(stemmer_language(&"french".to_owned()), StemmerLanguage::French);
    assert_eq!(stemmer_language(&"turkish".to_owned()), StemmerLanguage::Turkish);
    assert_eq!(stemmer_language(&"klingon".to_owned()), StemmerLanguage::English);
}

#[test]
fn english_tokenizer_with_stemmer() {
    let t = new_with_options(EnglishTokenizerOptions { stop_words: None, stemmer: Some("english".to_owned()) });
    assert!(t.use_stemmer);
    assert_eq!(t.stemmer_language, StemmerLanguage::English);
    assert_eq!(t.tokenize("Running dogs".to_owned()), vec!["run", "dog"]);
    assert!(t.is_stop_word("the"));
    assert_eq!(t.stop_words.len(), get_default_stop_words().len());
}

#[test]
fn english_tokenizer_without_stemmer_filters_terms() {
    let t = new_with_options(EnglishTokenizerOptions {
        stop_words: Some(vec!["x".to_owned(), "x".to_owned(), "y".to_owned()]),
        stemmer: None,
    });
    assert!(!t.use_stemmer);
    assert_eq!(t.stop_words, vec!["x".to_owned(), "y".to_owned()]);
    assert_eq!(t.tokenize("(Hello) wor-ld!".to_owned()), vec!["hello", "world"]);
    assert!(!t.is_stop_word("the"));
}

#[test]
fn common_prefix_byte_lengths() {
    assert_eq!(get_common_unicode_prefix_byte_len("héllo", "hélium"), 4);
    assert_eq!(get_common_unicode_prefix_byte_len("abc", "abc"), 3);
    assert_eq!(get_common_unicode_prefix_byte_len("", "abc"), 0);
    assert_eq!(get_common_unicode_prefix_byte_len("我们", "我"), 3);
}
