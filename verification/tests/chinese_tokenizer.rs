use infisearch::chinese::{new_with_options, Tokenizer};
use infisearch::language::{InfiLanguageConfig, InfiLanguageConfigOpts};
use infisearch::stop_words::get_stop_words;
use infisearch::tokenize::IndexerTokenizer;

fn new() -> Tokenizer {
    let lang_config = InfiLanguageConfig {
        lang: "chinese".to_owned(),
        options: InfiLanguageConfigOpts::default(),
    };

    let stop_words = get_stop_words(&lang_config, &[]);

    let max_term_len = lang_config.options.max_term_len.unwrap_or(80).min(250);

    Tokenizer::new(
        stop_words,
        lang_config.options.ignore_stop_words.unwrap_or(false),
        max_term_len,
    )
}

fn test(s: &str, v: Vec<&str>) {
    let s = s.to_owned();
    let tok = new();
    let result: Vec<String> = tok
        .tokenize(s)
        .into_iter()
        .filter_map(|s| s)
        .collect();
    assert_eq!(result, v);
}

#[test]
fn test_tok() {
    test("AB random day", vec!["ab", "random", "day"]);
    test("AB random我们 day", vec!["ab", "random", "我", "们", "day"]);
    test("AB 我random我 day", vec!["ab", "我", "random", "我", "day"]);
    test("AB我 我sup我reme我 day", vec!["ab", "我", "我", "sup", "我", "reme", "我", "day"]);
    test("AB我 我sup我reme我 day们", vec!["ab", "我", "我", "sup", "我", "reme", "我", "day", "们"]);
}

#[test]
fn sentences_are_separated_by_gaps() {
    let tok = new();
    let result = tok.tokenize("Lorem ipsum. Dolor，sit".to_owned());
    assert_eq!(
        result,
        vec![
            Some("lorem".to_owned()),
            Some("ipsum".to_owned()),
            None,
            Some("dolor".to_owned()),
            None,
            Some("sit".to_owned()),
            None,
        ]
    );
}

#[test]
fn stop_words_are_left_out_when_ignored() {
    let tok = new_with_options(&InfiLanguageConfig {
        lang: "chinese".to_owned(),
        options: InfiLanguageConfigOpts {
            stop_words: None,
            ignore_stop_words: Some(true),
            stemmer: None,
            max_term_len: Some(5),
        },
    });
    let result: Vec<String> = tok
        .tokenize("the quick brownish fox".to_owned())
        .into_iter()
        .filter_map(|s| s)
        .collect();
    assert_eq!(result, vec!["quick", "fox"]);
}
