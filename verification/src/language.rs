//! Language settings of an index: which tokenizer, and its options.

use vstd::prelude::*;

verus! {

/// Options of a tokenizer; `None` means the tokenizer's default.
pub struct InfiLanguageConfigOpts {
    pub stop_words: Option<Vec<String>>,
    pub ignore_stop_words: Option<bool>,
    pub stemmer: Option<String>,
    pub max_term_len: Option<usize>,
}

impl Default for InfiLanguageConfigOpts {
    fn default() -> (res: Self)
        ensures
            res.stop_words is None,
            res.ignore_stop_words is None,
            res.stemmer is None,
            res.max_term_len is None,
    {
        InfiLanguageConfigOpts { stop_words: None, ignore_stop_words: None, stemmer: None, max_term_len: None }
    }
}

/// The language of an index and its tokenizer options.
pub struct InfiLanguageConfig {
    pub lang: String,
    pub options: InfiLanguageConfigOpts,
}

/// The language used when none is configured.
pub fn get_default_language() -> (res: String)
    ensures
        res@ == "ascii"@,
{
    "ascii".to_owned()
}

impl Default for InfiLanguageConfig {
    fn default() -> (res: Self)
        ensures
            res.lang@ == "ascii"@,
            res.options.stop_words is None,
            res.options.ignore_stop_words is None,
            res.options.stemmer is None,
            res.options.max_term_len is None,
    {
        InfiLanguageConfig { lang: get_default_language(), options: InfiLanguageConfigOpts::default() }
    }
}

} // verus!
