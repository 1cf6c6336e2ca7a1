//! The configurable English tokenizer of the first generation: stop words
//! and an optional Snowball stemmer.

use vstd::prelude::*;
use crate::chinese::{ascii_lower_chars, make_ascii_lowercase, str_byte_len};
use crate::librarian::tokenize::{english_sentences, split_english_sentences, split_whitespace, words};
use crate::query_parser::strings_model;
use crate::stop_words::{contains_string, contains_term, dedup_strings, no_duplicates};
use crate::text::{str_chars, string_from_chars};
use rust_stemmers::Algorithm;
use StemmerLanguage as L;

verus! {

/// The languages a stemmer can be made for.
#[derive(Clone, Copy, PartialEq, Eq, Structural, Debug)]
pub enum StemmerLanguage {
    Arabic,
    Danish,
    Dutch,
    English,
    Finnish,
    French,
    German,
    Greek,
    Hungarian,
    Italian,
    Norwegian,
    Portuguese,
    Romanian,
    Russian,
    Spanish,
    Swedish,
    Tamil,
    Turkish,
}

/// The options of the tokenizer: its stop words and the language of its
/// stemmer.
pub struct EnglishTokenizerOptions {
    pub stop_words: Option<Vec<String>>,
    pub stemmer: Option<String>,
}

/// The stemmer language a configured name selects; English for names it
/// does not know.
pub open spec fn spec_stemmer_language(name: Seq<char>) -> StemmerLanguage {
    if name == "arabic"@ {
        StemmerLanguage::Arabic
    } else if name == "danish"@ {
        StemmerLanguage::Danish
    } else if name == "dutch"@ {
        StemmerLanguage::Dutch
    } else if name == "finnish"@ {
        StemmerLanguage::Finnish
    } else if name == "french"@ {
        StemmerLanguage::French
    } else if name == "german"@ {
        StemmerLanguage::German
    } else if name == "greek"@ {
        StemmerLanguage::Greek
    } else if name == "hungarian"@ {
        StemmerLanguage::Hungarian
    } else if name == "italian"@ {
        StemmerLanguage::Italian
    } else if name == "norwegian"@ {
        StemmerLanguage::Norwegian
    } else if name == "portuguese"@ {
        StemmerLanguage::Portuguese
    } else if name == "romanian"@ {
        StemmerLanguage::Romanian
    } else if name == "russian"@ {
        StemmerLanguage::Russian
    } else if name == "spanish"@ {
        StemmerLanguage::Spanish
    } else if name == "swedish"@ {
        StemmerLanguage::Swedish
    } else if name == "tamil"@ {
        StemmerLanguage::Tamil
    } else if name == "turkish"@ {
        StemmerLanguage::Turkish
    } else {
        StemmerLanguage::English
    }
}

fn is_name(name: &String, lit: &str) -> (res: bool)
    ensures
        res == (name@ == lit@),
{
    let l: String = lit.to_owned();
    *name == l
}

/// The stemmer language `name` selects.
pub fn stemmer_language(name: &String) -> (res: StemmerLanguage)
    ensures
        res == spec_stemmer_language(name@),
        forall|l: StemmerLanguage| name@ == language_name(l) ==> res == l,
{
    proof {
        assert forall|l: StemmerLanguage| name@ == language_name(l) implies spec_stemmer_language(
            name@,
        ) == l by {
            law_stemmer_language_named(l, name@);
        }
    }
    if is_name(name, "arabic") {
        StemmerLanguage::Arabic
    } else if is_name(name, "danish") {
        StemmerLanguage::Danish
    } else if is_name(name, "dutch") {
        StemmerLanguage::Dutch
    } else if is_name(name, "finnish") {
        StemmerLanguage::Finnish
    } else if is_name(name, "french") {
        StemmerLanguage::French
    } else if is_name(name, "german") {
        StemmerLanguage::German
    } else if is_name(name, "greek") {
        StemmerLanguage::Greek
    } else if is_name(name, "hungarian") {
        StemmerLanguage::Hungarian
    } else if is_name(name, "italian") {
        StemmerLanguage::Italian
    } else if is_name(name, "norwegian") {
        StemmerLanguage::Norwegian
    } else if is_name(name, "portuguese") {
        StemmerLanguage::Portuguese
    } else if is_name(name, "romanian") {
        StemmerLanguage::Romanian
    } else if is_name(name, "russian") {
        StemmerLanguage::Russian
    } else if is_name(name, "spanish") {
        StemmerLanguage::Spanish
    } else if is_name(name, "swedish") {
        StemmerLanguage::Swedish
    } else if is_name(name, "tamil") {
        StemmerLanguage::Tamil
    } else if is_name(name, "turkish") {
        StemmerLanguage::Turkish
    } else {
        StemmerLanguage::English
    }
}

/// The name under which `language` is configured: its English name in
/// lower case.
pub open spec fn language_name(language: StemmerLanguage) -> Seq<char> {
    match language {
        L::Arabic => "arabic"@,
        L::Danish => "danish"@,
        L::Dutch => "dutch"@,
        L::English => "english"@,
        L::Finnish => "finnish"@,
        L::French => "french"@,
        L::German => "german"@,
        L::Greek => "greek"@,
        L::Hungarian => "hungarian"@,
        L::Italian => "italian"@,
        L::Norwegian => "norwegian"@,
        L::Portuguese => "portuguese"@,
        L::Romanian => "romanian"@,
        L::Russian => "russian"@,
        L::Spanish => "spanish"@,
        L::Swedish => "swedish"@,
        L::Tamil => "tamil"@,
        L::Turkish => "turkish"@,
    }
}

/// Naming a language selects that language's stemmer, for every language;
/// a name that is no language's name selects the English stemmer.
pub proof fn law_stemmer_language_named(language: StemmerLanguage, name: Seq<char>)
    ensures
        spec_stemmer_language(language_name(language)) == language,
        (forall|l: StemmerLanguage| name != #[trigger] language_name(l))
            ==> spec_stemmer_language(name) == StemmerLanguage::English,
{
    reveal_strlit("arabic");
    reveal_strlit("danish");
    reveal_strlit("dutch");
    reveal_strlit("english");
    reveal_strlit("finnish");
    reveal_strlit("french");
    reveal_strlit("german");
    reveal_strlit("greek");
    reveal_strlit("hungarian");
    reveal_strlit("italian");
    reveal_strlit("norwegian");
    reveal_strlit("portuguese");
    reveal_strlit("romanian");
    reveal_strlit("russian");
    reveal_strlit("spanish");
    reveal_strlit("swedish");
    reveal_strlit("tamil");
    reveal_strlit("turkish");
    assert("arabic"@.len() == 6 && "arabic"@[0] == 'a' && "arabic"@[1] == 'r');
    assert("danish"@.len() == 6 && "danish"@[0] == 'd' && "danish"@[1] == 'a');
    assert("dutch"@.len() == 5 && "dutch"@[0] == 'd' && "dutch"@[1] == 'u');
    assert("english"@.len() == 7 && "english"@[0] == 'e' && "english"@[1] == 'n');
    assert("finnish"@.len() == 7 && "finnish"@[0] == 'f' && "finnish"@[1] == 'i');
    assert("french"@.len() == 6 && "french"@[0] == 'f' && "french"@[1] == 'r');
    assert("german"@.len() == 6 && "german"@[0] == 'g' && "german"@[1] == 'e');
    assert("greek"@.len() == 5 && "greek"@[0] == 'g' && "greek"@[1] == 'r');
    assert("hungarian"@.len() == 9 && "hungarian"@[0] == 'h' && "hungarian"@[1] == 'u');
    assert("italian"@.len() == 7 && "italian"@[0] == 'i' && "italian"@[1] == 't');
    assert("norwegian"@.len() == 9 && "norwegian"@[0] == 'n' && "norwegian"@[1] == 'o');
    assert("portuguese"@.len() == 10 && "portuguese"@[0] == 'p' && "portuguese"@[1] == 'o');
    assert("romanian"@.len() == 8 && "romanian"@[0] == 'r' && "romanian"@[1] == 'o');
    assert("russian"@.len() == 7 && "russian"@[0] == 'r' && "russian"@[1] == 'u');
    assert("spanish"@.len() == 7 && "spanish"@[0] == 's' && "spanish"@[1] == 'p');
    assert("swedish"@.len() == 7 && "swedish"@[0] == 's' && "swedish"@[1] == 'w');
    assert("tamil"@.len() == 5 && "tamil"@[0] == 't' && "tamil"@[1] == 'a');
    assert("turkish"@.len() == 7 && "turkish"@[0] == 't' && "turkish"@[1] == 'u');
    if forall|l: StemmerLanguage| name != #[trigger] language_name(l) {
        assert(name != language_name(L::Arabic));
        assert(name != language_name(L::Danish));
        assert(name != language_name(L::Dutch));
        assert(name != language_name(L::Finnish));
        assert(name != language_name(L::French));
        assert(name != language_name(L::German));
        assert(name != language_name(L::Greek));
        assert(name != language_name(L::Hungarian));
        assert(name != language_name(L::Italian));
        assert(name != language_name(L::Norwegian));
        assert(name != language_name(L::Portuguese));
        assert(name != language_name(L::Romanian));
        assert(name != language_name(L::Russian));
        assert(name != language_name(L::Spanish));
        assert(name != language_name(L::Swedish));
        assert(name != language_name(L::Tamil));
        assert(name != language_name(L::Turkish));
    }
}

/// What the Snowball stemmer of `language` makes of `word`.
pub uninterp spec fn stemmed(language: StemmerLanguage, word: Seq<char>) -> Seq<char>;

/// `rust_stemmers::Stemmer::stem` with the stemmer of `language`
/// (`Stemmer::create`): the word's stem, a function of the language and the
/// word alone.
#[verifier::external_body]
fn stem_word(language: StemmerLanguage, word: &str) -> (res: String)
    ensures
        res@ == stemmed(language, word@),
{
    let algorithm = match language {
        L::Arabic => Algorithm::Arabic, L::Danish => Algorithm::Danish, L::Dutch => Algorithm::Dutch,
        L::English => Algorithm::English, L::Finnish => Algorithm::Finnish, L::French => Algorithm::French,
        L::German => Algorithm::German, L::Greek => Algorithm::Greek, L::Hungarian => Algorithm::Hungarian,
        L::Italian => Algorithm::Italian, L::Norwegian => Algorithm::Norwegian,
        L::Portuguese => Algorithm::Portuguese, L::Romanian => Algorithm::Romanian,
        L::Russian => Algorithm::Russian, L::Spanish => Algorithm::Spanish, L::Swedish => Algorithm::Swedish,
        L::Tamil => Algorithm::Tamil, L::Turkish => Algorithm::Turkish,
    };
    rust_stemmers::Stemmer::create(algorithm).stem(word).into_owned()
}

/// What the term filter `(^\W+)|(\W+$)|([punctuation])` leaves of `s`
/// (`Regex::replace_all` with an empty replacement).
pub uninterp spec fn term_filtered(s: Seq<char>) -> Seq<char>;

/// `regex::Regex::replace_all` with the term filter and an empty replacement.
#[verifier::external_body]
fn filter_term(s: &str) -> (res: String)
    ensures
        res@ == term_filtered(s@),
{
    regex::Regex::new(r#"(^\W+)|(\W+$)|([\[\](){}&|'"`<>#:;~_^=\-‑+*/‘’“”，。《》…—‐•?!,.])"#)
        .unwrap()
        .replace_all(s, "")
        .into_owned()
}

/// The default stop words.
pub open spec fn default_english_stop_words() -> Seq<&'static str> {
    seq![
        "a", "an", "and", "are", "as", "at", "be", "but", "by", "for", "if", "in", "into",
        "is", "it", "no", "not", "of", "on", "or", "such", "that", "the", "their", "then",
        "there", "these", "they", "this", "to", "was", "will", "with",
    ]
}

/// The default stop words.
pub fn get_default_stop_words() -> (res: Vec<String>)
    ensures
        strings_model(res@) == default_english_stop_words().map_values(|s: &'static str| s@),
{
    let words: Vec<&'static str> = vec![
        "a", "an", "and", "are", "as", "at", "be", "but", "by", "for", "if", "in", "into",
        "is", "it", "no", "not", "of", "on", "or", "such", "that", "the", "their", "then",
        "there", "these", "they", "this", "to", "was", "will", "with",
    ];
    assert(words@ == default_english_stop_words());
    let mut res: Vec<String> = Vec::new();
    let mut i: usize = 0;
    while i < words.len()
        invariant
            i <= words@.len(),
            words@ == default_english_stop_words(),
            strings_model(res@) == words@.subrange(0, i as int).map_values(|s: &'static str| s@),
        decreases words@.len() - i,
    {
        let w: String = words[i].to_owned();
        let ghost prev = res@;
        res.push(w);
        assert(strings_model(res@) =~= strings_model(prev).push(words@[i as int]@));
        assert(words@.subrange(0, i + 1).map_values(|s: &'static str| s@) =~= words@.subrange(0, i as int).map_values(
            |s: &'static str| s@,
        ).push(words@[i as int]@));
        i = i + 1;
    }
    assert(words@.subrange(0, i as int) =~= words@);
    res
}

/// The tokenizer.
pub struct EnglishTokenizer {
    pub stop_words: Vec<String>,
    pub use_stemmer: bool,
    pub stemmer_language: StemmerLanguage,
}

/// The tokenizer the options configure: their stop words, each once, or the
/// default ones; a stemmer when a stemmer language is named, of that
/// language, English otherwise.
pub fn new_with_options(options: EnglishTokenizerOptions) -> (res: EnglishTokenizer)
    ensures
        no_duplicates(strings_model(res.stop_words@)),
        forall|s: Seq<char>|
            contains_string(strings_model(res.stop_words@), s) <==> contains_string(
                match options.stop_words {
                    Some(v) => strings_model(v@),
                    None => default_english_stop_words().map_values(|w: &'static str| w@),
                },
                s,
            ),
        res.use_stemmer == options.stemmer is Some,
        res.stemmer_language == match options.stemmer {
            Some(name) => spec_stemmer_language(name@),
            None => StemmerLanguage::English,
        },
{
    let EnglishTokenizerOptions { stop_words, stemmer } = options;
    let words = match stop_words {
        Some(v) => v,
        None => get_default_stop_words(),
    };
    let stop_words = dedup_strings(words);
    let use_stemmer = stemmer.is_some();
    let stemmer_language = match &stemmer {
        Some(name) => stemmer_language(name),
        None => StemmerLanguage::English,
    };
    EnglishTokenizer { stop_words, use_stemmer, stemmer_language }
}

impl EnglishTokenizer {
    /// The term a word gives: the stem of the word when stemming, otherwise
    /// the word without its punctuation and its non-word ends.
    pub open spec fn word_term(&self, w: Seq<char>) -> Seq<char> {
        if self.use_stemmer {
            stemmed(self.stemmer_language, w)
        } else {
            term_filtered(w)
        }
    }

    /// The kept terms of a sentence's words.
    pub open spec fn word_terms(&self, ws: Seq<Seq<char>>) -> Seq<Seq<char>>
        decreases ws.len(),
    {
        if ws.len() == 0 {
            Seq::empty()
        } else {
            let t = self.word_term(ws.last());
            self.word_terms(ws.drop_last()) + if 0 < str_byte_len(t) <= 120 { seq![t] } else { Seq::empty() }
        }
    }

    /// The terms of the sentences.
    pub open spec fn sentences_terms(&self, ss: Seq<Seq<char>>) -> Seq<Seq<char>>
        decreases ss.len(),
    {
        if ss.len() == 0 {
            Seq::empty()
        } else {
            self.sentences_terms(ss.drop_last()) + self.word_terms(words(ss.last()))
        }
    }

    /// The terms of `text`: lower-cased, split into sentences and words,
    /// each word made a term, and the terms of 1 to 120 bytes kept.
    pub open spec fn spec_tokenize(&self, text: Seq<char>) -> Seq<Seq<char>> {
        self.sentences_terms(english_sentences(ascii_lower_chars(text)))
    }

    fn push_sentence_terms(&self, sentence: &String, out: &mut Vec<String>)
        ensures
            strings_model(final(out)@) == strings_model(old(out)@) + self.word_terms(words(sentence@)),
    {
        let ws = split_whitespace(sentence.as_str());
        let ghost wv = words(sentence@);
        let ghost start = strings_model(out@);
        let mut i: usize = 0;
        assert(wv.subrange(0, 0) =~= Seq::<Seq<char>>::empty());
        while i < ws.len()
            invariant
                i <= ws@.len(),
                strings_model(ws@) == wv,
                strings_model(out@) == start + self.word_terms(wv.subrange(0, i as int)),
            decreases ws@.len() - i,
        {
            let term = if self.use_stemmer {
                stem_word(self.stemmer_language, ws[i].as_str())
            } else {
                filter_term(ws[i].as_str())
            };
            let len = term.as_str().len();
            let ghost prev = out@;
            assert(wv.subrange(0, i + 1).drop_last() =~= wv.subrange(0, i as int));
            assert(wv[i as int] == ws@[i as int]@);
            if len > 0 && len <= 120 {
                out.push(term);
                assert(strings_model(out@) =~= strings_model(prev).push(self.word_term(wv[i as int])));
            }
            i = i + 1;
            assert(strings_model(out@) =~= start + self.word_terms(wv.subrange(0, i as int)));
        }
        assert(wv.subrange(0, i as int) =~= wv);
    }

    /// The terms of `text`.
    pub fn tokenize(&self, text: String) -> (res: Vec<String>)
        ensures
            strings_model(res@) == self.spec_tokenize(text@),
    {
        let chars = str_chars(text.as_str());
        let lower = make_ascii_lowercase(&chars);
        let lower_text = string_from_chars(lower.as_slice(), 0, lower.len());
        assert(lower@.subrange(0, lower@.len() as int) =~= lower@);
        let sentences = split_english_sentences(lower_text.as_str());
        let ghost ss = english_sentences(ascii_lower_chars(text@));
        let mut out: Vec<String> = Vec::new();
        let mut i: usize = 0;
        assert(ss.subrange(0, 0) =~= Seq::<Seq<char>>::empty());
        assert(strings_model(out@) =~= Seq::<Seq<char>>::empty());
        while i < sentences.len()
            invariant
                i <= sentences@.len(),
                strings_model(sentences@) == ss,
                strings_model(out@) == self.sentences_terms(ss.subrange(0, i as int)),
            decreases sentences@.len() - i,
        {
            self.push_sentence_terms(&sentences[i], &mut out);
            assert(ss.subrange(0, i + 1).drop_last() =~= ss.subrange(0, i as int));
            assert(ss[i as int] == sentences@[i as int]@);
            i = i + 1;
        }
        assert(ss.subrange(0, i as int) =~= ss);
        out
    }

    /// Whether `term` is one of the stop words.
    pub fn is_stop_word(&self, term: &str) -> (res: bool)
        ensures
            res == contains_string(strings_model(self.stop_words@), term@),
    {
        let t: String = term.to_owned();
        contains_term(&self.stop_words, &t)
    }
}

} // verus!
