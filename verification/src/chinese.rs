//! The tokenizer for Chinese text mixed with Latin-script text: every Chinese
//! character is a term of its own.

use vstd::prelude::*;
use crate::language::InfiLanguageConfig;
use crate::query_parser::strings_model;
use crate::stop_words::{contains_string, contains_term, get_stop_words};
use crate::text::{push_char, str_chars};
use crate::dictionary::Dictionary;
use crate::spelling::{best_correction, scan_dictionary};
use crate::tokenize::{
    IndexerTokenizer, SearchTokenizeResult, SearchTokenizeTerm, SearchTokenizeTermModel, SearchTokenizeResultModel,
    PrefixOpTerminator, SearchTokenizer, get_prefix_ops, opt_strings_seq, spec_get_prefix_ops,
};

verus! {

/// Whether `c` has the Unicode `White_Space` property (`char::is_whitespace`).
pub uninterp spec fn is_white_space(c: char) -> bool;

/// Whether `c` is alphabetic or numeric in Unicode (`char::is_alphanumeric`).
pub uninterp spec fn is_alphanumeric(c: char) -> bool;

/// `char::is_whitespace`: whether `c` has the Unicode `White_Space` property.
#[verifier::external_body]
pub(crate) fn char_is_whitespace(c: char) -> (res: bool)
    ensures
        res == is_white_space(c),
{
    c.is_whitespace()
}

/// `char::is_alphanumeric`: whether `c` is alphabetic or numeric in Unicode.
#[verifier::external_body]
fn char_is_alphanumeric(c: char) -> (res: bool)
    ensures
        res == is_alphanumeric(c),
{
    c.is_alphanumeric()
}

/// The sentences of `text`, split where the sentence pattern of this
/// tokenizer matches (`Regex::split`).
pub uninterp spec fn chinese_sentences(text: Seq<char>) -> Seq<Seq<char>>;

/// `regex::Regex::split` with the sentence pattern: the pieces of `text`
/// between the matches of `([.,;?!]\s+)|[，。！？：（）“”]`.
#[verifier::external_body]
fn split_sentences(text: &str) -> (res: Vec<String>)
    ensures
        strings_model(res@) == chinese_sentences(text@),
{
    regex::Regex::new(r#"([.,;?!]\s+)|[\uff0c\u3002\uff01\uff1f\uff1a\uff08\uff09\u201c\u201d]"#)
        .unwrap()
        .split(text)
        .map(|s| s.to_owned())
        .collect()
}

/// CJK ideographs.
pub open spec fn spec_is_chinese_char(c: char) -> bool {
    let u = c as u32;
    ||| 0x4E00 <= u <= 0x9FFF
    ||| 0x3400 <= u <= 0x4DBF
    ||| 0x20000 <= u <= 0x2A6DF
    ||| 0x2A700 <= u <= 0x2CEAF
    ||| 0xF900 <= u <= 0xFAFF
    ||| 0x2F800 <= u <= 0x2FA1F
}

/// Whether `c` is a CJK ideograph.
pub fn is_chinese_char(c: char) -> (res: bool)
    ensures
        res == spec_is_chinese_char(c),
{
    let u = c as u32;
    (0x4E00 <= u && u <= 0x9FFF) || (0x3400 <= u && u <= 0x4DBF) || (0x20000 <= u && u <= 0x2A6DF)
        || (0x2A700 <= u && u <= 0x2CEAF) || (0xF900 <= u && u <= 0xFAFF) || (0x2F800 <= u && u <= 0x2FA1F)
}

/// ASCII punctuation.
pub open spec fn spec_is_ascii_punctuation(c: char) -> bool {
    ('!' <= c <= '/') || (':' <= c <= '@') || ('[' <= c <= '`') || ('{' <= c <= '~')
}

/// Characters between terms: whitespace and ASCII punctuation.
pub open spec fn spec_split_terms(c: char) -> bool {
    is_white_space(c) || spec_is_ascii_punctuation(c)
}

/// Characters that end a term and form a piece of their own.
pub open spec fn is_piece_char(c: char) -> bool {
    spec_split_terms(c) || spec_is_chinese_char(c)
}

fn split_terms(c: char) -> (res: bool)
    ensures
        res == spec_split_terms(c),
{
    char_is_whitespace(c) || ('!' <= c && c <= '/') || (':' <= c && c <= '@') || ('[' <= c && c <= '`') || ('{' <= c && c <= '~')
}

/// Splitting the first `n` characters of `s`: the pieces so far, and where
/// the current run of ordinary characters starts.
pub open spec fn split_incl_upto(s: Seq<char>, n: nat) -> (Seq<(int, Seq<char>)>, int)
    decreases n,
{
    if n == 0 {
        (Seq::empty(), 0)
    } else {
        let prev = split_incl_upto(s, (n - 1) as nat);
        let c = s[n - 1];
        if is_piece_char(c) {
            let pieces = if prev.1 < n - 1 { prev.0.push((prev.1, s.subrange(prev.1, n - 1))) } else { prev.0 };
            (pieces.push((n - 1, seq![c])), n as int)
        } else {
            prev
        }
    }
}

/// The pieces of `s` with their character positions: each maximal run of
/// ordinary characters, and each piece character on its own.
pub open spec fn split_incl(s: Seq<char>) -> Seq<(int, Seq<char>)> {
    let st = split_incl_upto(s, s.len());
    if st.1 < s.len() { st.0.push((st.1, s.subrange(st.1, s.len() as int))) } else { st.0 }
}

/// The pieces of `s`, each with its starting character position.
pub fn split_incl_exec(s: &Vec<char>) -> (pieces: Vec<(usize, Vec<char>)>)
    ensures
        pieces@.len() == split_incl(s@).len(),
        forall|x: int| 0 <= x < pieces@.len() ==> (#[trigger] pieces@[x]).0 == split_incl(s@)[x].0
            && pieces@[x].1@ == split_incl(s@)[x].1,
{
    let mut pieces: Vec<(usize, Vec<char>)> = Vec::new();
    let mut run_start: usize = 0;
    let mut i: usize = 0;
    while i < s.len()
        invariant
            i <= s@.len(),
            run_start <= i,
            split_incl_upto(s@, i as nat).1 == run_start,
            pieces@.len() == split_incl_upto(s@, i as nat).0.len(),
            forall|x: int| 0 <= x < pieces@.len() ==> (#[trigger] pieces@[x]).0 == split_incl_upto(s@, i as nat).0[x].0
                && pieces@[x].1@ == split_incl_upto(s@, i as nat).0[x].1,
        decreases s@.len() - i,
    {
        let c = s[i];
        let piece_char = split_terms(c) || is_chinese_char(c);
        if piece_char {
            if run_start < i {
                let mut run: Vec<char> = Vec::new();
                let mut x = run_start;
                while x < i
                    invariant
                        run_start <= x <= i < s@.len(),
                        run@ == s@.subrange(run_start as int, x as int),
                    decreases i - x,
                {
                    run.push(s[x]);
                    x = x + 1;
                    assert(run@ =~= s@.subrange(run_start as int, x as int));
                }
                pieces.push((run_start, run));
            }
            let mut single: Vec<char> = Vec::new();
            single.push(c);
            assert(single@ =~= seq![c]);
            pieces.push((i, single));
            run_start = i + 1;
        }
        i = i + 1;
    }
    if run_start < s.len() {
        let mut run: Vec<char> = Vec::new();
        let mut x = run_start;
        while x < s.len()
            invariant
                run_start <= x <= s@.len(),
                run@ == s@.subrange(run_start as int, x as int),
            decreases s@.len() - x,
        {
            run.push(s[x]);
            x = x + 1;
            assert(run@ =~= s@.subrange(run_start as int, x as int));
        }
        pieces.push((run_start, run));
    }
    pieces
}


/// The number of leading characters of `s` that are not alphanumeric.
pub open spec fn leading_non_alnum(s: Seq<char>) -> nat
    decreases s.len(),
{
    if s.len() == 0 || is_alphanumeric(s[0]) { 0 } else { 1 + leading_non_alnum(s.drop_first()) }
}

/// The number of trailing characters of `s` that are not alphanumeric.
pub open spec fn trailing_non_alnum(s: Seq<char>) -> nat
    decreases s.len(),
{
    if s.len() == 0 || is_alphanumeric(s.last()) { 0 } else { 1 + trailing_non_alnum(s.drop_last()) }
}

/// A term without the non-alphanumeric characters at its ends.
pub open spec fn spec_term_filter(s: Seq<char>) -> Seq<char> {
    let a = leading_non_alnum(s);
    if a == s.len() { Seq::empty() } else { s.subrange(a as int, s.len() - trailing_non_alnum(s)) }
}

proof fn lemma_leading(s: Seq<char>, a: int)
    requires
        0 <= a <= s.len(),
        forall|x: int| 0 <= x < a ==> !is_alphanumeric(#[trigger] s[x]),
        a == s.len() || is_alphanumeric(s[a]),
    ensures
        leading_non_alnum(s) == a,
    decreases a,
{
    if a > 0 {
        assert forall|x: int| 0 <= x < a - 1 implies !is_alphanumeric(#[trigger] s.drop_first()[x]) by {
            assert(s.drop_first()[x] == s[x + 1]);
        }
        lemma_leading(s.drop_first(), a - 1);
    }
}

proof fn lemma_trailing(s: Seq<char>, t: int)
    requires
        0 <= t <= s.len(),
        forall|x: int| s.len() - t <= x < s.len() ==> !is_alphanumeric(#[trigger] s[x]),
        t == s.len() || is_alphanumeric(s[s.len() - t - 1]),
    ensures
        trailing_non_alnum(s) == t,
    decreases t,
{
    if t > 0 {
        assert forall|x: int| s.drop_last().len() - (t - 1) <= x < s.drop_last().len() implies !is_alphanumeric(#[trigger] s.drop_last()[x]) by {
            assert(s.drop_last()[x] == s[x]);
        }
        lemma_trailing(s.drop_last(), t - 1);
    }
}

proof fn lemma_leading_props(s: Seq<char>)
    ensures
        leading_non_alnum(s) <= s.len(),
        forall|x: int| 0 <= x < leading_non_alnum(s) ==> !is_alphanumeric(#[trigger] s[x]),
        leading_non_alnum(s) < s.len() ==> is_alphanumeric(s[leading_non_alnum(s) as int]),
    decreases s.len(),
{
    if s.len() > 0 && !is_alphanumeric(s[0]) {
        let r = s.drop_first();
        lemma_leading_props(r);
        assert forall|x: int| 0 <= x < leading_non_alnum(s) implies !is_alphanumeric(#[trigger] s[x]) by {
            if x > 0 {
                assert(s[x] == r[x - 1]);
            }
        }
        if leading_non_alnum(s) < s.len() {
            assert(s[leading_non_alnum(s) as int] == r[leading_non_alnum(r) as int]);
        }
    }
}

proof fn lemma_trailing_props(s: Seq<char>)
    ensures
        trailing_non_alnum(s) <= s.len(),
        forall|x: int| s.len() - trailing_non_alnum(s) <= x < s.len() ==> !is_alphanumeric(#[trigger] s[x]),
        trailing_non_alnum(s) < s.len() ==> is_alphanumeric(s[s.len() - trailing_non_alnum(s) - 1]),
    decreases s.len(),
{
    if s.len() > 0 && !is_alphanumeric(s.last()) {
        let r = s.drop_last();
        lemma_trailing_props(r);
        assert forall|x: int| s.len() - trailing_non_alnum(s) <= x < s.len() implies !is_alphanumeric(
            #[trigger] s[x],
        ) by {
            if x < s.len() - 1 {
                assert(s[x] == r[x]);
            }
        }
        if trailing_non_alnum(s) < s.len() {
            assert(s[s.len() - trailing_non_alnum(s) - 1] == r[r.len() - trailing_non_alnum(r) - 1]);
        }
    }
}

/// A filtered term is the part of the piece between its non-alphanumeric
/// ends: only such characters are cut off, and what is left, if anything,
/// begins and ends with an alphanumeric character.
pub proof fn law_term_filter_trims(s: Seq<char>)
    ensures
        exists|a: int, b: int|
            {
                &&& 0 <= a <= b <= s.len()
                &&& spec_term_filter(s) == s.subrange(a, b)
                &&& forall|x: int| 0 <= x < a ==> !is_alphanumeric(#[trigger] s[x])
                &&& forall|x: int| b <= x < s.len() ==> !is_alphanumeric(#[trigger] s[x])
            },
        spec_term_filter(s).len() > 0 ==> is_alphanumeric(spec_term_filter(s)[0])
            && is_alphanumeric(spec_term_filter(s).last()),
{
    lemma_leading_props(s);
    lemma_trailing_props(s);
    let a = leading_non_alnum(s) as int;
    let t = trailing_non_alnum(s) as int;
    if a == s.len() {
        assert(spec_term_filter(s) =~= s.subrange(a, a));
        assert(forall|x: int| a <= x < s.len() ==> !is_alphanumeric(#[trigger] s[x]));
    } else {
        assert(is_alphanumeric(s[a]));
        if a >= s.len() - t {
            assert(!is_alphanumeric(s[a]));
        }
        let b = s.len() - t;
        assert(spec_term_filter(s) == s.subrange(a, b));
        assert(spec_term_filter(s)[0] == s[a]);
        assert(spec_term_filter(s).last() == s[b - 1]);
    }
}

/// Removes the non-alphanumeric characters at both ends of `s`.
pub fn term_filter(s: &Vec<char>) -> (res: Vec<char>)
    ensures
        res@ == spec_term_filter(s@),
{
    let n = s.len();
    let mut a: usize = 0;
    while a < n && !char_is_alphanumeric(s[a])
        invariant
            a <= n == s@.len(),
            forall|x: int| 0 <= x < a ==> !is_alphanumeric(#[trigger] s@[x]),
        decreases n - a,
    {
        a = a + 1;
    }
    proof {
        lemma_leading(s@, a as int);
    }
    let mut res: Vec<char> = Vec::new();
    if a == n {
        return res;
    }
    let mut b: usize = n;
    while b > a && !char_is_alphanumeric(s[b - 1])
        invariant
            a < n == s@.len(),
            a <= b <= n,
            is_alphanumeric(s@[a as int]),
            forall|x: int| b <= x < n ==> !is_alphanumeric(#[trigger] s@[x]),
        decreases b,
    {
        b = b - 1;
    }
    proof {
        lemma_trailing(s@, (n - b) as int);
    }
    let mut x = a;
    while x < b
        invariant
            a <= x <= b <= s@.len(),
            res@ == s@.subrange(a as int, x as int),
        decreases b - x,
    {
        res.push(s[x]);
        x = x + 1;
        assert(res@ =~= s@.subrange(a as int, x as int));
    }
    res
}

/// `c` in lower case, when it is an ASCII capital letter.
pub open spec fn ascii_lower(c: char) -> char {
    if 'A' <= c <= 'Z' { ((c as u8) + 32) as char } else { c }
}

pub open spec fn ascii_lower_chars(s: Seq<char>) -> Seq<char> {
    Seq::new(s.len(), |i: int| ascii_lower(s[i]))
}

/// `text` with its ASCII letters in lower case.
pub fn make_ascii_lowercase(text: &Vec<char>) -> (res: Vec<char>)
    ensures
        res@ == ascii_lower_chars(text@),
{
    let mut res: Vec<char> = Vec::new();
    let mut i: usize = 0;
    while i < text.len()
        invariant
            i <= text@.len(),
            res@ == ascii_lower_chars(text@).subrange(0, i as int),
        decreases text@.len() - i,
    {
        let c = text[i];
        let l = if 'A' <= c && c <= 'Z' { ((c as u8) + 32) as char } else { c };
        res.push(l);
        i = i + 1;
        assert(res@ =~= ascii_lower_chars(text@).subrange(0, i as int));
    }
    assert(ascii_lower_chars(text@).subrange(0, i as int) =~= ascii_lower_chars(text@));
    res
}

/// The byte length of the UTF-8 encoding of `s`, as `str::len` gives it.
pub open spec fn str_byte_len(s: Seq<char>) -> usize {
    vstd::utf8::encode_utf8(s).len() as usize
}

/// The tokenizer for Chinese.
pub struct Tokenizer {
    /// The stop words, each once; a `Vec` in place of a hash set, looked up
    /// by a scan whose result is stated.
    pub stop_words: Vec<String>,
    ignore_stop_words: bool,
    max_term_len: usize,
}

/// The stop words used when none are configured.
pub open spec fn default_stop_words() -> Seq<Seq<char>> {
    seq![
        "a"@, "an"@, "and"@, "are"@, "as"@, "at"@, "be"@, "but"@, "by"@, "for"@, "if"@, "in"@, "into"@, "is"@, "it"@, "no"@,
        "not"@, "of"@, "on"@, "or"@, "such"@, "that"@, "the"@, "their"@, "then"@, "there"@, "these"@, "they"@, "this"@,
        "to"@, "was"@, "will"@, "with"@
    ]
}

/// A tokenizer configured by `lang_config`: its stop words (or the default
/// ones), whether stop words are left out of the index, and the longest term
/// kept (80 bytes unless configured, at most 250).
pub fn new_with_options(lang_config: &InfiLanguageConfig) -> (res: Tokenizer)
    ensures
        res.spec_stop_words() == (match lang_config.options.stop_words {
            Some(v) => strings_model(v@),
            None => default_stop_words(),
        }),
        res.spec_ignore_stop_words() == (match lang_config.options.ignore_stop_words {
            Some(b) => b,
            None => false,
        }),
        res.spec_max_term_len() == (match lang_config.options.max_term_len {
            Some(l) => if l < 250 { l } else { 250 },
            None => 80,
        }),
{
    let defaults = [
        "a", "an", "and", "are", "as", "at", "be", "but", "by", "for", "if", "in", "into", "is", "it", "no",
        "not", "of", "on", "or", "such", "that", "the", "their", "then", "there", "these", "they", "this",
        "to", "was", "will", "with",
    ];
    let stop_words = get_stop_words(lang_config, defaults.as_slice());
    assert(crate::stop_words::strs_model(defaults@) =~= default_stop_words());
    let max_term_len = match lang_config.options.max_term_len {
        Some(l) => if l < 250 { l } else { 250 },
        None => 80,
    };
    let ignore_stop_words = match lang_config.options.ignore_stop_words {
        Some(b) => b,
        None => false,
    };
    Tokenizer { stop_words, ignore_stop_words, max_term_len }
}

impl Tokenizer {
    pub closed spec fn spec_stop_words(&self) -> Seq<Seq<char>> {
        strings_model(self.stop_words@)
    }

    pub closed spec fn spec_ignore_stop_words(&self) -> bool {
        self.ignore_stop_words
    }

    pub closed spec fn spec_max_term_len(&self) -> usize {
        self.max_term_len
    }

    /// A tokenizer with the given settings.
    pub fn new(stop_words: Vec<String>, ignore_stop_words: bool, max_term_len: usize) -> (res: Tokenizer)
        ensures
            res.spec_stop_words() == strings_model(stop_words@),
            res.spec_ignore_stop_words() == ignore_stop_words,
            res.spec_max_term_len() == max_term_len,
    {
        Tokenizer { stop_words, ignore_stop_words, max_term_len }
    }

    /// Whether a term is kept in the index: not empty, not too long, and not
    /// a left-out stop word.
    pub open spec fn keeps_term(&self, t: Seq<char>) -> bool {
        &&& 0 < str_byte_len(t)
        &&& str_byte_len(t) <= self.spec_max_term_len()
        &&& !(self.spec_ignore_stop_words() && contains_string(self.spec_stop_words(), t))
    }

    /// The kept terms of the pieces of a sentence.
    pub open spec fn sentence_terms(&self, pieces: Seq<(int, Seq<char>)>) -> Seq<Option<Seq<char>>>
        decreases pieces.len(),
    {
        if pieces.len() == 0 {
            Seq::empty()
        } else {
            let prev = self.sentence_terms(pieces.drop_last());
            let t = spec_term_filter(pieces.last().1);
            if self.keeps_term(t) { prev.push(Some(t)) } else { prev }
        }
    }

    /// The terms of each sentence, each sentence followed by a gap.
    pub open spec fn sentences_terms(&self, sentences: Seq<Seq<char>>) -> Seq<Option<Seq<char>>>
        decreases sentences.len(),
    {
        if sentences.len() == 0 {
            Seq::empty()
        } else {
            self.sentences_terms(sentences.drop_last()) + self.sentence_terms(split_incl(sentences.last())) + seq![None]
        }
    }

    /// The terms of `text`.
    pub open spec fn spec_tokenize(&self, text: Seq<char>) -> Seq<Option<Seq<char>>> {
        self.sentences_terms(chinese_sentences(ascii_lower_chars(text)))
    }
}


/// The filtered terms of `pieces` that are not empty and take at most `max`
/// bytes, in order.
pub open spec fn terms_within_length(max: usize, pieces: Seq<(int, Seq<char>)>) -> Seq<Option<Seq<char>>>
    decreases pieces.len(),
{
    if pieces.len() == 0 {
        Seq::empty()
    } else {
        let t = spec_term_filter(pieces.last().1);
        let prev = terms_within_length(max, pieces.drop_last());
        if 0 < str_byte_len(t) && str_byte_len(t) <= max { prev.push(Some(t)) } else { prev }
    }
}

/// A tokenizer that does not ignore stop words keeps every filtered term
/// that is not empty and fits the length limit, stop words included.
pub proof fn law_stop_words_kept_unless_ignored(tokenizer: Tokenizer, pieces: Seq<(int, Seq<char>)>)
    requires
        !tokenizer.spec_ignore_stop_words(),
    ensures
        tokenizer.sentence_terms(pieces) == terms_within_length(tokenizer.spec_max_term_len(), pieces),
    decreases pieces.len(),
{
    if pieces.len() > 0 {
        law_stop_words_kept_unless_ignored(tokenizer, pieces.drop_last());
    }
}

/// A tokenizer that ignores stop words keeps none of them; every term it
/// keeps is a filtered term that is not empty and fits the length limit.
pub proof fn law_ignored_stop_words_dropped(tokenizer: Tokenizer, pieces: Seq<(int, Seq<char>)>)
    ensures
        forall|x: int|
            0 <= x < tokenizer.sentence_terms(pieces).len() ==> {
                let term = #[trigger] tokenizer.sentence_terms(pieces)[x];
                &&& term is Some
                &&& 0 < str_byte_len(term->0) <= tokenizer.spec_max_term_len()
                &&& tokenizer.spec_ignore_stop_words() ==> !contains_string(tokenizer.spec_stop_words(), term->0)
            },
    decreases pieces.len(),
{
    if pieces.len() > 0 {
        law_ignored_stop_words_dropped(tokenizer, pieces.drop_last());
        let prev = tokenizer.sentence_terms(pieces.drop_last());
        assert forall|x: int| 0 <= x < prev.len() implies tokenizer.sentence_terms(pieces)[x] == #[trigger] prev[x] by {}
    }
}

/// Two tokenizers that do not ignore stop words and share a length limit
/// tokenize every text alike, whatever their stop words.
pub proof fn law_stop_words_unused_unless_ignored(a: Tokenizer, b: Tokenizer, text: Seq<char>)
    requires
        !a.spec_ignore_stop_words(),
        !b.spec_ignore_stop_words(),
        a.spec_max_term_len() == b.spec_max_term_len(),
    ensures
        a.spec_tokenize(text) == b.spec_tokenize(text),
{
    lemma_sentences_terms_alike(a, b, chinese_sentences(ascii_lower_chars(text)));
}

proof fn lemma_sentences_terms_alike(a: Tokenizer, b: Tokenizer, sentences: Seq<Seq<char>>)
    requires
        !a.spec_ignore_stop_words(),
        !b.spec_ignore_stop_words(),
        a.spec_max_term_len() == b.spec_max_term_len(),
    ensures
        a.sentences_terms(sentences) == b.sentences_terms(sentences),
    decreases sentences.len(),
{
    if sentences.len() > 0 {
        lemma_sentences_terms_alike(a, b, sentences.drop_last());
        law_stop_words_kept_unless_ignored(a, split_incl(sentences.last()));
        law_stop_words_kept_unless_ignored(b, split_incl(sentences.last()));
    }
}


fn string_of(chars: &Vec<char>) -> (s: String)
    ensures
        s@ == chars@,
{
    let mut s = String::new();
    let mut i: usize = 0;
    while i < chars.len()
        invariant
            i <= chars@.len(),
            s@ == chars@.subrange(0, i as int),
        decreases chars@.len() - i,
    {
        push_char(&mut s, chars[i]);
        i = i + 1;
        assert(s@ =~= chars@.subrange(0, i as int));
    }
    assert(chars@.subrange(0, i as int) =~= chars@);
    s
}

impl Tokenizer {
    fn push_sentence_terms(&self, sentence: &String, out: &mut Vec<Option<String>>)
        ensures
            opt_strings_seq(final(out)@) == opt_strings_seq(old(out)@) + self.sentence_terms(split_incl(sentence@)),
    {
        let chars = str_chars(sentence.as_str());
        let pieces = split_incl_exec(&chars);
        let ghost spec_pieces = split_incl(sentence@);
        let mut x: usize = 0;
        let ghost start = opt_strings_seq(out@);
        assert(spec_pieces.subrange(0, 0) =~= Seq::<(int, Seq<char>)>::empty());
        while x < pieces.len()
            invariant
                x <= pieces@.len() == spec_pieces.len(),
                spec_pieces == split_incl(sentence@),
                forall|y: int| 0 <= y < pieces@.len() ==> (#[trigger] pieces@[y]).1@ == spec_pieces[y].1,
                opt_strings_seq(out@) == start + self.sentence_terms(spec_pieces.subrange(0, x as int)),
            decreases pieces@.len() - x,
        {
            let filtered = term_filter(&pieces[x].1);
            let term = string_of(&filtered);
            let term_byte_len = term.as_str().len();
            let ghost prev = out@;
            assert(spec_pieces.subrange(0, x + 1).drop_last() =~= spec_pieces.subrange(0, x as int));
            if term_byte_len > 0 && term_byte_len <= self.max_term_len
                && !(self.ignore_stop_words && contains_term(&self.stop_words, &term)) {
                out.push(Some(term));
                assert(opt_strings_seq(out@) =~= opt_strings_seq(prev).push(Some(term@)));
            }
            x = x + 1;
        }
        assert(spec_pieces.subrange(0, x as int) =~= spec_pieces);
    }
}

impl IndexerTokenizer for Tokenizer {
    open spec fn spec_index_terms(&self, text: Seq<char>) -> Seq<Option<Seq<char>>> {
        self.spec_tokenize(text)
    }

    /// The terms of `text`, in order; `None` after each sentence.
    fn tokenize(&self, text: String) -> (res: Vec<Option<String>>) {
        let chars = str_chars(text.as_str());
        let lower = make_ascii_lowercase(&chars);
        let lower_text = string_of(&lower);
        let sentences = split_sentences(lower_text.as_str());
        let ghost sents = chinese_sentences(ascii_lower_chars(text@));
        let mut out: Vec<Option<String>> = Vec::new();
        let mut s: usize = 0;
        assert(opt_strings_seq(out@) =~= self.sentences_terms(sents.subrange(0, 0)));
        while s < sentences.len()
            invariant
                s <= sentences@.len(),
                strings_model(sentences@) == sents,
                opt_strings_seq(out@) == self.sentences_terms(sents.subrange(0, s as int)),
            decreases sentences@.len() - s,
        {
            self.push_sentence_terms(&sentences[s], &mut out);
            let ghost prev = out@;
            out.push(None);
            assert(sents[s as int] == sentences@[s as int]@);
            assert(sents.subrange(0, s + 1).drop_last() =~= sents.subrange(0, s as int));
            assert(opt_strings_seq(out@) =~= opt_strings_seq(prev).push(None));
            s = s + 1;
        }
        assert(sents.subrange(0, s as int) =~= sents);
        out
    }
}

proof fn lemma_split_upto_bounds(s: Seq<char>, n: nat)
    requires
        n <= s.len(),
    ensures
        0 <= split_incl_upto(s, n).1 <= n,
        forall|x: int| 0 <= x < split_incl_upto(s, n).0.len() ==> 0 <= #[trigger] split_incl_upto(s, n).0[x].0 < split_incl_upto(s, n).1,
    decreases n,
{
    if n > 0 {
        lemma_split_upto_bounds(s, (n - 1) as nat);
    }
}

/// Every piece starts inside `s`.
proof fn lemma_split_incl_bounds(s: Seq<char>)
    ensures
        forall|x: int| 0 <= x < split_incl(s).len() ==> 0 <= #[trigger] split_incl(s)[x].0 < s.len(),
{
    lemma_split_upto_bounds(s, s.len());
}

/// `s` with each apostrophe replaced by a right single quotation mark.
pub open spec fn curly_apostrophes(s: Seq<char>) -> Seq<char> {
    Seq::new(s.len(), |i: int| if s[i] == '\'' { '\u{2019}' } else { s[i] })
}

/// Whether `s` holds a Chinese character.
pub open spec fn has_chinese(s: Seq<char>) -> bool {
    exists|i: int| 0 <= i < s.len() && spec_is_chinese_char(s[i])
}

/// The forms of a query piece searched for before any correction: the piece,
/// its form with curly apostrophes when it has an apostrophe, and its
/// filtered form when filtering changes it.
pub open spec fn piece_inflections(s: Seq<char>) -> Seq<Seq<char>> {
    let f = spec_term_filter(s);
    seq![s] + (if s.contains('\'') { seq![curly_apostrophes(s)] } else { Seq::empty() }) + (if f != s && f.len() > 0 {
        seq![f]
    } else {
        Seq::empty()
    })
}

/// ASCII whitespace.
pub open spec fn is_ascii_white_space(c: char) -> bool {
    c == ' ' || c == '\t' || c == '\n' || c == '\x0C' || c == '\r'
}

impl Tokenizer {
    /// The term made of piece `x` of a query slice: none when filtering
    /// leaves nothing; without a dictionary term when it is an ignored stop
    /// word; the piece itself when the dictionary holds it; otherwise none for
    /// a prefix or Chinese text, and else the best correction, if any.
    pub open spec fn piece_model(
        &self,
        query_chars: Seq<char>,
        offset: int,
        escape_indices: Seq<usize>,
        dict: &Dictionary,
        pieces: Seq<(int, Seq<char>)>,
        x: int,
    ) -> Option<SearchTokenizeTermModel> {
        let ci = pieces[x].0;
        let s = pieces[x].1;
        let f = spec_term_filter(s);
        if s.len() == 0 || f.len() == 0 {
            None
        } else {
            let suffix_wildcard = x + 1 < pieces.len() && pieces[x + 1].1 == seq!['*'];
            let prefix_ops = spec_get_prefix_ops(ci + offset, 1, offset, query_chars, escape_indices, self);
            let infl = piece_inflections(s);
            let plain = SearchTokenizeTermModel {
                term: None,
                term_inflections: infl,
                original_term: f,
                suffix_wildcard,
                is_corrected: false,
                prefix_ops,
            };
            if self.spec_ignore_stop_words() && contains_string(self.spec_stop_words(), f) {
                Some(plain)
            } else if dict.spec_term_info(f) is Some {
                Some(SearchTokenizeTermModel { term: Some(f), ..plain })
            } else if suffix_wildcard || has_chinese(f) {
                Some(plain)
            } else {
                match best_correction(*dict, f) {
                    Some(c) => Some(
                        SearchTokenizeTermModel {
                            term: Some(c),
                            term_inflections: infl.push(c),
                            is_corrected: true,
                            ..plain
                        },
                    ),
                    None => Some(plain),
                }
            }
        }
    }

    /// The terms of the first `n` pieces.
    pub open spec fn pieces_terms(
        &self,
        query_chars: Seq<char>,
        offset: int,
        escape_indices: Seq<usize>,
        dict: &Dictionary,
        pieces: Seq<(int, Seq<char>)>,
        n: int,
    ) -> Seq<SearchTokenizeTermModel>
        decreases n,
    {
        if n <= 0 {
            Seq::empty()
        } else {
            let prev = self.pieces_terms(query_chars, offset, escape_indices, dict, pieces, n - 1);
            match self.piece_model(query_chars, offset, escape_indices, dict, pieces, n - 1) {
                Some(t) => prev.push(t),
                None => prev,
            }
        }
    }
}

fn chars_equal(a: &Vec<char>, b: &Vec<char>) -> (res: bool)
    ensures
        res == (a@ == b@),
{
    if a.len() != b.len() {
        return false;
    }
    let mut i: usize = 0;
    while i < a.len()
        invariant
            i <= a@.len() == b@.len(),
            forall|k: int| 0 <= k < i ==> a@[k] == b@[k],
        decreases a@.len() - i,
    {
        if a[i] != b[i] {
            return false;
        }
        i = i + 1;
    }
    assert(a@ =~= b@);
    true
}

fn has_apostrophe(s: &Vec<char>) -> (res: bool)
    ensures
        res == s@.contains('\''),
{
    let mut i: usize = 0;
    while i < s.len()
        invariant
            i <= s@.len(),
            forall|k: int| 0 <= k < i ==> s@[k] != '\'',
        decreases s@.len() - i,
    {
        if s[i] == '\'' {
            assert(s@[i as int] == '\'');
            return true;
        }
        i = i + 1;
    }
    false
}

fn with_curly_apostrophes(s: &Vec<char>) -> (res: Vec<char>)
    ensures
        res@ == curly_apostrophes(s@),
{
    let mut res: Vec<char> = Vec::new();
    let mut i: usize = 0;
    while i < s.len()
        invariant
            i <= s@.len(),
            res@ == curly_apostrophes(s@).subrange(0, i as int),
        decreases s@.len() - i,
    {
        if s[i] == '\'' {
            res.push('\u{2019}');
        } else {
            res.push(s[i]);
        }
        i = i + 1;
        assert(res@ =~= curly_apostrophes(s@).subrange(0, i as int));
    }
    assert(curly_apostrophes(s@).subrange(0, i as int) =~= curly_apostrophes(s@));
    res
}

fn contains_chinese(s: &Vec<char>) -> (res: bool)
    ensures
        res == has_chinese(s@),
{
    let mut i: usize = 0;
    while i < s.len()
        invariant
            i <= s@.len(),
            forall|k: int| 0 <= k < i ==> !spec_is_chinese_char(s@[k]),
        decreases s@.len() - i,
    {
        if is_chinese_char(s[i]) {
            return true;
        }
        i = i + 1;
    }
    false
}

impl Tokenizer {
    /// The term made of piece `x`.
    fn piece_term(
        &self,
        query_chars: &[char],
        offset: usize,
        end: usize,
        escape_indices: &[usize],
        dict: &Dictionary,
        pieces: &Vec<(usize, Vec<char>)>,
        x: usize,
        ghost_pieces: Ghost<Seq<(int, Seq<char>)>>,
    ) -> (res: Option<SearchTokenizeTerm>)
        requires
            offset <= end <= query_chars@.len(),
            x < pieces@.len(),
            pieces@.len() == ghost_pieces@.len(),
            forall|y: int| 0 <= y < pieces@.len() ==> (#[trigger] pieces@[y]).0 == ghost_pieces@[y].0
                && pieces@[y].1@ == ghost_pieces@[y].1,
            forall|y: int| 0 <= y < pieces@.len() ==> (#[trigger] ghost_pieces@[y]).0 < end - offset,
        ensures
            match res {
                Some(t) => Some(t@),
                None => None,
            } == self.piece_model(query_chars@, offset as int, escape_indices@, dict, ghost_pieces@, x as int),
    {
        let ghost gp = ghost_pieces@;
        let ci = pieces[x].0;
        let s = &pieces[x].1;
        let f = term_filter(s);
        if s.len() == 0 || f.len() == 0 {
            return None;
        }
        assert(gp[x as int].0 == ci);
        assert(gp[x as int].1 == s@);
        let suffix_wildcard = pieces.len() - x > 1 && pieces[x + 1].1.len() == 1 && pieces[x + 1].1[0] == '*';
        proof {
            if x + 1 < pieces@.len() {
                assert(gp[x + 1].1 == pieces@[x + 1].1@);
                if pieces@[x + 1].1@.len() == 1 && pieces@[x + 1].1@[0] == '*' {
                    assert(gp[x + 1].1 =~= seq!['*']);
                }
            }
        }
        let prefix_ops = get_prefix_ops(ci + offset, 1, offset, query_chars, escape_indices, self);
        let mut term_inflections: Vec<String> = Vec::new();
        term_inflections.push(string_of(s));
        if has_apostrophe(s) {
            let curly = with_curly_apostrophes(s);
            term_inflections.push(string_of(&curly));
        }
        if !chars_equal(&f, s) {
            term_inflections.push(string_of(&f));
        }
        let ghost infl = piece_inflections(s@);
        assert(strings_model(term_inflections@) =~= infl);
        let original_term = string_of(&f);
        if self.ignore_stop_words && contains_term(&self.stop_words, &original_term) {
            return Some(SearchTokenizeTerm {
                term: None,
                term_inflections,
                original_term,
                suffix_wildcard,
                is_corrected: false,
                prefix_ops,
            });
        }
        if dict.get_term_info(&original_term).is_some() {
            let term = string_of(&f);
            return Some(SearchTokenizeTerm {
                term: Some(term),
                term_inflections,
                original_term,
                suffix_wildcard,
                is_corrected: false,
                prefix_ops,
            });
        }
        if suffix_wildcard || contains_chinese(&f) {
            return Some(SearchTokenizeTerm {
                term: None,
                term_inflections,
                original_term,
                suffix_wildcard,
                is_corrected: false,
                prefix_ops,
            });
        }
        match scan_dictionary(dict, &f) {
            Some(corrected) => {
                let ghost prev = term_inflections@;
                term_inflections.push(corrected.clone());
                assert(strings_model(term_inflections@) =~= strings_model(prev).push(corrected@));
                Some(SearchTokenizeTerm {
                    term: Some(corrected),
                    term_inflections,
                    original_term,
                    suffix_wildcard,
                    is_corrected: true,
                    prefix_ops,
                })
            },
            None => Some(SearchTokenizeTerm {
                term: None,
                term_inflections,
                original_term,
                suffix_wildcard,
                is_corrected: false,
                prefix_ops,
            }),
        }
    }
}

impl SearchTokenizer for Tokenizer {
    open spec fn spec_search_tokenize(
        &self,
        query_chars: Seq<char>,
        offset: int,
        offset_end: int,
        escape_indices: Seq<usize>,
        dict: &Dictionary,
    ) -> SearchTokenizeResultModel {
        let text = ascii_lower_chars(query_chars.subrange(offset, offset_end));
        let pieces = split_incl(text);
        SearchTokenizeResultModel {
            auto_suffix_wildcard: !(text.len() > 0 && text.last() == ' '),
            terms: self.pieces_terms(query_chars, offset, escape_indices, dict, pieces, pieces.len() as int),
        }
    }

    open spec fn spec_is_stop_word(&self, term: Seq<char>) -> bool {
        contains_string(self.spec_stop_words(), term)
    }

    /// The terms of `query_chars[query_chars_offset..query_chars_offset_end]`:
    /// lower-cased, split into pieces, each piece's operators, wildcard,
    /// inflections and dictionary term or correction.
    fn search_tokenize(
        &self,
        query_chars: &[char],
        query_chars_offset: usize,
        query_chars_offset_end: usize,
        escape_indices: &[usize],
        dict: &Dictionary,
    ) -> (res: SearchTokenizeResult) {
        let mut slice: Vec<char> = Vec::new();
        let mut x = query_chars_offset;
        while x < query_chars_offset_end
            invariant
                query_chars_offset <= x <= query_chars_offset_end <= query_chars@.len(),
                slice@ == query_chars@.subrange(query_chars_offset as int, x as int),
            decreases query_chars_offset_end - x,
        {
            slice.push(query_chars[x]);
            x = x + 1;
            assert(slice@ =~= query_chars@.subrange(query_chars_offset as int, x as int));
        }
        let text = make_ascii_lowercase(&slice);
        let n = text.len();
        let should_expand = !(n > 0 && text[n - 1] == ' ');
        let pieces = split_incl_exec(&text);
        let ghost gp = split_incl(text@);
        proof {
            lemma_split_incl_bounds(text@);
        }
        let mut terms: Vec<SearchTokenizeTerm> = Vec::new();
        let mut y: usize = 0;
        while y < pieces.len()
            invariant
                query_chars_offset <= query_chars_offset_end <= query_chars@.len(),
                text@.len() == query_chars_offset_end - query_chars_offset,
                y <= pieces@.len() == gp.len(),
                gp == split_incl(text@),
                forall|z: int| 0 <= z < pieces@.len() ==> (#[trigger] pieces@[z]).0 == gp[z].0 && pieces@[z].1@ == gp[z].1,
                forall|z: int| 0 <= z < gp.len() ==> 0 <= #[trigger] gp[z].0 < text@.len(),
                terms@.map_values(|t: SearchTokenizeTerm| t@) == self.pieces_terms(
                    query_chars@,
                    query_chars_offset as int,
                    escape_indices@,
                    dict,
                    gp,
                    y as int,
                ),
            decreases pieces@.len() - y,
        {
            let t = self.piece_term(
                query_chars,
                query_chars_offset,
                query_chars_offset_end,
                escape_indices,
                dict,
                &pieces,
                y,
                Ghost(gp),
            );
            let ghost prev = terms@;
            match t {
                Some(term) => {
                    terms.push(term);
                    assert(terms@.map_values(|t: SearchTokenizeTerm| t@) =~= prev.map_values(|t: SearchTokenizeTerm| t@).push(
                        terms@.last()@,
                    ));
                },
                None => {},
            }
            y = y + 1;
        }
        SearchTokenizeResult { auto_suffix_wildcard: should_expand, terms }
    }

    fn is_stop_word(&self, term: &str) -> (res: bool) {
        let t: String = term.to_owned();
        contains_term(&self.stop_words, &t)
    }

}

impl PrefixOpTerminator for Tokenizer {
    open spec fn spec_is_valid_prefix_op_terminator(&self, c: char) -> bool {
        is_ascii_white_space(c) || spec_is_chinese_char(c)
    }

    /// ASCII whitespace and Chinese characters.
    fn is_valid_prefix_op_terminator(&self, c: char) -> (res: bool) {
        c == ' ' || c == '\t' || c == '\n' || c == '\x0C' || c == '\r' || is_chinese_char(c)
    }
}

} // verus!
