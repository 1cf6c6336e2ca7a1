//! The English tokenizer of the first-generation indexer and search.

use vstd::prelude::*;
use crate::chinese::{ascii_lower_chars, char_is_whitespace, is_white_space, make_ascii_lowercase, str_byte_len};
use crate::query_parser::strings_model;
use crate::stop_words::{contains_string, dedup_strings, no_duplicates, strs_model};
use crate::text::{push_char, str_chars, string_from_chars};

verus! {

/// The characters that the punctuation pattern removes.
pub open spec fn is_punctuation(c: char) -> bool {
    let u = c as u32;
    ||| u == 0x5B || u == 0x5D || u == 0x28 || u == 0x29 || u == 0x7B || u == 0x7D
    ||| u == 0x26 || u == 0x7C || u == 0x27 || u == 0x22 || u == 0x60 || u == 0x3C
    ||| u == 0x3E || u == 0x23 || u == 0x3A || u == 0x3B || u == 0x7E || u == 0x5F
    ||| u == 0x5E || u == 0x3D || u == 0x2D || u == 0x2011 || u == 0x2B || u == 0x2A
    ||| u == 0x2F || u == 0x2018 || u == 0x2019 || u == 0x201C || u == 0x201D
    ||| u == 0xFF0C || u == 0x3002 || u == 0x300A || u == 0x300B || u == 0x2026
    ||| u == 0x2014 || u == 0x2010 || u == 0x2022 || u == 0x3F || u == 0x21 || u == 0x2C
    ||| u == 0x2E
}

/// `s` without its punctuation characters.
pub open spec fn remove_punctuation(s: Seq<char>) -> Seq<char>
    decreases s.len(),
{
    if s.len() == 0 {
        s
    } else if is_punctuation(s.last()) {
        remove_punctuation(s.drop_last())
    } else {
        remove_punctuation(s.drop_last()).push(s.last())
    }
}

/// What the boundary pattern `(^\W)|(\W$)` leaves of `s` when its matches are
/// replaced by nothing (`Regex::replace_all`).
pub uninterp spec fn boundary_trimmed(s: Seq<char>) -> Seq<char>;

/// Whether `t` is `s` with at most its first and at most its last character
/// removed.
pub open spec fn trims_ends(s: Seq<char>, t: Seq<char>) -> bool {
    exists|a: int, b: int| 0 <= a <= 1 && 0 <= b <= 1 && a + b <= s.len() && t == #[trigger] s.subrange(a, s.len() - b)
}

/// Whether `t` is a stretch of `s`.
pub open spec fn is_stretch_of(t: Seq<char>, s: Seq<char>) -> bool {
    exists|a: int, b: int| 0 <= a <= b <= s.len() && t == #[trigger] s.subrange(a, b)
}

/// The sentences of `s`, split where `[.?!](\s+|$)` matches (`Regex::split`).
pub uninterp spec fn english_sentences(s: Seq<char>) -> Seq<Seq<char>>;

/// `regex::Regex::replace_all` with the punctuation pattern and an empty
/// replacement: every character of the pattern's class is removed.
#[verifier::external_body]
fn strip_punctuation(s: &str) -> (res: String)
    ensures
        res@ == remove_punctuation(s@),
{
    regex::Regex::new(r#"[\[\](){}&|'"`<>#:;~_^=\-‑+*/‘’“”，。《》…—‐•?!,.]"#)
        .unwrap()
        .replace_all(s, "")
        .into_owned()
}

/// `regex::Regex::replace_all` with the boundary pattern `(^\W)|(\W$)` and an
/// empty replacement.
#[verifier::external_body]
fn trim_boundary(s: &str) -> (res: String)
    ensures
        res@ == boundary_trimmed(s@),
        trims_ends(s@, res@),
{
    regex::Regex::new(r#"(^\W)|(\W$)"#).unwrap().replace_all(s, "").into_owned()
}

/// `regex::Regex::split` with the sentence pattern `[.?!](\s+|$)`.
#[verifier::external_body]
pub(crate) fn split_english_sentences(s: &str) -> (res: Vec<String>)
    ensures
        strings_model(res@) == english_sentences(s@),
        forall|i: int| 0 <= i < res@.len() ==> is_stretch_of(#[trigger] res@[i]@, s@),
{
    regex::Regex::new(r#"[.?!](\s+|$)"#).unwrap().split(s).map(|p| p.to_owned()).collect()
}

/// The words of `s` read so far and the word being read.
pub open spec fn split_ws(s: Seq<char>) -> (Seq<Seq<char>>, Seq<char>)
    decreases s.len(),
{
    if s.len() == 0 {
        (Seq::empty(), Seq::empty())
    } else {
        let (ws, cur) = split_ws(s.drop_last());
        if is_white_space(s.last()) {
            (if cur.len() > 0 { ws.push(cur) } else { ws }, Seq::empty())
        } else {
            (ws, cur.push(s.last()))
        }
    }
}

/// The words of `s` (`str::split_whitespace`): its maximal runs of
/// characters other than whitespace.
pub open spec fn words(s: Seq<char>) -> Seq<Seq<char>> {
    let (ws, cur) = split_ws(s);
    if cur.len() > 0 {
        ws.push(cur)
    } else {
        ws
    }
}

/// The words of `s`.
pub fn split_whitespace(s: &str) -> (res: Vec<String>)
    ensures
        strings_model(res@) == words(s@),
{
    let chars = str_chars(s);
    let mut res: Vec<String> = Vec::new();
    let mut cur = String::new();
    let mut i: usize = 0;
    assert(chars@.subrange(0, 0) =~= Seq::<char>::empty());
    while i < chars.len()
        invariant
            i <= chars@.len(),
            chars@ == s@,
            (strings_model(res@), cur@) == split_ws(chars@.subrange(0, i as int)),
        decreases chars@.len() - i,
    {
        let c = chars[i];
        assert(chars@.subrange(0, i + 1).drop_last() =~= chars@.subrange(0, i as int));
        if char_is_whitespace(c) {
            if !cur.as_str().is_empty() {
                let ghost prev = res@;
                res.push(cur);
                assert(strings_model(res@) =~= strings_model(prev).push(prev_cur_view(&res)));
            }
            cur = String::new();
        } else {
            push_char(&mut cur, c);
        }
        i = i + 1;
    }
    assert(chars@.subrange(0, i as int) =~= s@);
    if !cur.as_str().is_empty() {
        let ghost prev = res@;
        res.push(cur);
        assert(strings_model(res@) =~= strings_model(prev).push(prev_cur_view(&res)));
    }
    res
}

/// The view of the last string of `v`.
spec fn prev_cur_view(v: &Vec<String>) -> Seq<char> {
    v@.last()@
}

/// The term a word gives: its punctuation removed, then a non-word character
/// at either end.
pub open spec fn clean_term(w: Seq<char>) -> Seq<char> {
    boundary_trimmed(remove_punctuation(w))
}

/// Terms of 1 to 120 bytes are kept.
pub open spec fn keeps_term(t: Seq<char>) -> bool {
    0 < str_byte_len(t) <= 120
}

/// The kept terms of a sentence's words, in order.
pub open spec fn word_terms(ws: Seq<Seq<char>>) -> Seq<Seq<char>>
    decreases ws.len(),
{
    if ws.len() == 0 {
        Seq::empty()
    } else {
        let t = clean_term(ws.last());
        word_terms(ws.drop_last()) + if keeps_term(t) { seq![t] } else { Seq::empty() }
    }
}

/// The terms of the sentences, in order.
pub open spec fn sentences_terms(ss: Seq<Seq<char>>) -> Seq<Seq<char>>
    decreases ss.len(),
{
    if ss.len() == 0 {
        Seq::empty()
    } else {
        sentences_terms(ss.drop_last()) + word_terms(words(ss.last()))
    }
}

/// The terms of `text`: lower-cased, split into sentences and words, each
/// word cleaned, and the terms of 1 to 120 bytes kept.
pub open spec fn spec_tokenize(text: Seq<char>) -> Seq<Seq<char>> {
    sentences_terms(english_sentences(ascii_lower_chars(text)))
}

/// Appends the kept terms of a sentence.
fn push_sentence_terms(sentence: &String, out: &mut Vec<String>)
    requires
        no_upper(sentence@),
        forall|t: int| 0 <= t < old(out)@.len() ==> term_shape(#[trigger] old(out)@[t]@),
    ensures
        strings_model(final(out)@) == strings_model(old(out)@) + word_terms(words(sentence@)),
        forall|t: int| 0 <= t < final(out)@.len() ==> term_shape(#[trigger] final(out)@[t]@),
{
    proof {
        lemma_words_shape(sentence@);
    }
    let ws = split_whitespace(sentence.as_str());
    let ghost wv = words(sentence@);
    let ghost start = strings_model(out@);
    let mut i: usize = 0;
    assert(wv.subrange(0, 0) =~= Seq::<Seq<char>>::empty());
    while i < ws.len()
        invariant
            i <= ws@.len(),
            strings_model(ws@) == wv,
            strings_model(out@) == start + word_terms(wv.subrange(0, i as int)),
            forall|x: int| 0 <= x < wv.len() ==> word_shape(#[trigger] wv[x]),
            forall|t: int| 0 <= t < out@.len() ==> term_shape(#[trigger] out@[t]@),
        decreases ws@.len() - i,
    {
        let stripped = strip_punctuation(ws[i].as_str());
        let term = trim_boundary(stripped.as_str());
        proof {
            assert(wv[i as int] == ws@[i as int]@);
            lemma_remove_punctuation_shape(ws@[i as int]@);
            lemma_trim_shape(stripped@, term@);
        }
        let len = term.as_str().len();
        let ghost prev = out@;
        assert(wv.subrange(0, i + 1).drop_last() =~= wv.subrange(0, i as int));
        assert(wv[i as int] == ws@[i as int]@);
        if len > 0 && len <= 120 {
            out.push(term);
            assert(strings_model(out@) =~= strings_model(prev).push(clean_term(wv[i as int])));
        }
        i = i + 1;
        assert(strings_model(out@) =~= start + word_terms(wv.subrange(0, i as int)));
    }
    assert(wv.subrange(0, i as int) =~= wv);
}

/// The terms of `text`.
pub fn tokenize(text: &str) -> (res: Vec<String>)
    ensures
        strings_model(res@) == spec_tokenize(text@),
        forall|t: int| 0 <= t < res@.len() ==> term_shape(#[trigger] res@[t]@),
{
    let chars = str_chars(text);
    let lower = make_ascii_lowercase(&chars);
    let lower_text = string_from_chars(lower.as_slice(), 0, lower.len());
    assert(lower@.subrange(0, lower@.len() as int) =~= lower@);
    let sentences = split_english_sentences(lower_text.as_str());
    proof {
        lemma_lower_no_upper(text@);
    }
    let ghost ss = english_sentences(ascii_lower_chars(text@));
    let mut out: Vec<String> = Vec::new();
    let mut i: usize = 0;
    assert(ss.subrange(0, 0) =~= Seq::<Seq<char>>::empty());
    assert(strings_model(out@) =~= Seq::<Seq<char>>::empty());
    while i < sentences.len()
        invariant
            i <= sentences@.len(),
            strings_model(sentences@) == ss,
            strings_model(out@) == sentences_terms(ss.subrange(0, i as int)),
            no_upper(lower_text@),
            forall|x: int| 0 <= x < sentences@.len() ==> is_stretch_of(#[trigger] sentences@[x]@, lower_text@),
            forall|t: int| 0 <= t < out@.len() ==> term_shape(#[trigger] out@[t]@),
        decreases sentences@.len() - i,
    {
        proof {
            lemma_stretch_no_upper(sentences@[i as int]@, lower_text@);
        }
        push_sentence_terms(&sentences[i], &mut out);
        assert(ss.subrange(0, i + 1).drop_last() =~= ss.subrange(0, i as int));
        assert(ss[i as int] == sentences@[i as int]@);
        i = i + 1;
    }
    assert(ss.subrange(0, i as int) =~= ss);
    out
}

/// An ASCII capital letter.
pub open spec fn is_ascii_upper(c: char) -> bool {
    'A' <= c <= 'Z'
}

/// Whether `s` holds no ASCII capital letter.
pub open spec fn no_upper(s: Seq<char>) -> bool {
    forall|x: int| 0 <= x < s.len() ==> !is_ascii_upper(#[trigger] s[x])
}

/// Whether `s` holds no whitespace and no ASCII capital letter.
pub open spec fn word_shape(s: Seq<char>) -> bool {
    forall|x: int| 0 <= x < s.len() ==> !is_white_space(#[trigger] s[x]) && !is_ascii_upper(s[x])
}

/// The shape of a term: no whitespace, no punctuation, no ASCII capital
/// letter.
pub open spec fn term_shape(t: Seq<char>) -> bool {
    forall|x: int| 0 <= x < t.len() ==> !is_white_space(#[trigger] t[x]) && !is_punctuation(t[x]) && !is_ascii_upper(t[x])
}

proof fn lemma_lower_no_upper(s: Seq<char>)
    ensures
        no_upper(ascii_lower_chars(s)),
{
    assert forall|x: int| 0 <= x < s.len() implies !is_ascii_upper(#[trigger] ascii_lower_chars(s)[x]) by {
        let c = s[x];
        if 'A' <= c <= 'Z' {
            let u = c as u8;
            assert(65 <= u <= 90);
            assert(ascii_lower_chars(s)[x] == ((u + 32) as u8) as char);
        }
    }
}

proof fn lemma_stretch_no_upper(t: Seq<char>, s: Seq<char>)
    requires
        no_upper(s),
        is_stretch_of(t, s),
    ensures
        no_upper(t),
{
    let (a, b) = choose|a: int, b: int| 0 <= a <= b <= s.len() && t == #[trigger] s.subrange(a, b);
    assert forall|x: int| 0 <= x < t.len() implies !is_ascii_upper(#[trigger] t[x]) by {
        assert(t[x] == s[a + x]);
    }
}

proof fn lemma_split_ws_shape(s: Seq<char>)
    requires
        no_upper(s),
    ensures
        forall|i: int| 0 <= i < split_ws(s).0.len() ==> word_shape(#[trigger] split_ws(s).0[i]),
        word_shape(split_ws(s).1),
    decreases s.len(),
{
    if s.len() > 0 {
        let d = s.drop_last();
        assert forall|x: int| 0 <= x < d.len() implies !is_ascii_upper(#[trigger] d[x]) by {
            assert(d[x] == s[x]);
        }
        lemma_split_ws_shape(d);
        let (ws, cur) = split_ws(d);
        assert(!is_ascii_upper(s[s.len() - 1]));
        if !is_white_space(s.last()) {
            assert forall|x: int| 0 <= x < cur.push(s.last()).len() implies !is_white_space(
                #[trigger] cur.push(s.last())[x],
            ) && !is_ascii_upper(cur.push(s.last())[x]) by {
                if x < cur.len() {
                    assert(cur.push(s.last())[x] == cur[x]);
                }
            }
        }
    }
}

proof fn lemma_words_shape(s: Seq<char>)
    requires
        no_upper(s),
    ensures
        forall|i: int| 0 <= i < words(s).len() ==> word_shape(#[trigger] words(s)[i]),
{
    lemma_split_ws_shape(s);
}

proof fn lemma_remove_punctuation_shape(w: Seq<char>)
    requires
        word_shape(w),
    ensures
        term_shape(remove_punctuation(w)),
    decreases w.len(),
{
    if w.len() > 0 {
        let d = w.drop_last();
        assert forall|x: int| 0 <= x < d.len() implies !is_white_space(#[trigger] d[x]) && !is_ascii_upper(d[x]) by {
            assert(d[x] == w[x]);
        }
        lemma_remove_punctuation_shape(d);
        assert(w.last() == w[w.len() - 1]);
    }
}

proof fn lemma_trim_shape(s: Seq<char>, t: Seq<char>)
    requires
        term_shape(s),
        trims_ends(s, t),
    ensures
        term_shape(t),
{
    let (a, b) = choose|a: int, b: int| 0 <= a <= 1 && 0 <= b <= 1 && a + b <= s.len() && t == #[trigger] s.subrange(a, s.len() - b);
    assert forall|x: int| 0 <= x < t.len() implies !is_white_space(#[trigger] t[x]) && !is_punctuation(t[x])
        && !is_ascii_upper(t[x]) by {
        assert(t[x] == s[a + x]);
    }
}

/// The terms of a search query, and whether its last term should be expanded
/// as a prefix.
pub struct SearchTokenizeResult {
    pub terms: Vec<String>,
    pub should_expand: bool,
}

/// Tokenizes a query; its last term is expanded unless the query ends with a
/// space.
pub fn wasm_tokenize(text: String) -> (res: SearchTokenizeResult)
    ensures
        strings_model(res.terms@) == spec_tokenize(text@),
        forall|t: int| 0 <= t < res.terms@.len() ==> term_shape(#[trigger] res.terms@[t]@),
        res.should_expand == !(text@.len() > 0 && text@.last() == ' '),
{
    let chars = str_chars(text.as_str());
    let n = chars.len();
    let should_expand = !(n > 0 && chars[n - 1] == ' ');
    SearchTokenizeResult { terms: tokenize(text.as_str()), should_expand }
}

/// The stop words, as the JSON array the search front end reads.
pub fn get_stop_words() -> (res: &'static str)
    ensures
        res@ == STOP_WORDS_JSON@,
{
    STOP_WORDS_JSON
}

/// The stop word list in JSON.
pub const STOP_WORDS_JSON: &'static str = r#"[
    "a", "an", "and", "are", "as", "at", "be", "but", "by", "for", "if", "in", "into",
    "is", "it", "no", "not", "of", "on", "or", "such", "that", "the", "their", "then",
    "there", "these", "they", "this", "to", "was", "will", "with"
  ]"#;

/// The English stop words.
pub fn english_stop_words() -> (res: Vec<&'static str>)
    ensures
        res@ == seq![
            "a", "an", "and", "are", "as", "at", "be", "but", "by", "for", "if", "in", "into",
            "is", "it", "no", "not", "of", "on", "or", "such", "that", "the", "their", "then",
            "there", "these", "they", "this", "to", "was", "will", "with",
        ],
{
    vec![
        "a", "an", "and", "are", "as", "at", "be", "but", "by", "for", "if", "in", "into",
        "is", "it", "no", "not", "of", "on", "or", "such", "that", "the", "their", "then",
        "there", "these", "they", "this", "to", "was", "will", "with",
    ]
}

/// The English stop words, each once.
pub fn get_stop_words_set() -> (set: Vec<String>)
    ensures
        no_duplicates(strings_model(set@)),
        forall|s: Seq<char>| contains_string(strings_model(set@), s) <==> contains_string(strs_model(english_stop_words_spec()), s),
{
    let words = english_stop_words();
    let mut owned: Vec<String> = Vec::new();
    let mut i: usize = 0;
    while i < words.len()
        invariant
            i <= words@.len(),
            words@ == english_stop_words_spec(),
            strings_model(owned@) == strs_model(words@.subrange(0, i as int)),
        decreases words@.len() - i,
    {
        let w: String = words[i].to_owned();
        assert(w@ == words@[i as int]@);
        let ghost prev = owned@;
        owned.push(w);
        assert(strings_model(owned@) =~= strings_model(prev).push(words@[i as int]@));
        assert(words@.subrange(0, i + 1) =~= words@.subrange(0, i as int).push(words@[i as int]));
        i = i + 1;
        assert(strings_model(owned@) =~= strs_model(words@.subrange(0, i as int)));
    }
    assert(words@.subrange(0, i as int) =~= words@);
    dedup_strings(owned)
}

/// The English stop words.
pub open spec fn english_stop_words_spec() -> Seq<&'static str> {
    seq![
        "a", "an", "and", "are", "as", "at", "be", "but", "by", "for", "if", "in", "into",
        "is", "it", "no", "not", "of", "on", "or", "such", "that", "the", "their", "then",
        "there", "these", "they", "this", "to", "was", "will", "with",
    ]
}

proof fn lemma_word_terms_kept(ws: Seq<Seq<char>>)
    ensures
        forall|i: int| 0 <= i < word_terms(ws).len() ==> keeps_term(#[trigger] word_terms(ws)[i]),
    decreases ws.len(),
{
    if ws.len() > 0 {
        lemma_word_terms_kept(ws.drop_last());
        let prev = word_terms(ws.drop_last());
        let t = clean_term(ws.last());
        assert forall|i: int| 0 <= i < word_terms(ws).len() implies keeps_term(#[trigger] word_terms(ws)[i]) by {
            if i < prev.len() {
                assert(word_terms(ws)[i] == prev[i]);
            }
        }
    }
}

proof fn lemma_sentences_terms_kept(ss: Seq<Seq<char>>)
    ensures
        forall|i: int| 0 <= i < sentences_terms(ss).len() ==> keeps_term(#[trigger] sentences_terms(ss)[i]),
    decreases ss.len(),
{
    if ss.len() > 0 {
        lemma_sentences_terms_kept(ss.drop_last());
        lemma_word_terms_kept(words(ss.last()));
        let prev = sentences_terms(ss.drop_last());
        let w = word_terms(words(ss.last()));
        assert forall|i: int| 0 <= i < sentences_terms(ss).len() implies keeps_term(#[trigger] sentences_terms(ss)[i]) by {
            if i < prev.len() {
                assert(sentences_terms(ss)[i] == prev[i]);
            } else {
                assert(sentences_terms(ss)[i] == w[i - prev.len()]);
            }
        }
    }
}

/// Every term the tokenizer gives takes between 1 and 120 bytes.
pub proof fn law_terms_within_byte_limit(text: Seq<char>)
    ensures
        forall|i: int|
            0 <= i < spec_tokenize(text).len() ==> 0 < str_byte_len(#[trigger] spec_tokenize(text)[i]) <= 120,
{
    lemma_sentences_terms_kept(english_sentences(ascii_lower_chars(text)));
}

} // verus!
