//! What tokenizers hand the query parser, and the reading of the boolean
//! operators (`+`, `-`, `~`) that may precede a term.

use vstd::prelude::*;
use crate::dictionary::Dictionary;
use crate::query_parser::{opt_string_model, strings_model};

verus! {

/// The operators found before a term.
#[derive(Clone, Copy, PartialEq, Eq, Structural, Debug)]
pub struct PrefixResult {
    pub is_mandatory: bool,
    pub is_subtracted: bool,
    pub is_inverted: bool,
}

/// No operator.
pub open spec fn no_prefix_ops() -> PrefixResult {
    PrefixResult { is_mandatory: false, is_subtracted: false, is_inverted: false }
}

impl Default for PrefixResult {
    fn default() -> (res: Self)
        ensures
            res == no_prefix_ops(),
    {
        PrefixResult { is_mandatory: false, is_subtracted: false, is_inverted: false }
    }
}

/// One term of a tokenized query slice.
pub struct SearchTokenizeTerm {
    pub term: Option<String>,
    pub term_inflections: Vec<String>,
    pub original_term: String,
    pub suffix_wildcard: bool,
    pub is_corrected: bool,
    pub prefix_ops: PrefixResult,
}

/// The terms of a tokenized query slice, and whether the last one should be
/// expanded as a prefix.
pub struct SearchTokenizeResult {
    pub auto_suffix_wildcard: bool,
    pub terms: Vec<SearchTokenizeTerm>,
}

/// The value of a term of a tokenized query slice.
pub struct SearchTokenizeTermModel {
    pub term: Option<Seq<char>>,
    pub term_inflections: Seq<Seq<char>>,
    pub original_term: Seq<char>,
    pub suffix_wildcard: bool,
    pub is_corrected: bool,
    pub prefix_ops: PrefixResult,
}

/// The value of a tokenized query slice.
pub struct SearchTokenizeResultModel {
    pub auto_suffix_wildcard: bool,
    pub terms: Seq<SearchTokenizeTermModel>,
}

impl View for SearchTokenizeTerm {
    type V = SearchTokenizeTermModel;

    open spec fn view(&self) -> SearchTokenizeTermModel {
        SearchTokenizeTermModel {
            term: opt_string_model(self.term),
            term_inflections: strings_model(self.term_inflections@),
            original_term: self.original_term@,
            suffix_wildcard: self.suffix_wildcard,
            is_corrected: self.is_corrected,
            prefix_ops: self.prefix_ops,
        }
    }
}

impl View for SearchTokenizeResult {
    type V = SearchTokenizeResultModel;

    open spec fn view(&self) -> SearchTokenizeResultModel {
        SearchTokenizeResultModel {
            auto_suffix_wildcard: self.auto_suffix_wildcard,
            terms: self.terms@.map_values(|t: SearchTokenizeTerm| t@),
        }
    }
}

/// Splits documents into terms at indexing time. `None` in the output marks a
/// positional gap between sentences.
pub trait IndexerTokenizer {
    /// The terms that `tokenize` gives for `text`.
    spec fn spec_index_terms(&self, text: Seq<char>) -> Seq<Option<Seq<char>>>;

    fn tokenize(&self, text: String) -> (res: Vec<Option<String>>)
        ensures
            opt_strings_seq(res@) == self.spec_index_terms(text@),
    ;
}

/// The value of a tokenizer output.
pub open spec fn opt_strings_seq(v: Seq<Option<String>>) -> Seq<Option<Seq<char>>> {
    Seq::new(v.len(), |i: int| match v[i] { Some(s) => Some(s@), None => None })
}

/// Which characters may stand right before a boolean operator.
pub trait PrefixOpTerminator {
    /// Whether `c` may stand right before an operator.
    spec fn spec_is_valid_prefix_op_terminator(&self, c: char) -> bool;

    fn is_valid_prefix_op_terminator(&self, c: char) -> (res: bool)
        ensures
            res == self.spec_is_valid_prefix_op_terminator(c),
    ;
}

/// Splits query text into terms at search time.
pub trait SearchTokenizer: PrefixOpTerminator {
    /// What `search_tokenize` returns on the given arguments.
    spec fn spec_search_tokenize(
        &self,
        query_chars: Seq<char>,
        offset: int,
        offset_end: int,
        escape_indices: Seq<usize>,
        dict: &Dictionary,
    ) -> SearchTokenizeResultModel;

    /// Whether `term` is a stop word of this tokenizer.
    spec fn spec_is_stop_word(&self, term: Seq<char>) -> bool;

    fn search_tokenize(
        &self,
        query_chars: &[char],
        query_chars_offset: usize,
        query_chars_offset_end: usize,
        escape_indices: &[usize],
        dict: &Dictionary,
    ) -> (res: SearchTokenizeResult)
        requires
            query_chars_offset <= query_chars_offset_end <= query_chars@.len(),
        ensures
            res@ == self.spec_search_tokenize(
                query_chars@,
                query_chars_offset as int,
                query_chars_offset_end as int,
                escape_indices@,
                dict,
            ),
    ;

    fn is_stop_word(&self, term: &str) -> (res: bool)
        ensures
            res == self.spec_is_stop_word(term@),
    ;
}

/// The last escape position (backslash) before `idx`, scanning from the end.
pub open spec fn last_escape_before(escape_indices: Seq<usize>, idx: int) -> Option<int>
    decreases escape_indices.len(),
{
    if escape_indices.len() == 0 {
        None
    } else if escape_indices.last() < idx {
        Some(escape_indices.last() as int)
    } else {
        last_escape_before(escape_indices.drop_last(), idx)
    }
}

/// Reads up to `remaining` characters backwards from `pos`, collecting
/// operators until a non-operator character; the result is cleared when that
/// character may not stand before an operator.
pub open spec fn scan_prefix_ops<T: PrefixOpTerminator>(
    tokenizer: &T,
    query_chars: Seq<char>,
    pos: int,
    remaining: nat,
    res: PrefixResult,
) -> PrefixResult
    decreases remaining,
{
    if remaining == 0 || pos < 0 {
        res
    } else {
        let c = query_chars[pos];
        if c == '+' {
            let next = if !res.is_mandatory && !res.is_subtracted {
                PrefixResult { is_mandatory: true, ..res }
            } else {
                res
            };
            scan_prefix_ops(tokenizer, query_chars, pos - 1, (remaining - 1) as nat, next)
        } else if c == '-' {
            let next = if !res.is_mandatory && !res.is_subtracted {
                PrefixResult { is_subtracted: true, ..res }
            } else {
                res
            };
            scan_prefix_ops(tokenizer, query_chars, pos - 1, (remaining - 1) as nat, next)
        } else if c == '~' {
            scan_prefix_ops(
                tokenizer,
                query_chars,
                pos - 1,
                (remaining - 1) as nat,
                PrefixResult { is_inverted: true, ..res },
            )
        } else if !tokenizer.spec_is_valid_prefix_op_terminator(c) {
            no_prefix_ops()
        } else {
            res
        }
    }
}

/// The operators before the term at `idx`: scanning back from `idx - offset`,
/// neither past `start_limit` nor past the last escape before it.
pub open spec fn spec_get_prefix_ops<T: PrefixOpTerminator>(
    idx: int,
    offset: int,
    start_limit: int,
    query_chars: Seq<char>,
    escape_indices: Seq<usize>,
    tokenizer: &T,
) -> PrefixResult {
    if idx >= offset && idx - offset >= start_limit {
        let i = idx - offset;
        let escape_limit = match last_escape_before(escape_indices, i) {
            Some(e) => i - (e + 1),
            None => i + 1,
        };
        let start = i - start_limit + 1;
        let limit = if start < escape_limit { start } else { escape_limit };
        scan_prefix_ops(tokenizer, query_chars, i, limit as nat, no_prefix_ops())
    } else {
        no_prefix_ops()
    }
}

/// Reads the operators (`+`, `-`, `~`) written right before position
/// `idx - offset` of the query, not looking back past `start_limit` nor past an
/// escape. `+` and `-` exclude each other (the one nearest the term wins);
/// operators count only when preceded by a valid terminator or by the limit.
pub fn get_prefix_ops<T: PrefixOpTerminator>(
    idx: usize,
    offset: usize,
    start_limit: usize,
    query_chars: &[char],
    escape_indices: &[usize],
    tokenizer: &T,
) -> (res: PrefixResult)
    requires
        idx >= offset && idx - offset >= start_limit ==> idx - offset < query_chars@.len(),
    ensures
        res == spec_get_prefix_ops(
            idx as int,
            offset as int,
            start_limit as int,
            query_chars@,
            escape_indices@,
            tokenizer,
        ),
{
    let mut res = PrefixResult::default();
    if idx >= offset {
        let i = idx - offset;
        if i >= start_limit {
            // The last escape index before i
            let n = query_chars.len();
            assert(i < n);
            let mut e = escape_indices.len();
            let mut escape_limit = i + 1;
            assert(escape_indices@.subrange(0, e as int) =~= escape_indices@);
            while e > 0
                invariant_except_break
                    e <= escape_indices@.len(),
                    last_escape_before(escape_indices@, i as int) == last_escape_before(
                        escape_indices@.subrange(0, e as int),
                        i as int,
                    ),
                    escape_limit == i + 1,
                ensures
                    escape_limit == (match last_escape_before(escape_indices@, i as int) {
                        Some(x) => i - (x + 1),
                        None => i + 1,
                    }),
                decreases e,
            {
                let ghost pre = escape_indices@.subrange(0, e as int);
                assert(pre.drop_last() =~= escape_indices@.subrange(0, e - 1));
                if escape_indices[e - 1] < i {
                    escape_limit = i - (escape_indices[e - 1] + 1);
                    break;
                }
                e = e - 1;
            }
            let start = (i - start_limit) + 1;
            let limit = if start < escape_limit { start } else { escape_limit };

            let mut taken: usize = 0;
            let mut pos: usize = i;
            loop
                invariant_except_break
                    i < query_chars@.len(),
                    i == idx - offset,
                    spec_get_prefix_ops(idx as int, offset as int, start_limit as int, query_chars@, escape_indices@, tokenizer)
                        == scan_prefix_ops(tokenizer, query_chars@, i as int, limit as nat, no_prefix_ops()),
                    taken <= limit,
                    limit <= i + 1,
                    pos + taken == i,
                    scan_prefix_ops(tokenizer, query_chars@, i as int, limit as nat, no_prefix_ops())
                        == scan_prefix_ops(tokenizer, query_chars@, pos as int, (limit - taken) as nat, res),
                ensures
                    res == scan_prefix_ops(tokenizer, query_chars@, i as int, limit as nat, no_prefix_ops()),
                decreases limit - taken,
            {
                if taken == limit {
                    break;
                }
                let c = query_chars[pos];
                let ghost old_res = res;
                assert(c == query_chars@[pos as int]);
                if c == '+' {
                    if !res.is_mandatory && !res.is_subtracted {
                        res.is_mandatory = true;
                    }
                } else if c == '-' {
                    if !res.is_mandatory && !res.is_subtracted {
                        res.is_subtracted = true;
                    }
                } else if c == '~' {
                    res.is_inverted = true;
                } else {
                    if !tokenizer.is_valid_prefix_op_terminator(c) {
                        assert(scan_prefix_ops(tokenizer, query_chars@, pos as int, (limit - taken) as nat, res) == no_prefix_ops());
                        return PrefixResult::default();
                    }
                    assert(scan_prefix_ops(tokenizer, query_chars@, pos as int, (limit - taken) as nat, res) == res);
                    break;
                }
                assert(scan_prefix_ops(tokenizer, query_chars@, pos as int, (limit - taken) as nat, old_res)
                    == scan_prefix_ops(tokenizer, query_chars@, pos - 1, (limit - taken - 1) as nat, res));
                taken = taken + 1;
                if taken == limit {
                    assert(scan_prefix_ops(tokenizer, query_chars@, pos - 1, 0, res) == res);
                    break;
                }
                pos = pos - 1;
            }
        }
    }
    res
}

} // verus!
