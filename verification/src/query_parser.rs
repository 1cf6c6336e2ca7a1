//! The query parser of the searcher: turns query text into a tree of query
//! parts (terms, phrases, bracketed groups) carrying the boolean operators and
//! field filters written in the query; and the JSON form of that tree.

use vstd::prelude::*;
use crate::tokenize::{PrefixResult, SearchTokenizer, SearchTokenizeTerm, SearchTokenizeTermModel, get_prefix_ops, spec_get_prefix_ops};
use crate::dictionary::Dictionary;
use crate::text::{push_char, str_chars, string_from_chars};
use vstd::seq_lib::lemma_concat_associative;

verus! {

/// The kind of a query part.
#[derive(Clone, Copy, PartialEq, Eq, Structural, Debug)]
pub enum QueryPartType {
    Term,
    Phrase,
    Bracket,
}

/// One part of a parsed query.
pub struct QueryPart {
    pub is_mandatory: bool,
    pub is_subtracted: bool,
    pub is_inverted: bool,
    pub field_name: Option<String>,
    pub suffix_wildcard: bool,
    pub is_corrected: bool,
    pub auto_suffix_wildcard: bool,
    pub is_suffixed: bool,
    pub original_term: Option<String>,
    pub term: Option<String>,
    pub terms_searched: Option<Vec<String>>,
    pub part_type: QueryPartType,
    pub children: Option<Vec<QueryPart>>,
}

/// The mathematical value of a query part: strings as character sequences.
pub struct QueryPartModel {
    pub is_mandatory: bool,
    pub is_subtracted: bool,
    pub is_inverted: bool,
    pub field_name: Option<Seq<char>>,
    pub suffix_wildcard: bool,
    pub is_corrected: bool,
    pub auto_suffix_wildcard: bool,
    pub is_suffixed: bool,
    pub original_term: Option<Seq<char>>,
    pub term: Option<Seq<char>>,
    pub terms_searched: Option<Seq<Seq<char>>>,
    pub part_type: QueryPartType,
    pub children: Option<Seq<QueryPartModel>>,
}

pub open spec fn opt_string_model(o: Option<String>) -> Option<Seq<char>> {
    match o {
        Some(s) => Some(s@),
        None => None,
    }
}

pub open spec fn strings_model(v: Seq<String>) -> Seq<Seq<char>> {
    Seq::new(v.len(), |i: int| v[i]@)
}

pub open spec fn opt_strings_model(o: Option<Vec<String>>) -> Option<Seq<Seq<char>>> {
    match o {
        Some(v) => Some(strings_model(v@)),
        None => None,
    }
}

/// The value of a query part.
pub open spec fn part_model(p: QueryPart) -> QueryPartModel
    decreases p,
{
    QueryPartModel {
        is_mandatory: p.is_mandatory,
        is_subtracted: p.is_subtracted,
        is_inverted: p.is_inverted,
        field_name: opt_string_model(p.field_name),
        suffix_wildcard: p.suffix_wildcard,
        is_corrected: p.is_corrected,
        auto_suffix_wildcard: p.auto_suffix_wildcard,
        is_suffixed: p.is_suffixed,
        original_term: opt_string_model(p.original_term),
        term: opt_string_model(p.term),
        terms_searched: opt_strings_model(p.terms_searched),
        part_type: p.part_type,
        children: match p.children {
            Some(c) => Some(parts_model(c@)),
            None => None,
        },
    }
}

/// The values of a sequence of query parts.
pub open spec fn parts_model(s: Seq<QueryPart>) -> Seq<QueryPartModel>
    decreases s,
{
    if s.len() == 0 {
        Seq::empty()
    } else {
        parts_model(s.drop_last()).push(part_model(s.last()))
    }
}


pub proof fn lemma_parts_model(s: Seq<QueryPart>)
    ensures
        parts_model(s).len() == s.len(),
        forall|i: int| 0 <= i < s.len() ==> #[trigger] parts_model(s)[i] == part_model(s[i]),
    decreases s.len(),
{
    if s.len() > 0 {
        lemma_parts_model(s.drop_last());
    }
}

// ------------------------------------------------------------------
// JSON serialization

/// A string escaped for JSON: quotes and backslashes get a backslash.
pub open spec fn escape_json_chars(s: Seq<char>) -> Seq<char>
    decreases s.len(),
{
    if s.len() == 0 {
        Seq::empty()
    } else {
        escape_json_chars(s.drop_last()) + (if s.last() == '"' {
            seq!['\\', '"']
        } else if s.last() == '\\' {
            seq!['\\', '\\']
        } else {
            seq![s.last()]
        })
    }
}

/// A JSON string literal holding `s`.
pub open spec fn spec_wrap_string(s: Seq<char>) -> Seq<char> {
    seq!['"'] + escape_json_chars(s) + seq!['"']
}

/// `"name":true,` or `"name":false,`.
#[verifier::opaque]
pub open spec fn spec_serialize_bool(name: Seq<char>, b: bool) -> Seq<char> {
    seq!['"'] + name + seq!['"', ':'] + (if b { "true,"@ } else { "false,"@ })
}

/// The items of `s`, each a JSON string literal, separated by commas.
pub open spec fn join_wrapped(s: Seq<Seq<char>>) -> Seq<char>
    decreases s.len(),
{
    if s.len() == 0 {
        Seq::empty()
    } else if s.len() == 1 {
        spec_wrap_string(s[0])
    } else {
        join_wrapped(s.drop_last()) + seq![','] + spec_wrap_string(s.last())
    }
}

/// A JSON array of strings.
pub open spec fn spec_serialize_string_vec(s: Seq<Seq<char>>) -> Seq<char> {
    seq!['['] + join_wrapped(s) + seq![']']
}

pub open spec fn opt_json_string(o: Option<Seq<char>>) -> Seq<char> {
    match o {
        Some(s) => spec_wrap_string(s),
        None => "null"@,
    }
}

pub open spec fn part_type_json(t: QueryPartType) -> Seq<char> {
    match t {
        QueryPartType::Term => "\"TERM\""@,
        QueryPartType::Phrase => "\"PHRASE\""@,
        QueryPartType::Bracket => "\"BRACKET\""@,
    }
}

/// The boolean members of the JSON object of a query part.
pub open spec fn spec_serialize_flags(m: QueryPartModel) -> Seq<char> {
    spec_serialize_bool("isMandatory"@, m.is_mandatory)
        + spec_serialize_bool("isSubtracted"@, m.is_subtracted)
        + spec_serialize_bool("isInverted"@, m.is_inverted)
        + spec_serialize_bool("isCorrected"@, m.is_corrected)
        + spec_serialize_bool("autoSuffixWildcard"@, m.auto_suffix_wildcard)
        + spec_serialize_bool("suffixWildcard"@, m.suffix_wildcard)
        + spec_serialize_bool("isSuffixed"@, m.is_suffixed)
}

/// The term members of the JSON object of a query part.
pub open spec fn spec_serialize_terms(m: QueryPartModel) -> Seq<char> {
    "\"originalTerm\":"@ + opt_json_string(m.original_term)
        + ",\"term\":"@ + opt_json_string(m.term)
        + ",\"termsSearched\":"@ + (match m.terms_searched {
            Some(v) => spec_serialize_string_vec(v),
            None => "null"@,
        })
}

/// The JSON object of a query part.
pub open spec fn spec_serialize_part(m: QueryPartModel) -> Seq<char>
    decreases m,
{
    seq!['{'] + spec_serialize_flags(m) + spec_serialize_terms(m)
        + ",\"partType\":"@ + part_type_json(m.part_type)
        + ",\"fieldName\":"@ + opt_json_string(m.field_name)
        + ",\"children\":"@ + (match m.children {
            Some(c) => seq!['['] + join_parts(c) + seq![']'],
            None => "null"@,
        })
        + seq!['}']
}

/// The JSON objects of `s`, separated by commas.
pub open spec fn join_parts(s: Seq<QueryPartModel>) -> Seq<char>
    decreases s,
{
    if s.len() == 0 {
        Seq::empty()
    } else if s.len() == 1 {
        spec_serialize_part(s[0])
    } else {
        join_parts(s.drop_last()) + seq![','] + spec_serialize_part(s.last())
    }
}

/// A JSON array of query parts.
pub open spec fn spec_serialize_parts(s: Seq<QueryPartModel>) -> Seq<char> {
    seq!['['] + join_parts(s) + seq![']']
}

fn push_str(output: &mut String, s: &str)
    ensures
        final(output)@ == old(output)@ + s@,
{
    output.append(s);
}

/// `s` as a JSON string literal.
fn wrap_string(s: &String) -> (output: String)
    ensures
        output@ == spec_wrap_string(s@),
{
    let chars = str_chars(s.as_str());
    let mut output = String::new();
    push_char(&mut output, '"');
    let mut i: usize = 0;
    while i < chars.len()
        invariant
            chars@ == s@,
            i <= chars@.len(),
            output@ == seq!['"'] + escape_json_chars(chars@.subrange(0, i as int)),
        decreases chars@.len() - i,
    {
        let c = chars[i];
        assert(chars@.subrange(0, i + 1).drop_last() =~= chars@.subrange(0, i as int));
        if c == '"' {
            push_char(&mut output, '\\');
            push_char(&mut output, '"');
        } else if c == '\\' {
            push_char(&mut output, '\\');
            push_char(&mut output, '\\');
        } else {
            push_char(&mut output, c);
        }
        i = i + 1;
        assert(output@ =~= seq!['"'] + escape_json_chars(chars@.subrange(0, i as int)));
    }
    assert(chars@.subrange(0, i as int) =~= s@);
    push_char(&mut output, '"');
    assert(output@ =~= spec_wrap_string(s@));
    output
}

/// Appends `"name":true,` or `"name":false,` to `output`.
fn serialize_bool(name: &str, b: bool, output: &mut String)
    ensures
        final(output)@ == old(output)@ + spec_serialize_bool(name@, b),
{
    push_char(output, '"');
    push_str(output, name);
    push_char(output, '"');
    push_char(output, ':');
    push_str(output, if b { "true," } else { "false," });
    reveal(spec_serialize_bool);
    assert(output@ =~= old(output)@ + spec_serialize_bool(name@, b));
}

fn get_null() -> (res: String)
    ensures
        res@ == "null"@,
{
    "null".to_owned()
}

/// `v` as a JSON array of strings.
pub fn serialize_string_vec(v: &Vec<String>) -> (output: String)
    ensures
        output@ == spec_serialize_string_vec(strings_model(v@)),
{
    let mut output = String::new();
    push_char(&mut output, '[');
    let mut i: usize = 0;
    while i < v.len()
        invariant
            i <= v@.len(),
            output@ == seq!['['] + join_wrapped(strings_model(v@.subrange(0, i as int))),
        decreases v@.len() - i,
    {
        let ghost prev = strings_model(v@.subrange(0, i as int));
        let wrapped = wrap_string(&v[i]);
        if i > 0 {
            push_char(&mut output, ',');
        }
        push_str(&mut output, wrapped.as_str());
        i = i + 1;
        let ghost next = strings_model(v@.subrange(0, i as int));
        assert(next.drop_last() =~= prev);
        assert(next.last() == v@[i - 1]@);
        assert(output@ =~= seq!['['] + join_wrapped(next));
    }
    assert(v@.subrange(0, i as int) =~= v@);
    push_char(&mut output, ']');
    assert(output@ =~= spec_serialize_string_vec(strings_model(v@)));
    output
}


fn serialize_opt_string(o: &Option<String>, output: &mut String)
    ensures
        final(output)@ == old(output)@ + opt_json_string(opt_string_model(*o)),
{
    match o {
        Some(v) => {
            let w = wrap_string(v);
            push_str(output, w.as_str());
        },
        None => {
            let n = get_null();
            push_str(output, n.as_str());
        },
    }
}

impl QueryPart {
    /// The parts as a JSON array.
    pub fn serialize_parts(parts: &Vec<QueryPart>) -> (output: String)
        ensures
            output@ == spec_serialize_parts(parts_model(parts@)),
        decreases parts,
    {
        let mut output = String::new();
        push_char(&mut output, '[');
        let mut i: usize = 0;
        while i < parts.len()
            invariant
                i <= parts@.len(),
                output@ == seq!['['] + join_parts(parts_model(parts@.subrange(0, i as int))),
            decreases parts@.len() - i,
        {
            let ghost prev = parts@.subrange(0, i as int);
            assert(decreases_to!(parts => parts@[i as int]));
            let item = parts[i].serialize();
            if i > 0 {
                push_char(&mut output, ',');
            }
            push_str(&mut output, item.as_str());
            i = i + 1;
            let ghost next = parts@.subrange(0, i as int);
            assert(next.drop_last() =~= prev);
            assert(next.last() == parts@[i - 1]);
            assert(parts_model(next) == parts_model(prev).push(part_model(parts@[i - 1])));
            assert(parts_model(next).drop_last() =~= parts_model(prev));
            proof {
                lemma_parts_model(prev);
                lemma_parts_model(next);
            }
            assert(output@ =~= seq!['['] + join_parts(parts_model(next)));
        }
        assert(parts@.subrange(0, i as int) =~= parts@);
        push_char(&mut output, ']');
        output
    }

    /// The part as a JSON object.
    pub fn serialize(&self) -> (output: String)
        ensures
            output@ == spec_serialize_part(part_model(*self)),
        decreases self,
    {
        let ghost m = part_model(*self);
        let mut output = String::new();
        push_char(&mut output, '{');
        assert(output@ =~= seq!['{']);
        self.serialize_flags(&mut output);
        self.serialize_terms(&mut output);
        assert(output@ == seq!['{'] + spec_serialize_flags(m) + spec_serialize_terms(m));
        push_str(&mut output, ",\"partType\":");
        push_str(&mut output, match self.part_type {
            QueryPartType::Term => "\"TERM\"",
            QueryPartType::Phrase => "\"PHRASE\"",
            QueryPartType::Bracket => "\"BRACKET\"",
        });
        push_str(&mut output, ",\"fieldName\":");
        serialize_opt_string(&self.field_name, &mut output);
        push_str(&mut output, ",\"children\":");
        let ghost before_children = output@;
        assert(before_children == seq!['{'] + spec_serialize_flags(m) + spec_serialize_terms(m)
            + ",\"partType\":"@ + part_type_json(m.part_type)
            + ",\"fieldName\":"@ + opt_json_string(m.field_name)
            + ",\"children\":"@);
        let ghost children_json = match m.children {
            Some(c) => seq!['['] + join_parts(c) + seq![']'],
            None => "null"@,
        };
        match &self.children {
            Some(children) => {
                assert(decreases_to!(self => children));
                let w = Self::serialize_parts(children);
                push_str(&mut output, w.as_str());
            },
            None => {
                let n = get_null();
                push_str(&mut output, n.as_str());
            },
        }
        assert(output@ == before_children + children_json);
        push_char(&mut output, '}');
        assert(output@ =~= before_children + children_json + seq!['}']);
        output
    }

    fn serialize_flags(&self, output: &mut String)
        ensures
            final(output)@ == old(output)@ + spec_serialize_flags(part_model(*self)),
    {
        let ghost s0 = output@;
        let ghost m = part_model(*self);
        serialize_bool("isMandatory", self.is_mandatory, output);
        let ghost f1 = spec_serialize_bool("isMandatory"@, m.is_mandatory);
        serialize_bool("isSubtracted", self.is_subtracted, output);
        let ghost f2 = f1 + spec_serialize_bool("isSubtracted"@, m.is_subtracted);
        proof { lemma_concat_associative(s0, f1, spec_serialize_bool("isSubtracted"@, m.is_subtracted)); }
        serialize_bool("isInverted", self.is_inverted, output);
        let ghost f3 = f2 + spec_serialize_bool("isInverted"@, m.is_inverted);
        proof { lemma_concat_associative(s0, f2, spec_serialize_bool("isInverted"@, m.is_inverted)); }
        serialize_bool("isCorrected", self.is_corrected, output);
        let ghost f4 = f3 + spec_serialize_bool("isCorrected"@, m.is_corrected);
        proof { lemma_concat_associative(s0, f3, spec_serialize_bool("isCorrected"@, m.is_corrected)); }
        serialize_bool("autoSuffixWildcard", self.auto_suffix_wildcard, output);
        let ghost f5 = f4 + spec_serialize_bool("autoSuffixWildcard"@, m.auto_suffix_wildcard);
        proof { lemma_concat_associative(s0, f4, spec_serialize_bool("autoSuffixWildcard"@, m.auto_suffix_wildcard)); }
        serialize_bool("suffixWildcard", self.suffix_wildcard, output);
        let ghost f6 = f5 + spec_serialize_bool("suffixWildcard"@, m.suffix_wildcard);
        proof { lemma_concat_associative(s0, f5, spec_serialize_bool("suffixWildcard"@, m.suffix_wildcard)); }
        serialize_bool("isSuffixed", self.is_suffixed, output);
        proof { lemma_concat_associative(s0, f6, spec_serialize_bool("isSuffixed"@, m.is_suffixed)); }
    }

    fn serialize_terms(&self, output: &mut String)
        ensures
            final(output)@ == old(output)@ + spec_serialize_terms(part_model(*self)),
    {
        push_str(output, "\"originalTerm\":");
        serialize_opt_string(&self.original_term, output);
        push_str(output, ",\"term\":");
        serialize_opt_string(&self.term, output);
        push_str(output, ",\"termsSearched\":");
        match &self.terms_searched {
            Some(v) => {
                let w = serialize_string_vec(v);
                push_str(output, w.as_str());
            },
            None => {
                let n = get_null();
                push_str(output, n.as_str());
            },
        }
        assert(output@ =~= old(output)@ + spec_serialize_terms(part_model(*self)));
    }

    /// A part of the given type with no operator, field or term.
    pub fn get_base(part_type: QueryPartType) -> (res: QueryPart)
        ensures
            part_model(res) == base_model(part_type),
            res.children is None,
            res.terms_searched is None,
    {
        QueryPart {
            is_mandatory: false,
            is_subtracted: false,
            is_inverted: false,
            is_corrected: false,
            auto_suffix_wildcard: false,
            suffix_wildcard: false,
            is_suffixed: false,
            original_term: None,
            term: None,
            terms_searched: None,
            part_type,
            field_name: None,
            children: None,
        }
    }
}

/// A part of type `t` with no operator, field or term.
pub open spec fn base_model(t: QueryPartType) -> QueryPartModel {
    QueryPartModel {
        is_mandatory: false,
        is_subtracted: false,
        is_inverted: false,
        field_name: None,
        suffix_wildcard: false,
        is_corrected: false,
        auto_suffix_wildcard: false,
        is_suffixed: false,
        original_term: None,
        term: None,
        terms_searched: None,
        part_type: t,
        children: None,
    }
}


// ------------------------------------------------------------------
// Parsing

/// An operator waiting on the stack for the part it applies to.
pub enum Operator {
    OpenGroup,
    Field { field_name: String, prefix_ops: PrefixResult },
}

/// The value of an operator.
pub enum OperatorModel {
    OpenGroup,
    Field { field_name: Seq<char>, prefix_ops: PrefixResult },
}

pub open spec fn op_model(o: Operator) -> OperatorModel {
    match o {
        Operator::OpenGroup => OperatorModel::OpenGroup,
        Operator::Field { field_name, prefix_ops } => OperatorModel::Field { field_name: field_name@, prefix_ops },
    }
}

pub open spec fn ops_model(s: Seq<Operator>) -> Seq<OperatorModel> {
    Seq::new(s.len(), |i: int| op_model(s[i]))
}

/// The characters that `parse_query` treats as double quotes.
pub open spec fn spec_is_double_quote(c: char) -> bool {
    c == '"' || c == '″' || c == '‶' || c == '“' || c == '”' || c == '❝' || c == '❞' || c == '＂'
}

fn is_double_quote(c: char) -> (res: bool)
    ensures
        res == spec_is_double_quote(c),
{
    match c {
        '"' | '″' | '‶' | '“' | '”' | '❝' | '❞' | '＂' => true,
        _ => false,
    }
}

/// The operators applied to a part: `+`/`-` only when it has neither yet,
/// `~` always.
pub open spec fn apply_prefix_ops(prefix_ops: PrefixResult, m: QueryPartModel) -> QueryPartModel {
    let m1 = if !m.is_mandatory && !m.is_subtracted {
        QueryPartModel { is_mandatory: prefix_ops.is_mandatory, is_subtracted: prefix_ops.is_subtracted, ..m }
    } else {
        m
    };
    if prefix_ops.is_inverted {
        QueryPartModel { is_inverted: true, ..m1 }
    } else {
        m1
    }
}

fn set_prefix_ops(prefix_ops: PrefixResult, part: &mut QueryPart)
    ensures
        part_model(*final(part)) == apply_prefix_ops(prefix_ops, part_model(*old(part))),
{
    if !part.is_mandatory && !part.is_subtracted {
        part.is_mandatory = prefix_ops.is_mandatory;
        part.is_subtracted = prefix_ops.is_subtracted;
    }
    if prefix_ops.is_inverted {
        part.is_inverted = true;
    }
}

/// Applies the field operators at the top of the stack to the last part, up
/// to the innermost open group, which stays.
pub open spec fn spec_handle_op(parts: Seq<QueryPartModel>, ops: Seq<OperatorModel>) -> (Seq<QueryPartModel>, Seq<OperatorModel>)
    decreases ops.len(),
{
    if ops.len() == 0 {
        (parts, ops)
    } else {
        match ops.last() {
            OperatorModel::OpenGroup => (parts, ops),
            OperatorModel::Field { field_name, prefix_ops } => {
                let parts2 = if parts.len() > 0 && parts.last().field_name is None {
                    parts.update(
                        parts.len() - 1,
                        apply_prefix_ops(prefix_ops, QueryPartModel { field_name: Some(field_name), ..parts.last() }),
                    )
                } else {
                    parts
                };
                spec_handle_op(parts2, ops.drop_last())
            },
        }
    }
}

proof fn lemma_parts_model_push(s: Seq<QueryPart>, p: QueryPart)
    ensures
        parts_model(s.push(p)) == parts_model(s).push(part_model(p)),
{
    assert(s.push(p).drop_last() =~= s);
}

proof fn lemma_parts_model_drop_last(s: Seq<QueryPart>)
    requires
        s.len() > 0,
    ensures
        parts_model(s.drop_last()) == parts_model(s).drop_last(),
{
    lemma_parts_model(s);
    lemma_parts_model(s.drop_last());
    assert(parts_model(s.drop_last()) =~= parts_model(s).drop_last());
}

proof fn lemma_parts_model_subrange(s: Seq<QueryPart>, a: int, b: int)
    requires
        0 <= a <= b <= s.len(),
    ensures
        parts_model(s.subrange(a, b)) == parts_model(s).subrange(a, b),
{
    lemma_parts_model(s);
    lemma_parts_model(s.subrange(a, b));
    assert(parts_model(s.subrange(a, b)) =~= parts_model(s).subrange(a, b));
}

/// Called whenever a new part is added.
fn handle_op(query_parts: &mut Vec<QueryPart>, operator_stack: &mut Vec<Operator>)
    ensures
        (parts_model(final(query_parts)@), ops_model(final(operator_stack)@))
            == spec_handle_op(parts_model(old(query_parts)@), ops_model(old(operator_stack)@)),
{
    loop
        invariant
            spec_handle_op(parts_model(query_parts@), ops_model(operator_stack@))
                == spec_handle_op(parts_model(old(query_parts)@), ops_model(old(operator_stack)@)),
        decreases operator_stack@.len(),
    {
        let ghost parts0 = query_parts@;
        let ghost ops0 = operator_stack@;
        match operator_stack.pop() {
            None => {
                assert(ops_model(ops0) =~= Seq::<OperatorModel>::empty());
                return;
            },
            Some(op) => {
                assert(ops_model(ops0).last() == op_model(op));
                assert(ops_model(operator_stack@) =~= ops_model(ops0).drop_last());
                match op {
                    Operator::OpenGroup => {
                        operator_stack.push(op);
                        assert(operator_stack@ =~= ops0);
                        return;
                    },
                    Operator::Field { field_name, prefix_ops } => {
                        let n = query_parts.len();
                        if n > 0 {
                            proof {
                                lemma_parts_model(parts0);
                            }
                            if query_parts[n - 1].field_name.is_none() {
                                let mut last = query_parts.pop().unwrap();
                                let ghost before = last;
                                last.field_name = Some(field_name);
                                set_prefix_ops(prefix_ops, &mut last);
                                query_parts.push(last);
                                proof {
                                    lemma_parts_model_push(parts0.drop_last(), last);
                                    lemma_parts_model_drop_last(parts0);
                                    assert(query_parts@ =~= parts0.drop_last().push(last));
                                    assert(part_model(last) == apply_prefix_ops(prefix_ops,
                                        QueryPartModel { field_name: Some(field_name@), ..part_model(before) }));
                                    assert(parts_model(query_parts@) =~= parts_model(parts0).update(
                                        n - 1,
                                        apply_prefix_ops(prefix_ops, QueryPartModel { field_name: Some(field_name@), ..parts_model(parts0).last() }),
                                    ));
                                }
                            }
                        }
                    },
                }
            },
        }
    }
}


proof fn lemma_tokenized_rest(rest: Seq<SearchTokenizeTerm>, terms: Seq<SearchTokenizeTermModel>, idx: int, n: int)
    requires
        0 <= idx < n <= terms.len(),
        rest.map_values(|t: SearchTokenizeTerm| t@) == terms.subrange(idx, n),
    ensures
        rest.len() == n - idx,
        rest[0]@ == terms[idx],
        rest.drop_first().map_values(|t: SearchTokenizeTerm| t@) == terms.subrange(idx + 1, n),
{
    assert(rest.map_values(|t: SearchTokenizeTerm| t@).len() == rest.len());
    assert(rest.map_values(|t: SearchTokenizeTerm| t@)[0] == terms.subrange(idx, n)[0]);
    let full = rest.map_values(|t: SearchTokenizeTerm| t@);
    let m = rest.drop_first().map_values(|t: SearchTokenizeTerm| t@);
    let sub = terms.subrange(idx, n);
    let t2 = terms.subrange(idx + 1, n);
    assert(full[0] == rest[0]@);
    assert(sub[0] == terms[idx]);
    assert forall|k: int| 0 <= k < n - idx - 1 implies #[trigger] m[k] == t2[k] by {
        assert(full[k + 1] == sub[k + 1]);
    }
    assert(m =~= t2);
}

/// The part made of a term of a tokenized slice.
pub open spec fn term_part_model(t: SearchTokenizeTermModel, auto_suffix_wildcard: bool) -> QueryPartModel {
    apply_prefix_ops(
        t.prefix_ops,
        QueryPartModel {
            auto_suffix_wildcard,
            suffix_wildcard: t.suffix_wildcard,
            is_corrected: t.is_corrected,
            term: t.term,
            original_term: Some(t.original_term),
            terms_searched: Some(t.term_inflections),
            ..base_model(QueryPartType::Term)
        },
    )
}

/// The parts after the slice `query_chars[i..j]` was tokenized and its terms
/// appended, the pending operators being applied to the first of them.
pub open spec fn spec_handle_terminator<T: SearchTokenizer>(
    tokenizer: &T,
    query_chars: Seq<char>,
    i: int,
    j: int,
    escape_indices: Seq<usize>,
    dict: &Dictionary,
    parts: Seq<QueryPartModel>,
    ops: Seq<OperatorModel>,
) -> (Seq<QueryPartModel>, Seq<OperatorModel>) {
    if i == j {
        (parts, ops)
    } else {
        let res = tokenizer.spec_search_tokenize(query_chars, i, j, escape_indices, dict);
        let terms = res.terms;
        if terms.len() == 0 {
            (parts, ops)
        } else {
            let first = spec_handle_op(parts.push(term_part_model(terms[0], res.auto_suffix_wildcard)), ops);
            (
                first.0 + Seq::new((terms.len() - 1) as nat, |x: int| term_part_model(terms[x + 1], res.auto_suffix_wildcard)),
                first.1,
            )
        }
    }
}

/// Tokenizes `query_chars[i..j]` into term parts, applying the pending
/// operators to the first of them.
fn handle_terminator<T: SearchTokenizer>(
    tokenizer: &T,
    query_chars: &[char],
    i: usize,
    j: usize,
    escape_indices: &[usize],
    query_parts: &mut Vec<QueryPart>,
    operator_stack: &mut Vec<Operator>,
    dict: &Dictionary,
)
    requires
        i <= j <= query_chars@.len(),
    ensures
        (parts_model(final(query_parts)@), ops_model(final(operator_stack)@)) == spec_handle_terminator(
            tokenizer,
            query_chars@,
            i as int,
            j as int,
            escape_indices@,
            dict,
            parts_model(old(query_parts)@),
            ops_model(old(operator_stack)@),
        ),
{
    if i == j {
        return;
    }
    let mut tokenize_result = tokenizer.search_tokenize(query_chars, i, j, escape_indices, dict);
    let len0 = tokenize_result.terms.len();
    if len0 == 0 {
        return;
    }
    let auto = tokenize_result.auto_suffix_wildcard;
    let ghost terms = tokenize_result@.terms;
    let ghost first = spec_handle_op(
        parts_model(old(query_parts)@).push(term_part_model(terms[0], auto)),
        ops_model(old(operator_stack)@),
    );
    let ghost n = terms.len();
    let mut idx: usize = 0;
    while tokenize_result.terms.len() > 0
        invariant
            n == terms.len(),
            n == len0,
            n > 0,
            idx <= n,
            tokenize_result.terms@.map_values(|t: SearchTokenizeTerm| t@) == terms.subrange(idx as int, n as int),
            first == spec_handle_op(
                parts_model(old(query_parts)@).push(term_part_model(terms[0], auto)),
                ops_model(old(operator_stack)@),
            ),
            idx == 0 ==> parts_model(query_parts@) == parts_model(old(query_parts)@)
                && ops_model(operator_stack@) == ops_model(old(operator_stack)@),
            idx > 0 ==> parts_model(query_parts@) == first.0 + Seq::new((idx - 1) as nat, |x: int| term_part_model(terms[x + 1], auto))
                && ops_model(operator_stack@) == first.1,
        decreases n - idx,
    {
        let ghost rest = tokenize_result.terms@;
        assert(rest.map_values(|t: SearchTokenizeTerm| t@).len() == rest.len());
        let t = tokenize_result.terms.remove(0);
        proof {
            lemma_tokenized_rest(rest, terms, idx as int, n as int);
            assert(tokenize_result.terms@ =~= rest.drop_first());
        }
        assert(t@ == rest.map_values(|t: SearchTokenizeTerm| t@)[0]);
        assert(rest.map_values(|t: SearchTokenizeTerm| t@).len() == rest.len());
        assert(idx < n);
        assert(terms.subrange(idx as int, n as int)[0] == terms[idx as int]);
        assert(t@ == terms[idx as int]);
        let SearchTokenizeTerm { term, term_inflections, original_term, suffix_wildcard, is_corrected, prefix_ops } = t;
        let mut part = QueryPart {
            is_mandatory: false,
            is_subtracted: false,
            is_inverted: false,
            is_corrected,
            auto_suffix_wildcard: auto,
            suffix_wildcard,
            is_suffixed: false,
            original_term: Some(original_term),
            term,
            terms_searched: Some(term_inflections),
            part_type: QueryPartType::Term,
            field_name: None,
            children: None,
        };
        set_prefix_ops(prefix_ops, &mut part);
        assert(part_model(part) == term_part_model(terms[idx as int], auto));
        let ghost before = query_parts@;
        query_parts.push(part);
        proof {
            lemma_parts_model_push(before, part);
        }
        if idx == 0 {
            handle_op(query_parts, operator_stack);
            assert(parts_model(query_parts@) =~= first.0 + Seq::new(0nat, |x: int| term_part_model(terms[x + 1], auto)));
        } else {
            assert(parts_model(query_parts@) =~= first.0 + Seq::new(idx as nat, |x: int| term_part_model(terms[x + 1], auto)));
        }
        idx = idx + 1;
        assert(tokenize_result.terms@.map_values(|t: SearchTokenizeTerm| t@) =~= terms.subrange(idx as int, n as int));
    }
    assert(idx == n);
}


/// The state of the parser between two characters of the query.
pub struct ParseState {
    pub parts: Seq<QueryPartModel>,
    pub ops: Seq<OperatorModel>,
    pub in_quote: bool,
    pub escaped: bool,
    pub escapes: Seq<usize>,
    /// Start of the current slice.
    pub i: int,
    /// Last possible position of a prefix operator.
    pub k: int,
}

/// The number of bytes of the UTF-8 encoding of `s`.
pub open spec fn byte_len(s: Seq<char>) -> int {
    vstd::utf8::encode_utf8(s).len() as int
}

/// The first field (in the given order) whose name ends right before `j`,
/// taking `j - (length of the name in bytes)` as the start of the name.
pub open spec fn first_matching_field(fields: Seq<Seq<char>>, chars: Seq<char>, j: int) -> Option<int>
    decreases fields.len(),
{
    if fields.len() == 0 {
        None
    } else if j >= byte_len(fields[0]) && chars.subrange(j - byte_len(fields[0]), j) == fields[0] {
        Some(0)
    } else {
        match first_matching_field(fields.drop_first(), chars, j) {
            Some(f) => Some(f + 1),
            None => None,
        }
    }
}

/// A term of a phrase: mandatory when it has a dictionary term.
pub open spec fn phrase_child_model(t: SearchTokenizeTermModel) -> QueryPartModel {
    QueryPartModel {
        is_mandatory: t.term is Some,
        is_corrected: t.is_corrected,
        term: t.term,
        original_term: Some(t.original_term),
        terms_searched: Some(t.term_inflections),
        ..base_model(QueryPartType::Term)
    }
}

/// The last bracket part that has no children yet.
pub open spec fn last_open_bracket(parts: Seq<QueryPartModel>) -> Option<int>
    decreases parts.len(),
{
    if parts.len() == 0 {
        None
    } else if parts.last().part_type == QueryPartType::Bracket && parts.last().children is None {
        Some(parts.len() - 1)
    } else {
        last_open_bracket(parts.drop_last())
    }
}

/// What the parser does with the character at `j`, before recording escapes.
pub open spec fn parse_branch<T: SearchTokenizer>(
    tokenizer: &T,
    dict: &Dictionary,
    chars: Seq<char>,
    fields: Seq<Seq<char>>,
    with_positions: bool,
    st: ParseState,
    j: int,
) -> ParseState {
    let c = chars[j];
    if st.in_quote {
        if !st.escaped && spec_is_double_quote(c) {
            let res = tokenizer.spec_search_tokenize(chars, st.i, j, st.escapes, dict);
            let children = Seq::new(res.terms.len(), |x: int| phrase_child_model(res.terms[x]));
            let phrase = apply_prefix_ops(
                spec_get_prefix_ops(st.i, 2, st.k, chars, st.escapes, tokenizer),
                QueryPartModel { children: Some(children), ..base_model(QueryPartType::Phrase) },
            );
            let handled = spec_handle_op(st.parts.push(phrase), st.ops);
            ParseState { parts: handled.0, ops: handled.1, in_quote: false, i: j + 1, k: j + 1, ..st }
        } else {
            st
        }
    } else if !st.escaped && ((with_positions && spec_is_double_quote(c)) || c == '(' || c == ')') {
        let t = spec_handle_terminator(tokenizer, chars, st.i, j, st.escapes, dict, st.parts, st.ops);
        if spec_is_double_quote(c) {
            ParseState { parts: t.0, ops: t.1, in_quote: true, i: j + 1, ..st }
        } else if c == '(' {
            let bracket = apply_prefix_ops(
                spec_get_prefix_ops(j, 1, st.k, chars, st.escapes, tokenizer),
                base_model(QueryPartType::Bracket),
            );
            ParseState { parts: t.0.push(bracket), ops: t.1.push(OperatorModel::OpenGroup), i: j + 1, ..st }
        } else if t.1.len() > 0 && t.1.last() is OpenGroup && last_open_bracket(t.0) is Some {
            let idx = last_open_bracket(t.0)->0;
            let children = t.0.subrange(idx + 1, t.0.len() as int);
            let grouped = t.0.subrange(0, idx + 1).update(idx, QueryPartModel { children: Some(children), ..t.0[idx] });
            let handled = spec_handle_op(grouped, t.1.drop_last());
            ParseState { parts: handled.0, ops: handled.1, i: j + 1, k: j + 1, ..st }
        } else {
            ParseState { parts: t.0, ops: t.1, i: j + 1, ..st }
        }
    } else if !st.escaped && c == ':' && first_matching_field(fields, chars, j) is Some {
        let field = fields[first_matching_field(fields, chars, j)->0];
        let start = j - byte_len(field);
        let t = spec_handle_terminator(tokenizer, chars, st.i, start, st.escapes, dict, st.parts, st.ops);
        let prefix_ops = spec_get_prefix_ops(start, 1, st.k, chars, st.escapes, tokenizer);
        ParseState {
            parts: t.0,
            ops: t.1.push(OperatorModel::Field { field_name: field, prefix_ops }),
            i: j + 1,
            k: j + 1,
            ..st
        }
    } else {
        st
    }
}

/// What the parser does with the character at `j`: a backslash escapes the
/// character after it.
pub open spec fn parse_step<T: SearchTokenizer>(
    tokenizer: &T,
    dict: &Dictionary,
    chars: Seq<char>,
    fields: Seq<Seq<char>>,
    with_positions: bool,
    st: ParseState,
    j: int,
) -> ParseState {
    let st1 = parse_branch(tokenizer, dict, chars, fields, with_positions, st, j);
    if st.escaped {
        ParseState { escaped: false, ..st1 }
    } else if chars[j] == '\\' {
        ParseState { escaped: true, escapes: st1.escapes.push(j as usize), ..st1 }
    } else {
        st1
    }
}

/// The parser's state after the first `j` characters.
pub open spec fn parse_upto<T: SearchTokenizer>(
    tokenizer: &T,
    dict: &Dictionary,
    chars: Seq<char>,
    fields: Seq<Seq<char>>,
    with_positions: bool,
    j: nat,
) -> ParseState
    decreases j,
{
    if j == 0 {
        ParseState {
            parts: Seq::empty(),
            ops: Seq::empty(),
            in_quote: false,
            escaped: false,
            escapes: Seq::empty(),
            i: 0,
            k: 0,
        }
    } else {
        parse_step(
            tokenizer,
            dict,
            chars,
            fields,
            with_positions,
            parse_upto(tokenizer, dict, chars, fields, with_positions, (j - 1) as nat),
            j - 1,
        )
    }
}

/// The parts of a parsed query: the state after the last character, with the
/// trailing slice tokenized.
pub open spec fn spec_parse_query<T: SearchTokenizer>(
    tokenizer: &T,
    dict: &Dictionary,
    chars: Seq<char>,
    fields: Seq<Seq<char>>,
    with_positions: bool,
) -> Seq<QueryPartModel> {
    let st = parse_upto(tokenizer, dict, chars, fields, with_positions, chars.len());
    spec_handle_terminator(tokenizer, chars, st.i, chars.len() as int, st.escapes, dict, st.parts, st.ops).0
}

/// Whether some field name ends at `p` in `chars`.
pub open spec fn field_ends_at(chars: Seq<char>, fields: Seq<Seq<char>>, p: int) -> bool {
    exists|g: int|
        0 <= g < fields.len() && byte_len(fields[g]) <= p && #[trigger] chars.subrange(p - byte_len(fields[g]), p)
            == fields[g]
}

/// Whether the parser can start a slice at `i`: at the start, or after a
/// bracket, a quote (with positions) or a field name's `:`.
pub open spec fn is_slice_start(chars: Seq<char>, fields: Seq<Seq<char>>, with_positions: bool, i: int) -> bool {
    i == 0 || {
        let c = chars[i - 1];
        ||| c == '('
        ||| c == ')'
        ||| with_positions && spec_is_double_quote(c)
        ||| c == ':' && field_ends_at(chars, fields, i - 1)
    }
}

/// Whether `b` ends `a`.
pub open spec fn ends_with(a: Seq<char>, b: Seq<char>) -> bool {
    b.len() <= a.len() && a.subrange(a.len() - b.len(), a.len() as int) == b
}


enum QueryParseState {
    Plain,
    Quote,
}

/// Closes a phrase that ends at `j`.
fn close_phrase<T: SearchTokenizer>(
    tokenizer: &T,
    query_chars: &[char],
    i: usize,
    j: usize,
    k: usize,
    escape_indices: &[usize],
    query_parts: &mut Vec<QueryPart>,
    op_stack: &mut Vec<Operator>,
    dict: &Dictionary,
)
    requires
        i <= j < query_chars@.len(),
    ensures
        ({
            let res = tokenizer.spec_search_tokenize(query_chars@, i as int, j as int, escape_indices@, dict);
            let children = Seq::new(res.terms.len(), |x: int| phrase_child_model(res.terms[x]));
            let phrase = apply_prefix_ops(
                spec_get_prefix_ops(i as int, 2, k as int, query_chars@, escape_indices@, tokenizer),
                QueryPartModel { children: Some(children), ..base_model(QueryPartType::Phrase) },
            );
            (parts_model(final(query_parts)@), ops_model(final(op_stack)@))
                == spec_handle_op(parts_model(old(query_parts)@).push(phrase), ops_model(old(op_stack)@))
        }),
{
    let mut tokenize_result = tokenizer.search_tokenize(query_chars, i, j, escape_indices, dict);
    let ghost terms = tokenize_result@.terms;
    let ghost n = terms.len();
    let mut children: Vec<QueryPart> = Vec::new();
    let len0 = tokenize_result.terms.len();
    let mut idx: usize = 0;
    while tokenize_result.terms.len() > 0
        invariant
            n == terms.len(),
            n == len0,
            idx <= n,
            tokenize_result.terms@.map_values(|t: SearchTokenizeTerm| t@) == terms.subrange(idx as int, n as int),
            parts_model(children@) == Seq::new(idx as nat, |x: int| phrase_child_model(terms[x])),
        decreases n - idx,
    {
        let ghost rest = tokenize_result.terms@;
        assert(rest.map_values(|t: SearchTokenizeTerm| t@).len() == rest.len());
        let t = tokenize_result.terms.remove(0);
        proof {
            lemma_tokenized_rest(rest, terms, idx as int, n as int);
            assert(tokenize_result.terms@ =~= rest.drop_first());
        }
        assert(t@ == rest.map_values(|t: SearchTokenizeTerm| t@)[0]);
        assert(rest.map_values(|t: SearchTokenizeTerm| t@).len() == rest.len());
        assert(idx < n);
        assert(terms.subrange(idx as int, n as int)[0] == terms[idx as int]);
        assert(t@ == terms[idx as int]);
        let SearchTokenizeTerm { term, term_inflections, original_term, suffix_wildcard: _, prefix_ops: _, is_corrected } = t;
        let is_mandatory = term.is_some();
        let child = QueryPart {
            is_mandatory,
            is_subtracted: false,
            is_inverted: false,
            is_corrected,
            auto_suffix_wildcard: false,
            suffix_wildcard: false,
            is_suffixed: false,
            original_term: Some(original_term),
            term,
            terms_searched: Some(term_inflections),
            part_type: QueryPartType::Term,
            field_name: None,
            children: None,
        };
        let ghost before = children@;
        children.push(child);
        proof {
            lemma_parts_model_push(before, child);
        }
        idx = idx + 1;
        assert(parts_model(children@) =~= Seq::new(idx as nat, |x: int| phrase_child_model(terms[x])));
        assert(tokenize_result.terms@.map_values(|t: SearchTokenizeTerm| t@) =~= terms.subrange(idx as int, n as int));
    }
    let mut phrase_part = QueryPart {
        is_mandatory: false,
        is_subtracted: false,
        is_inverted: false,
        is_corrected: false,
        auto_suffix_wildcard: false,
        suffix_wildcard: false,
        is_suffixed: false,
        original_term: None,
        term: None,
        terms_searched: None,
        part_type: QueryPartType::Phrase,
        field_name: None,
        children: Some(children),
    };
    let prefix_ops = get_prefix_ops(i, 2, k, query_chars, escape_indices, tokenizer);
    set_prefix_ops(prefix_ops, &mut phrase_part);
    let ghost before = query_parts@;
    query_parts.push(phrase_part);
    proof {
        lemma_parts_model_push(before, phrase_part);
    }
    handle_op(query_parts, op_stack);
}

/// Opens a bracket group at `j`.
fn open_group<T: SearchTokenizer>(
    tokenizer: &T,
    query_chars: &[char],
    j: usize,
    k: usize,
    escape_indices: &[usize],
    query_parts: &mut Vec<QueryPart>,
    op_stack: &mut Vec<Operator>,
)
    requires
        j < query_chars@.len(),
    ensures
        parts_model(final(query_parts)@) == parts_model(old(query_parts)@).push(apply_prefix_ops(
            spec_get_prefix_ops(j as int, 1, k as int, query_chars@, escape_indices@, tokenizer),
            base_model(QueryPartType::Bracket),
        )),
        ops_model(final(op_stack)@) == ops_model(old(op_stack)@).push(OperatorModel::OpenGroup),
{
    let mut part = QueryPart::get_base(QueryPartType::Bracket);
    let prefix_ops = get_prefix_ops(j, 1, k, query_chars, escape_indices, tokenizer);
    set_prefix_ops(prefix_ops, &mut part);
    let ghost before = query_parts@;
    query_parts.push(part);
    proof {
        lemma_parts_model_push(before, part);
    }
    op_stack.push(Operator::OpenGroup);
    assert(ops_model(op_stack@) =~= ops_model(old(op_stack)@).push(OperatorModel::OpenGroup));
}

/// Closes the innermost bracket group, if the stack has one open and a bracket
/// part awaits its children; returns whether it did.
fn close_group(query_parts: &mut Vec<QueryPart>, op_stack: &mut Vec<Operator>) -> (closed: bool)
    ensures
        closed == (ops_model(old(op_stack)@).len() > 0 && ops_model(old(op_stack)@).last() is OpenGroup
            && last_open_bracket(parts_model(old(query_parts)@)) is Some),
        closed ==> ({
            let t0 = parts_model(old(query_parts)@);
            let idx = last_open_bracket(t0)->0;
            let children = t0.subrange(idx + 1, t0.len() as int);
            let grouped = t0.subrange(0, idx + 1).update(idx, QueryPartModel { children: Some(children), ..t0[idx] });
            (parts_model(final(query_parts)@), ops_model(final(op_stack)@))
                == spec_handle_op(grouped, ops_model(old(op_stack)@).drop_last())
        }),
        !closed ==> final(query_parts)@ == old(query_parts)@ && final(op_stack)@ == old(op_stack)@,
{
    let ghost parts0 = query_parts@;
    let ghost t0 = parts_model(parts0);
    proof {
        lemma_parts_model(parts0);
    }
    let n_ops = op_stack.len();
    if n_ops == 0 {
        return false;
    }
    let is_open = match &op_stack[n_ops - 1] {
        Operator::OpenGroup => true,
        Operator::Field { .. } => false,
    };
    assert(ops_model(op_stack@).last() == op_model(op_stack@[n_ops - 1]));
    if !is_open {
        return false;
    }
    // The last bracket part without children
    let mut idx = query_parts.len();
    let mut found = false;
    assert(t0.subrange(0, idx as int) =~= t0);
    while idx > 0
        invariant_except_break
            idx <= parts0.len(),
            query_parts@ == parts0,
            t0 == parts_model(parts0),
            parts_model(parts0).len() == parts0.len(),
            last_open_bracket(t0) == last_open_bracket(t0.subrange(0, idx as int)),
            !found,
        ensures
            query_parts@ == parts0,
            idx <= parts0.len(),
            found ==> idx > 0 && last_open_bracket(t0) == Some(idx - 1),
            !found ==> last_open_bracket(t0) is None,
        decreases idx,
    {
        let ghost pre = t0.subrange(0, idx as int);
        proof {
            lemma_parts_model(parts0);
        }
        assert(pre.drop_last() =~= t0.subrange(0, idx - 1));
        assert(pre.last() == part_model(parts0[idx - 1]));
        let is_bracket = match query_parts[idx - 1].part_type {
            QueryPartType::Bracket => true,
            _ => false,
        };
        if is_bracket && query_parts[idx - 1].children.is_none() {
            found = true;
            break;
        }
        idx = idx - 1;
    }
    if !found {
        return false;
    }
    let children = query_parts.split_off(idx);
    let mut open_part = query_parts.pop().unwrap();
    let ghost open_before = open_part;
    open_part.children = Some(children);
    query_parts.push(open_part);
    proof {
        lemma_parts_model_subrange(parts0, idx as int, parts0.len() as int);
        lemma_parts_model_subrange(parts0, 0, idx - 1);
        lemma_parts_model_push(parts0.subrange(0, idx - 1), open_part);
        assert(query_parts@ =~= parts0.subrange(0, idx - 1).push(open_part));
        assert(parts_model(query_parts@) =~= t0.subrange(0, idx as int).update(
            idx - 1,
            QueryPartModel { children: Some(t0.subrange(idx as int, t0.len() as int)), ..t0[idx - 1] },
        ));
    }
    let ghost ops1 = op_stack@;
    op_stack.pop();
    assert(ops_model(op_stack@) =~= ops_model(ops1).drop_last());
    handle_op(query_parts, op_stack);
    true
}


/// The first valid field whose name is written right before the `:` at `j`.
fn match_field(valid_fields: &Vec<String>, query_chars: &[char], j: usize) -> (res: Option<(usize, String, usize)>)
    requires
        j <= query_chars@.len(),
        forall|f: int| 0 <= f < valid_fields@.len() ==> byte_len(#[trigger] valid_fields@[f]@) <= usize::MAX,
    ensures
        match res {
            Some((f, text, start)) => first_matching_field(strings_model(valid_fields@), query_chars@, j as int) == Some(f as int)
                && f < valid_fields@.len() && text@ == valid_fields@[f as int]@
                && start == j - byte_len(valid_fields@[f as int]@)
                && start <= j
                && query_chars@.subrange(start as int, j as int) == valid_fields@[f as int]@,
            None => first_matching_field(strings_model(valid_fields@), query_chars@, j as int) is None,
        },
{
    let ghost fields = strings_model(valid_fields@);
    let mut f: usize = 0;
    assert(fields.subrange(0, fields.len() as int) =~= fields);
    while f < valid_fields.len()
        invariant
            f <= valid_fields@.len(),
            fields == strings_model(valid_fields@),
            j <= query_chars@.len(),
            forall|f: int| 0 <= f < valid_fields@.len() ==> byte_len(#[trigger] valid_fields@[f]@) <= usize::MAX,
            first_matching_field(fields, query_chars@, j as int) == (match first_matching_field(
                fields.subrange(f as int, fields.len() as int),
                query_chars@,
                j as int,
            ) {
                Some(x) => Some(x + f),
                None => None::<int>,
            }),
        decreases valid_fields@.len() - f,
    {
        let ghost rest = fields.subrange(f as int, fields.len() as int);
        assert(rest.drop_first() =~= fields.subrange(f + 1, fields.len() as int));
        assert(rest[0] == valid_fields@[f as int]@);
        let flen = valid_fields[f].as_str().len();
        assert(flen as int == byte_len(rest[0]));
        if j >= flen {
            let start = j - flen;
            let text = string_from_chars(query_chars, start, j);
            if valid_fields[f] == text {
                return Some((f, text, start));
            }
        }
        f = f + 1;
    }
    None
}

/// A field name the parser accepts among `fields`: its byte length fits a
/// `usize`; it holds no bracket, and no quote when the index has positions;
/// and before each of its `:`, no field name ends its text and its text ends
/// no field name. A query that holds such a field name can start a slice
/// inside it, after which the field's text would start before the slice.
pub open spec fn is_valid_field_name(f: Seq<char>, fields: Seq<Seq<char>>, with_positions: bool) -> bool {
    &&& byte_len(f) <= usize::MAX
    &&& forall|x: int|
        0 <= x < f.len() ==> #[trigger] f[x] != '(' && f[x] != ')' && !(with_positions && spec_is_double_quote(f[x]))
    &&& forall|x: int, g: int|
        0 <= x < f.len() && #[trigger] f[x] == ':' && 0 <= g < fields.len() ==> !ends_with(
            f.subrange(0, x),
            #[trigger] fields[g],
        ) && !ends_with(fields[g], f.subrange(0, x))
}

/// A field's text cannot start before the current slice.
proof fn lemma_field_after_slice_start(
    chars: Seq<char>,
    fields: Seq<Seq<char>>,
    with_positions: bool,
    f: Seq<char>,
    start: int,
    j: int,
    i: int,
)
    requires
        0 <= start <= j <= chars.len(),
        0 <= i <= j,
        chars.subrange(start, j) == f,
        is_valid_field_name(f, fields, with_positions),
        is_slice_start(chars, fields, with_positions, i),
    ensures
        start >= i,
{
    if i > start {
        let q = i - 1 - start;
        assert(f[q] == chars[i - 1]);
        if chars[i - 1] == ':' {
            let g = choose|g: int|
                0 <= g < fields.len() && byte_len(fields[g]) <= i - 1 && #[trigger] chars.subrange(
                    i - 1 - byte_len(fields[g]),
                    i - 1,
                ) == fields[g];
            let fg = fields[g];
            let bg = byte_len(fg);
            let pre = f.subrange(0, q);
            assert(pre =~= chars.subrange(start, i - 1));
            assert(fg.len() == bg);
            if bg <= q {
                assert(pre.subrange(pre.len() - fg.len(), pre.len() as int) =~= fg);
                assert(ends_with(pre, fg));
            } else {
                assert(fg.subrange(fg.len() - pre.len(), fg.len() as int) =~= pre);
                assert(ends_with(fg, pre));
            }
            assert(f[q] == ':');
        }
    }
}

/// What the parser does with a character outside a phrase.
#[verifier::rlimit(40)]
fn parse_plain_char<T: SearchTokenizer>(
    tokenizer: &T,
    dict: &Dictionary,
    query_chars: &[char],
    valid_fields: &Vec<String>,
    with_positions: bool,
    j: usize,
    in_quote: &mut bool,
    escaped: bool,
    escape_indices: &Vec<usize>,
    query_parts: &mut Vec<QueryPart>,
    op_stack: &mut Vec<Operator>,
    i: &mut usize,
    k: &mut usize,
)
    requires
        j < query_chars@.len(),
        *old(i) <= j,
        is_slice_start(query_chars@, strings_model(valid_fields@), with_positions, *old(i) as int),
        !*old(in_quote),
        forall|f: int|
            0 <= f < valid_fields@.len() ==> is_valid_field_name(
                #[trigger] valid_fields@[f]@,
                strings_model(valid_fields@),
                with_positions,
            ),
    ensures
        ({
            let st = ParseState {
                parts: parts_model(old(query_parts)@),
                ops: ops_model(old(op_stack)@),
                in_quote: false,
                escaped,
                escapes: escape_indices@,
                i: *old(i) as int,
                k: *old(k) as int,
            };
            let st1 = parse_branch(tokenizer, dict, query_chars@, strings_model(valid_fields@), with_positions, st, j as int);
            &&& parts_model(final(query_parts)@) == st1.parts
            &&& ops_model(final(op_stack)@) == st1.ops
            &&& *final(in_quote) == st1.in_quote
            &&& *final(i) == st1.i
            &&& *final(k) == st1.k
        }),
        *final(i) <= j + 1,
        is_slice_start(query_chars@, strings_model(valid_fields@), with_positions, *final(i) as int),
        *final(in_quote) ==> with_positions,
{
    let c = query_chars[j];
    let ghost fields = strings_model(valid_fields@);
    if !escaped && ((with_positions && is_double_quote(c)) || c == '(' || c == ')') {
        handle_terminator(tokenizer, query_chars, *i, j, escape_indices.as_slice(), query_parts, op_stack, dict);
        *i = j + 1;
        if is_double_quote(c) {
            *in_quote = true;
        } else if c == '(' {
            open_group(tokenizer, query_chars, j, *k, escape_indices.as_slice(), query_parts, op_stack);
        } else {
            if close_group(query_parts, op_stack) {
                *k = j + 1;
            }
        }
    } else if !escaped && c == ':' {
        proof {
            assert forall|f: int| 0 <= f < valid_fields@.len() implies byte_len(#[trigger] valid_fields@[f]@) <= usize::MAX by {
                assert(is_valid_field_name(valid_fields@[f]@, fields, with_positions));
            }
        }
        match match_field(valid_fields, query_chars, j) {
            Some((f, text, field_name_start)) => {
                proof {
                    let field = valid_fields@[f as int]@;
                    assert(is_valid_field_name(field, fields, with_positions));
                    assert(fields[f as int] == field);
                    lemma_field_after_slice_start(
                        query_chars@,
                        fields,
                        with_positions,
                        field,
                        field_name_start as int,
                        j as int,
                        *i as int,
                    );
                }
                handle_terminator(
                    tokenizer,
                    query_chars,
                    *i,
                    field_name_start,
                    escape_indices.as_slice(),
                    query_parts,
                    op_stack,
                    dict,
                );
                let prefix_ops = get_prefix_ops(field_name_start, 1, *k, query_chars, escape_indices.as_slice(), tokenizer);
                let ghost ops_before = op_stack@;
                op_stack.push(Operator::Field { field_name: text, prefix_ops });
                assert(ops_model(op_stack@) =~= ops_model(ops_before).push(
                    OperatorModel::Field { field_name: fields[f as int], prefix_ops },
                ));
                *i = j + 1;
                *k = j + 1;
                proof {
                    let field = fields[f as int];
                    assert(query_chars@.subrange(j - byte_len(field), j as int) == field);
                    assert(field_ends_at(query_chars@, fields, j as int));
                }
            },
            None => {},
        }
    }
}

/// What the parser does with the character at `j`.
fn parse_char<T: SearchTokenizer>(
    tokenizer: &T,
    dict: &Dictionary,
    query_chars: &[char],
    valid_fields: &Vec<String>,
    with_positions: bool,
    j: usize,
    query_parse_state: &mut QueryParseState,
    did_encounter_escape: &mut bool,
    escape_indices: &mut Vec<usize>,
    query_parts: &mut Vec<QueryPart>,
    op_stack: &mut Vec<Operator>,
    i: &mut usize,
    k: &mut usize,
)
    requires
        j < query_chars@.len(),
        *old(i) <= j,
        is_slice_start(query_chars@, strings_model(valid_fields@), with_positions, *old(i) as int),
        *old(query_parse_state) is Quote ==> with_positions,
        forall|f: int|
            0 <= f < valid_fields@.len() ==> is_valid_field_name(
                #[trigger] valid_fields@[f]@,
                strings_model(valid_fields@),
                with_positions,
            ),
    ensures
        parse_step(tokenizer, dict, query_chars@, strings_model(valid_fields@), with_positions, ParseState {
            parts: parts_model(old(query_parts)@),
            ops: ops_model(old(op_stack)@),
            in_quote: *old(query_parse_state) is Quote,
            escaped: *old(did_encounter_escape),
            escapes: old(escape_indices)@,
            i: *old(i) as int,
            k: *old(k) as int,
        }, j as int) == (ParseState {
            parts: parts_model(final(query_parts)@),
            ops: ops_model(final(op_stack)@),
            in_quote: *final(query_parse_state) is Quote,
            escaped: *final(did_encounter_escape),
            escapes: final(escape_indices)@,
            i: *final(i) as int,
            k: *final(k) as int,
        }),
        *final(i) <= j + 1,
        is_slice_start(query_chars@, strings_model(valid_fields@), with_positions, *final(i) as int),
        *final(query_parse_state) is Quote ==> with_positions,
{
    let c = query_chars[j];
    match query_parse_state {
        QueryParseState::Quote => {
            if !*did_encounter_escape && is_double_quote(c) {
                *query_parse_state = QueryParseState::Plain;
                close_phrase(tokenizer, query_chars, *i, j, *k, escape_indices.as_slice(), query_parts, op_stack, dict);
                *i = j + 1;
                *k = j + 1;
            }
        },
        QueryParseState::Plain => {
            let mut in_quote = false;
            parse_plain_char(
                tokenizer,
                dict,
                query_chars,
                valid_fields,
                with_positions,
                j,
                &mut in_quote,
                *did_encounter_escape,
                escape_indices,
                query_parts,
                op_stack,
                i,
                k,
            );
            if in_quote {
                *query_parse_state = QueryParseState::Quote;
            }
        },
    }
    if *did_encounter_escape {
        *did_encounter_escape = false;
    } else if c == '\\' {
        escape_indices.push(j);
        *did_encounter_escape = true;
    }
}

/// Parses a query into its parts.
///
/// Terms are separated by the tokenizer; `"` delimits a phrase (when the index
/// has positions), `(` and `)` a group, and `field:` restricts the next part
/// to a field. `+` (mandatory), `-` (subtracted) and `~` (inverted) before a
/// term, phrase or group apply to it; `\` escapes the next character.
/// Each field name must be one the parser can match without its text
/// reaching back before the current slice (see `is_valid_field_name`).
pub fn parse_query<T: SearchTokenizer>(
    query: String,
    tokenizer: &T,
    valid_fields: &Vec<String>,
    with_positions: bool,
    dict: &Dictionary,
) -> (query_parts: Vec<QueryPart>)
    requires
        forall|f: int|
            0 <= f < valid_fields@.len() ==> is_valid_field_name(
                #[trigger] valid_fields@[f]@,
                strings_model(valid_fields@),
                with_positions,
            ),
    ensures
        parts_model(query_parts@) == spec_parse_query(tokenizer, dict, query@, strings_model(valid_fields@), with_positions),
{
    let ghost fields = strings_model(valid_fields@);
    let query_chars = str_chars(query.as_str());
    let query_chars_len = query_chars.len();
    let mut query_parts: Vec<QueryPart> = Vec::new();
    let mut query_parse_state = QueryParseState::Plain;
    let mut did_encounter_escape = false;
    let mut escape_indices: Vec<usize> = Vec::new();
    let mut op_stack: Vec<Operator> = Vec::new();
    let mut i: usize = 0;
    let mut j: usize = 0;
    let mut k: usize = 0;
    assert(parts_model(query_parts@) =~= Seq::<QueryPartModel>::empty());
    assert(ops_model(op_stack@) =~= Seq::<OperatorModel>::empty());
    while j < query_chars_len
        invariant
            query_chars@ == query@,
            query_chars_len == query_chars@.len(),
            j <= query_chars_len,
            i <= j,
            is_slice_start(query_chars@, fields, with_positions, i as int),
            query_parse_state is Quote ==> with_positions,
            fields == strings_model(valid_fields@),
            forall|f: int| 0 <= f < valid_fields@.len() ==> is_valid_field_name(#[trigger] valid_fields@[f]@, fields, with_positions),
            parse_upto(tokenizer, dict, query@, fields, with_positions, j as nat) == (ParseState {
                parts: parts_model(query_parts@),
                ops: ops_model(op_stack@),
                in_quote: query_parse_state is Quote,
                escaped: did_encounter_escape,
                escapes: escape_indices@,
                i: i as int,
                k: k as int,
            }),
        decreases query_chars_len - j,
    {
        parse_char(
            tokenizer,
            dict,
            &query_chars,
            valid_fields,
            with_positions,
            j,
            &mut query_parse_state,
            &mut did_encounter_escape,
            &mut escape_indices,
            &mut query_parts,
            &mut op_stack,
            &mut i,
            &mut k,
        );
        j = j + 1;
    }
    handle_terminator(tokenizer, &query_chars, i, j, &escape_indices, &mut query_parts, &mut op_stack, dict);
    query_parts
}

/// The parser's state after any number of characters: the current slice
/// starts at or before the character being read, and the last place for a
/// prefix operator at or before the slice's start; without positions the
/// parser is never inside a phrase; and the escapes it records are the
/// places of backslashes read so far, in increasing order.
pub proof fn law_parse_state<T: SearchTokenizer>(
    tokenizer: &T,
    dict: &Dictionary,
    chars: Seq<char>,
    fields: Seq<Seq<char>>,
    with_positions: bool,
    j: nat,
)
    requires
        j <= chars.len() <= usize::MAX,
    ensures
        ({
            let st = parse_upto(tokenizer, dict, chars, fields, with_positions, j);
            &&& 0 <= st.k <= st.i <= j
            &&& !with_positions ==> !st.in_quote
            &&& forall|x: int| 0 <= x < st.escapes.len() ==> (#[trigger] st.escapes[x]) < j && chars[st.escapes[x] as int] == '\\'
            &&& forall|x: int, y: int| 0 <= x < y < st.escapes.len() ==> #[trigger] st.escapes[x] < #[trigger] st.escapes[y]
        }),
    decreases j,
{
    if j > 0 {
        law_parse_state(tokenizer, dict, chars, fields, with_positions, (j - 1) as nat);
        let st0 = parse_upto(tokenizer, dict, chars, fields, with_positions, (j - 1) as nat);
        let st1 = parse_branch(tokenizer, dict, chars, fields, with_positions, st0, j - 1);
        assert(st1.escapes == st0.escapes);
        assert(st1.i == st0.i || st1.i == j);
        assert(st1.k == st0.k || st1.k == j);
        assert(st1.k <= st1.i);
        assert(!with_positions ==> !st1.in_quote);
        let st = parse_upto(tokenizer, dict, chars, fields, with_positions, j);
        assert(st == parse_step(tokenizer, dict, chars, fields, with_positions, st0, j - 1));
        if !st0.escaped && chars[j - 1] == '\\' {
            assert(st.escapes == st0.escapes.push((j - 1) as usize));
            assert(((j - 1) as usize) as int == j - 1);
            assert forall|x: int| 0 <= x < st.escapes.len() implies (#[trigger] st.escapes[x]) < j
                && chars[st.escapes[x] as int] == '\\' by {
                if x < st0.escapes.len() {
                    assert(st.escapes[x] == st0.escapes[x]);
                }
            }
            assert forall|x: int, y: int| 0 <= x < y < st.escapes.len() implies #[trigger] st.escapes[x]
                < #[trigger] st.escapes[y] by {
                assert(st.escapes[x] == st0.escapes[x]);
                if y < st0.escapes.len() {
                    assert(st.escapes[y] == st0.escapes[y]);
                }
            }
        } else {
            assert(st.escapes == st0.escapes);
        }
    }
}

/// The characters that open and close a phrase: the straight double quote
/// and its typographic and full-width variants.
pub open spec fn quote_characters() -> Set<char> {
    set!['\u{22}', '\u{2033}', '\u{2036}', '\u{201C}', '\u{201D}', '\u{275D}', '\u{275E}', '\u{FF02}']
}

/// The parser's state right after an opening quote at the start of the query.
pub open spec fn opened_phrase_state() -> ParseState {
    ParseState {
        parts: Seq::empty(),
        ops: Seq::empty(),
        in_quote: true,
        escaped: false,
        escapes: Seq::empty(),
        i: 1,
        k: 0,
    }
}

proof fn lemma_inside_phrase<T: SearchTokenizer>(
    tokenizer: &T,
    dict: &Dictionary,
    chars: Seq<char>,
    fields: Seq<Seq<char>>,
    j: nat,
)
    requires
        1 <= j < chars.len(),
        quote_characters().contains(chars[0]),
        forall|x: int| 1 <= x < chars.len() - 1 ==> !quote_characters().contains(#[trigger] chars[x]) && chars[x] != '\\',
    ensures
        parse_upto(tokenizer, dict, chars, fields, true, j) == opened_phrase_state(),
    decreases j,
{
    if j == 1 {
        let st0 = parse_upto(tokenizer, dict, chars, fields, true, 0);
        assert(spec_is_double_quote(chars[0]));
        assert(chars[0] != '\\');
        assert(st0.i == 0 && !st0.in_quote && !st0.escaped);
        assert(parse_branch(tokenizer, dict, chars, fields, true, st0, 0) == opened_phrase_state());
    } else {
        lemma_inside_phrase(tokenizer, dict, chars, fields, (j - 1) as nat);
        let c = chars[j - 1];
        assert(!quote_characters().contains(c) && c != '\\');
        assert(!spec_is_double_quote(c));
    }
}

/// With positions, a query made of a pair of quote characters around text
/// without quotes or backslashes is one phrase, whose children are the
/// terms of that text, each mandatory where it has a dictionary term.
pub proof fn law_quoted_text_is_phrase<T: SearchTokenizer>(
    tokenizer: &T,
    dict: &Dictionary,
    chars: Seq<char>,
    fields: Seq<Seq<char>>,
)
    requires
        chars.len() >= 2,
        quote_characters().contains(chars[0]),
        quote_characters().contains(chars[chars.len() - 1]),
        forall|x: int| 1 <= x < chars.len() - 1 ==> !quote_characters().contains(#[trigger] chars[x]) && chars[x] != '\\',
    ensures
        ({
            let terms = tokenizer.spec_search_tokenize(chars, 1, chars.len() - 1, Seq::empty(), dict).terms;
            spec_parse_query(tokenizer, dict, chars, fields, true) == seq![
                QueryPartModel {
                    children: Some(
                        Seq::new(
                            terms.len(),
                            |x: int|
                                QueryPartModel {
                                    is_mandatory: terms[x].term is Some,
                                    is_corrected: terms[x].is_corrected,
                                    term: terms[x].term,
                                    original_term: Some(terms[x].original_term),
                                    terms_searched: Some(terms[x].term_inflections),
                                    ..base_model(QueryPartType::Term)
                                },
                        ),
                    ),
                    ..base_model(QueryPartType::Phrase)
                },
            ]
        }),
{
    let n = chars.len();
    lemma_inside_phrase(tokenizer, dict, chars, fields, (n - 1) as nat);
    assert(spec_is_double_quote(chars[n - 1]));
    assert(chars[n - 1] != '\\');
    let terms = tokenizer.spec_search_tokenize(chars, 1, n - 1, Seq::empty(), dict).terms;
    let phrase = QueryPartModel {
        children: Some(Seq::new(terms.len(), |x: int| phrase_child_model(terms[x]))),
        ..base_model(QueryPartType::Phrase)
    };
    assert(apply_prefix_ops(spec_get_prefix_ops(1, 2, 0, chars, Seq::empty(), tokenizer), phrase) == phrase);
    assert(spec_handle_op(Seq::<QueryPartModel>::empty().push(phrase), Seq::empty()).0 =~= seq![phrase]);
    assert(phrase.children->0 =~= Seq::new(
        terms.len(),
        |x: int|
            QueryPartModel {
                is_mandatory: terms[x].term is Some,
                is_corrected: terms[x].is_corrected,
                term: terms[x].term,
                original_term: Some(terms[x].original_term),
                terms_searched: Some(terms[x].term_inflections),
                ..base_model(QueryPartType::Term)
            },
    ));
}

} // verus!
