//! Escaping text for a JSON string literal, byte by byte.

use vstd::prelude::*;

verus! {

/// The bytes that start escaping: backspace, form feed, newline, carriage
/// return, tab, double quote and backslash.
pub open spec fn starts_escaping(b: u8) -> bool {
    b == 8 || b == 12 || b == 10 || b == 13 || b == 9 || b == 34 || b == 92
}

/// An upper-case hexadecimal digit.
pub open spec fn hex_digit(d: u8) -> u8 {
    if d < 10 {
        (48 + d) as u8
    } else {
        (55 + d) as u8
    }
}

/// How one byte is written inside a JSON string: the short escapes, `\u00XX`
/// for the other control characters, and the byte itself otherwise.
pub open spec fn escape_byte(c: u8) -> Seq<u8> {
    if c == 8 {
        seq![92u8, 98u8]
    } else if c == 12 {
        seq![92u8, 102u8]
    } else if c == 10 {
        seq![92u8, 110u8]
    } else if c == 13 {
        seq![92u8, 114u8]
    } else if c == 9 {
        seq![92u8, 116u8]
    } else if c == 34 {
        seq![92u8, 34u8]
    } else if c == 92 {
        seq![92u8, 92u8]
    } else if c < 32 {
        seq![92u8, 117u8, 48u8, 48u8, hex_digit(c / 16), hex_digit(c % 16)]
    } else {
        seq![c]
    }
}

/// Every byte of `s` escaped.
pub open spec fn escape_all(s: Seq<u8>) -> Seq<u8>
    decreases s.len(),
{
    if s.len() == 0 {
        Seq::empty()
    } else {
        escape_all(s.drop_last()) + escape_byte(s.last())
    }
}

/// The first position of a byte that starts escaping.
pub open spec fn first_escape(s: Seq<u8>) -> Option<int> {
    if exists|i: int| 0 <= i < s.len() && starts_escaping(s[i]) {
        Some(choose|i: int| 0 <= i < s.len() && starts_escaping(s[i]) && forall|k: int| 0 <= k < i ==> !starts_escaping(s[k]))
    } else {
        None
    }
}

/// The escaped text: unchanged when no byte starts escaping; otherwise the
/// bytes before the first such byte as they are and every byte from it on
/// escaped.
pub open spec fn spec_escape(s: Seq<u8>) -> Seq<u8> {
    match first_escape(s) {
        None => s,
        Some(i) => s.subrange(0, i) + escape_all(s.subrange(i, s.len() as int)),
    }
}

fn hex_digit_exec(d: u8) -> (res: u8)
    requires
        d < 16,
    ensures
        res == hex_digit(d),
{
    if d < 10 {
        48 + d
    } else {
        55 + d
    }
}

/// Appends the escaped form of `c`.
fn push_escaped(out: &mut Vec<u8>, c: u8)
    ensures
        final(out)@ == old(out)@ + escape_byte(c),
{
    if c == 8 {
        out.push(92);
        out.push(98);
    } else if c == 12 {
        out.push(92);
        out.push(102);
    } else if c == 10 {
        out.push(92);
        out.push(110);
    } else if c == 13 {
        out.push(92);
        out.push(114);
    } else if c == 9 {
        out.push(92);
        out.push(116);
    } else if c == 34 {
        out.push(92);
        out.push(34);
    } else if c == 92 {
        out.push(92);
        out.push(92);
    } else if c < 32 {
        out.push(92);
        out.push(117);
        out.push(48);
        out.push(48);
        out.push(hex_digit_exec(c / 16));
        out.push(hex_digit_exec(c % 16));
    } else {
        out.push(c);
    }
    assert(final(out)@ =~= old(out)@ + escape_byte(c));
}

/// Escapes `input` for a JSON string literal.
pub fn escape(input: &[u8]) -> (res: Vec<u8>)
    ensures
        res@ == spec_escape(input@),
{
    let mut start: usize = 0;
    while start < input.len()
        invariant
            start <= input@.len(),
            forall|k: int| 0 <= k < start ==> !starts_escaping(input@[k]),
        ensures
            start <= input@.len(),
            forall|k: int| 0 <= k < start ==> !starts_escaping(input@[k]),
            start < input@.len() ==> starts_escaping(input@[start as int]),
        decreases input@.len() - start,
    {
        let b = input[start];
        if b == 8 || b == 12 || b == 10 || b == 13 || b == 9 || b == 34 || b == 92 {
            break;
        }
        start = start + 1;
    }
    let mut output: Vec<u8> = Vec::new();
    let mut i: usize = 0;
    while i < start
        invariant
            i <= start <= input@.len(),
            output@ == input@.subrange(0, i as int),
        decreases start - i,
    {
        output.push(input[i]);
        i = i + 1;
        assert(output@ =~= input@.subrange(0, i as int));
    }
    if start == input.len() {
        assert(first_escape(input@) is None);
        assert(output@ =~= input@);
        return output;
    }
    assert(first_escape(input@) == Some(start as int)) by {
        let c = choose|c: int|
            0 <= c < input@.len() && starts_escaping(input@[c]) && forall|k: int| 0 <= k < c ==> !starts_escaping(input@[k]);
        assert(starts_escaping(input@[start as int]));
        if c < start {
        } else if c > start {
            assert(!starts_escaping(input@[start as int]));
        }
    }
    let ghost prefix = output@;
    let mut j: usize = start;
    assert(input@.subrange(start as int, start as int) =~= Seq::<u8>::empty());
    while j < input.len()
        invariant
            start <= j <= input@.len(),
            output@ == prefix + escape_all(input@.subrange(start as int, j as int)),
        decreases input@.len() - j,
    {
        push_escaped(&mut output, input[j]);
        assert(input@.subrange(start as int, j + 1).drop_last() =~= input@.subrange(start as int, j as int));
        j = j + 1;
        assert(output@ =~= prefix + escape_all(input@.subrange(start as int, j as int)));
    }
    output
}

/// The value of a hexadecimal digit, upper or lower case.
pub open spec fn hex_value(d: u8) -> int {
    if 48 <= d <= 57 {
        d - 48
    } else if 65 <= d <= 70 {
        d - 55
    } else if 97 <= d <= 102 {
        d - 87
    } else {
        0
    }
}

/// Reads the escapes of a JSON string that stand for single bytes (the
/// short escapes and `\u00XX`), keeping every other byte as it is.
pub open spec fn unescape(s: Seq<u8>) -> Seq<u8>
    decreases s.len(),
{
    if s.len() == 0 {
        Seq::empty()
    } else if s[0] == 92 && s.len() >= 2 && (s[1] == 98 || s[1] == 102 || s[1] == 110 || s[1] == 114
        || s[1] == 116 || s[1] == 34 || s[1] == 92) {
        let b: u8 = if s[1] == 98 {
            8
        } else if s[1] == 102 {
            12
        } else if s[1] == 110 {
            10
        } else if s[1] == 114 {
            13
        } else if s[1] == 116 {
            9
        } else {
            s[1]
        };
        seq![b] + unescape(s.subrange(2, s.len() as int))
    } else if s[0] == 92 && s.len() >= 6 && s[1] == 117 && s[2] == 48 && s[3] == 48 {
        seq![(hex_value(s[4]) * 16 + hex_value(s[5])) as u8] + unescape(s.subrange(6, s.len() as int))
    } else {
        seq![s[0]] + unescape(s.drop_first())
    }
}

proof fn lemma_unescape_escape_byte(c: u8, rest: Seq<u8>)
    ensures
        unescape(escape_byte(c) + rest) == seq![c] + unescape(rest),
{
    let s = escape_byte(c) + rest;
    if c == 8 || c == 12 || c == 10 || c == 13 || c == 9 || c == 34 || c == 92 {
        assert(s.subrange(2, s.len() as int) =~= rest);
    } else if c < 32 {
        assert(s.subrange(6, s.len() as int) =~= rest);
        assert(c / 16 < 2);
        assert(hex_value(hex_digit(c / 16)) * 16 + hex_value(hex_digit(c % 16)) == c);
    } else {
        assert(s.drop_first() =~= rest);
    }
}

proof fn lemma_escape_all_front(t: Seq<u8>)
    requires
        t.len() > 0,
    ensures
        escape_all(t) == escape_byte(t[0]) + escape_all(t.drop_first()),
    decreases t.len(),
{
    if t.len() == 1 {
        assert(t.drop_last() =~= Seq::<u8>::empty());
        assert(t.drop_first() =~= Seq::<u8>::empty());
        assert(escape_all(Seq::<u8>::empty()) =~= Seq::<u8>::empty());
        assert(t.last() == t[0]);
        assert(escape_all(t) =~= escape_byte(t[0]));
    } else {
        lemma_escape_all_front(t.drop_last());
        assert(t.drop_last().drop_first() =~= t.drop_first().drop_last());
        assert(t.drop_first().last() == t.last());
        assert(escape_all(t) =~= escape_byte(t[0]) + escape_all(t.drop_first()));
    }
}

proof fn lemma_unescape_escape_all(t: Seq<u8>)
    ensures
        unescape(escape_all(t)) == t,
    decreases t.len(),
{
    if t.len() > 0 {
        lemma_escape_all_front(t);
        lemma_unescape_escape_byte(t[0], escape_all(t.drop_first()));
        lemma_unescape_escape_all(t.drop_first());
        assert(seq![t[0]] + t.drop_first() =~= t);
    }
}

proof fn lemma_unescape_plain_prefix(p: Seq<u8>, q: Seq<u8>)
    requires
        forall|k: int| 0 <= k < p.len() ==> p[k] != 92,
    ensures
        unescape(p + q) == p + unescape(q),
    decreases p.len(),
{
    if p.len() > 0 {
        let s = p + q;
        assert(s.drop_first() =~= p.drop_first() + q);
        lemma_unescape_plain_prefix(p.drop_first(), q);
        assert(seq![p[0]] + p.drop_first() =~= p);
    } else {
        assert(p + q =~= q);
    }
}

proof fn lemma_min_escape(s: Seq<u8>, j: int) -> (m: int)
    requires
        0 <= j < s.len(),
        starts_escaping(s[j]),
    ensures
        0 <= m <= j,
        starts_escaping(s[m]),
        forall|k: int| 0 <= k < m ==> !starts_escaping(s[k]),
    decreases j,
{
    if exists|k: int| 0 <= k < j && starts_escaping(s[k]) {
        let k = choose|k: int| 0 <= k < j && starts_escaping(s[k]);
        lemma_min_escape(s, k)
    } else {
        j
    }
}

proof fn lemma_first_escape(s: Seq<u8>)
    ensures
        match first_escape(s) {
            Some(i) => 0 <= i < s.len() && starts_escaping(s[i]) && forall|k: int|
                0 <= k < i ==> !starts_escaping(#[trigger] s[k]),
            None => forall|k: int| 0 <= k < s.len() ==> !starts_escaping(#[trigger] s[k]),
        },
{
    if exists|i: int| 0 <= i < s.len() && starts_escaping(s[i]) {
        let j = choose|i: int| 0 <= i < s.len() && starts_escaping(s[i]);
        let m = lemma_min_escape(s, j);
        assert(0 <= m < s.len() && starts_escaping(s[m]) && forall|k: int| 0 <= k < m ==> !starts_escaping(s[k]));
    }
}

/// Reading the escapes back gives the text that was escaped.
pub proof fn law_unescape_escape(s: Seq<u8>)
    ensures
        unescape(spec_escape(s)) == s,
{
    lemma_first_escape(s);
    match first_escape(s) {
        None => {
            lemma_unescape_plain_prefix(s, Seq::empty());
            assert(s + Seq::<u8>::empty() =~= s);
        },
        Some(i) => {
            let p = s.subrange(0, i);
            let t = s.subrange(i, s.len() as int);
            assert forall|k: int| 0 <= k < p.len() implies p[k] != 92 by {
                assert(p[k] == s[k]);
                assert(!starts_escaping(s[k]));
            }
            lemma_unescape_plain_prefix(p, escape_all(t));
            lemma_unescape_escape_all(t);
            assert(p + t =~= s);
        },
    }
}

} // verus!
