//! Common prefixes of dictionary terms, for front coding.

use vstd::prelude::*;
use crate::text::str_chars;

verus! {

/// How many bytes `c` takes in UTF-8.
pub open spec fn utf8_len(c: char) -> nat {
    if (c as u32) < 0x80 {
        1
    } else if (c as u32) < 0x800 {
        2
    } else if (c as u32) < 0x10000 {
        3
    } else {
        4
    }
}

/// How many leading characters `a` and `b` share.
pub open spec fn common_prefix_len(a: Seq<char>, b: Seq<char>) -> nat
    decreases a.len(),
{
    if a.len() == 0 || b.len() == 0 || a[0] != b[0] {
        0
    } else {
        1 + common_prefix_len(a.drop_first(), b.drop_first())
    }
}

/// How many bytes the first `n` characters of `s` take in UTF-8.
pub open spec fn prefix_byte_len(s: Seq<char>, n: nat) -> nat
    decreases n,
{
    if n == 0 || s.len() == 0 {
        0
    } else {
        utf8_len(s[0]) + prefix_byte_len(s.drop_first(), (n - 1) as nat)
    }
}

/// `char::len_utf8`.
fn char_len_utf8(c: char) -> (res: usize)
    ensures
        res == utf8_len(c),
{
    let u = c as u32;
    if u < 0x80 {
        1
    } else if u < 0x800 {
        2
    } else if u < 0x10000 {
        3
    } else {
        4
    }
}

proof fn lemma_prefix_bytes_step(s: Seq<char>, i: int)
    requires
        0 <= i < s.len(),
    ensures
        prefix_byte_len(s, (i + 1) as nat) == prefix_byte_len(s, i as nat) + utf8_len(s[i]),
        prefix_byte_len(s, (i + 1) as nat) <= 4 * (i + 1),
    decreases i,
{
    assert(prefix_byte_len(s, (i + 1) as nat) == utf8_len(s[0]) + prefix_byte_len(s.drop_first(), i as nat));
    if i > 0 {
        lemma_prefix_bytes_step(s.drop_first(), i - 1);
        assert(s.drop_first()[i - 1] == s[i]);
        assert(prefix_byte_len(s, i as nat) == utf8_len(s[0]) + prefix_byte_len(s.drop_first(), (i - 1) as nat));
    } else {
        assert(prefix_byte_len(s.drop_first(), 0) == 0);
        assert(prefix_byte_len(s, 0) == 0);
    }
}

proof fn lemma_common_step(a: Seq<char>, b: Seq<char>, i: int)
    requires
        0 <= i < a.len(),
        i < b.len(),
        forall|k: int| 0 <= k < i ==> a[k] == b[k],
    ensures
        common_prefix_len(a, b) == i <==> a[i] != b[i],
        a[i] == b[i] ==> common_prefix_len(a, b) > i,
    decreases i,
{
    if i > 0 {
        lemma_common_step(a.drop_first(), b.drop_first(), i - 1);
    }
}

proof fn lemma_common_end(a: Seq<char>, b: Seq<char>, i: int)
    requires
        0 <= i,
        i == a.len() || i == b.len(),
        i <= a.len() && i <= b.len(),
        forall|k: int| 0 <= k < i ==> a[k] == b[k],
    ensures
        common_prefix_len(a, b) == i,
    decreases i,
{
    if i > 0 {
        lemma_common_end(a.drop_first(), b.drop_first(), i - 1);
    }
}

/// How many bytes the characters that `str1` and `str2` share at their start
/// take.
pub fn get_common_unicode_prefix_byte_len(str1: &str, str2: &str) -> (res: usize)
    requires
        4 * str1@.len() <= usize::MAX,
    ensures
        res == prefix_byte_len(str1@, common_prefix_len(str1@, str2@)),
{
    let a = str_chars(str1);
    let b = str_chars(str2);
    let mut i: usize = 0;
    let mut byte_len: usize = 0;
    while i < a.len() && i < b.len() && a[i] == b[i]
        invariant
            i <= a@.len(),
            i <= b@.len(),
            a@ == str1@,
            b@ == str2@,
            4 * a@.len() <= usize::MAX,
            forall|k: int| 0 <= k < i ==> a@[k] == b@[k],
            byte_len == prefix_byte_len(a@, i as nat),
            byte_len <= 4 * i,
        decreases a@.len() - i,
    {
        proof {
            lemma_prefix_bytes_step(a@, i as int);
        }
        byte_len = byte_len + char_len_utf8(a[i]);
        i = i + 1;
    }
    proof {
        if i < a@.len() && i < b@.len() {
            lemma_common_step(a@, b@, i as int);
        } else {
            lemma_common_end(a@, b@, i as int);
        }
    }
    byte_len
}

} // verus!
