//! Stop words: very common terms that a tokenizer may leave out.

use vstd::prelude::*;
use crate::language::InfiLanguageConfig;
use crate::query_parser::strings_model;

verus! {

/// The strings of a slice of string slices.
pub open spec fn strs_model(s: Seq<&str>) -> Seq<Seq<char>> {
    Seq::new(s.len(), |i: int| s[i]@)
}

/// The configured stop words, or `defaults` when none are configured.
pub fn get_stop_words(lang_config: &InfiLanguageConfig, defaults: &[&str]) -> (res: Vec<String>)
    ensures
        strings_model(res@) == (match lang_config.options.stop_words {
            Some(v) => strings_model(v@),
            None => strs_model(defaults@),
        }),
{
    let mut res: Vec<String> = Vec::new();
    match &lang_config.options.stop_words {
        Some(stop_words) => {
            let mut i: usize = 0;
            while i < stop_words.len()
                invariant
                    i <= stop_words@.len(),
                    res@.len() == i,
                    forall|x: int| 0 <= x < i ==> #[trigger] res@[x]@ == stop_words@[x]@,
                decreases stop_words@.len() - i,
            {
                let w = stop_words[i].clone();
                res.push(w);
                i = i + 1;
            }
            assert(strings_model(res@) =~= strings_model(stop_words@));
        },
        None => {
            let mut i: usize = 0;
            while i < defaults.len()
                invariant
                    i <= defaults@.len(),
                    res@.len() == i,
                    forall|x: int| 0 <= x < i ==> #[trigger] res@[x]@ == defaults@[x]@,
                decreases defaults@.len() - i,
            {
                let w = defaults[i].to_owned();
                res.push(w);
                i = i + 1;
            }
            assert(strings_model(res@) =~= strs_model(defaults@));
        },
    }
    res
}

/// Whether `v` holds a string equal to `s`.
pub open spec fn contains_string(v: Seq<Seq<char>>, s: Seq<char>) -> bool {
    exists|i: int| 0 <= i < v.len() && v[i] == s
}

/// No string occurs twice in `v`.
pub open spec fn no_duplicates(v: Seq<Seq<char>>) -> bool {
    forall|a: int, b: int| 0 <= a < b < v.len() ==> v[a] != v[b]
}

/// Whether `term` is one of `stop_words`.
pub fn contains_term(stop_words: &Vec<String>, term: &String) -> (res: bool)
    ensures
        res == contains_string(strings_model(stop_words@), term@),
{
    let mut i: usize = 0;
    while i < stop_words.len()
        invariant
            i <= stop_words@.len(),
            forall|x: int| 0 <= x < i ==> stop_words@[x]@ != term@,
        decreases stop_words@.len() - i,
    {
        if stop_words[i] == *term {
            assert(strings_model(stop_words@)[i as int] == term@);
            return true;
        }
        i = i + 1;
    }
    assert forall|x: int| 0 <= x < strings_model(stop_words@).len() implies strings_model(stop_words@)[x] != term@ by {
        assert(stop_words@[x]@ != term@);
    }
    false
}

/// The distinct strings of `words`, in order of first occurrence.
pub fn dedup_strings(words: Vec<String>) -> (set: Vec<String>)
    ensures
        no_duplicates(strings_model(set@)),
        forall|s: Seq<char>| contains_string(strings_model(set@), s) <==> contains_string(strings_model(words@), s),
{
    let mut set: Vec<String> = Vec::new();
    let mut i: usize = 0;
    while i < words.len()
        invariant
            i <= words@.len(),
            no_duplicates(strings_model(set@)),
            forall|s: Seq<char>| contains_string(strings_model(set@), s) <==> contains_string(strings_model(words@.subrange(0, i as int)), s),
        decreases words@.len() - i,
    {
        let ghost prev = set@;
        let ghost w = words@[i as int]@;
        if !contains_term(&set, &words[i]) {
            set.push(words[i].clone());
            assert(strings_model(set@) =~= strings_model(prev).push(w));
        }
        i = i + 1;
        let ghost sub = strings_model(words@.subrange(0, i as int));
        assert(sub =~= strings_model(words@.subrange(0, i - 1)).push(w));
        let ghost old_sub = strings_model(words@.subrange(0, i - 1));
        let ghost cur = strings_model(set@);
        assert forall|s: Seq<char>| contains_string(cur, s) <==> contains_string(sub, s) by {
            if contains_string(sub, s) {
                let x = choose|x: int| 0 <= x < sub.len() && sub[x] == s;
                if x < i - 1 {
                    assert(old_sub[x] == s);
                    assert(contains_string(old_sub, s));
                    assert(contains_string(strings_model(prev), s));
                    let y = choose|y: int| 0 <= y < strings_model(prev).len() && strings_model(prev)[y] == s;
                    assert(cur[y] == s);
                } else {
                    assert(s == w);
                    if cur.len() > strings_model(prev).len() {
                        assert(cur[cur.len() - 1] == w);
                    } else {
                        assert(contains_string(strings_model(prev), w));
                    }
                }
            }
            if contains_string(cur, s) {
                let x = choose|x: int| 0 <= x < cur.len() && cur[x] == s;
                if x < prev.len() {
                    assert(strings_model(prev)[x] == s);
                    assert(contains_string(strings_model(prev), s));
                    assert(contains_string(old_sub, s));
                    let y = choose|y: int| 0 <= y < old_sub.len() && old_sub[y] == s;
                    assert(sub[y] == s);
                } else {
                    assert(sub[i - 1] == s);
                }
            }
        }
    }
    assert(words@.subrange(0, i as int) =~= words@);
    set
}

} // verus!
