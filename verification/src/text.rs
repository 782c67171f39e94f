//! Character-level text primitives: conversion between strings and
//! character sequences, whitespace, pattern search, trimming and splitting.
//!
//! Every executable function works on a slice of characters and is specified
//! by a spec function of the same argument taken as a `Seq<char>`.

use vstd::prelude::*;
use vstd::slice::slice_subrange;
use vstd::slice::slice_to_vec;

verus! {

/// Trusted, not proved: what the standard library documents of
/// `String::push`, that it appends the character to the end of the string.
pub assume_specification[ String::push ](s: &mut String, c: char)
    ensures
        final(s)@ == old(s)@.push(c),
;

/// Whether `c` is a white space character: one of the code points that
/// Unicode gives the property `White_Space`.
pub open spec fn white_space(c: char) -> bool {
    let n = c as u32;
    ||| 0x09 <= n <= 0x0D
    ||| n == 0x20
    ||| n == 0x85
    ||| n == 0xA0
    ||| n == 0x1680
    ||| 0x2000 <= n <= 0x200A
    ||| n == 0x2028
    ||| n == 0x2029
    ||| n == 0x202F
    ||| n == 0x205F
    ||| n == 0x3000
}

/// The character sequences that the vectors of `v` hold, in order.
pub open spec fn runs(v: Seq<Vec<char>>) -> Seq<Seq<char>> {
    v.map_values(|w: Vec<char>| w@)
}

/// Whether `pat` stands in `text` at index `i`.
pub open spec fn occurs_at(text: Seq<char>, pat: Seq<char>, i: int) -> bool {
    &&& 0 <= i
    &&& i + pat.len() <= text.len()
    &&& text.subrange(i, i + pat.len()) == pat
}

/// The least index at or after `from` at which `pat` stands in `text`.
pub open spec fn first_occurrence(text: Seq<char>, pat: Seq<char>, from: int) -> Option<int>
    decreases text.len() - from,
    via first_occurrence_decreases
{
    if from < 0 || from + pat.len() > text.len() {
        None
    } else if occurs_at(text, pat, from) {
        Some(from)
    } else {
        first_occurrence(text, pat, from + 1)
    }
}

#[via_fn]
proof fn first_occurrence_decreases(text: Seq<char>, pat: Seq<char>, from: int) {
    if pat.len() == 0 && from == text.len() {
        assert(text.subrange(from, from) =~= pat);
    }
}

/// The index of the first character at or after `i` that is no white space,
/// or the length of `s` where there is none.
pub open spec fn skip_white_space(s: Seq<char>, i: int) -> int
    decreases s.len() - i,
{
    if 0 <= i < s.len() && white_space(s[i]) {
        skip_white_space(s, i + 1)
    } else {
        i
    }
}

/// The index of the first white space character at or after `i`, or the
/// length of `s` where there is none.
pub open spec fn word_end(s: Seq<char>, i: int) -> int
    decreases s.len() - i,
{
    if 0 <= i < s.len() && !white_space(s[i]) {
        word_end(s, i + 1)
    } else {
        i
    }
}

/// The index after the last character before `i` that is no white space,
/// or zero where there is none.
pub open spec fn trim_end_index(s: Seq<char>, i: int) -> int
    decreases i,
{
    if 0 < i <= s.len() && white_space(s[i - 1]) {
        trim_end_index(s, i - 1)
    } else {
        i
    }
}

/// `s` without the white space at its two ends.
pub open spec fn trimmed(s: Seq<char>) -> Seq<char> {
    let rest = s.skip(skip_white_space(s, 0));
    rest.take(trim_end_index(rest, rest.len() as int))
}

/// The words of `s` that begin at or after `i`: the maximal runs of
/// characters that are no white space, in order.
pub open spec fn words_from(s: Seq<char>, i: int) -> Seq<Seq<char>>
    decreases s.len() - i,
    via words_from_decreases
{
    let start = skip_white_space(s, i);
    if 0 <= i && start < s.len() {
        let end = word_end(s, start);
        seq![s.subrange(start, end)] + words_from(s, end)
    } else {
        Seq::empty()
    }
}

#[via_fn]
proof fn words_from_decreases(s: Seq<char>, i: int) {
    if 0 <= i <= s.len() {
        lemma_skip_white_space(s, i);
        lemma_word_end(s, skip_white_space(s, i));
    }
}

/// The words of `s`: what is left between its runs of white space.
pub open spec fn words(s: Seq<char>) -> Seq<Seq<char>> {
    words_from(s, 0)
}

/// The index of the first `sep` at or after `i`, or the length of `s` where
/// there is none.
pub open spec fn field_end(s: Seq<char>, sep: char, i: int) -> int
    decreases s.len() - i,
{
    if 0 <= i < s.len() && s[i] != sep {
        field_end(s, sep, i + 1)
    } else {
        i
    }
}

/// The fields of `s` that begin at or after `i`, where each `sep` ends one
/// field and begins the next.
pub open spec fn fields_from(s: Seq<char>, sep: char, i: int) -> Seq<Seq<char>>
    decreases s.len() - i,
    via fields_from_decreases
{
    let end = field_end(s, sep, i);
    if 0 <= i && end < s.len() {
        seq![s.subrange(i, end)] + fields_from(s, sep, end + 1)
    } else {
        seq![s.subrange(i, end)]
    }
}

#[via_fn]
proof fn fields_from_decreases(s: Seq<char>, sep: char, i: int) {
    if 0 <= i <= s.len() {
        lemma_field_end(s, sep, i);
    }
}

/// The fields of `s` between its separators `sep`: one more than there are
/// separators, so a single empty field for the empty sequence.
pub open spec fn fields(s: Seq<char>, sep: char) -> Seq<Seq<char>> {
    fields_from(s, sep, 0)
}

/// The result of `skip_white_space` lies between `i` and the end, passes
/// only white space, and stops at a character that is none.
pub proof fn lemma_skip_white_space(s: Seq<char>, i: int)
    requires
        0 <= i <= s.len(),
    ensures
        i <= skip_white_space(s, i) <= s.len(),
        forall|j: int| i <= j < skip_white_space(s, i) ==> white_space(#[trigger] s[j]),
        skip_white_space(s, i) < s.len() ==> !white_space(s[skip_white_space(s, i)]),
    decreases s.len() - i,
{
    if i < s.len() && white_space(s[i]) {
        lemma_skip_white_space(s, i + 1);
    }
}

/// The result of `word_end` lies between `i` and the end, passes no white
/// space, and stops at a white space character.
pub proof fn lemma_word_end(s: Seq<char>, i: int)
    requires
        0 <= i <= s.len(),
    ensures
        i <= word_end(s, i) <= s.len(),
        i < s.len() && !white_space(s[i]) ==> i < word_end(s, i),
        forall|j: int| i <= j < word_end(s, i) ==> !white_space(#[trigger] s[j]),
        word_end(s, i) < s.len() ==> white_space(s[word_end(s, i)]),
    decreases s.len() - i,
{
    if i < s.len() && !white_space(s[i]) {
        lemma_word_end(s, i + 1);
    }
}

/// The result of `trim_end_index` lies between zero and `i`, passes only
/// white space, and stops after a character that is none.
pub proof fn lemma_trim_end_index(s: Seq<char>, i: int)
    requires
        0 <= i <= s.len(),
    ensures
        0 <= trim_end_index(s, i) <= i,
        forall|j: int| trim_end_index(s, i) <= j < i ==> white_space(#[trigger] s[j]),
        0 < trim_end_index(s, i) ==> !white_space(s[trim_end_index(s, i) - 1]),
    decreases i,
{
    if 0 < i && white_space(s[i - 1]) {
        lemma_trim_end_index(s, i - 1);
    }
}

/// The result of `field_end` lies between `i` and the end, passes no
/// separator, and stops at one.
pub proof fn lemma_field_end(s: Seq<char>, sep: char, i: int)
    requires
        0 <= i <= s.len(),
    ensures
        i <= field_end(s, sep, i) <= s.len(),
        forall|j: int| i <= j < field_end(s, sep, i) ==> #[trigger] s[j] != sep,
        field_end(s, sep, i) < s.len() ==> s[field_end(s, sep, i)] == sep,
    decreases s.len() - i,
{
    if i < s.len() && s[i] != sep {
        lemma_field_end(s, sep, i + 1);
    }
}

/// The trimmed text is a part of the text with nothing but white space
/// before and behind it, and neither begins nor ends with white space.
pub proof fn lemma_trimmed(s: Seq<char>)
    ensures
        exists|from: int, to: int|
            {
                &&& 0 <= from <= to <= s.len()
                &&& #[trigger] s.subrange(from, to) == trimmed(s)
                &&& forall|j: int| 0 <= j < from ==> white_space(#[trigger] s[j])
                &&& forall|j: int| to <= j < s.len() ==> white_space(#[trigger] s[j])
            },
        trimmed(s).len() > 0 ==> !white_space(trimmed(s).first()) && !white_space(
            trimmed(s).last(),
        ),
{
    let from = skip_white_space(s, 0);
    lemma_skip_white_space(s, 0);
    let rest = s.skip(from);
    let kept = trim_end_index(rest, rest.len() as int);
    lemma_trim_end_index(rest, rest.len() as int);
    let to = from + kept;
    assert(s.subrange(from, to) =~= trimmed(s));
    assert forall|j: int| to <= j < s.len() implies white_space(#[trigger] s[j]) by {
        assert(rest[j - from] == s[j]);
    }
    if trimmed(s).len() > 0 {
        assert(trimmed(s).first() == s[from]);
        assert(trimmed(s).last() == rest[kept - 1]);
    }
}

/// Each word has at least one character, and none that is white space.
pub proof fn lemma_words_from(s: Seq<char>, i: int)
    requires
        0 <= i <= s.len(),
    ensures
        forall|k: int|
            0 <= k < words_from(s, i).len() ==> (#[trigger] words_from(s, i)[k]).len() > 0,
        forall|k: int, j: int|
            0 <= k < words_from(s, i).len() && 0 <= j < words_from(s, i)[k].len()
                ==> !white_space(#[trigger] words_from(s, i)[k][j]),
    decreases s.len() - i,
{
    let start = skip_white_space(s, i);
    lemma_skip_white_space(s, i);
    if start < s.len() {
        let end = word_end(s, start);
        lemma_word_end(s, start);
        lemma_words_from(s, end);
        let word = s.subrange(start, end);
        let rest = words_from(s, end);
        let all = words_from(s, i);
        assert(all =~= seq![word] + rest);
        assert forall|k: int| 0 <= k < all.len() implies (#[trigger] all[k]).len() > 0 by {
            if k > 0 {
                assert(all[k] == rest[k - 1]);
            }
        }
        assert forall|k: int, j: int|
            0 <= k < all.len() && 0 <= j < all[k].len() implies !white_space(
            #[trigger] all[k][j],
        ) by {
            if k > 0 {
                assert(all[k] == rest[k - 1]);
            } else {
                assert(all[0][j] == s[start + j]);
            }
        }
    }
}

/// `first_occurrence` gives an index at which the pattern stands and before
/// which, from `from` on, it does not; it gives none only where the pattern
/// stands nowhere from `from` on.
pub proof fn lemma_first_occurrence(text: Seq<char>, pat: Seq<char>, from: int)
    requires
        0 <= from,
    ensures
        match first_occurrence(text, pat, from) {
            Some(i) => {
                &&& from <= i
                &&& occurs_at(text, pat, i)
                &&& forall|j: int| from <= j < i ==> !occurs_at(text, pat, j)
            },
            None => forall|j: int| from <= j ==> !occurs_at(text, pat, j),
        },
    decreases text.len() - from,
{
    if from + pat.len() <= text.len() && !occurs_at(text, pat, from) {
        if pat.len() == 0 && from == text.len() {
            assert(text.subrange(from, from) =~= pat);
        }
        lemma_first_occurrence(text, pat, from + 1);
    }
}

/// Whether `c` is a white space character.
pub fn is_whitespace(c: char) -> (b: bool)
    ensures
        b == white_space(c),
{
    let n: u32 = c as u32;
    (0x09 <= n && n <= 0x0D) || n == 0x20 || n == 0x85 || n == 0xA0 || n == 0x1680 || (0x2000 <= n
        && n <= 0x200A) || n == 0x2028 || n == 0x2029 || n == 0x202F || n == 0x205F || n == 0x3000
}

/// The characters of `s`, in order.
pub fn to_chars(s: &str) -> (out: Vec<char>)
    ensures
        out@ == s@,
{
    broadcast use vstd::string::axiom_spec_iter;

    let mut out: Vec<char> = Vec::new();
    let chars = s.chars();
    for c in it: chars
        invariant
            it.seq() == s@,
            out@ == s@.take(it.index()),
    {
        out.push(c);
        assert(s@.take(it.index() + 1) =~= s@.take(it.index()).push(c));
    }
    assert(s@.take(s@.len() as int) =~= s@);
    out
}

/// The string made of the characters of `chars`, in order.
pub fn to_string(chars: &[char]) -> (out: String)
    ensures
        out@ == chars@,
{
    let mut out = String::new();
    let mut i: usize = 0;
    while i < chars.len()
        invariant
            i <= chars@.len(),
            out@ == chars@.take(i as int),
        decreases chars@.len() - i,
    {
        out.push(chars[i]);
        i += 1;
        assert(chars@.take(i as int) =~= chars@.take(i - 1).push(chars@[i - 1]));
    }
    assert(chars@.take(i as int) =~= chars@);
    out
}

/// Whether `pat` stands in `text` at index `i`.
pub fn matches_at(text: &[char], pat: &[char], i: usize) -> (b: bool)
    ensures
        b == occurs_at(text@, pat@, i as int),
{
    if pat.len() > text.len() || i > text.len() - pat.len() {
        return false;
    }
    let mut k: usize = 0;
    while k < pat.len()
        invariant
            k <= pat@.len(),
            i + pat@.len() <= text@.len() <= usize::MAX,
            forall|j: int| 0 <= j < k ==> text@[i + j] == pat@[j],
        decreases pat@.len() - k,
    {
        if text[i + k] != pat[k] {
            assert(text@.subrange(i as int, i + pat@.len())[k as int] != pat@[k as int]);
            return false;
        }
        k += 1;
    }
    assert(text@.subrange(i as int, i + pat@.len()) =~= pat@);
    true
}

/// The least index at or after `from` at which `pat` stands in `text`.
pub fn find(text: &[char], pat: &[char], from: usize) -> (found: Option<usize>)
    ensures
        match found {
            Some(i) => first_occurrence(text@, pat@, from as int) == Some(i as int),
            None => first_occurrence(text@, pat@, from as int) is None,
        },
{
    if pat.len() > text.len() {
        return None;
    }
    let last: usize = text.len() - pat.len();
    let mut i: usize = from;
    while i <= last
        invariant
            from <= i,
            last == text@.len() - pat@.len(),
            first_occurrence(text@, pat@, from as int) == first_occurrence(text@, pat@, i as int),
        decreases last + 1 - i,
    {
        if matches_at(text, pat, i) {
            return Some(i);
        }
        if i == last {
            assert(first_occurrence(text@, pat@, i + 1) is None);
            return None;
        }
        i += 1;
    }
    None
}

/// `s` without the white space at its two ends.
pub fn trim(s: &[char]) -> (out: &[char])
    ensures
        out@ == trimmed(s@),
{
    let mut from: usize = 0;
    while from < s.len() && is_whitespace(s[from])
        invariant
            from <= s@.len(),
            skip_white_space(s@, 0) == skip_white_space(s@, from as int),
        decreases s@.len() - from,
    {
        from += 1;
    }
    let rest = slice_subrange(s, from, s.len());
    assert(rest@ =~= s@.skip(from as int));
    let mut to: usize = rest.len();
    while to > 0 && is_whitespace(rest[to - 1])
        invariant
            to <= rest@.len(),
            trim_end_index(rest@, rest@.len() as int) == trim_end_index(rest@, to as int),
        decreases to,
    {
        to -= 1;
    }
    slice_subrange(rest, 0, to)
}

/// The words of `s`: what is left between its runs of white space.
pub fn split_whitespace(s: &[char]) -> (out: Vec<Vec<char>>)
    ensures
        runs(out@) == words(s@),
{
    let mut out: Vec<Vec<char>> = Vec::new();
    let mut i: usize = 0;
    assert(runs(out@) + words_from(s@, 0) =~= words(s@));
    loop
        invariant
            i <= s@.len(),
            runs(out@) + words_from(s@, i as int) == words(s@),
        ensures
            runs(out@) == words(s@),
        decreases s@.len() - i,
    {
        let ghost before = i;
        while i < s.len() && is_whitespace(s[i])
            invariant
                before <= i <= s@.len(),
                skip_white_space(s@, before as int) == skip_white_space(s@, i as int),
            decreases s@.len() - i,
        {
            i += 1;
        }
        if i >= s.len() {
            assert(runs(out@) + words_from(s@, before as int) =~= runs(out@));
            break;
        }
        let start: usize = i;
        while i < s.len() && !is_whitespace(s[i])
            invariant
                start <= i <= s@.len(),
                word_end(s@, start as int) == word_end(s@, i as int),
            decreases s@.len() - i,
        {
            i += 1;
        }
        let ghost done = runs(out@);
        let word = slice_to_vec(slice_subrange(s, start, i));
        out.push(word);
        assert(runs(out@) =~= done.push(s@.subrange(start as int, i as int)));
        assert(runs(out@) + words_from(s@, i as int) =~= done + words_from(
            s@,
            before as int,
        ));
        assert(start < i) by {
            lemma_word_end(s@, start as int);
        }
    }
    out
}

/// The fields of `s` between its separators `sep`.
pub fn split(s: &[char], sep: char) -> (out: Vec<Vec<char>>)
    ensures
        runs(out@) == fields(s@, sep),
{
    let mut out: Vec<Vec<char>> = Vec::new();
    let mut i: usize = 0;
    assert(runs(out@) + fields_from(s@, sep, 0) =~= fields(s@, sep));
    loop
        invariant_except_break
            i <= s@.len(),
            runs(out@) + fields_from(s@, sep, i as int) == fields(s@, sep),
        ensures
            runs(out@) == fields(s@, sep),
        decreases s@.len() - i,
    {
        let start: usize = i;
        while i < s.len() && s[i] != sep
            invariant
                start <= i <= s@.len(),
                field_end(s@, sep, start as int) == field_end(s@, sep, i as int),
            decreases s@.len() - i,
        {
            i += 1;
        }
        let ghost done = runs(out@);
        let field = slice_to_vec(slice_subrange(s, start, i));
        out.push(field);
        assert(runs(out@) =~= done.push(s@.subrange(start as int, i as int)));
        if i >= s.len() {
            assert(runs(out@) =~= done + fields_from(s@, sep, start as int));
            break;
        }
        assert(runs(out@) + fields_from(s@, sep, i + 1) =~= done + fields_from(
            s@,
            sep,
            start as int,
        ));
        i += 1;
    }
    out
}

} // verus!
