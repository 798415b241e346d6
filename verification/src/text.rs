//! Character-level scanning shared by the line grammars.
//!
//! A line is handled as a sequence of characters. The scanners below move an
//! index forward over such a sequence and are specified by recursive spec
//! functions; `lemma_skip_spaces` and `lemma_scan_to` restate those
//! functions as first-order facts.

use vstd::prelude::*;
use vstd::string::StringSliceAdditionalSpecFns;

verus! {

/// The characters that the grammars skip between tokens.
pub open spec fn is_space(c: char) -> bool {
    c == ' ' || c == '\t' || c == '\r' || c == '\n'
}

/// The first index at or after `from` that holds no whitespace, or the
/// length of `s` when only whitespace is left.
pub open spec fn skip_spaces(s: Seq<char>, from: int) -> int
    decreases s.len() - from,
{
    if 0 <= from < s.len() && is_space(s[from]) {
        skip_spaces(s, from + 1)
    } else {
        from
    }
}

/// The first index at or after `from` that holds one of `stops`, or the
/// length of `s` when none of them is left.
pub open spec fn scan_to(s: Seq<char>, from: int, stops: Seq<char>) -> int
    decreases s.len() - from,
{
    if 0 <= from < s.len() && !stops.contains(s[from]) {
        scan_to(s, from + 1, stops)
    } else {
        from
    }
}

/// Whether `s` holds `word` at index `at`.
pub open spec fn has_word_at(s: Seq<char>, at: int, word: Seq<char>) -> bool {
    0 <= at && at + word.len() <= s.len() && s.subrange(at, at + word.len()) == word
}

/// `skip_spaces` stops at the first character that is no whitespace.
pub proof fn lemma_skip_spaces(s: Seq<char>, from: int)
    requires
        0 <= from <= s.len(),
    ensures
        from <= skip_spaces(s, from) <= s.len(),
        forall|i: int| from <= i < skip_spaces(s, from) ==> is_space(#[trigger] s[i]),
        skip_spaces(s, from) < s.len() ==> !is_space(s[skip_spaces(s, from)]),
    decreases s.len() - from,
{
    if from < s.len() && is_space(s[from]) {
        lemma_skip_spaces(s, from + 1);
    }
}

/// `scan_to` stops at the first character that is one of `stops`.
pub proof fn lemma_scan_to(s: Seq<char>, from: int, stops: Seq<char>)
    requires
        0 <= from <= s.len(),
    ensures
        from <= scan_to(s, from, stops) <= s.len(),
        forall|i: int| from <= i < scan_to(s, from, stops) ==> !stops.contains(#[trigger] s[i]),
        scan_to(s, from, stops) < s.len() ==> stops.contains(s[scan_to(s, from, stops)]),
    decreases s.len() - from,
{
    if from < s.len() && !stops.contains(s[from]) {
        lemma_scan_to(s, from + 1, stops);
    }
}

/// `skip_spaces` is the index `to` where only whitespace stands before
/// `to` and none stands at it.
pub proof fn lemma_skip_spaces_is(s: Seq<char>, from: int, to: int)
    requires
        0 <= from <= to <= s.len(),
        forall|i: int| from <= i < to ==> is_space(#[trigger] s[i]),
        to < s.len() ==> !is_space(s[to]),
    ensures
        skip_spaces(s, from) == to,
    decreases to - from,
{
    if from < to {
        lemma_skip_spaces_is(s, from + 1, to);
    }
}

/// `scan_to` is the index `to` where none of `stops` stands before `to`
/// and one of them stands at it.
pub proof fn lemma_scan_to_is(s: Seq<char>, from: int, to: int, stops: Seq<char>)
    requires
        0 <= from <= to <= s.len(),
        forall|i: int| from <= i < to ==> !stops.contains(#[trigger] s[i]),
        to < s.len() ==> stops.contains(s[to]),
    ensures
        scan_to(s, from, stops) == to,
    decreases to - from,
{
    if from < to {
        lemma_scan_to_is(s, from + 1, to, stops);
    }
}

/// The characters of `s`, in order.
pub fn chars_of(s: &str) -> (v: Vec<char>)
    ensures
        v@ == s@,
{
    let mut v: Vec<char> = Vec::new();
    for c in it: s.chars()
        invariant
            v@ == it.seq().take(it.index@),
    {
        v.push(c);
    }
    v
}

/// Whether `c` is whitespace.
pub fn space(c: char) -> (r: bool)
    ensures
        r == is_space(c),
{
    c == ' ' || c == '\t' || c == '\r' || c == '\n'
}

/// Whether `c` is one of `stops`.
pub fn one_of(stops: &[char], c: char) -> (r: bool)
    ensures
        r == stops@.contains(c),
{
    let mut i: usize = 0;
    while i < stops.len()
        invariant
            i <= stops.len(),
            forall|k: int| 0 <= k < i ==> stops@[k] != c,
        decreases stops.len() - i,
    {
        if stops[i] == c {
            return true;
        }
        i += 1;
    }
    false
}

/// Moves past the whitespace that starts at `from`.
pub fn past_spaces(s: &[char], from: usize) -> (r: usize)
    requires
        from <= s.len(),
    ensures
        r == skip_spaces(s@, from as int),
        from <= r <= s.len(),
{
    let mut i: usize = from;
    while i < s.len() && space(s[i])
        invariant
            from <= i <= s.len(),
            skip_spaces(s@, from as int) == skip_spaces(s@, i as int),
        decreases s.len() - i,
    {
        i += 1;
    }
    i
}

/// Moves to the first of `stops` at or after `from`.
pub fn up_to(s: &[char], from: usize, stops: &[char]) -> (r: usize)
    requires
        from <= s.len(),
    ensures
        r == scan_to(s@, from as int, stops@),
        from <= r <= s.len(),
{
    let mut i: usize = from;
    while i < s.len() && !one_of(stops, s[i])
        invariant
            from <= i <= s.len(),
            scan_to(s@, from as int, stops@) == scan_to(s@, i as int, stops@),
        decreases s.len() - i,
    {
        i += 1;
    }
    i
}

/// Whether `s` holds `word` at index `at`.
pub fn word_at(s: &[char], at: usize, word: &[char]) -> (r: bool)
    requires
        at <= s.len(),
    ensures
        r == has_word_at(s@, at as int, word@),
{
    if word.len() > s.len() - at {
        return false;
    }
    let mut i: usize = 0;
    while i < word.len()
        invariant
            i <= word.len(),
            at + word.len() <= s.len(),
            forall|k: int| 0 <= k < i ==> s@[at + k] == word@[k],
        decreases word.len() - i,
    {
        if s[at + i] != word[i] {
            assert(s@.subrange(at as int, at + word.len())[i as int] == s@[at + i]);
            return false;
        }
        i += 1;
    }
    assert(s@.subrange(at as int, at + word.len()) =~= word@);
    true
}

/// Whether `line` starts with `word`.
pub fn starts_with(line: &str, word: &str) -> (r: bool)
    ensures
        r == has_word_at(line@, 0, word@),
{
    let chars = chars_of(line);
    let word_chars = chars_of(word);
    word_at(chars.as_slice(), 0, word_chars.as_slice())
}

/// Whether two texts hold the same characters.
pub fn same_text(a: &str, b: &str) -> (r: bool)
    ensures
        r == (a@ == b@),
{
    let x = a.as_bytes();
    let y = b.as_bytes();
    if x.len() != y.len() {
        return false;
    }
    let mut i: usize = 0;
    while i < x.len()
        invariant
            i <= x@.len(),
            x@.len() == y@.len(),
            x@ == a.spec_bytes(),
            y@ == b.spec_bytes(),
            forall|k: int| 0 <= k < i ==> x@[k] == y@[k],
        decreases x@.len() - i,
    {
        if x[i] != y[i] {
            return false;
        }
        i += 1;
    }
    proof {
        assert(x@ =~= y@);
        vstd::utf8::encode_utf8_decode_utf8(a@);
        vstd::utf8::encode_utf8_decode_utf8(b@);
    }
    true
}

} // verus!
