//! The grammar of npm-style version ranges, such as `">=2.2.7 <3"` or
//! `"^2.0.0 || ^1.1.13"`.
//!
//! A requirement is a list of ranges between double quotes, with `||`
//! between the ranges. A range is one bound, or a lower and an upper bound
//! side by side. A bound is an optional operator, a major number, and up to
//! two more components, each led in by a dot and each a number or the
//! wildcard `x`. Whitespace may stand around operators, dots and `||`.
//! The major number fits in 64 bits; a further number that does not is
//! read as absent.

use vstd::prelude::*;
use vstd::slice::slice_subrange;
use semver::VersionReq;
use vstd::utf8::{decode_utf8, encode_utf8_decode_utf8, encode_utf8_valid_utf8, valid_utf8};
use crate::outside::{text_from_utf8, version_req_from, version_req_of};

verus! {

/// How a bound constrains a version.
#[derive(Clone, Copy, Debug, PartialEq, Eq, Structural)]
pub enum Operator {
    /// Exactly this version.
    Ex,
    /// Greater than.
    Gt,
    /// Greater than or equal to.
    GtEq,
    /// Less than.
    Lt,
    /// Less than or equal to.
    LtEq,
    /// Led in by `~`.
    Tilde,
    /// Led in by `^`.
    Compatible,
    /// Any version with the given major number. No prefix stands for it:
    /// it is what a wildcard in the minor position makes of a bound.
    WildcardMinor,
}

/// A minor or patch component of a bound: a number, or the wildcard `x`.
#[derive(Clone, Copy, Debug, PartialEq, Eq, Structural)]
pub enum Component {
    Number(u64),
    Wildcard,
}

/// One bound of a range, as it is written.
#[derive(Clone, Copy, Debug, PartialEq, Eq, Structural)]
pub struct VersionBound {
    pub op: Operator,
    pub major: u64,
    pub minor: Option<Component>,
    pub patch: Option<Component>,
}

/// A lower bound and, where the range is closed, an upper bound.
#[derive(Clone, Copy, Debug, PartialEq, Eq, Structural)]
pub struct VersionRange {
    pub lower: VersionBound,
    pub upper: Option<VersionBound>,
}

/// One constraint of a version requirement, as the `semver` crate takes it:
/// an operator, a major number and, where they are given, a minor and a
/// patch number.
#[derive(Clone, Copy, Debug, PartialEq, Eq, Structural)]
pub struct Predicate {
    pub op: Operator,
    pub major: u64,
    pub minor: Option<u64>,
    pub patch: Option<u64>,
}

/// The bytes that the grammar skips between tokens: blank, tab, carriage
/// return and line feed.
pub open spec fn is_blank(b: u8) -> bool {
    b == 0x20 || b == 0x09 || b == 0x0d || b == 0x0a
}

/// The decimal digits.
pub open spec fn is_digit(b: u8) -> bool {
    0x30 <= b <= 0x39
}

/// The decimal digits and the letters of the Latin alphabet.
pub open spec fn is_alnum(b: u8) -> bool {
    is_digit(b) || (0x41 <= b <= 0x5a) || (0x61 <= b <= 0x7a)
}

/// The first index at or after `from` that holds no blank, or the length of
/// `s` when only blanks are left.
pub open spec fn skip_blanks(s: Seq<u8>, from: int) -> int
    decreases s.len() - from,
{
    if 0 <= from < s.len() && is_blank(s[from]) {
        skip_blanks(s, from + 1)
    } else {
        from
    }
}

/// The first index at or after `from` that holds neither digit nor letter,
/// or the length of `s` when only digits and letters are left.
pub open spec fn alnum_end(s: Seq<u8>, from: int) -> int
    decreases s.len() - from,
{
    if 0 <= from < s.len() && is_alnum(s[from]) {
        alnum_end(s, from + 1)
    } else {
        from
    }
}

/// `skip_blanks` stops at the first byte that is no blank.
pub proof fn lemma_skip_blanks(s: Seq<u8>, from: int)
    requires
        0 <= from <= s.len(),
    ensures
        from <= skip_blanks(s, from) <= s.len(),
        forall|i: int| from <= i < skip_blanks(s, from) ==> is_blank(#[trigger] s[i]),
        skip_blanks(s, from) < s.len() ==> !is_blank(s[skip_blanks(s, from)]),
    decreases s.len() - from,
{
    if from < s.len() && is_blank(s[from]) {
        lemma_skip_blanks(s, from + 1);
    }
}

/// `alnum_end` stops at the first byte that is neither digit nor letter.
pub proof fn lemma_alnum_end(s: Seq<u8>, from: int)
    requires
        0 <= from <= s.len(),
    ensures
        from <= alnum_end(s, from) <= s.len(),
        forall|i: int| from <= i < alnum_end(s, from) ==> is_alnum(#[trigger] s[i]),
        alnum_end(s, from) < s.len() ==> !is_alnum(s[alnum_end(s, from)]),
    decreases s.len() - from,
{
    if from < s.len() && is_alnum(s[from]) {
        lemma_alnum_end(s, from + 1);
    }
}

/// Whether `token` is made of decimal digits.
pub open spec fn all_digits(token: Seq<u8>) -> bool {
    forall|i: int| 0 <= i < token.len() ==> is_digit(#[trigger] token[i])
}

/// The number that a run of decimal digits stands for.
pub open spec fn digits_value(token: Seq<u8>) -> nat
    decreases token.len(),
{
    if token.len() == 0 {
        0
    } else {
        digits_value(token.drop_last()) * 10 + (token.last() - 0x30) as nat
    }
}

/// The number that `token` stands for: it is one digit or more, and the
/// number fits in 64 bits.
pub open spec fn number(token: Seq<u8>) -> Option<u64> {
    if token.len() > 0 && all_digits(token) && digits_value(token) <= u64::MAX {
        Some(digits_value(token) as u64)
    } else {
        None
    }
}

/// How a token reads as a minor or patch component. It is a component
/// where it is `x`, `X` or a run of digits; a run of digits whose number
/// does not fit in 64 bits is a component that leaves its position absent.
/// Any other token is no component.
pub open spec fn component(token: Seq<u8>) -> Option<Option<Component>> {
    if token == seq![0x78u8] || token == seq![0x58u8] {
        Some(Some(Component::Wildcard))
    } else if token.len() > 0 && all_digits(token) {
        match number(token) {
            Some(n) => Some(Some(Component::Number(n))),
            None => Some(None),
        }
    } else {
        None
    }
}

/// The operator that a prefix stands for.
pub open spec fn op_of_prefix(prefix: Seq<u8>) -> Option<Operator> {
    if prefix == seq![0x3du8] {
        Some(Operator::Ex)
    } else if prefix == seq![0x3eu8] {
        Some(Operator::Gt)
    } else if prefix == seq![0x3eu8, 0x3du8] {
        Some(Operator::GtEq)
    } else if prefix == seq![0x3cu8] {
        Some(Operator::Lt)
    } else if prefix == seq![0x3cu8, 0x3du8] {
        Some(Operator::LtEq)
    } else if prefix == seq![0x7eu8] {
        Some(Operator::Tilde)
    } else if prefix == seq![0x5eu8] {
        Some(Operator::Compatible)
    } else {
        None
    }
}

/// The operator of an optional prefix; no prefix stands for an exact match.
pub open spec fn op_of(prefix: Option<Seq<u8>>) -> Option<Operator> {
    match prefix {
        Some(prefix) => op_of_prefix(prefix),
        None => Some(Operator::Ex),
    }
}

/// The length of the prefix that stands at `p`: the longest of `<=`, `<`,
/// `>=`, `>`, `^`, `~` and `=` that is there, or nothing.
pub open spec fn prefix_len(s: Seq<u8>, p: int) -> int {
    if !(0 <= p < s.len()) {
        0
    } else if (s[p] == 0x3c || s[p] == 0x3e) && p + 1 < s.len() && s[p + 1] == 0x3d {
        2
    } else if s[p] == 0x3c || s[p] == 0x3e || s[p] == 0x5e || s[p] == 0x7e || s[p] == 0x3d {
        1
    } else {
        0
    }
}

/// The operator that the prefix at `p` stands for.
pub open spec fn op_at(s: Seq<u8>, p: int) -> Operator {
    if prefix_len(s, p) == 0 {
        Operator::Ex
    } else {
        match op_of_prefix(s.subrange(p, p + prefix_len(s, p))) {
            Some(op) => op,
            None => Operator::Ex,
        }
    }
}

/// A further component at `p`: a dot and a component, with whitespace
/// allowed around the dot. Where there is none, nothing is read. A run of
/// digits beyond 64 bits is read, and leaves the position absent.
pub open spec fn dot_component(s: Seq<u8>, p: int) -> (Option<Component>, int) {
    let dot = skip_blanks(s, p);
    if 0 <= dot < s.len() && s[dot] == 0x2e {
        let start = skip_blanks(s, dot + 1);
        let end = alnum_end(s, start);
        match component(s.subrange(start, end)) {
            Some(c) => (c, end),
            None => (None, p),
        }
    } else {
        (None, p)
    }
}

/// The bound that starts at `p`, and the index behind it and the
/// whitespace that follows it.
pub open spec fn bound_at(s: Seq<u8>, p: int) -> Option<(VersionBound, int)> {
    let start = skip_blanks(s, p);
    let major_start = skip_blanks(s, start + prefix_len(s, start));
    let major_end = alnum_end(s, major_start);
    if !(0 <= p <= s.len()) {
        None
    } else {
        match number(s.subrange(major_start, major_end)) {
            None => None,
            Some(major) => {
                let minor = dot_component(s, major_end);
                let patch = dot_component(s, minor.1);
                Some(
                    (
                        VersionBound { op: op_at(s, start), major, minor: minor.0, patch: patch.0 },
                        skip_blanks(s, patch.1),
                    ),
                )
            },
        }
    }
}

/// The range that starts at `p`: a bound, and a second one where it
/// follows.
pub open spec fn range_at(s: Seq<u8>, p: int) -> Option<(VersionRange, int)> {
    match bound_at(s, p) {
        None => None,
        Some((lower, next)) => match bound_at(s, next) {
            Some((upper, end)) => Some((VersionRange { lower, upper: Some(upper) }, end)),
            None => Some((VersionRange { lower, upper: None }, next)),
        },
    }
}

/// The index behind a `||` that follows `p`, with the whitespace on both
/// sides passed over.
pub open spec fn bars_after(s: Seq<u8>, p: int) -> Option<int> {
    let bars = skip_blanks(s, p);
    if 0 <= bars && bars + 1 < s.len() && s[bars] == 0x7c && s[bars + 1] == 0x7c {
        Some(skip_blanks(s, bars + 2))
    } else {
        None
    }
}

/// The list of ranges that starts at `p`: one range, then as many more as
/// `||` lead in. There is no list where no range stands at `p`, or where
/// none follows one of the `||`.
pub open spec fn ranges_from(s: Seq<u8>, p: int) -> Option<Seq<VersionRange>>
    decreases s.len() - p,
    via ranges_from_decreases
{
    match range_at(s, p) {
        None => None,
        Some((range, next)) => match bars_after(s, next) {
            None => Some(seq![range]),
            Some(q) => match ranges_from(s, q) {
                Some(more) => Some(seq![range] + more),
                None => None,
            },
        },
    }
}

#[via_fn]
proof fn ranges_from_decreases(s: Seq<u8>, p: int) {
    lemma_range_at(s, p);
    if let Some((range, next)) = range_at(s, p) {
        lemma_bars_after(s, next);
    }
}

/// The index behind the last range of the list that starts at `p`.
pub open spec fn ranges_end(s: Seq<u8>, p: int) -> int
    decreases s.len() - p,
    via ranges_end_decreases
{
    match range_at(s, p) {
        None => p,
        Some((range, next)) => match bars_after(s, next) {
            None => next,
            Some(q) => ranges_end(s, q),
        },
    }
}

#[via_fn]
proof fn ranges_end_decreases(s: Seq<u8>, p: int) {
    lemma_range_at(s, p);
    if let Some((range, next)) = range_at(s, p) {
        lemma_bars_after(s, next);
    }
}

/// A further component ends within the text, at or behind where it was
/// looked for.
pub proof fn lemma_dot_component(s: Seq<u8>, p: int)
    requires
        0 <= p <= s.len(),
    ensures
        p <= dot_component(s, p).1 <= s.len(),
{
    lemma_skip_blanks(s, p);
    let dot = skip_blanks(s, p);
    if dot < s.len() {
        lemma_skip_blanks(s, dot + 1);
        lemma_alnum_end(s, skip_blanks(s, dot + 1));
    }
}

/// A bound takes up at least one byte and ends within the text.
pub proof fn lemma_bound_at(s: Seq<u8>, p: int)
    requires
        0 <= p <= s.len(),
    ensures
        match bound_at(s, p) {
            Some((_, next)) => p < next <= s.len(),
            None => true,
        },
{
    lemma_skip_blanks(s, p);
    let start = skip_blanks(s, p);
    lemma_skip_blanks(s, start + prefix_len(s, start));
    let major_start = skip_blanks(s, start + prefix_len(s, start));
    lemma_alnum_end(s, major_start);
    let major_end = alnum_end(s, major_start);
    if number(s.subrange(major_start, major_end)) is Some {
        lemma_dot_component(s, major_end);
        let minor = dot_component(s, major_end);
        lemma_dot_component(s, minor.1);
        lemma_skip_blanks(s, dot_component(s, minor.1).1);
    }
}

/// A range takes up at least one byte and ends within the text.
pub proof fn lemma_range_at(s: Seq<u8>, p: int)
    ensures
        match range_at(s, p) {
            Some((_, next)) => 0 <= p < next <= s.len(),
            None => true,
        },
{
    if 0 <= p <= s.len() {
        lemma_bound_at(s, p);
        if let Some((lower, next)) = bound_at(s, p) {
            lemma_bound_at(s, next);
        }
    }
}

/// The index behind a `||` lies further on within the text.
pub proof fn lemma_bars_after(s: Seq<u8>, p: int)
    requires
        0 <= p <= s.len(),
    ensures
        match bars_after(s, p) {
            Some(q) => p < q <= s.len(),
            None => true,
        },
{
    lemma_skip_blanks(s, p);
    let bars = skip_blanks(s, p);
    if bars + 1 < s.len() {
        lemma_skip_blanks(s, bars + 2);
    }
}

/// What a requirement holds: its ranges, in order, and the index behind
/// its closing quote. It starts with a double quote, holds a list of
/// ranges, and its closing quote stands right behind the last range.
pub open spec fn requirement(s: Seq<u8>) -> Option<(Seq<VersionRange>, int)> {
    if s.len() > 0 && s[0] == 0x22 {
        let end = ranges_end(s, 1);
        match ranges_from(s, 1) {
            Some(ranges) => if 0 <= end < s.len() && s[end] == 0x22 {
                Some((ranges, end + 1))
            } else {
                None
            },
            None => None,
        }
    } else {
        None
    }
}

/// The constraint that a bound stands for. A wildcard in the minor
/// position makes the bound a wildcard match, whatever its operator; a
/// wildcard component leaves its position open.
pub open spec fn predicate_of(bound: VersionBound) -> Predicate {
    Predicate {
        op: if bound.minor == Some(Component::Wildcard) {
            Operator::WildcardMinor
        } else {
            bound.op
        },
        major: bound.major,
        minor: match bound.minor {
            Some(Component::Number(n)) => Some(n),
            _ => None,
        },
        patch: match bound.patch {
            Some(Component::Number(n)) => Some(n),
            _ => None,
        },
    }
}

/// A wildcard in the minor position makes a wildcard match of the bound,
/// whatever operator leads it in, and leaves the minor number open.
pub proof fn lemma_wildcard_minor(bound: VersionBound)
    requires
        bound.minor == Some(Component::Wildcard),
    ensures
        predicate_of(bound).op == Operator::WildcardMinor,
        predicate_of(bound).minor is None,
        predicate_of(bound).major == bound.major,
{
}

/// The constraints that a range stands for: that of its lower bound, then
/// that of its upper bound where it has one.
pub open spec fn predicates_of(range: VersionRange) -> Seq<Predicate> {
    match range.upper {
        Some(upper) => seq![predicate_of(range.lower), predicate_of(upper)],
        None => seq![predicate_of(range.lower)],
    }
}

/// Whether `b` is a blank.
fn blank(b: u8) -> (r: bool)
    ensures
        r == is_blank(b),
{
    b == 0x20 || b == 0x09 || b == 0x0d || b == 0x0a
}

/// Whether `b` is a digit or a letter.
fn alnum(b: u8) -> (r: bool)
    ensures
        r == is_alnum(b),
{
    (0x30 <= b && b <= 0x39) || (0x41 <= b && b <= 0x5a) || (0x61 <= b && b <= 0x7a)
}

/// Moves past the blanks that start at `from`.
fn past_blanks(s: &[u8], from: usize) -> (r: usize)
    requires
        from <= s.len(),
    ensures
        r == skip_blanks(s@, from as int),
        from <= r <= s.len(),
{
    let mut i: usize = from;
    while i < s.len() && blank(s[i])
        invariant
            from <= i <= s.len(),
            skip_blanks(s@, from as int) == skip_blanks(s@, i as int),
        decreases s.len() - i,
    {
        i += 1;
    }
    i
}

/// Moves past the digits and letters that start at `from`.
fn past_alnum(s: &[u8], from: usize) -> (r: usize)
    requires
        from <= s.len(),
    ensures
        r == alnum_end(s@, from as int),
        from <= r <= s.len(),
{
    let mut i: usize = from;
    while i < s.len() && alnum(s[i])
        invariant
            from <= i <= s.len(),
            alnum_end(s@, from as int) == alnum_end(s@, i as int),
        decreases s.len() - i,
    {
        i += 1;
    }
    i
}

/// The value of a run of digits is at least that of each of its prefixes.
proof fn lemma_digits_value_grows(token: Seq<u8>, k: int)
    requires
        0 <= k <= token.len(),
    ensures
        digits_value(token.take(k)) <= digits_value(token),
    decreases token.len() - k,
{
    if k < token.len() {
        assert(token.take(k + 1).drop_last() =~= token.take(k));
        lemma_digits_value_grows(token, k + 1);
    } else {
        assert(token.take(k) =~= token);
    }
}

/// Reads the bytes from `from` up to `to` as a number.
fn read_number(s: &[u8], from: usize, to: usize) -> (r: Option<u64>)
    requires
        from <= to <= s.len(),
    ensures
        r == number(s@.subrange(from as int, to as int)),
{
    let ghost token = s@.subrange(from as int, to as int);
    if from == to {
        return None;
    }
    let mut value: u64 = 0;
    let mut i: usize = from;
    assert(token.take(0) =~= Seq::<u8>::empty());
    while i < to
        invariant
            from <= i <= to <= s.len(),
            token == s@.subrange(from as int, to as int),
            all_digits(token.take(i - from)),
            value == digits_value(token.take(i - from)),
        decreases to - i,
    {
        let b: u8 = s[i];
        assert(token[i - from] == b);
        if !(0x30 <= b && b <= 0x39) {
            return None;
        }
        let digit: u64 = (b - 0x30) as u64;
        proof {
            assert(token.take(i - from + 1).drop_last() =~= token.take(i - from));
            assert(token.take(i - from + 1).last() == b);
            lemma_digits_value_grows(token, i - from + 1);
        }
        if value > (u64::MAX - digit) / 10 {
            assert(digits_value(token.take(i - from + 1)) > u64::MAX);
            return None;
        }
        value = value * 10 + digit;
        i += 1;
    }
    assert(token.take(to - from) =~= token);
    Some(value)
}

/// Whether the bytes from `from` up to `to` are one digit or more.
fn digits_only(s: &[u8], from: usize, to: usize) -> (r: bool)
    requires
        from <= to <= s.len(),
    ensures
        r == (from < to && all_digits(s@.subrange(from as int, to as int))),
{
    let ghost token = s@.subrange(from as int, to as int);
    if from == to {
        return false;
    }
    let mut i: usize = from;
    while i < to
        invariant
            from <= i <= to <= s.len(),
            token == s@.subrange(from as int, to as int),
            forall|k: int| 0 <= k < i - from ==> is_digit(#[trigger] token[k]),
        decreases to - i,
    {
        let b: u8 = s[i];
        assert(token[i - from] == b);
        if !(0x30 <= b && b <= 0x39) {
            return false;
        }
        i += 1;
    }
    true
}

/// Reads the bytes from `from` up to `to` as a component.
fn read_component(s: &[u8], from: usize, to: usize) -> (r: Option<Option<Component>>)
    requires
        from <= to <= s.len(),
    ensures
        r == component(s@.subrange(from as int, to as int)),
{
    let ghost token = s@.subrange(from as int, to as int);
    if to - from == 1 && (s[from] == 0x78 || s[from] == 0x58) {
        assert(token =~= seq![s@[from as int]]);
        return Some(Some(Component::Wildcard));
    }
    proof {
        if token == seq![0x78u8] || token == seq![0x58u8] {
            assert(token.len() == 1);
            assert(token[0] == s@[from as int]);
        }
    }
    if !digits_only(s, from, to) {
        return None;
    }
    match read_number(s, from, to) {
        Some(n) => Some(Some(Component::Number(n))),
        None => Some(None),
    }
}

/// The operator that a prefix stands for; without a prefix, the exact
/// match.
pub fn prefix_to_op(prefix: Option<&[u8]>) -> (r: Operator)
    requires
        op_of(
            match prefix {
                Some(prefix) => Some(prefix@),
                None => None,
            },
        ) is Some,
    ensures
        Some(r) == op_of(
            match prefix {
                Some(prefix) => Some(prefix@),
                None => None,
            },
        ),
{
    match prefix {
        None => Operator::Ex,
        Some(prefix) => {
            if prefix.len() == 2 {
                assert(prefix@ =~= seq![prefix@[0], prefix@[1]]);
                if prefix[0] == 0x3e {
                    Operator::GtEq
                } else {
                    Operator::LtEq
                }
            } else {
                assert(prefix@.len() == 1);
                assert(prefix@ =~= seq![prefix@[0]]);
                let b: u8 = prefix[0];
                if b == 0x3d {
                    Operator::Ex
                } else if b == 0x3e {
                    Operator::Gt
                } else if b == 0x3c {
                    Operator::Lt
                } else if b == 0x7e {
                    Operator::Tilde
                } else {
                    Operator::Compatible
                }
            }
        },
    }
}

/// Reads the operator at `p` and moves behind it.
fn op_piece(s: &[u8], p: usize) -> (r: (Operator, usize))
    requires
        p <= s.len(),
    ensures
        r.0 == op_at(s@, p as int),
        r.1 == p + prefix_len(s@, p as int),
        r.1 <= s.len(),
{
    if p >= s.len() {
        return (Operator::Ex, p);
    }
    let b: u8 = s[p];
    let len: usize = if (b == 0x3c || b == 0x3e) && p + 1 < s.len() && s[p + 1] == 0x3d {
        2
    } else if b == 0x3c || b == 0x3e || b == 0x5e || b == 0x7e || b == 0x3d {
        1
    } else {
        0
    };
    if len == 0 {
        (Operator::Ex, p)
    } else {
        let prefix = slice_subrange(s, p, p + len);
        proof {
            if len == 2 {
                assert(prefix@ =~= seq![s@[p as int], s@[p + 1]]);
            } else {
                assert(prefix@ =~= seq![s@[p as int]]);
            }
        }
        (prefix_to_op(Some(prefix)), p + len)
    }
}

/// Reads a further component at `p`.
fn dot_component_piece(s: &[u8], p: usize) -> (r: (Option<Component>, usize))
    requires
        p <= s.len(),
    ensures
        r.0 == dot_component(s@, p as int).0,
        r.1 == dot_component(s@, p as int).1,
        p <= r.1 <= s.len(),
{
    let dot: usize = past_blanks(s, p);
    if dot < s.len() && s[dot] == 0x2e {
        let start: usize = past_blanks(s, dot + 1);
        let end: usize = past_alnum(s, start);
        match read_component(s, start, end) {
            Some(c) => (c, end),
            None => (None, p),
        }
    } else {
        (None, p)
    }
}

/// Reads the bound that starts at `p`.
fn bound_piece(s: &[u8], p: usize) -> (r: Option<(VersionBound, usize)>)
    requires
        p <= s.len(),
    ensures
        match r {
            Some((bound, next)) => bound_at(s@, p as int) == Some((bound, next as int)) && p < next
                <= s.len(),
            None => bound_at(s@, p as int) is None,
        },
{
    proof {
        lemma_bound_at(s@, p as int);
    }
    let start: usize = past_blanks(s, p);
    let (op, behind) = op_piece(s, start);
    let major_start: usize = past_blanks(s, behind);
    let major_end: usize = past_alnum(s, major_start);
    match read_number(s, major_start, major_end) {
        None => None,
        Some(major) => {
            let (minor, minor_end) = dot_component_piece(s, major_end);
            let (patch, patch_end) = dot_component_piece(s, minor_end);
            Some((VersionBound { op, major, minor, patch }, past_blanks(s, patch_end)))
        },
    }
}

/// Reads the range that starts at `p`.
fn range_piece(s: &[u8], p: usize) -> (r: Option<(VersionRange, usize)>)
    requires
        p <= s.len(),
    ensures
        match r {
            Some((range, next)) => range_at(s@, p as int) == Some((range, next as int)) && p < next
                <= s.len(),
            None => range_at(s@, p as int) is None,
        },
{
    match bound_piece(s, p) {
        None => None,
        Some((lower, next)) => match bound_piece(s, next) {
            Some((upper, end)) => Some((VersionRange { lower, upper: Some(upper) }, end)),
            None => Some((VersionRange { lower, upper: None }, next)),
        },
    }
}

/// Moves behind a `||` that follows `p`.
fn bars_piece(s: &[u8], p: usize) -> (r: Option<usize>)
    requires
        p <= s.len(),
    ensures
        match r {
            Some(q) => bars_after(s@, p as int) == Some(q as int) && p < q <= s.len(),
            None => bars_after(s@, p as int) is None,
        },
{
    proof {
        lemma_bars_after(s@, p as int);
    }
    let bars: usize = past_blanks(s, p);
    if bars < s.len() && s.len() - bars > 1 && s[bars] == 0x7c && s[bars + 1] == 0x7c {
        Some(past_blanks(s, bars + 2))
    } else {
        None
    }
}

/// The value of a parser's result: the bytes left over, and what was read.
pub open spec fn left_of<T>(r: Option<(&[u8], T)>) -> Option<(Seq<u8>, T)> {
    match r {
        Some((rest, value)) => Some((rest@, value)),
        None => None,
    }
}

/// What `semver_bound` owes for a text.
pub open spec fn bound_entry(s: Seq<u8>) -> Option<(Seq<u8>, VersionBound)> {
    match bound_at(s, 0) {
        Some((bound, next)) => Some((s.subrange(next, s.len() as int), bound)),
        None => None,
    }
}

/// What `semver_range` owes for a text.
pub open spec fn range_entry(s: Seq<u8>) -> Option<(Seq<u8>, VersionRange)> {
    match range_at(s, 0) {
        Some((range, next)) => Some((s.subrange(next, s.len() as int), range)),
        None => None,
    }
}

/// What `semver_range_list` owes for a text.
pub open spec fn requirement_entry(s: Seq<u8>) -> Option<(Seq<u8>, Seq<VersionRange>)> {
    match requirement(s) {
        Some((ranges, next)) => Some((s.subrange(next, s.len() as int), ranges)),
        None => None,
    }
}

/// Reads one bound at the start of `raw`: an optional operator, a major
/// number and up to two further components. Returns the bytes left behind
/// the bound and the whitespace that follows it.
pub fn semver_bound(raw: &[u8]) -> (r: Option<(&[u8], VersionBound)>)
    ensures
        left_of(r) == bound_entry(raw@),
{
    match bound_piece(raw, 0) {
        Some((bound, next)) => Some((slice_subrange(raw, next, raw.len()), bound)),
        None => None,
    }
}

/// Reads one range at the start of `raw`: a bound, and a second one where
/// it follows. Returns the bytes left behind the range.
pub fn semver_range(raw: &[u8]) -> (r: Option<(&[u8], VersionRange)>)
    ensures
        left_of(r) == range_entry(raw@),
{
    match range_piece(raw, 0) {
        Some((range, next)) => Some((slice_subrange(raw, next, raw.len()), range)),
        None => None,
    }
}

/// What `tagged_semver` owes for a text: the bound at its start and, as
/// the tag, all that follows the bound, less a `-` that leads it in.
/// Nothing where no bound stands at the start, where nothing follows the
/// bound, or where what follows is no valid UTF-8. No bytes are left over.
pub open spec fn tagged_entry(s: Seq<u8>) -> Option<(Seq<u8>, (VersionBound, Seq<char>))> {
    match bound_at(s, 0) {
        Some((bound, next)) => {
            let start = if next < s.len() && s[next] == 0x2d {
                next + 1
            } else {
                next
            };
            let tag = s.subrange(start, s.len() as int);
            if next < s.len() && valid_utf8(tag) {
                Some((Seq::empty(), (bound, decode_utf8(tag))))
            } else {
                None
            }
        },
        None => None,
    }
}

/// The value of what `tagged_semver` returns.
pub open spec fn tagged_of(r: Option<(&[u8], (VersionBound, &str))>) -> Option<
    (Seq<u8>, (VersionBound, Seq<char>)),
> {
    match r {
        Some((rest, (bound, tag))) => Some((rest@, (bound, tag@))),
        None => None,
    }
}

/// Reads a bound with a tag behind it, as in `2.3.4-pre`: the bound, then
/// the rest of the text as the tag, without the `-` where one leads it in.
///
/// Fails where no bound stands at the start, where nothing follows the
/// bound, or where what follows is no valid UTF-8.
pub fn tagged_semver(raw: &[u8]) -> (r: Option<(&[u8], (VersionBound, &str))>)
    ensures
        tagged_of(r) == tagged_entry(raw@),
{
    match bound_piece(raw, 0) {
        None => None,
        Some((bound, next)) => {
            let n: usize = raw.len();
            if next >= n {
                return None;
            }
            let start: usize = if raw[next] == 0x2d {
                next + 1
            } else {
                next
            };
            match text_from_utf8(slice_subrange(raw, start, n)) {
                Some(tag) => {
                    proof {
                        encode_utf8_decode_utf8(tag@);
                        encode_utf8_valid_utf8(tag@);
                    }
                    let rest = slice_subrange(raw, n, n);
                    assert(rest@ =~= Seq::<u8>::empty());
                    Some((rest, (bound, tag)))
                },
                None => None,
            }
        },
    }
}

/// The value of what `semver_range_list` returns.
pub open spec fn ranges_of(r: Option<(&[u8], Vec<VersionRange>)>) -> Option<
    (Seq<u8>, Seq<VersionRange>),
> {
    match r {
        Some((rest, ranges)) => Some((rest@, ranges@)),
        None => None,
    }
}

/// The list that starts with `ranges` and goes on with `more`.
pub open spec fn ranges_then(ranges: Seq<VersionRange>, more: Option<Seq<VersionRange>>) -> Option<
    Seq<VersionRange>,
> {
    match more {
        Some(more) => Some(ranges + more),
        None => None,
    }
}

/// Reads a requirement at the start of `raw`: a double quote, one range or
/// more with `||` between them, and a double quote. Returns the bytes left
/// behind the closing quote and the ranges in order.
///
/// Fails where a quote is missing, where no range stands behind the
/// opening quote or behind a `||`, or where anything but the closing quote
/// follows the last range.
pub fn semver_range_list(raw: &[u8]) -> (r: Option<(&[u8], Vec<VersionRange>)>)
    ensures
        ranges_of(r) == requirement_entry(raw@),
        match r {
            Some((_, ranges)) => ranges@.len() > 0,
            None => true,
        },
{
    let n: usize = raw.len();
    if n == 0 || raw[0] != 0x22 {
        return None;
    }
    let mut ranges: Vec<VersionRange> = Vec::new();
    let mut at: usize = 1;
    let mut end: usize = 1;
    let mut going = true;
    assert(ranges_then(ranges@, ranges_from(raw@, 1)) =~= ranges_from(raw@, 1));
    while going
        invariant
            n == raw@.len(),
            1 <= at <= n,
            1 <= end <= n,
            going ==> ranges_from(raw@, 1) == ranges_then(ranges@, ranges_from(raw@, at as int)),
            going ==> ranges_end(raw@, 1) == ranges_end(raw@, at as int),
            !going ==> ranges_from(raw@, 1) == Some(ranges@),
            !going ==> ranges_end(raw@, 1) == end,
            !going ==> ranges@.len() > 0,
        decreases n - at + (if going { 1int } else { 0int }),
    {
        match range_piece(raw, at) {
            None => {
                return None;
            },
            Some((range, next)) => {
                let ghost before = ranges@;
                ranges.push(range);
                end = next;
                match bars_piece(raw, next) {
                    Some(q) => {
                        proof {
                            if let Some(more) = ranges_from(raw@, q as int) {
                                assert(before + (seq![range] + more) =~= ranges@ + more);
                            }
                        }
                        at = q;
                    },
                    None => {
                        going = false;
                        assert(before + seq![range] =~= ranges@);
                    },
                }
            },
        }
    }
    if end < n && raw[end] == 0x22 {
        Some((slice_subrange(raw, end + 1, n), ranges))
    } else {
        None
    }
}

/// The constraint that a bound stands for.
pub fn bound_predicate(bound: &VersionBound) -> (r: Predicate)
    ensures
        r == predicate_of(*bound),
{
    let op = match bound.minor {
        Some(Component::Wildcard) => Operator::WildcardMinor,
        _ => bound.op,
    };
    let minor = match bound.minor {
        Some(Component::Number(n)) => Some(n),
        _ => None,
    };
    let patch = match bound.patch {
        Some(Component::Number(n)) => Some(n),
        _ => None,
    };
    Predicate { op, major: bound.major, minor, patch }
}

/// The constraints that a range stands for, the lower bound's first.
pub fn range_predicates(range: &VersionRange) -> (r: Vec<Predicate>)
    ensures
        r@ == predicates_of(*range),
{
    let mut predicates: Vec<Predicate> = Vec::new();
    predicates.push(bound_predicate(&range.lower));
    if let Some(upper) = &range.upper {
        predicates.push(bound_predicate(upper));
    }
    assert(predicates@ =~= predicates_of(*range));
    predicates
}

/// The version requirement that a range stands for: a version meets it
/// where it meets the constraint of each bound.
pub fn range2req(range: &VersionRange) -> (r: VersionReq)
    ensures
        r == version_req_of(predicates_of(*range)),
{
    let predicates = range_predicates(range);
    version_req_from(&predicates)
}

/// The requirements that a list of ranges stands for, one for each range.
pub open spec fn reqs_of(ranges: Seq<VersionRange>) -> Seq<VersionReq> {
    Seq::new(ranges.len(), |i: int| version_req_of(predicates_of(ranges[i])))
}

/// What `version_reqs` owes for a text.
pub open spec fn reqs_entry(s: Seq<u8>) -> Option<(Seq<u8>, Seq<VersionReq>)> {
    match requirement(s) {
        Some((ranges, next)) => Some((s.subrange(next, s.len() as int), reqs_of(ranges))),
        None => None,
    }
}

/// The value of what `version_reqs` returns.
pub open spec fn reqs_result(r: Option<(&[u8], Vec<VersionReq>)>) -> Option<
    (Seq<u8>, Seq<VersionReq>),
> {
    match r {
        Some((rest, reqs)) => Some((rest@, reqs@)),
        None => None,
    }
}

/// Reads a requirement at the start of `raw` and returns, with the bytes
/// left behind it, one version requirement for each of its ranges: a
/// version is wanted that meets any of them.
pub fn version_reqs(raw: &[u8]) -> (r: Option<(&[u8], Vec<VersionReq>)>)
    ensures
        reqs_result(r) == reqs_entry(raw@),
{
    match semver_range_list(raw) {
        None => None,
        Some((rest, ranges)) => {
            let mut reqs: Vec<VersionReq> = Vec::new();
            let mut i: usize = 0;
            while i < ranges.len()
                invariant
                    i <= ranges@.len(),
                    reqs@.len() == i,
                    forall|k: int| 0 <= k < i ==> reqs@[k] == version_req_of(predicates_of(ranges@[k])),
                decreases ranges@.len() - i,
            {
                reqs.push(range2req(&ranges[i]));
                i += 1;
            }
            assert(reqs@ =~= reqs_of(ranges@));
            Some((rest, reqs))
        },
    }
}

} // verus!
