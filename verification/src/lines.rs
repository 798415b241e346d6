//! The line grammars: the list of specifiers of a head line, the
//! key/value line, and the lines that start with a given word.
//!
//! Each grammar is a spec function over the characters of a line, and each
//! reader is proved to return what its grammar holds.

use vstd::prelude::*;
use semver::{Version, VersionReq};
use url::Url;
use crate::outside::{
    MAX_SEMVER_BYTES, MAX_URL_WEIGHT, parse_url, parse_version, parse_version_req, parsed_url,
    parsed_version, parsed_version_req, semver_takes, url_char_weight, url_takes, url_weight,
};
use crate::specifier::{split_at_last_at, split_specifier, text_of};
use crate::text::{
    chars_of, has_word_at, is_space, lemma_scan_to, lemma_scan_to_is, lemma_skip_spaces,
    lemma_skip_spaces_is, past_spaces, scan_to, skip_spaces, up_to, word_at,
};

verus! {

/// A piece of a line: the characters from `start` up to `end`, and the index
/// `next` at which reading goes on behind it.
pub struct Cut {
    pub start: int,
    pub end: int,
    pub next: int,
}

/// A `Cut` in machine integers.
#[derive(Clone, Copy, Debug)]
pub struct Piece {
    pub start: usize,
    pub end: usize,
    pub next: usize,
}

impl View for Piece {
    type V = Cut;

    open spec fn view(&self) -> Cut {
        Cut { start: self.start as int, end: self.end as int, next: self.next as int }
    }
}

/// The value of an optional piece.
pub open spec fn cut_of(piece: Option<Piece>) -> Option<Cut> {
    match piece {
        Some(piece) => Some(piece@),
        None => None,
    }
}

/// The characters that end a bare specifier in a head line.
pub open spec fn bare_specifier_stops() -> Seq<char> {
    seq![',', ':', '"']
}

/// The specifier that starts at `p` in a head line.
///
/// A quoted specifier runs up to the closing quote, which must be there,
/// and may hold commas and colons; it is not empty. A bare specifier runs
/// up to the next comma, colon or quote, or to the end of the line; it is
/// not empty either.
pub open spec fn head_entry(s: Seq<char>, p: int) -> Option<Cut> {
    if !(0 <= p < s.len()) {
        None
    } else if s[p] == '"' {
        let close = scan_to(s, p + 1, seq!['"']);
        if p + 1 < close < s.len() {
            Some(Cut { start: p + 1, end: close, next: close + 1 })
        } else {
            None
        }
    } else {
        let end = scan_to(s, p, bare_specifier_stops());
        if p < end {
            Some(Cut { start: p, end, next: end })
        } else {
            None
        }
    }
}

/// The index behind a comma that follows `p`, with the whitespace on both
/// sides of the comma passed over.
pub open spec fn comma_after(s: Seq<char>, p: int) -> Option<int> {
    let comma = skip_spaces(s, p);
    if 0 <= comma < s.len() && s[comma] == ',' {
        Some(skip_spaces(s, comma + 1))
    } else {
        None
    }
}

/// The list of specifiers that starts at `p`: one specifier, then as many
/// more as commas lead in. There is no list where no specifier stands at
/// `p`, or where none follows one of the commas.
pub open spec fn head_cuts(s: Seq<char>, p: int) -> Option<Seq<Cut>>
    decreases s.len() - p,
    via head_cuts_decreases
{
    match head_entry(s, p) {
        None => None,
        Some(cut) => match comma_after(s, cut.next) {
            None => Some(seq![cut]),
            Some(q) => match head_cuts(s, q) {
                Some(more) => Some(seq![cut] + more),
                None => None,
            },
        },
    }
}

#[via_fn]
proof fn head_cuts_decreases(s: Seq<char>, p: int) {
    lemma_head_entry(s, p);
    if let Some(cut) = head_entry(s, p) {
        lemma_comma_after(s, cut.next);
    }
}

/// The index behind the last specifier of the list that starts at `p`.
pub open spec fn head_end(s: Seq<char>, p: int) -> int
    decreases s.len() - p,
    via head_end_decreases
{
    match head_entry(s, p) {
        None => p,
        Some(cut) => match comma_after(s, cut.next) {
            None => cut.next,
            Some(q) => head_end(s, q),
        },
    }
}

#[via_fn]
proof fn head_end_decreases(s: Seq<char>, p: int) {
    lemma_head_entry(s, p);
    if let Some(cut) = head_entry(s, p) {
        lemma_comma_after(s, cut.next);
    }
}

/// A specifier lies within the line, is not empty, and reading goes on
/// behind it.
pub proof fn lemma_head_entry(s: Seq<char>, p: int)
    ensures
        match head_entry(s, p) {
            Some(cut) => 0 <= p <= cut.start < cut.end <= cut.next <= s.len(),
            None => true,
        },
{
    if 0 <= p < s.len() {
        lemma_scan_to(s, p + 1, seq!['"']);
        lemma_scan_to(s, p, bare_specifier_stops());
    }
}

/// The index behind a comma lies further on within the line.
pub proof fn lemma_comma_after(s: Seq<char>, p: int)
    requires
        0 <= p <= s.len(),
    ensures
        match comma_after(s, p) {
            Some(q) => p < q <= s.len(),
            None => true,
        },
{
    lemma_skip_spaces(s, p);
    let comma = skip_spaces(s, p);
    if comma < s.len() {
        lemma_skip_spaces(s, comma + 1);
    }
}

/// The two halves of each specifier among `cuts`.
pub open spec fn split_cuts(s: Seq<char>, cuts: Seq<Cut>) -> Seq<
    (Option<Seq<char>>, Option<Seq<char>>),
> {
    Seq::new(cuts.len(), |i: int| split_specifier(s.subrange(cuts[i].start, cuts[i].end)))
}

/// What a head line holds: the text left behind its list of specifiers,
/// and for each specifier its requirement and its name. A line holds
/// nothing where it does not start with a specifier, or where a comma is
/// not followed by one.
pub open spec fn head_line(s: Seq<char>) -> Option<
    (Seq<char>, Seq<(Option<Seq<char>>, Option<Seq<char>>)>),
> {
    match head_cuts(s, 0) {
        Some(cuts) => Some((s.subrange(head_end(s, 0), s.len() as int), split_cuts(s, cuts))),
        None => None,
    }
}

/// The requirements and names of a list of split specifiers, as characters.
pub open spec fn pair_texts(pairs: Seq<(Option<&str>, Option<&str>)>) -> Seq<
    (Option<Seq<char>>, Option<Seq<char>>),
> {
    Seq::new(pairs.len(), |i: int| (text_of(pairs[i].0), text_of(pairs[i].1)))
}

/// The value of what `headline_parts` returns.
pub open spec fn head_line_of(r: Option<(&str, Vec<(Option<&str>, Option<&str>)>)>) -> Option<
    (Seq<char>, Seq<(Option<Seq<char>>, Option<Seq<char>>)>),
> {
    match r {
        Some((rest, pairs)) => Some((rest@, pair_texts(pairs@))),
        None => None,
    }
}

/// Reads the specifier that starts at `p`.
fn head_entry_at(s: &[char], p: usize) -> (r: Option<Piece>)
    requires
        p <= s.len(),
    ensures
        cut_of(r) == head_entry(s@, p as int),
{
    if p >= s.len() {
        return None;
    }
    proof {
        lemma_head_entry(s@, p as int);
    }
    if s[p] == '"' {
        let stops: [char; 1] = ['"'];
        assert(stops@ =~= seq!['"']);
        let close: usize = up_to(s, p + 1, stops.as_slice());
        if p + 1 < close && close < s.len() {
            Some(Piece { start: p + 1, end: close, next: close + 1 })
        } else {
            None
        }
    } else {
        let stops: [char; 3] = [',', ':', '"'];
        assert(stops@ =~= bare_specifier_stops());
        let end: usize = up_to(s, p, stops.as_slice());
        if p < end {
            Some(Piece { start: p, end, next: end })
        } else {
            None
        }
    }
}

/// Moves behind a comma that follows `p`.
fn comma_after_at(s: &[char], p: usize) -> (r: Option<usize>)
    requires
        p <= s.len(),
    ensures
        match r {
            Some(q) => comma_after(s@, p as int) == Some(q as int) && p < q <= s.len(),
            None => comma_after(s@, p as int) is None,
        },
{
    proof {
        lemma_comma_after(s@, p as int);
    }
    let comma: usize = past_spaces(s, p);
    if comma < s.len() && s[comma] == ',' {
        Some(past_spaces(s, comma + 1))
    } else {
        None
    }
}

/// The list that starts with `cuts` and goes on with `more`.
pub open spec fn cuts_then(cuts: Seq<Cut>, more: Option<Seq<Cut>>) -> Option<Seq<Cut>> {
    match more {
        Some(more) => Some(cuts + more),
        None => None,
    }
}

/// Reads a head line: a list of specifiers, bare or in double quotes, with
/// commas between them. Returns the text left behind the list and, for each
/// specifier in order, its requirement and its name.
///
/// Fails where the line does not start with a specifier, as an empty line
/// does not, or where a comma is not followed by one. What follows the last
/// specifier is left over, whatever it is.
pub fn headline_parts(content: &str) -> (r: Option<(&str, Vec<(Option<&str>, Option<&str>)>)>)
    ensures
        head_line_of(r) == head_line(content@),
        match r {
            Some((_, pairs)) => pairs@.len() > 0 && forall|i: int|
                0 <= i < pairs@.len() ==> (#[trigger] pairs@[i]).1 is Some,
            None => true,
        },
{
    let chars = chars_of(content);
    let s = chars.as_slice();
    let n: usize = s.len();
    let mut pairs: Vec<(Option<&str>, Option<&str>)> = Vec::new();
    let ghost mut cuts: Seq<Cut> = Seq::empty();
    let mut at: usize = 0;
    let mut end: usize = 0;
    let mut going = true;
    assert(cuts_then(cuts, head_cuts(s@, 0)) =~= head_cuts(s@, 0));
    while going
        invariant
            s@ == content@,
            n == s@.len(),
            at <= n,
            end <= n,
            going ==> head_cuts(s@, 0) == cuts_then(cuts, head_cuts(s@, at as int)),
            going ==> head_end(s@, 0) == head_end(s@, at as int),
            !going ==> head_cuts(s@, 0) == Some(cuts),
            !going ==> head_end(s@, 0) == end,
            !going ==> cuts.len() > 0,
            pair_texts(pairs@) == split_cuts(s@, cuts),
            forall|i: int| 0 <= i < pairs@.len() ==> (#[trigger] pairs@[i]).1 is Some,
        decreases n - at + (if going { 1int } else { 0int }),
    {
        match head_entry_at(s, at) {
            None => {
                return None;
            },
            Some(piece) => {
                proof {
                    lemma_head_entry(s@, at as int);
                }
                let ghost before = cuts;
                let ghost texts = pair_texts(pairs@);
                let pair = split_at_last_at(content.substring_char(piece.start, piece.end));
                pairs.push(pair);
                proof {
                    cuts = cuts.push(piece@);
                    assert(pair_texts(pairs@) =~= texts.push((text_of(pair.0), text_of(pair.1))));
                    assert(split_cuts(s@, cuts) =~= split_cuts(s@, before).push(
                        split_specifier(s@.subrange(piece@.start, piece@.end)),
                    ));
                }
                end = piece.next;
                match comma_after_at(s, piece.next) {
                    Some(q) => {
                        proof {
                            if let Some(more) = head_cuts(s@, q as int) {
                                assert(before + (seq![piece@] + more) =~= cuts + more);
                            }
                        }
                        at = q;
                    },
                    None => {
                        going = false;
                        assert(before + seq![piece@] =~= cuts);
                    },
                }
            },
        }
    }
    assert(pairs@.len() == pair_texts(pairs@).len());
    let rest = content.substring_char(end, n);
    Some((rest, pairs))
}

/// A head line of one bare specifier and a colon holds that specifier,
/// split at its last `@`, and leaves the colon.
pub proof fn lemma_single_specifier(specifier: Seq<char>)
    requires
        specifier.len() > 0,
        forall|i: int|
            0 <= i < specifier.len() ==> (#[trigger] specifier[i]) != ',' && specifier[i] != ':'
                && specifier[i] != '"',
    ensures
        head_line(specifier + seq![':']) == Some(
            (seq![':'], seq![split_specifier(specifier)]),
        ),
{
    let s = specifier + seq![':'];
    let n = specifier.len() as int;
    let stops = bare_specifier_stops();
    assert(stops.len() == 3 && stops[0] == ',' && stops[1] == ':' && stops[2] == '"');
    assert(stops.contains(':'));
    assert(s[n] == ':');
    assert forall|i: int| 0 <= i < n implies !stops.contains(#[trigger] s[i]) by {
        assert(s[i] == specifier[i]);
    }
    lemma_scan_to_is(s, 0, n, stops);
    assert(s[0] == specifier[0]);
    assert(head_entry(s, 0) == Some(Cut { start: 0, end: n, next: n }));
    assert(skip_spaces(s, n) == n);
    assert(comma_after(s, n) is None);
    assert(head_cuts(s, 0) == Some(seq![Cut { start: 0, end: n, next: n }]));
    assert(head_end(s, 0) == n);
    assert(s.subrange(0, n) =~= specifier);
    assert(s.subrange(n, s.len() as int) =~= seq![':']);
    assert(split_cuts(s, seq![Cut { start: 0, end: n, next: n }]) =~= seq![
        split_specifier(specifier),
    ]);
}

/// How an attempt to read something at an index ends: it is there; the
/// line holds something else; or the line ends before it is complete.
pub enum Scan<T> {
    Found(T),
    Mismatch,
    Short,
}

/// The value of a scanned piece.
pub open spec fn scan_of(scan: Scan<Piece>) -> Scan<Cut> {
    match scan {
        Scan::Found(piece) => Scan::Found(piece@),
        Scan::Mismatch => Scan::Mismatch,
        Scan::Short => Scan::Short,
    }
}

/// The characters that a quoted word cannot hold.
pub open spec fn quoted_word_stops() -> Seq<char> {
    seq![',', '"']
}

/// The quoted word that starts at `p`: a double quote, one character or
/// more that are neither comma nor quote, and a closing double quote.
///
/// The attempt is `Short` where the line ends before the closing quote,
/// and a `Mismatch` where `p` holds no quote, the word is empty, or a comma
/// stands in it.
pub open spec fn quoted_word(s: Seq<char>, p: int) -> Scan<Cut> {
    if !(0 <= p < s.len()) {
        Scan::Short
    } else if s[p] != '"' {
        Scan::Mismatch
    } else {
        let close = scan_to(s, p + 1, quoted_word_stops());
        if close >= s.len() {
            Scan::Short
        } else if close == p + 1 || s[close] != '"' {
            Scan::Mismatch
        } else {
            Scan::Found(Cut { start: p + 1, end: close, next: close + 1 })
        }
    }
}

/// The bare word that starts at `p`: one character or more up to the next
/// blank or the end of the line.
pub open spec fn bare_word(s: Seq<char>, p: int) -> Option<Cut> {
    let end = scan_to(s, p, seq![' ']);
    if 0 <= p < end {
        Some(Cut { start: p, end, next: end })
    } else {
        None
    }
}

/// The word that starts at `p`: a quoted word, or, where the line holds
/// something else there, a bare word. A quoted word that the line's end
/// cuts short is no word.
pub open spec fn word(s: Seq<char>, p: int) -> Option<Cut> {
    match quoted_word(s, p) {
        Scan::Found(cut) => Some(cut),
        Scan::Short => None,
        Scan::Mismatch => bare_word(s, p),
    }
}

/// A word lies within the line, is not empty, and reading goes on behind it.
pub proof fn lemma_word(s: Seq<char>, p: int)
    ensures
        match word(s, p) {
            Some(cut) => 0 <= p <= cut.start < cut.end <= cut.next <= s.len(),
            None => true,
        },
        match quoted_word(s, p) {
            Scan::Found(cut) => 0 <= p <= cut.start < cut.end <= cut.next <= s.len(),
            _ => true,
        },
{
    if 0 <= p < s.len() {
        lemma_scan_to(s, p + 1, quoted_word_stops());
        lemma_scan_to(s, p, seq![' ']);
    }
}

/// A key and a value on one line: a word, then a quoted word, with
/// whitespace allowed before, between and behind them. The first index is
/// that of the text left behind the value.
pub open spec fn key_value(s: Seq<char>) -> Option<(int, Cut, Cut)> {
    match word(s, skip_spaces(s, 0)) {
        None => None,
        Some(key) => match quoted_word(s, skip_spaces(s, key.next)) {
            Scan::Found(value) => Some((skip_spaces(s, value.next), key, value)),
            _ => None,
        },
    }
}

/// What a key/value line holds: the text left behind the value, the key,
/// and the value, quotes taken off.
pub open spec fn key_value_text(s: Seq<char>) -> Option<(Seq<char>, (Seq<char>, Seq<char>))> {
    match key_value(s) {
        None => None,
        Some((rest, key, value)) => Some(
            (
                s.subrange(rest, s.len() as int),
                (s.subrange(key.start, key.end), s.subrange(value.start, value.end)),
            ),
        ),
    }
}

/// The value on a line that starts with `tag`: the tag, then a word, with
/// whitespace allowed before, between and behind them. The first index is
/// that of the text left behind the value.
pub open spec fn tagged(s: Seq<char>, tag: Seq<char>) -> Option<(int, Cut)> {
    let p = skip_spaces(s, 0);
    if has_word_at(s, p, tag) {
        match word(s, skip_spaces(s, p + tag.len())) {
            Some(value) => Some((skip_spaces(s, value.next), value)),
            None => None,
        }
    } else {
        None
    }
}

/// What a line that starts with `tag` holds: the text left behind the
/// value, and the value, quotes taken off.
pub open spec fn tagged_text(s: Seq<char>, tag: Seq<char>) -> Option<(Seq<char>, Seq<char>)> {
    match tagged(s, tag) {
        None => None,
        Some((rest, value)) => Some(
            (s.subrange(rest, s.len() as int), s.subrange(value.start, value.end)),
        ),
    }
}

/// A key/value line with a bare key: the key, a blank, and the value in
/// double quotes.
pub open spec fn bare_key_line(key: Seq<char>, value: Seq<char>) -> Seq<char> {
    key + seq![' ', '"'] + value + seq!['"']
}

/// A key/value line with a quoted key: the key in double quotes, a blank,
/// and the value in double quotes.
pub open spec fn quoted_key_line(key: Seq<char>, value: Seq<char>) -> Seq<char> {
    seq!['"'] + key + seq!['"', ' ', '"'] + value + seq!['"']
}

/// Whether `word` can stand in double quotes: it is not empty and holds
/// neither comma nor quote.
pub open spec fn quotable(word: Seq<char>) -> bool {
    word.len() > 0 && forall|i: int|
        0 <= i < word.len() ==> (#[trigger] word[i]) != ',' && word[i] != '"'
}

/// Quoting the key changes nothing: a key that can be written either way,
/// bare or in double quotes, gives the same key and value, with nothing
/// left over.
pub proof fn lemma_key_quoting(key: Seq<char>, value: Seq<char>)
    requires
        quotable(key),
        quotable(value),
        !is_space(key[0]),
        forall|i: int| 0 <= i < key.len() ==> (#[trigger] key[i]) != ' ',
    ensures
        key_value_text(bare_key_line(key, value)) == Some((Seq::<char>::empty(), (key, value))),
        key_value_text(quoted_key_line(key, value)) == Some(
            (Seq::<char>::empty(), (key, value)),
        ),
{
    let n = key.len() as int;
    let m = value.len() as int;
    let stops = quoted_word_stops();
    assert(stops.len() == 2 && stops[0] == ',' && stops[1] == '"');
    let blank = seq![' '];
    assert(blank.len() == 1 && blank[0] == ' ');
    assert(stops.contains('"'));
    assert(blank.contains(' '));
    {
        let s = bare_key_line(key, value);
        assert(s.len() == n + m + 3);
        assert forall|i: int| 0 <= i < n implies s[i] == key[i] by {}
        assert(s[n] == ' ' && s[n + 1] == '"' && s[n + m + 2] == '"');
        assert forall|i: int| 0 <= i < m implies s[n + 2 + i] == value[i] by {}
        assert(skip_spaces(s, 0) == 0);
        assert forall|i: int| 0 <= i < n implies !blank.contains(#[trigger] s[i]) by {
            assert(s[i] == key[i]);
        }
        lemma_scan_to_is(s, 0, n, blank);
        assert(quoted_word(s, 0) == Scan::<Cut>::Mismatch);
        assert(word(s, 0) == Some(Cut { start: 0, end: n, next: n }));
        lemma_skip_spaces_is(s, n, n + 1);
        assert forall|i: int| n + 2 <= i < n + 2 + m implies !stops.contains(#[trigger] s[i]) by {
            assert(s[i] == value[i - n - 2]);
        }
        lemma_scan_to_is(s, n + 2, n + 2 + m, stops);
        assert(quoted_word(s, n + 1) == Scan::Found(
            Cut { start: n + 2, end: n + 2 + m, next: n + 3 + m },
        ));
        assert(skip_spaces(s, n + 3 + m) == n + 3 + m);
        assert(s.subrange(0, n) =~= key);
        assert(s.subrange(n + 2, n + 2 + m) =~= value);
        assert(s.subrange(n + 3 + m, s.len() as int) =~= Seq::<char>::empty());
    }
    {
        let s = quoted_key_line(key, value);
        assert(s.len() == n + m + 5);
        assert(s[0] == '"');
        assert forall|i: int| 0 <= i < n implies s[1 + i] == key[i] by {}
        assert(s[n + 1] == '"' && s[n + 2] == ' ' && s[n + 3] == '"' && s[n + m + 4] == '"');
        assert forall|i: int| 0 <= i < m implies s[n + 4 + i] == value[i] by {}
        assert(skip_spaces(s, 0) == 0);
        assert forall|i: int| 1 <= i < n + 1 implies !stops.contains(#[trigger] s[i]) by {
            assert(s[i] == key[i - 1]);
        }
        lemma_scan_to_is(s, 1, n + 1, stops);
        assert(quoted_word(s, 0) == Scan::Found(Cut { start: 1, end: n + 1, next: n + 2 }));
        lemma_skip_spaces_is(s, n + 2, n + 3);
        assert forall|i: int| n + 4 <= i < n + 4 + m implies !stops.contains(#[trigger] s[i]) by {
            assert(s[i] == value[i - n - 4]);
        }
        lemma_scan_to_is(s, n + 4, n + 4 + m, stops);
        assert(quoted_word(s, n + 3) == Scan::Found(
            Cut { start: n + 4, end: n + 4 + m, next: n + 5 + m },
        ));
        assert(skip_spaces(s, n + 5 + m) == n + 5 + m);
        assert(s.subrange(1, n + 1) =~= key);
        assert(s.subrange(n + 4, n + 4 + m) =~= value);
        assert(s.subrange(n + 5 + m, s.len() as int) =~= Seq::<char>::empty());
    }
}

/// Quoting the key changes nothing where the value is empty either: both
/// lines hold nothing.
pub proof fn lemma_key_quoting_empty_value(key: Seq<char>)
    requires
        quotable(key),
        !is_space(key[0]),
        forall|i: int| 0 <= i < key.len() ==> (#[trigger] key[i]) != ' ',
    ensures
        key_value_text(bare_key_line(key, Seq::empty())) is None,
        key_value_text(quoted_key_line(key, Seq::empty())) is None,
{
    let n = key.len() as int;
    let stops = quoted_word_stops();
    assert(stops.len() == 2 && stops[0] == ',' && stops[1] == '"');
    let blank = seq![' '];
    assert(blank.len() == 1 && blank[0] == ' ');
    assert(stops.contains('"'));
    assert(blank.contains(' '));
    {
        let s = bare_key_line(key, Seq::empty());
        assert(s.len() == n + 3);
        assert forall|i: int| 0 <= i < n implies s[i] == key[i] by {}
        assert(s[n] == ' ' && s[n + 1] == '"' && s[n + 2] == '"');
        assert(skip_spaces(s, 0) == 0);
        assert forall|i: int| 0 <= i < n implies !blank.contains(#[trigger] s[i]) by {
            assert(s[i] == key[i]);
        }
        lemma_scan_to_is(s, 0, n, blank);
        assert(quoted_word(s, 0) == Scan::<Cut>::Mismatch);
        assert(word(s, 0) == Some(Cut { start: 0, end: n, next: n }));
        lemma_skip_spaces_is(s, n, n + 1);
        lemma_scan_to_is(s, n + 2, n + 2, stops);
        assert(quoted_word(s, n + 1) == Scan::<Cut>::Mismatch);
    }
    {
        let s = quoted_key_line(key, Seq::empty());
        assert(s.len() == n + 5);
        assert(s[0] == '"');
        assert forall|i: int| 0 <= i < n implies s[1 + i] == key[i] by {}
        assert(s[n + 1] == '"' && s[n + 2] == ' ' && s[n + 3] == '"' && s[n + 4] == '"');
        assert(skip_spaces(s, 0) == 0);
        assert forall|i: int| 1 <= i < n + 1 implies !stops.contains(#[trigger] s[i]) by {
            assert(s[i] == key[i - 1]);
        }
        lemma_scan_to_is(s, 1, n + 1, stops);
        assert(quoted_word(s, 0) == Scan::Found(Cut { start: 1, end: n + 1, next: n + 2 }));
        lemma_skip_spaces_is(s, n + 2, n + 3);
        lemma_scan_to_is(s, n + 4, n + 4, stops);
        assert(quoted_word(s, n + 3) == Scan::<Cut>::Mismatch);
    }
}

/// Reads the quoted word that starts at `p`.
fn quoted_word_at(s: &[char], p: usize) -> (r: Scan<Piece>)
    requires
        p <= s.len(),
    ensures
        scan_of(r) == quoted_word(s@, p as int),
{
    if p >= s.len() {
        return Scan::Short;
    }
    if s[p] != '"' {
        return Scan::Mismatch;
    }
    let stops: [char; 2] = [',', '"'];
    assert(stops@ =~= quoted_word_stops());
    let close: usize = up_to(s, p + 1, stops.as_slice());
    if close >= s.len() {
        Scan::Short
    } else if close == p + 1 || s[close] != '"' {
        Scan::Mismatch
    } else {
        Scan::Found(Piece { start: p + 1, end: close, next: close + 1 })
    }
}

/// Reads the word that starts at `p`.
fn word_piece(s: &[char], p: usize) -> (r: Option<Piece>)
    requires
        p <= s.len(),
    ensures
        cut_of(r) == word(s@, p as int),
        match r {
            Some(piece) => p <= piece.start < piece.end <= piece.next <= s.len(),
            None => true,
        },
{
    proof {
        lemma_word(s@, p as int);
    }
    match quoted_word_at(s, p) {
        Scan::Found(piece) => Some(piece),
        Scan::Short => None,
        Scan::Mismatch => {
            let stops: [char; 1] = [' '];
            assert(stops@ =~= seq![' ']);
            let end: usize = up_to(s, p, stops.as_slice());
            if p < end {
                Some(Piece { start: p, end, next: end })
            } else {
                None
            }
        },
    }
}

/// The value of what `key_value_line` returns.
pub open spec fn key_value_of(r: Option<(&str, (&str, &str))>) -> Option<
    (Seq<char>, (Seq<char>, Seq<char>)),
> {
    match r {
        Some((rest, (key, value))) => Some((rest@, (key@, value@))),
        None => None,
    }
}

/// The value of a parser's result whose second part is a text.
pub open spec fn text_entry_of(r: Option<(&str, &str)>) -> Option<(Seq<char>, Seq<char>)> {
    match r {
        Some((rest, value)) => Some((rest@, value@)),
        None => None,
    }
}

/// Reads a key/value line: a key, bare or in double quotes, and a value in
/// double quotes. Returns the text left behind the value, the key and the
/// value, both without their quotes.
pub fn key_value_line(content: &str) -> (r: Option<(&str, (&str, &str))>)
    ensures
        key_value_of(r) == key_value_text(content@),
{
    let chars = chars_of(content);
    let s = chars.as_slice();
    let n: usize = s.len();
    let start: usize = past_spaces(s, 0);
    match word_piece(s, start) {
        None => None,
        Some(key) => {
            proof {
                lemma_word(s@, skip_spaces(s@, key.next as int));
            }
            match quoted_word_at(s, past_spaces(s, key.next)) {
                Scan::Found(value) => {
                    let rest: usize = past_spaces(s, value.next);
                    Some(
                        (
                            content.substring_char(rest, n),
                            (
                                content.substring_char(key.start, key.end),
                                content.substring_char(value.start, value.end),
                            ),
                        ),
                    )
                },
                _ => None,
            }
        },
    }
}

/// Reads a line that starts with `tag`: the tag and a value, bare or in
/// double quotes. Returns the text left behind the value, and the value
/// without its quotes.
pub fn tagged_line<'a>(content: &'a str, tag: &str) -> (r: Option<(&'a str, &'a str)>)
    ensures
        text_entry_of(r) == tagged_text(content@, tag@),
{
    let chars = chars_of(content);
    let s = chars.as_slice();
    let n: usize = s.len();
    let tag_chars = chars_of(tag);
    let start: usize = past_spaces(s, 0);
    if !word_at(s, start, tag_chars.as_slice()) {
        return None;
    }
    match word_piece(s, past_spaces(s, start + tag_chars.len())) {
        None => None,
        Some(value) => {
            let rest: usize = past_spaces(s, value.next);
            Some((content.substring_char(rest, n), content.substring_char(value.start, value.end)))
        },
    }
}

/// The version that `text` stands for: what `semver` makes of it, and
/// nothing where the text is too long to be handed over.
pub open spec fn version_in(text: Seq<char>) -> Option<Version> {
    if semver_takes(text) {
        parsed_version(text)
    } else {
        None
    }
}

/// The requirement that `text` stands for: what `semver` makes of it,
/// and nothing where the text is too long to be handed over.
pub open spec fn requirement_in(text: Seq<char>) -> Option<VersionReq> {
    if semver_takes(text) {
        parsed_version_req(text)
    } else {
        None
    }
}

/// The location that `text` stands for: what `url` makes of it, and
/// nothing where the text weighs too much to be handed over.
pub open spec fn location_in(text: Seq<char>) -> Option<Url> {
    if url_takes(text) {
        parsed_url(text)
    } else {
        None
    }
}

/// The weight of a text is at least that of each of its prefixes.
pub proof fn lemma_url_weight_grows(text: Seq<char>, k: int)
    requires
        0 <= k <= text.len(),
    ensures
        url_weight(text.take(k)) <= url_weight(text),
    decreases text.len() - k,
{
    if k < text.len() {
        assert(text.take(k + 1).drop_last() =~= text.take(k));
        lemma_url_weight_grows(text, k + 1);
    } else {
        assert(text.take(k) =~= text);
    }
}

/// Whether `text` is light enough to be read as a location.
pub fn light_enough(text: &str) -> (r: bool)
    ensures
        r == url_takes(text@),
{
    let chars = chars_of(text);
    let mut weight: usize = 0;
    let mut i: usize = 0;
    assert(chars@.take(0) =~= Seq::<char>::empty());
    while i < chars.len()
        invariant
            i <= chars@.len(),
            chars@ == text@,
            weight == url_weight(chars@.take(i as int)),
            weight <= MAX_URL_WEIGHT,
        decreases chars@.len() - i,
    {
        let c: char = chars[i];
        proof {
            assert(chars@.take(i + 1).drop_last() =~= chars@.take(i as int));
            assert(chars@.take(i + 1).last() == c);
            lemma_url_weight_grows(chars@, i + 1);
        }
        let step: usize = if (c as u32) < 0x80 && c != '%' {
            1
        } else {
            100
        };
        assert(step == url_char_weight(c));
        if weight > MAX_URL_WEIGHT - step {
            return false;
        }
        weight = weight + step;
        i += 1;
    }
    assert(chars@.take(i as int) =~= chars@);
    true
}

/// Reads a version. Fails where `text` is none, or is too long.
pub fn read_version(text: &str) -> (r: Option<Version>)
    ensures
        r == version_in(text@),
{
    if text.as_bytes().len() <= MAX_SEMVER_BYTES {
        parse_version(text)
    } else {
        None
    }
}

/// Reads a version requirement. Fails where `text` is none, or is too
/// long.
pub fn read_requirement(text: &str) -> (r: Option<VersionReq>)
    ensures
        r == requirement_in(text@),
{
    if text.as_bytes().len() <= MAX_SEMVER_BYTES {
        parse_version_req(text)
    } else {
        None
    }
}

/// Reads a location. Fails where `text` is none, or weighs too much.
pub fn read_location(text: &str) -> (r: Option<Url>)
    ensures
        r == location_in(text@),
{
    if light_enough(text) {
        parse_url(text)
    } else {
        None
    }
}

/// The value of a parser's result: the text left over, and what was read.
pub open spec fn entry_of<T>(r: Option<(&str, T)>) -> Option<(Seq<char>, T)> {
    match r {
        Some((rest, value)) => Some((rest@, value)),
        None => None,
    }
}

/// What a `version` line holds: the text left behind the value, and the
/// version that the value stands for. A value that stands for no version
/// makes the line hold nothing.
pub open spec fn version_entry(s: Seq<char>) -> Option<(Seq<char>, Version)> {
    match tagged_text(s, "version"@) {
        Some((rest, value)) => match version_in(value) {
            Some(version) => Some((rest, version)),
            None => None,
        },
        None => None,
    }
}

/// What a `version` line holds when its value is read as a requirement.
pub open spec fn versionreq_entry(s: Seq<char>) -> Option<(Seq<char>, VersionReq)> {
    match tagged_text(s, "version"@) {
        Some((rest, value)) => match requirement_in(value) {
            Some(req) => Some((rest, req)),
            None => None,
        },
        None => None,
    }
}

/// What a `resolved` line holds: the text left behind the value, and the
/// location that the value stands for.
pub open spec fn resolved_entry(s: Seq<char>) -> Option<(Seq<char>, Url)> {
    match tagged_text(s, "resolved"@) {
        Some((rest, value)) => match location_in(value) {
            Some(url) => Some((rest, url)),
            None => None,
        },
        None => None,
    }
}

/// What a dependency line holds: the text left behind the value, the
/// dependency's name, and the requirement that the value stands for.
pub open spec fn dependency_entry(s: Seq<char>) -> Option<(Seq<char>, (Seq<char>, VersionReq))> {
    match key_value_text(s) {
        Some((rest, (name, value))) => match requirement_in(value) {
            Some(req) => Some((rest, (name, req))),
            None => None,
        },
        None => None,
    }
}

/// The value of what `dependency_line` returns.
pub open spec fn dependency_of(r: Option<(&str, (&str, VersionReq))>) -> Option<
    (Seq<char>, (Seq<char>, VersionReq)),
> {
    match r {
        Some((rest, (name, req))) => Some((rest@, (name@, req))),
        None => None,
    }
}

/// Reads a dependency line: a name, bare or in double quotes, and a
/// requirement in double quotes. Fails where the line is no key/value line
/// or its value is no requirement.
pub fn dependency_line(content: &str) -> (r: Option<(&str, (&str, VersionReq))>)
    ensures
        dependency_of(r) == dependency_entry(content@),
{
    match key_value_line(content) {
        Some((rest, (name, value))) => match read_requirement(value) {
            Some(req) => Some((rest, (name, req))),
            None => None,
        },
        None => None,
    }
}

/// Reads a `version` line: the word `version` and a version, bare or in
/// double quotes. Fails where the line does not start so or its value is
/// no version.
pub fn version_line(content: &str) -> (r: Option<(&str, Version)>)
    ensures
        entry_of(r) == version_entry(content@),
{
    match tagged_line(content, "version") {
        Some((rest, value)) => match read_version(value) {
            Some(version) => Some((rest, version)),
            None => None,
        },
        None => None,
    }
}

/// Reads a `version` line whose value is a requirement. Fails where the
/// line does not start with `version` or its value is no requirement.
pub fn versionreq_line(content: &str) -> (r: Option<(&str, VersionReq)>)
    ensures
        entry_of(r) == versionreq_entry(content@),
{
    match tagged_line(content, "version") {
        Some((rest, value)) => match read_requirement(value) {
            Some(req) => Some((rest, req)),
            None => None,
        },
        None => None,
    }
}

/// Reads a `resolved` line: the word `resolved` and a location, bare or in
/// double quotes. Fails where the line does not start so or its value is
/// no location.
pub fn resolved_line(content: &str) -> (r: Option<(&str, Url)>)
    ensures
        entry_of(r) == resolved_entry(content@),
{
    match tagged_line(content, "resolved") {
        Some((rest, value)) => match read_location(value) {
            Some(url) => Some((rest, url)),
            None => None,
        },
        None => None,
    }
}

} // verus!
