//! Package specifiers: a name and a requirement with an `@` between them.

use vstd::prelude::*;
use crate::text::chars_of;

verus! {

/// The characters of an optional string slice.
pub open spec fn text_of(t: Option<&str>) -> Option<Seq<char>> {
    match t {
        Some(t) => Some(t@),
        None => None,
    }
}

/// The index of the last occurrence of `c` in `s`, or `-1` when `s` does not
/// hold `c`.
pub open spec fn last_index_of(s: Seq<char>, c: char) -> int
    decreases s.len(),
{
    if s.len() == 0 {
        -1
    } else if s.last() == c {
        s.len() - 1
    } else {
        last_index_of(s.drop_last(), c)
    }
}

/// A specifier split at its last `@`: the requirement behind it and the name
/// before it. Without an `@` the whole specifier is the name.
pub open spec fn split_specifier(s: Seq<char>) -> (Option<Seq<char>>, Option<Seq<char>>) {
    let k = last_index_of(s, '@');
    if k < 0 {
        (None, Some(s))
    } else {
        (Some(s.subrange(k + 1, s.len() as int)), Some(s.subrange(0, k)))
    }
}

/// `last_index_of` names the last place of `c`: no later index holds it.
pub proof fn lemma_last_index_of(s: Seq<char>, c: char)
    ensures
        -1 <= last_index_of(s, c) < s.len(),
        last_index_of(s, c) >= 0 ==> s[last_index_of(s, c)] == c,
        forall|i: int| last_index_of(s, c) < i < s.len() ==> #[trigger] s[i] != c,
    decreases s.len(),
{
    if s.len() > 0 && s.last() != c {
        lemma_last_index_of(s.drop_last(), c);
        assert forall|i: int| last_index_of(s, c) < i < s.len() implies #[trigger] s[i] != c by {
            if i < s.len() - 1 {
                assert(s.drop_last()[i] == s[i]);
            }
        }
    }
}

/// A specifier that holds an `@` is its name, an `@` and its requirement,
/// and the requirement holds no `@`; one that holds none is all name.
pub proof fn lemma_split_specifier(s: Seq<char>)
    ensures
        match split_specifier(s) {
            (Some(req), Some(name)) => {
                &&& s.contains('@')
                &&& name + seq!['@'] + req == s
                &&& !req.contains('@')
            },
            (None, Some(name)) => !s.contains('@') && name == s,
            _ => false,
        },
{
    lemma_last_index_of(s, '@');
    let k = last_index_of(s, '@');
    if k >= 0 {
        let req = s.subrange(k + 1, s.len() as int);
        assert(s.subrange(0, k) + seq!['@'] + req =~= s);
        assert forall|i: int| 0 <= i < req.len() implies req[i] != '@' by {
            assert(req[i] == s[k + 1 + i]);
        }
    }
}

/// Splits a specifier at its last `@` into the requirement and the name.
///
/// A scoped name starts with an `@` of its own, so the split is made from
/// the right. The name is always present; the requirement is absent when the
/// specifier holds no `@`.
pub fn split_at_last_at(s: &str) -> (r: (Option<&str>, Option<&str>))
    ensures
        r.1 is Some,
        match r.0 {
            Some(req) => {
                &&& r.1->0@ + seq!['@'] + req@ == s@
                &&& !req@.contains('@')
            },
            None => r.1->0@ == s@ && !s@.contains('@'),
        },
        (text_of(r.0), text_of(r.1)) == split_specifier(s@),
{
    let chars = chars_of(s);
    let n: usize = chars.len();
    let mut i: usize = n;
    assert(s@.subrange(0, n as int) == s@);
    while i > 0 && chars[i - 1] != '@'
        invariant
            i <= n,
            n == chars@.len(),
            chars@ == s@,
            last_index_of(s@, '@') == last_index_of(s@.subrange(0, i as int), '@'),
        decreases i,
    {
        assert(s@.subrange(0, i as int).drop_last() == s@.subrange(0, i - 1));
        i -= 1;
    }
    proof {
        lemma_last_index_of(s@, '@');
        assert(s@.subrange(0, n as int) == s@);
    }
    if i == 0 {
        assert(s@.subrange(0, 0).len() == 0);
        assert forall|k: int| 0 <= k < s@.len() implies s@[k] != '@' by {}
        (None, Some(s))
    } else {
        let name = s.substring_char(0, i - 1);
        let req = s.substring_char(i, n);
        assert(last_index_of(s@, '@') == i - 1);
        assert(name@ + seq!['@'] + req@ =~= s@);
        assert forall|k: int| 0 <= k < req@.len() implies req@[k] != '@' by {
            assert(req@[k] == s@[i + k]);
        }
        (Some(req), Some(name))
    }
}

} // verus!
