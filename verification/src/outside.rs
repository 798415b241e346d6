//! What this library takes on trust from the crates it is built on.
//!
//! Nothing in this file is proved. Each type is declared so that values of
//! it can be carried through verified code; each function is a thin call
//! into another crate whose contract states what that crate's source shows.
//! Where a result is a function of the arguments alone but too long to
//! write down, it is given a name and the contract says no more than that
//! the call returns the named value.

use vstd::prelude::*;
use vstd::utf8::{encode_utf8, valid_utf8};
use multimap::MultiMap;
use crate::block::{Block, BlockView};
use semver_parser::range;
use crate::npm_semver::{Operator, Predicate};
use crate::{DependencyLock, LockView};

verus! {

/// `semver::Version`, carried as an opaque value.
#[verifier::external_type_specification]
#[verifier::external_body]
pub struct ExVersion(semver::Version);

/// `semver::VersionReq`, carried as an opaque value.
#[verifier::external_type_specification]
#[verifier::external_body]
pub struct ExVersionReq(semver::VersionReq);

/// `url::Url`, carried as an opaque value.
#[verifier::external_type_specification]
#[verifier::external_body]
pub struct ExUrl(url::Url);

/// `indent_tokenizer::Error`, carried as an opaque value.
#[verifier::external_type_specification]
#[verifier::external_body]
pub struct ExTokenizeError(indent_tokenizer::Error);

/// `indent_tokenizer::Token`, whose contents are spoken of through
/// `block_of`.
#[verifier::external_type_specification]
#[verifier::external_body]
pub struct ExToken(indent_tokenizer::Token);

/// What `semver::Version::parse` makes of a text: the version, or nothing
/// where it reports an error.
pub uninterp spec fn parsed_version(text: Seq<char>) -> Option<semver::Version>;

/// What `semver::VersionReq::parse` makes of a text: the requirement, or
/// nothing where it reports an error.
pub uninterp spec fn parsed_version_req(text: Seq<char>) -> Option<semver::VersionReq>;

/// What `url::Url::parse` makes of a text: the location, or nothing where
/// it reports an error.
pub uninterp spec fn parsed_url(text: Seq<char>) -> Option<url::Url>;

/// What `indent_tokenizer::tokenize` makes of a text: its top-level tokens
/// in source order, or the tokenizer's error.
pub uninterp spec fn tokens_of(text: Seq<char>) -> Result<
    Seq<indent_tokenizer::Token>,
    indent_tokenizer::Error,
>;

/// What a token of `indent_tokenizer` holds: its lines, and for each of
/// its child tokens what that one holds.
pub uninterp spec fn block_of(token: indent_tokenizer::Token) -> BlockView;

/// What each of `tokens` holds.
pub open spec fn blocks_of(tokens: Seq<indent_tokenizer::Token>) -> Seq<BlockView> {
    Seq::new(tokens.len(), |i: int| block_of(tokens[i]))
}

/// The blocks of a text: what its top-level tokens hold, or the
/// tokenizer's error.
pub open spec fn tokenized(text: Seq<char>) -> Result<Seq<BlockView>, indent_tokenizer::Error> {
    match tokens_of(text) {
        Ok(tokens) => Ok(blocks_of(tokens)),
        Err(e) => Err(e),
    }
}

/// The longest text, in bytes, that the readers of `semver` are handed:
/// they count the bytes of a run of digits or letters in 32 bits with a
/// sign.
pub const MAX_SEMVER_BYTES: usize = 0x7fff_ffff;

/// Whether `text` is short enough for the readers of `semver`.
pub open spec fn semver_takes(text: Seq<char>) -> bool {
    encode_utf8(text).len() <= MAX_SEMVER_BYTES
}

/// What a character counts for in `url_weight`: one where it is an ASCII
/// character other than `%`, else a hundred.
pub open spec fn url_char_weight(c: char) -> nat {
    if (c as u32) < 0x80 && c != '%' {
        1
    } else {
        100
    }
}

/// A bound on the length that a host name in `text` can reach before it
/// is encoded: the sum of what the characters of `text` count for.
///
/// An ASCII character stays one character. A `%` can lead in an escaped
/// character, and that or any other character beyond ASCII can be mapped to
/// a string of up to 33 characters, which normalizing can make three
/// times as long.
pub open spec fn url_weight(text: Seq<char>) -> nat
    decreases text.len(),
{
    if text.len() == 0 {
        0
    } else {
        url_weight(text.drop_last()) + url_char_weight(text.last())
    }
}

/// The greatest weight of a text that `url::Url::parse` is handed. The
/// encoder of host names counts in 32 bits up to about 0x110000 times the
/// length of a label.
pub const MAX_URL_WEIGHT: usize = 3800;

/// Whether `text` is light enough for `url::Url::parse`.
pub open spec fn url_takes(text: Seq<char>) -> bool {
    url_weight(text) <= MAX_URL_WEIGHT
}

/// Calls `semver::Version::parse` and drops the error's detail. The result
/// depends on the text alone. The text is short enough for the counter of
/// matched bytes in `semver_parser` to stay within its 31 bits.
#[verifier::external_body]
pub(crate) fn parse_version(text: &str) -> (r: Option<semver::Version>)
    requires
        semver_takes(text@),
    ensures
        r == parsed_version(text@),
{
    semver::Version::parse(text).ok()
}

/// Calls `semver::VersionReq::parse` and drops the error's detail. The
/// result depends on the text alone. The text is short enough for the
/// counter of matched bytes in `semver_parser` to stay within its 31 bits.
#[verifier::external_body]
pub(crate) fn parse_version_req(text: &str) -> (r: Option<semver::VersionReq>)
    requires
        semver_takes(text@),
    ensures
        r == parsed_version_req(text@),
{
    semver::VersionReq::parse(text).ok()
}

/// Calls `url::Url::parse` and drops the error's detail. The result
/// depends on the text alone. The text is light enough for each label of
/// its host name to stay below 3801 characters, so that the counter of the
/// encoder in `idna` stays within its 32 bits.
#[verifier::external_body]
pub(crate) fn parse_url(text: &str) -> (r: Option<url::Url>)
    requires
        url_takes(text@),
    ensures
        r == parsed_url(text@),
{
    url::Url::parse(text).ok()
}

/// Calls `std::str::from_utf8`, which hands the bytes back as a text
/// where they are valid UTF-8, and fails where they are not.
#[verifier::external_body]
pub(crate) fn text_from_utf8(bytes: &[u8]) -> (r: Option<&str>)
    ensures
        match r {
            Some(text) => encode_utf8(text@) == bytes@,
            None => !valid_utf8(bytes@),
        },
{
    std::str::from_utf8(bytes).ok()
}

/// Calls the derived `Clone` of `semver::Version`, which copies every
/// field.
#[verifier::external_body]
pub(crate) fn clone_version(version: &semver::Version) -> (r: semver::Version)
    ensures
        r == *version,
{
    version.clone()
}

/// Calls the derived `Clone` of `semver::VersionReq`, which copies every
/// field.
#[verifier::external_body]
pub(crate) fn clone_version_req(req: &semver::VersionReq) -> (r: semver::VersionReq)
    ensures
        r == *req,
{
    req.clone()
}

/// Calls the derived `Clone` of `url::Url`, which copies every field.
#[verifier::external_body]
pub(crate) fn clone_url(url: &url::Url) -> (r: url::Url)
    ensures
        r == *url,
{
    url.clone()
}

/// The longest text, in bytes, that `tokenize_text` takes: the tokenizer
/// counts the lines of a text in 32 bits, and a text has no more lines
/// than bytes.
pub const MAX_TEXT_LEN: usize = 0xffff_ffff;

/// Whether `text` is short enough for the tokenizer.
pub open spec fn tokenizer_takes(text: Seq<char>) -> bool {
    encode_utf8(text).len() <= MAX_TEXT_LEN
}

/// The value of what `tokenize_text` returns.
pub open spec fn tokens_result(
    r: Result<Vec<indent_tokenizer::Token>, indent_tokenizer::Error>,
) -> Result<Seq<indent_tokenizer::Token>, indent_tokenizer::Error> {
    match r {
        Ok(tokens) => Ok(tokens@),
        Err(e) => Err(e),
    }
}

/// Calls `indent_tokenizer::tokenize`. The result depends on the text
/// alone; the contract claims no more. The tokenizer walks down the tree
/// once for each line, so a text that is nested very deeply needs a stack
/// to match.
#[verifier::external_body]
pub(crate) fn tokenize_text(text: &str) -> (r: Result<
    Vec<indent_tokenizer::Token>,
    indent_tokenizer::Error,
>)
    requires
        tokenizer_takes(text@),
    ensures
        tokens_result(r) == tokens_of(text@),
{
    indent_tokenizer::tokenize(text)
}

/// Copies a token of `indent_tokenizer` into a block: each line of its
/// public field `lines` as a `String`, and each token of its public field
/// `tokens` in the same way. The result depends on the token alone.
#[verifier::external_body]
pub(crate) fn block_of_token(token: &indent_tokenizer::Token) -> (r: Block)
    ensures
        r@ == block_of(*token),
{
    Block {
        lines: token.lines.iter().map(|line| line.to_string()).collect(),
        children: token.tokens.iter().map(block_of_token).collect(),
    }
}

/// `multimap::MultiMap`, whose contents are spoken of through `groups`.
#[verifier::external_type_specification]
#[verifier::external_body]
#[verifier::reject_recursive_types(K)]
#[verifier::reject_recursive_types(V)]
pub struct ExMultiMap<K, V>(MultiMap<K, V>);

/// What a multimap of locks holds: for each name that was entered, the
/// locks entered under it, in the order in which they were entered.
pub uninterp spec fn groups(m: MultiMap<String, DependencyLock>) -> Map<Seq<char>, Seq<LockView>>;

/// The groups after `lock` is entered under `name`: it is put behind the
/// locks that the name already has, or makes up a group of its own.
pub open spec fn group_added(
    groups: Map<Seq<char>, Seq<LockView>>,
    name: Seq<char>,
    lock: LockView,
) -> Map<Seq<char>, Seq<LockView>> {
    if groups.contains_key(name) {
        groups.insert(name, groups[name].push(lock))
    } else {
        groups.insert(name, seq![lock])
    }
}

/// The groups of a multimap that holds nothing.
pub open spec fn no_groups() -> Map<Seq<char>, Seq<LockView>> {
    Map::empty()
}

/// Calls `MultiMap::new`, which makes a multimap that holds nothing.
#[verifier::external_body]
pub(crate) fn multimap_new() -> (r: MultiMap<String, DependencyLock>)
    ensures
        groups(r) == no_groups(),
{
    MultiMap::new()
}

/// Calls `MultiMap::insert`, which pushes the value onto the vector kept
/// for the key, or enters a vector of that one value where the key is new.
/// No other key is touched.
#[verifier::external_body]
pub(crate) fn multimap_insert(m: &mut MultiMap<String, DependencyLock>, name: String, lock: DependencyLock)
    ensures
        groups(*final(m)) == group_added(groups(*old(m)), name@, lock@),
{
    m.insert(name, lock)
}

/// The requirement that `semver::VersionReq` makes of a
/// `semver_parser::range::VersionReq` with the given constraints, none of
/// which names a pre-release.
pub uninterp spec fn version_req_of(predicates: Seq<Predicate>) -> semver::VersionReq;

/// Builds a `semver_parser::range::VersionReq` of the given constraints,
/// each with the operator of the same name, and calls the `From` impl of
/// `semver::VersionReq` on it, which copies each constraint. The result
/// depends on the constraints alone.
#[verifier::external_body]
pub(crate) fn version_req_from(predicates: &Vec<Predicate>) -> (r: semver::VersionReq)
    ensures
        r == version_req_of(predicates@),
{
    let predicates = predicates.iter().map(|p| range::Predicate {
        op: match p.op {
            Operator::Ex => range::Op::Ex,
            Operator::Gt => range::Op::Gt,
            Operator::GtEq => range::Op::GtEq,
            Operator::Lt => range::Op::Lt,
            Operator::LtEq => range::Op::LtEq,
            Operator::Tilde => range::Op::Tilde,
            Operator::Compatible => range::Op::Compatible,
            Operator::WildcardMinor => range::Op::Wildcard(range::WildcardVersion::Minor),
        },
        major: p.major, minor: p.minor, patch: p.patch, pre: Vec::new(),
    }).collect();
    semver::VersionReq::from(range::VersionReq { predicates })
}

} // verus!
