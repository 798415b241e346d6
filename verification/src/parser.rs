//! The interpreter of blocks and the two ways of parsing a lock file.
//!
//! A block answers the specifiers of its head lines. What it resolved them
//! to is stated by its children: their lines name the version and the
//! location, and the child whose last line starts with `dependencies` has
//! the dependencies listed by the lines of its first child.

use vstd::prelude::*;
use multimap::MultiMap;
use semver::{Version, VersionReq};
use url::Url;
use crate::block::{Block, BlockView, block_views, line_views, lemma_children_view};
use crate::dependencies::{DependencyMap, map_of};
use crate::error::{IndentationFail, ParseError};
use crate::lines::{
    dependency_entry, dependency_line, head_line, headline_parts, pair_texts, read_requirement,
    requirement_in, resolved_entry, resolved_line, version_entry, version_line,
    versionreq_entry, versionreq_line,
};
use crate::outside::{
    MAX_TEXT_LEN, block_of, block_of_token, blocks_of, clone_url, clone_version, group_added, groups,
    multimap_insert, multimap_new, no_groups, tokenize_text, tokenized, tokenizer_takes,
};
use crate::specifier::text_of;
use crate::text::{has_word_at, starts_with};
use crate::{DependencyLock, LockView, lock_views};

verus! {

/// Whether a block heads the dependencies of its parent: its last line
/// starts with the word `dependencies`.
pub open spec fn is_dependencies_head(block: BlockView) -> bool {
    block.lines.len() > 0 && has_word_at(block.lines.last(), 0, "dependencies"@)
}

/// The block that lists the dependencies: the first child of the first of
/// `children` that heads the dependencies and has a child.
pub open spec fn dependencies_block(children: Seq<BlockView>) -> Option<BlockView>
    decreases children.len(),
{
    if children.len() == 0 {
        None
    } else if is_dependencies_head(children[0]) && children[0].children.len() > 0 {
        Some(children[0].children[0])
    } else {
        dependencies_block(children.drop_first())
    }
}

/// The names and requirements that `lines` hold, in order; a line that is
/// no dependency line holds none.
pub open spec fn dependency_pairs(lines: Seq<Seq<char>>) -> Seq<(Seq<char>, VersionReq)>
    decreases lines.len(),
{
    if lines.len() == 0 {
        Seq::empty()
    } else {
        let front = dependency_pairs(lines.drop_last());
        match dependency_entry(lines.last()) {
            Some((_, pair)) => front.push(pair),
            None => front,
        }
    }
}

/// The dependencies that a block's children state: what the lines of the
/// dependencies block hold, a later line taking the place of an earlier one
/// with the same name; nothing where there is no such block.
pub open spec fn dependencies_of(children: Seq<BlockView>) -> Map<Seq<char>, VersionReq> {
    match dependencies_block(children) {
        Some(block) => map_of(dependency_pairs(block.lines)),
        None => Map::empty(),
    }
}

/// All lines of `children`, in order.
pub open spec fn child_lines(children: Seq<BlockView>) -> Seq<Seq<char>>
    decreases children.len(),
{
    if children.len() == 0 {
        Seq::empty()
    } else {
        child_lines(children.drop_last()) + children.last().lines
    }
}

/// The version that the last `version` line among `lines` holds.
pub open spec fn last_version(lines: Seq<Seq<char>>) -> Option<Version>
    decreases lines.len(),
{
    if lines.len() == 0 {
        None
    } else {
        match version_entry(lines.last()) {
            Some((_, version)) => Some(version),
            None => last_version(lines.drop_last()),
        }
    }
}

/// The location that the last `resolved` line among `lines` holds.
pub open spec fn last_resolved(lines: Seq<Seq<char>>) -> Option<Url>
    decreases lines.len(),
{
    if lines.len() == 0 {
        None
    } else {
        match resolved_entry(lines.last()) {
            Some((_, url)) => Some(url),
            None => last_resolved(lines.drop_last()),
        }
    }
}

/// The requirement that the first `version` line among `lines` holds
/// whose value is a requirement.
pub open spec fn first_versionreq(lines: Seq<Seq<char>>) -> Option<VersionReq>
    decreases lines.len(),
{
    if lines.len() == 0 {
        None
    } else {
        match versionreq_entry(lines[0]) {
            Some((_, req)) => Some(req),
            None => first_versionreq(lines.drop_first()),
        }
    }
}

/// Finds the block that lists the dependencies among the children of a
/// block.
fn find_dependencies_block(tokens: &[Block]) -> (r: Option<&Block>)
    ensures
        match r {
            Some(block) => dependencies_block(block_views(tokens@)) == Some(block@),
            None => dependencies_block(block_views(tokens@)) is None,
        },
{
    let ghost views = block_views(tokens@);
    let mut i: usize = 0;
    assert(views.skip(0) =~= views);
    while i < tokens.len()
        invariant
            i <= tokens@.len(),
            views == block_views(tokens@),
            dependencies_block(views) == dependencies_block(views.skip(i as int)),
        decreases tokens@.len() - i,
    {
        let child = &tokens[i];
        proof {
            lemma_children_view(child);
            assert(views.skip(i as int)[0] == child@);
            assert(views.skip(i as int).drop_first() =~= views.skip(i + 1));
        }
        let n: usize = child.lines.len();
        if n > 0 && child.children.len() > 0 && starts_with(
            child.lines[n - 1].as_str(),
            "dependencies",
        ) {
            let found = &child.children[0];
            assert(child@.lines.last() == child.lines@[n - 1]@);
            assert(child@.children[0] == found@);
            return Some(found);
        }
        assert(child@.lines.len() == n);
        assert(n > 0 ==> child@.lines.last() == child.lines@[n - 1]@);
        assert(child@.children.len() == child.children@.len());
        i += 1;
    }
    None
}

/// Reads the dependencies that the children of a block state.
///
/// The child whose last line starts with `dependencies` heads them; they
/// are listed by the lines of its first child. Each line that is a
/// dependency line enters its name and requirement; the others are passed
/// over. Where no child heads any dependencies the map is empty.
pub fn read_dependencies(tokens: &[Block]) -> (r: DependencyMap)
    ensures
        r.wf(),
        r@ == dependencies_of(block_views(tokens@)),
{
    let mut map = DependencyMap::new();
    match find_dependencies_block(tokens) {
        None => {},
        Some(block) => {
            proof {
                lemma_children_view(block);
            }
            let ghost lines = line_views(block.lines@);
            let mut i: usize = 0;
            assert(lines.take(0) =~= Seq::<Seq<char>>::empty());
            while i < block.lines.len()
                invariant
                    i <= block.lines@.len(),
                    lines == line_views(block.lines@),
                    map.wf(),
                    map@ == map_of(dependency_pairs(lines.take(i as int))),
                decreases block.lines@.len() - i,
            {
                proof {
                    assert(lines.take(i + 1).drop_last() =~= lines.take(i as int));
                    assert(lines.take(i + 1).last() == block.lines@[i as int]@);
                }
                let ghost before = dependency_pairs(lines.take(i as int));
                match dependency_line(block.lines[i].as_str()) {
                    Some((_, (name, req))) => {
                        proof {
                            assert(before.push((name@, req)).drop_last() =~= before);
                        }
                        map.insert(name.to_owned(), req);
                    },
                    None => {},
                }
                i += 1;
            }
            assert(lines.take(i as int) =~= lines);
        },
    }
    map
}

/// All lines of `children`, in order, go on with the lines of one more
/// child.
proof fn lemma_child_lines_take(children: Seq<BlockView>, i: int)
    requires
        0 <= i < children.len(),
    ensures
        child_lines(children.take(i + 1)) == child_lines(children.take(i)) + children[i].lines,
{
    assert(children.take(i + 1).drop_last() =~= children.take(i));
}

/// Reads the requirement of the first `version` line among the lines of
/// the children of a block whose value is a requirement.
pub fn read_versionreq(tokens: &[Block]) -> (r: Option<VersionReq>)
    ensures
        r == first_versionreq(child_lines(block_views(tokens@))),
{
    let ghost views = block_views(tokens@);
    let ghost mut done: Seq<Seq<char>> = Seq::empty();
    let mut i: usize = 0;
    assert(views.take(0) =~= Seq::<BlockView>::empty());
    assert(views.take(tokens@.len() as int) =~= views);
    while i < tokens.len()
        invariant
            i <= tokens@.len(),
            views == block_views(tokens@),
            done == child_lines(views.take(i as int)),
            first_versionreq(done) is None,
        decreases tokens@.len() - i,
    {
        let child = &tokens[i];
        proof {
            lemma_children_view(child);
            lemma_child_lines_take(views, i as int);
        }
        let ghost lines = line_views(child.lines@);
        let ghost start = done;
        let mut j: usize = 0;
        assert(start + lines.take(0) =~= start);
        while j < child.lines.len()
            invariant
                j <= child.lines@.len(),
                lines == line_views(child.lines@),
                done == start + lines.take(j as int),
                first_versionreq(done) is None,
                views == block_views(tokens@),
                i < tokens@.len(),
                child_lines(views.take(i + 1)) == start + lines,
            decreases child.lines@.len() - j,
        {
            match versionreq_line(child.lines[j].as_str()) {
                Some((_, req)) => {
                    proof {
                        let rest = lines.skip(j as int);
                        assert(start + lines =~= done + rest);
                        assert(rest[0] == child.lines@[j as int]@);
                        lemma_first_versionreq_concat(done, rest);
                        assert(views =~= views.take(i + 1) + views.skip(i + 1));
                        lemma_child_lines_concat(views.take(i + 1), views.skip(i + 1));
                        lemma_first_versionreq_found(
                            child_lines(views.take(i + 1)),
                            child_lines(views.skip(i + 1)),
                        );
                    }
                    return Some(req);
                },
                None => {
                    proof {
                        let line = seq![child.lines@[j as int]@];
                        assert(start + lines.take(j + 1) =~= done + line);
                        assert(line.drop_first() =~= Seq::<Seq<char>>::empty());
                        assert(first_versionreq(Seq::<Seq<char>>::empty()) is None);
                        assert(first_versionreq(line) is None);
                        lemma_first_versionreq_concat(done, line);
                        done = done + line;
                    }
                },
            }
            j += 1;
        }
        assert(lines.take(j as int) =~= lines);
        i += 1;
    }
    None
}

/// All lines of two runs of children are the lines of the first run and
/// then those of the second.
pub proof fn lemma_child_lines_concat(a: Seq<BlockView>, b: Seq<BlockView>)
    ensures
        child_lines(a + b) == child_lines(a) + child_lines(b),
    decreases b.len(),
{
    if b.len() == 0 {
        assert(a + b =~= a);
        assert(child_lines(a) + child_lines(b) =~= child_lines(a));
    } else {
        lemma_child_lines_concat(a, b.drop_last());
        assert((a + b).drop_last() =~= a + b.drop_last());
        assert(child_lines(a + b) =~= child_lines(a) + child_lines(b));
    }
}

/// Where the first run of lines holds no requirement, the first one of the
/// whole is the first one of the second run.
pub proof fn lemma_first_versionreq_concat(a: Seq<Seq<char>>, b: Seq<Seq<char>>)
    requires
        first_versionreq(a) is None,
    ensures
        first_versionreq(a + b) == first_versionreq(b),
    decreases a.len(),
{
    if a.len() == 0 {
        assert(a + b =~= b);
    } else {
        assert((a + b).drop_first() =~= a.drop_first() + b);
        lemma_first_versionreq_concat(a.drop_first(), b);
    }
}

/// Where the first run of lines holds a requirement, it is the first one
/// of the whole.
pub proof fn lemma_first_versionreq_found(a: Seq<Seq<char>>, b: Seq<Seq<char>>)
    requires
        first_versionreq(a) is Some,
    ensures
        first_versionreq(a + b) == first_versionreq(a),
    decreases a.len(),
{
    if a.len() > 0 {
        assert((a + b).drop_first() =~= a.drop_first() + b);
        if versionreq_entry(a[0]) is None {
            lemma_first_versionreq_found(a.drop_first(), b);
        }
    }
}

/// Reads the version and the location that the children of a block state:
/// of all their lines, the last `version` line that holds a version and the
/// last `resolved` line that holds a location.
pub fn read_version_resolved(tokens: &[Block]) -> (r: (Option<Version>, Option<Url>))
    ensures
        r.0 == last_version(child_lines(block_views(tokens@))),
        r.1 == last_resolved(child_lines(block_views(tokens@))),
{
    let mut version: Option<Version> = None;
    let mut resolved: Option<Url> = None;
    let ghost views = block_views(tokens@);
    let ghost mut done: Seq<Seq<char>> = Seq::empty();
    let mut i: usize = 0;
    assert(views.take(0) =~= Seq::<BlockView>::empty());
    while i < tokens.len()
        invariant
            i <= tokens@.len(),
            views == block_views(tokens@),
            done == child_lines(views.take(i as int)),
            version == last_version(done),
            resolved == last_resolved(done),
        decreases tokens@.len() - i,
    {
        let child = &tokens[i];
        proof {
            lemma_children_view(child);
            lemma_child_lines_take(views, i as int);
        }
        let ghost lines = line_views(child.lines@);
        let ghost start = done;
        let mut j: usize = 0;
        assert(start + lines.take(0) =~= start);
        while j < child.lines.len()
            invariant
                j <= child.lines@.len(),
                lines == line_views(child.lines@),
                done == start + lines.take(j as int),
                version == last_version(done),
                resolved == last_resolved(done),
            decreases child.lines@.len() - j,
        {
            let line = child.lines[j].as_str();
            proof {
                let next = done.push(line@);
                assert(start + lines.take(j + 1) =~= next);
                assert(next.drop_last() =~= done);
                done = next;
            }
            if let Some((_, found)) = version_line(line) {
                version = Some(found);
            }
            if let Some((_, found)) = resolved_line(line) {
                resolved = Some(found);
            }
            j += 1;
        }
        assert(lines.take(j as int) =~= lines);
        i += 1;
    }
    assert(views.take(i as int) =~= views);
    (version, resolved)
}

/// Whether a head line is a comment: it starts with `#`.
pub open spec fn is_comment(line: Seq<char>) -> bool {
    has_word_at(line, 0, "#"@)
}

/// The lock that answers one specifier of a block with the given children:
/// the specifier's name and what its requirement stands for, and the
/// version, location and dependencies that the children state.
pub open spec fn lock_of(
    pair: (Option<Seq<char>>, Option<Seq<char>>),
    children: Seq<BlockView>,
) -> LockView {
    LockView {
        name: match pair.1 {
            Some(name) => name,
            None => Seq::empty(),
        },
        last_seen: match pair.0 {
            Some(text) => requirement_in(text),
            None => None,
        },
        version: last_version(child_lines(children)),
        resolved: last_resolved(child_lines(children)),
        dependencies: dependencies_of(children),
    }
}

/// The locks of one head line: one for each of its specifiers, in order;
/// none for a comment or for a line that holds no list of specifiers.
pub open spec fn line_locks(line: Seq<char>, children: Seq<BlockView>) -> Seq<LockView> {
    if is_comment(line) {
        Seq::empty()
    } else {
        match head_line(line) {
            Some((_, pairs)) => Seq::new(pairs.len(), |i: int| lock_of(pairs[i], children)),
            None => Seq::empty(),
        }
    }
}

/// The locks of `lines`, line after line.
pub open spec fn lines_locks(lines: Seq<Seq<char>>, children: Seq<BlockView>) -> Seq<LockView>
    decreases lines.len(),
{
    if lines.len() == 0 {
        Seq::empty()
    } else {
        lines_locks(lines.drop_last(), children) + line_locks(lines.last(), children)
    }
}

/// The locks of a block: those of its head lines, all with what the
/// block's children state.
pub open spec fn block_locks(block: BlockView) -> Seq<LockView> {
    lines_locks(block.lines, block.children)
}

/// The locks of `blocks`, block after block.
pub open spec fn blocks_locks(blocks: Seq<BlockView>) -> Seq<LockView>
    decreases blocks.len(),
{
    if blocks.len() == 0 {
        Seq::empty()
    } else {
        blocks_locks(blocks.drop_last()) + block_locks(blocks.last())
    }
}

/// Whether each of `locks` keeps its invariant.
pub open spec fn all_wf(locks: Seq<DependencyLock>) -> bool {
    forall|i: int| 0 <= i < locks.len() ==> (#[trigger] locks[i]).wf()
}

/// A copy of an optional version.
fn copy_version(version: &Option<Version>) -> (r: Option<Version>)
    ensures
        r == *version,
{
    match version {
        Some(version) => Some(clone_version(version)),
        None => None,
    }
}

/// A copy of an optional location.
fn copy_url(url: &Option<Url>) -> (r: Option<Url>)
    ensures
        r == *url,
{
    match url {
        Some(url) => Some(clone_url(url)),
        None => None,
    }
}

/// Interprets one block: reads what its children state, and makes one
/// lock for each specifier of its head lines, in source order.
///
/// A head line that is a comment, or that holds no list of specifiers,
/// gives no lock. All locks of the block share the version, the location
/// and the dependencies.
pub fn read_block(block: &Block) -> (r: Vec<DependencyLock>)
    ensures
        lock_views(r@) == block_locks(block@),
        all_wf(r@),
        forall|i: int|
            0 <= i < r@.len() ==> {
                &&& (#[trigger] r@[i]).version == last_version(child_lines(block@.children))
                &&& r@[i].resolved == last_resolved(child_lines(block@.children))
                &&& r@[i].dependencies@ == dependencies_of(block@.children)
            },
{
    proof {
        lemma_children_view(block);
    }
    let dependencies = read_dependencies(block.children.as_slice());
    let (version, resolved) = read_version_resolved(block.children.as_slice());
    let ghost children = block@.children;
    let ghost lines = line_views(block.lines@);
    let mut locks: Vec<DependencyLock> = Vec::new();
    let mut i: usize = 0;
    assert(lines.take(0) =~= Seq::<Seq<char>>::empty());
    assert(lock_views(locks@) =~= Seq::<LockView>::empty());
    while i < block.lines.len()
        invariant
            i <= block.lines@.len(),
            lines == line_views(block.lines@),
            children == block@.children,
            dependencies.wf(),
            dependencies@ == dependencies_of(children),
            version == last_version(child_lines(children)),
            resolved == last_resolved(child_lines(children)),
            lock_views(locks@) == lines_locks(lines.take(i as int), children),
            all_wf(locks@),
            forall|k: int|
                0 <= k < locks@.len() ==> {
                    &&& (#[trigger] locks@[k]).version == version
                    &&& locks@[k].resolved == resolved
                    &&& locks@[k].dependencies@ == dependencies@
                },
        decreases block.lines@.len() - i,
    {
        let line = block.lines[i].as_str();
        let ghost before = lock_views(locks@);
        proof {
            assert(lines.take(i + 1).drop_last() =~= lines.take(i as int));
            assert(lines.take(i + 1).last() == line@);
        }
        if starts_with(line, "#") {
            assert(before + line_locks(line@, children) =~= before);
        } else {
            match headline_parts(line) {
                None => {
                    assert(before + line_locks(line@, children) =~= before);
                },
                Some((_, pairs)) => {
                    let ghost texts = pair_texts(pairs@);
                    let mut j: usize = 0;
                    assert(before + Seq::new(0, |k: int| lock_of(texts[k], children)) =~= before);
                    while j < pairs.len()
                        invariant
                            j <= pairs@.len(),
                            texts == pair_texts(pairs@),
                            forall|k: int| 0 <= k < pairs@.len() ==> (#[trigger] pairs@[k]).1 is Some,
                            dependencies.wf(),
                            dependencies@ == dependencies_of(children),
                            version == last_version(child_lines(children)),
                            resolved == last_resolved(child_lines(children)),
                            lock_views(locks@) == before + Seq::new(
                                j as nat,
                                |k: int| lock_of(texts[k], children),
                            ),
                            all_wf(locks@),
                            forall|k: int|
                                0 <= k < locks@.len() ==> {
                                    &&& (#[trigger] locks@[k]).version == version
                                    &&& locks@[k].resolved == resolved
                                    &&& locks@[k].dependencies@ == dependencies@
                                },
                        decreases pairs@.len() - j,
                    {
                        let (last_seen, name) = pairs[j];
                        assert(texts[j as int] == (text_of(last_seen), text_of(name)));
                        assert(pairs@[j as int].1 is Some);
                        let ghost views = lock_views(locks@);
                        let lock = DependencyLock {
                            name: match name {
                                Some(name) => name.to_owned(),
                                None => String::new(),
                            },
                            last_seen: match last_seen {
                                Some(text) => read_requirement(text),
                                None => None,
                            },
                            version: copy_version(&version),
                            resolved: copy_url(&resolved),
                            dependencies: dependencies.clone(),
                        };
                        assert(lock@ == lock_of(texts[j as int], children));
                        locks.push(lock);
                        proof {
                            assert(lock_views(locks@) =~= views.push(lock@));
                            assert(before + Seq::new(
                                (j + 1) as nat,
                                |k: int| lock_of(texts[k], children),
                            ) =~= (before + Seq::new(
                                j as nat,
                                |k: int| lock_of(texts[k], children),
                            )).push(lock@));
                        }
                        j += 1;
                    }
                    assert(Seq::new(pairs@.len(), |k: int| lock_of(texts[k], children))
                        =~= line_locks(line@, children));
                },
            }
        }
        i += 1;
    }
    assert(lines.take(i as int) =~= lines);
    locks
}

/// Interprets `blocks` one after the other and puts their locks in one
/// sequence.
pub fn read_blocks(blocks: &[Block]) -> (r: Vec<DependencyLock>)
    ensures
        lock_views(r@) == blocks_locks(block_views(blocks@)),
        all_wf(r@),
{
    let ghost views = block_views(blocks@);
    let mut locks: Vec<DependencyLock> = Vec::new();
    let mut i: usize = 0;
    assert(views.take(0) =~= Seq::<BlockView>::empty());
    assert(lock_views(locks@) =~= Seq::<LockView>::empty());
    while i < blocks.len()
        invariant
            i <= blocks@.len(),
            views == block_views(blocks@),
            lock_views(locks@) == blocks_locks(views.take(i as int)),
            all_wf(locks@),
        decreases blocks@.len() - i,
    {
        let ghost before = locks@;
        let mut more = read_block(&blocks[i]);
        let ghost added = more@;
        locks.append(&mut more);
        proof {
            assert(views.take(i + 1).drop_last() =~= views.take(i as int));
            assert(views.take(i + 1).last() == blocks@[i as int]@);
            assert(lock_views(before + added) =~= lock_views(before) + lock_views(added));
        }
        i += 1;
    }
    assert(views.take(i as int) =~= views);
    locks
}

/// Copies the tokens of a text into blocks.
fn blocks_of_tokens(tokens: &Vec<indent_tokenizer::Token>) -> (r: Vec<Block>)
    ensures
        block_views(r@) == blocks_of(tokens@),
{
    let mut blocks: Vec<Block> = Vec::new();
    let mut i: usize = 0;
    while i < tokens.len()
        invariant
            i <= tokens@.len(),
            blocks@.len() == i,
            forall|k: int| 0 <= k < i ==> (#[trigger] blocks@[k])@ == block_of(tokens@[k]),
        decreases tokens@.len() - i,
    {
        blocks.push(block_of_token(&tokens[i]));
        i += 1;
    }
    assert(block_views(blocks@) =~= blocks_of(tokens@));
    blocks
}

/// The blocks of a text, or why it has none: it is too long for the
/// tokenizer, or the tokenizer finds it not validly indented.
pub open spec fn blocks_or_error(text: Seq<char>) -> Result<Seq<BlockView>, ParseError> {
    if !tokenizer_takes(text) {
        Err(ParseError::TooLong)
    } else {
        match tokenized(text) {
            Ok(blocks) => Ok(blocks),
            Err(e) => Err(ParseError::Indentation(IndentationFail(e))),
        }
    }
}

/// Tokenizes a text into its top-level blocks.
///
/// Fails with `TooLong` where the text holds more bytes than the tokenizer
/// takes, and with `Indentation` where the tokenizer fails.
pub fn blocks_of_text(content: &str) -> (r: Result<Vec<Block>, ParseError>)
    ensures
        match blocks_or_error(content@) {
            Ok(blocks) => r is Ok && block_views(r->Ok_0@) == blocks,
            Err(e) => r is Err && r->Err_0 == e,
        },
{
    if content.as_bytes().len() > MAX_TEXT_LEN {
        return Err(ParseError::TooLong);
    }
    match tokenize_text(content) {
        Ok(tokens) => Ok(blocks_of_tokens(&tokens)),
        Err(e) => Err(ParseError::Indentation(IndentationFail(e))),
    }
}

/// What `parse` owes for a text: the locks of its blocks, or why it has
/// none.
pub open spec fn parse_result(
    text: Seq<char>,
    r: Result<Vec<DependencyLock>, ParseError>,
) -> bool {
    match blocks_or_error(text) {
        Ok(blocks) => r is Ok && lock_views(r->Ok_0@) == blocks_locks(blocks) && all_wf(r->Ok_0@),
        Err(e) => r is Err && r->Err_0 == e,
    }
}

/// Parses the content of a lock file into its locks, in source order.
///
/// Fails only where the text is not validly indented, or is too long for
/// the tokenizer. A line or value that cannot be read leaves a field absent
/// or a lock out.
pub fn parse(content: &str) -> (r: Result<Vec<DependencyLock>, ParseError>)
    ensures
        parse_result(content@, r),
{
    match blocks_of_text(content) {
        Ok(blocks) => Ok(read_blocks(blocks.as_slice())),
        Err(e) => Err(e),
    }
}

/// The groups that result from entering `locks` in order, each under its
/// name.
pub open spec fn grouped(locks: Seq<LockView>) -> Map<Seq<char>, Seq<LockView>>
    decreases locks.len(),
{
    if locks.len() == 0 {
        no_groups()
    } else {
        group_added(grouped(locks.drop_last()), locks.last().name, locks.last())
    }
}

/// What `parse_by_name` owes for a text: the locks of its blocks, grouped
/// by name, or why it has none.
pub open spec fn parse_by_name_result(
    text: Seq<char>,
    r: Result<MultiMap<String, DependencyLock>, ParseError>,
) -> bool {
    match blocks_or_error(text) {
        Ok(blocks) => r is Ok && groups(r->Ok_0) == grouped(blocks_locks(blocks)),
        Err(e) => r is Err && r->Err_0 == e,
    }
}

/// Puts `locks` into a multimap, each under its name, in order.
pub fn group_by_name(locks: Vec<DependencyLock>) -> (r: MultiMap<String, DependencyLock>)
    ensures
        groups(r) == grouped(lock_views(locks@)),
{
    let mut map = multimap_new();
    let ghost views = lock_views(locks@);
    assert(views.take(0) =~= Seq::<LockView>::empty());
    for lock in it: locks
        invariant
            views == lock_views(it.seq()),
            groups(map) == grouped(views.take(it.index@)),
    {
        proof {
            let i = it.index@;
            assert(views.take(i + 1).drop_last() =~= views.take(i));
            assert(views.take(i + 1).last() == lock@);
        }
        let name = lock.name.clone();
        multimap_insert(&mut map, name, lock);
    }
    assert(views.take(views.len() as int) =~= views);
    map
}

/// Parses the content of a lock file and groups its locks by name. The
/// locks of one name keep the order that they have in the file.
///
/// Fails only where the text is not validly indented, or is too long for
/// the tokenizer.
pub fn parse_by_name(content: &str) -> (r: Result<MultiMap<String, DependencyLock>, ParseError>)
    ensures
        parse_by_name_result(content@, r),
{
    match blocks_of_text(content) {
        Ok(blocks) => Ok(group_by_name(read_blocks(blocks.as_slice()))),
        Err(e) => Err(e),
    }
}

/// The locks among `locks` that carry `name`, in their order.
pub open spec fn with_name(locks: Seq<LockView>, name: Seq<char>) -> Seq<LockView>
    decreases locks.len(),
{
    if locks.len() == 0 {
        Seq::empty()
    } else {
        let front = with_name(locks.drop_last(), name);
        if locks.last().name == name {
            front.push(locks.last())
        } else {
            front
        }
    }
}

/// Grouping keeps every lock and the order within each name: a name has a
/// group exactly where some lock carries it, and its group holds the locks
/// that carry it in the order in which they stand in the flat sequence.
pub proof fn lemma_grouped_by_name(locks: Seq<LockView>, name: Seq<char>)
    ensures
        grouped(locks).contains_key(name) <==> with_name(locks, name).len() > 0,
        grouped(locks).contains_key(name) ==> grouped(locks)[name] == with_name(locks, name),
    decreases locks.len(),
{
    if locks.len() > 0 {
        lemma_grouped_by_name(locks.drop_last(), name);
        lemma_grouped_by_name(locks.drop_last(), locks.last().name);
    }
}

/// Where all locks carry one name, their group is the whole sequence.
pub proof fn lemma_grouped_one_name(locks: Seq<LockView>, name: Seq<char>)
    requires
        locks.len() > 0,
        forall|i: int| 0 <= i < locks.len() ==> (#[trigger] locks[i]).name == name,
    ensures
        grouped(locks).contains_key(name),
        grouped(locks)[name] == locks,
        grouped(locks).dom() == set![name],
    decreases locks.len(),
{
    let front = locks.drop_last();
    if front.len() > 0 {
        assert forall|i: int| 0 <= i < front.len() implies (#[trigger] front[i]).name == name by {
            assert(front[i] == locks[i]);
        }
        lemma_grouped_one_name(front, name);
        assert(front.push(locks.last()) =~= locks);
        assert(grouped(locks).dom() =~= set![name]);
    } else {
        assert(grouped(front) == no_groups());
        assert(seq![locks.last()] =~= locks);
        assert(grouped(locks).dom() =~= set![name]);
    }
}

/// Parsing is a function of the text: two results for one text hold the
/// same locks in the same order, or the same error.
pub proof fn lemma_parse_deterministic(
    text: Seq<char>,
    first: Result<Vec<DependencyLock>, ParseError>,
    second: Result<Vec<DependencyLock>, ParseError>,
)
    requires
        parse_result(text, first),
        parse_result(text, second),
    ensures
        match (first, second) {
            (Ok(a), Ok(b)) => lock_views(a@) == lock_views(b@),
            (Err(a), Err(b)) => a == b,
            _ => false,
        },
{
}

/// Grouped parsing is a function of the text as well.
pub proof fn lemma_parse_by_name_deterministic(
    text: Seq<char>,
    first: Result<MultiMap<String, DependencyLock>, ParseError>,
    second: Result<MultiMap<String, DependencyLock>, ParseError>,
)
    requires
        parse_by_name_result(text, first),
        parse_by_name_result(text, second),
    ensures
        match (first, second) {
            (Ok(a), Ok(b)) => groups(a) == groups(b),
            (Err(a), Err(b)) => a == b,
            _ => false,
        },
{
}

/// The two ways of parsing agree: they fail together, and the group of a
/// name holds the locks of that name from the flat sequence, in the same
/// order.
pub proof fn lemma_parse_by_name_agrees(
    text: Seq<char>,
    flat: Result<Vec<DependencyLock>, ParseError>,
    by_name: Result<MultiMap<String, DependencyLock>, ParseError>,
    name: Seq<char>,
)
    requires
        parse_result(text, flat),
        parse_by_name_result(text, by_name),
    ensures
        match (flat, by_name) {
            (Ok(locks), Ok(map)) => {
                &&& groups(map) == grouped(lock_views(locks@))
                &&& groups(map).contains_key(name) <==> with_name(lock_views(locks@), name).len()
                    > 0
                &&& groups(map).contains_key(name) ==> groups(map)[name] == with_name(
                    lock_views(locks@),
                    name,
                )
            },
            (Err(a), Err(b)) => a == b,
            _ => false,
        },
{
    if let Ok(locks) = flat {
        lemma_grouped_by_name(lock_views(locks@), name);
    }
}

/// Lines of which none is a dependency line hold no dependency.
pub proof fn lemma_no_dependency_lines(lines: Seq<Seq<char>>)
    requires
        forall|i: int| 0 <= i < lines.len() ==> dependency_entry(#[trigger] lines[i]) is None,
    ensures
        dependency_pairs(lines) == Seq::<(Seq<char>, VersionReq)>::empty(),
    decreases lines.len(),
{
    if lines.len() > 0 {
        let front = lines.drop_last();
        assert forall|i: int| 0 <= i < front.len() implies dependency_entry(#[trigger] front[i])
            is None by {
            assert(front[i] == lines[i]);
        }
        lemma_no_dependency_lines(front);
        assert(dependency_entry(lines[lines.len() - 1]) is None);
    }
}

/// A dependencies block without a single dependency line gives an empty
/// map, as a block without any dependencies block does.
pub proof fn lemma_no_dependencies(children: Seq<BlockView>)
    requires
        match dependencies_block(children) {
            Some(block) => forall|i: int|
                0 <= i < block.lines.len() ==> dependency_entry(#[trigger] block.lines[i]) is None,
            None => true,
        },
    ensures
        dependencies_of(children) == Map::<Seq<char>, VersionReq>::empty(),
{
    if let Some(block) = dependencies_block(children) {
        lemma_no_dependency_lines(block.lines);
    }
}

/// All locks of one run of head lines hold what the children state.
pub proof fn lemma_lines_locks_shared(lines: Seq<Seq<char>>, children: Seq<BlockView>, i: int)
    requires
        0 <= i < lines_locks(lines, children).len(),
    ensures
        lines_locks(lines, children)[i].version == last_version(child_lines(children)),
        lines_locks(lines, children)[i].resolved == last_resolved(child_lines(children)),
        lines_locks(lines, children)[i].dependencies == dependencies_of(children),
    decreases lines.len(),
{
    if lines.len() > 0 {
        let front = lines_locks(lines.drop_last(), children);
        if i < front.len() {
            lemma_lines_locks_shared(lines.drop_last(), children, i);
        }
    }
}

/// All locks of one block share the version, the location and the
/// dependencies; they differ in name and requirement only.
pub proof fn lemma_block_locks_shared(block: BlockView, i: int, j: int)
    requires
        0 <= i < block_locks(block).len(),
        0 <= j < block_locks(block).len(),
    ensures
        block_locks(block)[i].version == block_locks(block)[j].version,
        block_locks(block)[i].resolved == block_locks(block)[j].resolved,
        block_locks(block)[i].dependencies == block_locks(block)[j].dependencies,
{
    lemma_lines_locks_shared(block.lines, block.children, i);
    lemma_lines_locks_shared(block.lines, block.children, j);
}

} // verus!
