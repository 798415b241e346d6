//! The requirements of a package's own dependencies, keyed by package name.

use vstd::prelude::*;
use semver::VersionReq;
use crate::outside::clone_version_req;
use crate::text::same_text;

verus! {

/// The map that results from entering `pairs` in order: a later pair takes
/// the place of an earlier one with the same name.
pub open spec fn map_of(pairs: Seq<(Seq<char>, VersionReq)>) -> Map<Seq<char>, VersionReq>
    decreases pairs.len(),
{
    if pairs.len() == 0 {
        Map::empty()
    } else {
        map_of(pairs.drop_last()).insert(pairs.last().0, pairs.last().1)
    }
}

/// No name occurs twice among `pairs`.
pub open spec fn distinct_names(pairs: Seq<(Seq<char>, VersionReq)>) -> bool {
    forall|i: int, j: int| 0 <= i < j < pairs.len() ==> pairs[i].0 != pairs[j].0
}

/// The names in `map_of(pairs)` are the names among `pairs`.
pub proof fn lemma_map_of_names(pairs: Seq<(Seq<char>, VersionReq)>, name: Seq<char>)
    ensures
        map_of(pairs).contains_key(name) <==> exists|i: int|
            0 <= i < pairs.len() && #[trigger] pairs[i].0 == name,
    decreases pairs.len(),
{
    if pairs.len() > 0 {
        let front = pairs.drop_last();
        lemma_map_of_names(front, name);
        if map_of(pairs).contains_key(name) {
            if pairs.last().0 == name {
                assert(pairs[pairs.len() - 1].0 == name);
            } else {
                let i = choose|i: int| 0 <= i < front.len() && #[trigger] front[i].0 == name;
                assert(pairs[i].0 == name);
            }
        }
        if exists|i: int| 0 <= i < pairs.len() && #[trigger] pairs[i].0 == name {
            let i = choose|i: int| 0 <= i < pairs.len() && #[trigger] pairs[i].0 == name;
            if i < pairs.len() - 1 {
                assert(front[i].0 == name);
            }
        }
    }
}

/// Where no name occurs twice, each pair is found in `map_of(pairs)`.
pub proof fn lemma_map_of_distinct(pairs: Seq<(Seq<char>, VersionReq)>, i: int)
    requires
        distinct_names(pairs),
        0 <= i < pairs.len(),
    ensures
        map_of(pairs).contains_key(pairs[i].0),
        map_of(pairs)[pairs[i].0] == pairs[i].1,
    decreases pairs.len(),
{
    if i < pairs.len() - 1 {
        let front = pairs.drop_last();
        assert(distinct_names(front)) by {
            assert forall|a: int, b: int| 0 <= a < b < front.len() implies front[a].0
                != front[b].0 by {
                assert(front[a] == pairs[a] && front[b] == pairs[b]);
            }
        }
        lemma_map_of_distinct(front, i);
        assert(front[i] == pairs[i]);
        assert(pairs[i].0 != pairs[pairs.len() - 1].0);
    }
}

/// Where no name occurs twice, `map_of(pairs)` holds as many names as there
/// are pairs.
pub proof fn lemma_map_of_len(pairs: Seq<(Seq<char>, VersionReq)>)
    requires
        distinct_names(pairs),
    ensures
        map_of(pairs).dom().finite(),
        map_of(pairs).dom().len() == pairs.len(),
    decreases pairs.len(),
{
    if pairs.len() > 0 {
        let front = pairs.drop_last();
        assert(distinct_names(front)) by {
            assert forall|a: int, b: int| 0 <= a < b < front.len() implies front[a].0
                != front[b].0 by {
                assert(front[a] == pairs[a] && front[b] == pairs[b]);
            }
        }
        lemma_map_of_len(front);
        lemma_map_of_names(front, pairs.last().0);
        if map_of(front).contains_key(pairs.last().0) {
            let i = choose|i: int| 0 <= i < front.len() && #[trigger] front[i].0 == pairs.last().0;
            assert(front[i] == pairs[i]);
            assert(pairs[i].0 == pairs[pairs.len() - 1].0);
        }
        assert(map_of(pairs).dom() =~= map_of(front).dom().insert(pairs.last().0));
    }
}

/// A map from package names to version requirements.
///
/// The entries are kept in the order in which their names were first
/// entered, and no name is kept twice.
#[derive(Debug)]
pub struct DependencyMap {
    entries: Vec<(String, VersionReq)>,
}

impl View for DependencyMap {
    type V = Map<Seq<char>, VersionReq>;

    closed spec fn view(&self) -> Map<Seq<char>, VersionReq> {
        map_of(self.pairs())
    }
}

impl DependencyMap {
    /// The entries as pairs of a name and a requirement, in order.
    pub closed spec fn pairs(&self) -> Seq<(Seq<char>, VersionReq)> {
        Seq::new(self.entries@.len(), |i: int| (self.entries@[i].0@, self.entries@[i].1))
    }

    /// The invariant of the type: no name is kept twice.
    pub closed spec fn wf(&self) -> bool {
        distinct_names(self.pairs())
    }

    /// The view is the map of the pairs, and the pairs' names are distinct.
    pub proof fn lemma_view(&self)
        requires
            self.wf(),
        ensures
            self@ == map_of(self.pairs()),
            distinct_names(self.pairs()),
            self@.dom().finite(),
            self@.dom().len() == self.pairs().len(),
    {
        lemma_map_of_len(self.pairs());
    }

    /// An empty map.
    pub fn new() -> (r: DependencyMap)
        ensures
            r.wf(),
            r@ == Map::<Seq<char>, VersionReq>::empty(),
            r.pairs() == Seq::<(Seq<char>, VersionReq)>::empty(),
    {
        let r = DependencyMap { entries: Vec::new() };
        assert(r.pairs() =~= Seq::empty());
        r
    }

    /// The number of names in the map.
    pub fn len(&self) -> (r: usize)
        requires
            self.wf(),
        ensures
            r == self@.dom().len(),
            self@.dom().finite(),
    {
        proof {
            lemma_map_of_len(self.pairs());
        }
        self.entries.len()
    }

    /// Whether the map holds no name.
    pub fn is_empty(&self) -> (r: bool)
        requires
            self.wf(),
        ensures
            r == (self@ == Map::<Seq<char>, VersionReq>::empty()),
    {
        proof {
            lemma_map_of_len(self.pairs());
            if self.entries@.len() == 0 {
                assert(self.pairs() =~= Seq::empty());
            } else {
                lemma_map_of_distinct(self.pairs(), 0);
            }
        }
        self.entries.len() == 0
    }

    /// The place of `name` among the entries, if it is there.
    fn position(&self, name: &str) -> (r: Option<usize>)
        ensures
            match r {
                Some(i) => i < self.pairs().len() && self.pairs()[i as int].0 == name@,
                None => forall|i: int| 0 <= i < self.pairs().len() ==> self.pairs()[i].0 != name@,
            },
    {
        let mut i: usize = 0;
        while i < self.entries.len()
            invariant
                i <= self.entries@.len(),
                forall|k: int| 0 <= k < i ==> self.pairs()[k].0 != name@,
            decreases self.entries@.len() - i,
        {
            if same_text(self.entries[i].0.as_str(), name) {
                return Some(i);
            }
            i += 1;
        }
        None
    }

    /// The requirement entered for `name`, if there is one.
    pub fn get(&self, name: &str) -> (r: Option<&VersionReq>)
        requires
            self.wf(),
        ensures
            match r {
                Some(req) => self@.contains_key(name@) && self@[name@] == *req,
                None => !self@.contains_key(name@),
            },
    {
        proof {
            lemma_map_of_names(self.pairs(), name@);
        }
        match self.position(name) {
            Some(i) => {
                proof {
                    lemma_map_of_distinct(self.pairs(), i as int);
                }
                Some(&self.entries[i].1)
            },
            None => None,
        }
    }

    /// Whether a requirement is entered for `name`.
    pub fn contains_key(&self, name: &str) -> (r: bool)
        requires
            self.wf(),
        ensures
            r == self@.contains_key(name@),
    {
        self.get(name).is_some()
    }

    /// Enters `req` for `name`, in place of what was entered for it before.
    pub fn insert(&mut self, name: String, req: VersionReq)
        requires
            old(self).wf(),
        ensures
            final(self).wf(),
            final(self)@ == old(self)@.insert(name@, req),
    {
        let ghost before = self.pairs();
        match self.position(name.as_str()) {
            Some(i) => {
                self.entries.set(i, (name, req));
                proof {
                    let after = self.pairs();
                    assert(after =~= before.update(i as int, (name@, req)));
                    assert(distinct_names(after));
                    assert forall|k: Seq<char>| #[trigger]
                        map_of(after).contains_key(k) == map_of(before).insert(
                            name@,
                            req,
                        ).contains_key(k) by {
                        lemma_map_of_names(after, k);
                        lemma_map_of_names(before, k);
                        if map_of(after).contains_key(k) {
                            let j = choose|j: int| 0 <= j < after.len() && #[trigger] after[j].0 == k;
                            assert(before[j].0 == k);
                        }
                        if map_of(before).contains_key(k) {
                            let j = choose|j: int|
                                0 <= j < before.len() && #[trigger] before[j].0 == k;
                            assert(after[j].0 == k);
                        }
                        assert(after[i as int].0 == name@);
                    }
                    assert forall|k: Seq<char>| #[trigger]
                        map_of(after).contains_key(k) implies map_of(after)[k] == map_of(
                        before,
                    ).insert(name@, req)[k] by {
                        lemma_map_of_names(after, k);
                        let j = choose|j: int| 0 <= j < after.len() && #[trigger] after[j].0 == k;
                        lemma_map_of_distinct(after, j);
                        lemma_map_of_distinct(before, j);
                        lemma_map_of_distinct(after, i as int);
                    }
                    assert(map_of(after) =~= map_of(before).insert(name@, req));
                }
            },
            None => {
                self.entries.push((name, req));
                proof {
                    let after = self.pairs();
                    assert(after =~= before.push((name@, req)));
                    assert(after.drop_last() =~= before);
                }
            },
        }
    }

    /// The names and requirements of the map, each name once, in the order
    /// in which the names were first entered.
    pub fn entries(&self) -> (r: &Vec<(String, VersionReq)>)
        ensures
            r@.len() == self.pairs().len(),
            forall|i: int| 0 <= i < r@.len() ==> (#[trigger] r@[i]).0@ == self.pairs()[i].0 && r@[i].1
                == self.pairs()[i].1,
    {
        &self.entries
    }
}

impl Clone for DependencyMap {
    /// A copy with the same names and requirements.
    fn clone(&self) -> (r: DependencyMap)
        ensures
            r@ == self@,
            r.pairs() == self.pairs(),
            r.wf() == self.wf(),
    {
        let mut entries: Vec<(String, VersionReq)> = Vec::new();
        let mut i: usize = 0;
        while i < self.entries.len()
            invariant
                i <= self.entries@.len(),
                entries@.len() == i,
                forall|k: int| 0 <= k < i ==> entries@[k].0@ == self.entries@[k].0@ && entries@[k].1
                    == self.entries@[k].1,
            decreases self.entries@.len() - i,
        {
            let name = self.entries[i].0.clone();
            let req = clone_version_req(&self.entries[i].1);
            entries.push((name, req));
            i += 1;
        }
        let r = DependencyMap { entries };
        assert(r.pairs() =~= self.pairs());
        r
    }
}

} // verus!
