//! Per-side buckets: for each digest, the paths whose content has it.

use crate::digest::same_digest;
use crate::digest::Sha256Sum;
use std::collections::HashMap;
use std::path::PathBuf;
use vstd::prelude::*;

verus! {

/// One digest with the paths that share it, in the order they were added.
pub type Group = (Seq<u8>, Seq<PathBuf>);

/// Whether some group of `groups` is filed under `digest`.
pub open spec fn has_digest(groups: Seq<Group>, digest: Seq<u8>) -> bool {
    exists|i: int| 0 <= i < groups.len() && (#[trigger] groups[i]).0 == digest
}

/// The position of a group filed under `digest`, where there is one.
pub open spec fn index_of(groups: Seq<Group>, digest: Seq<u8>) -> int {
    choose|i: int| 0 <= i < groups.len() && (#[trigger] groups[i]).0 == digest
}

/// The paths filed under `digest`; none where the digest is unknown.
pub open spec fn paths_of(groups: Seq<Group>, digest: Seq<u8>) -> Seq<PathBuf> {
    if has_digest(groups, digest) {
        groups[index_of(groups, digest)].1
    } else {
        Seq::empty()
    }
}

/// No digest heads two groups.
pub open spec fn distinct_digests(groups: Seq<Group>) -> bool {
    forall|i: int, j: int|
        0 <= i < j < groups.len() ==> (#[trigger] groups[i]).0 != (#[trigger] groups[j]).0
}

/// The groups read as a mapping from digest to paths.
pub open spec fn as_map(groups: Seq<Group>) -> Map<Seq<u8>, Seq<PathBuf>> {
    Map::new(|d: Seq<u8>| has_digest(groups, d), |d: Seq<u8>| paths_of(groups, d))
}

/// `groups` after one more path was filed under `digest`: appended to the
/// digest's group where it has one, else in a new group at the end.
pub open spec fn added(groups: Seq<Group>, digest: Seq<u8>, path: PathBuf) -> Seq<Group> {
    if has_digest(groups, digest) {
        let i = index_of(groups, digest);
        groups.update(i, (digest, groups[i].1.push(path)))
    } else {
        groups.push((digest, seq![path]))
    }
}

/// `groups` after `digest` was given `paths` as its whole list: in place where
/// the digest has a group, else in a new group at the end.
pub open spec fn replaced(groups: Seq<Group>, digest: Seq<u8>, paths: Seq<PathBuf>) -> Seq<
    Group,
> {
    if has_digest(groups, digest) {
        groups.update(index_of(groups, digest), (digest, paths))
    } else {
        groups.push((digest, paths))
    }
}

/// What a list of stored groups stands for.
pub open spec fn groups_view(entries: Seq<(Sha256Sum, Vec<PathBuf>)>) -> Seq<Group> {
    Seq::new(entries.len(), |i: int| (entries[i].0@, entries[i].1@))
}

/// In a list without repeated digests, the group of a digest is found at one
/// position only.
pub proof fn lemma_index_of_unique(groups: Seq<Group>, i: int)
    requires
        distinct_digests(groups),
        0 <= i < groups.len(),
    ensures
        has_digest(groups, groups[i].0),
        index_of(groups, groups[i].0) == i,
        paths_of(groups, groups[i].0) == groups[i].1,
{
    let d = groups[i].0;
    let j = index_of(groups, d);
    assert(0 <= j < groups.len() && groups[j].0 == d);
    if j < i {
        assert(groups[j].0 != groups[i].0);
    } else if i < j {
        assert(groups[i].0 != groups[j].0);
    }
}

/// A digest is found in a list with one more group where it was found before
/// or where it heads the new group.
pub proof fn lemma_has_digest_push(groups: Seq<Group>, group: Group, digest: Seq<u8>)
    ensures
        has_digest(groups.push(group), digest) == (has_digest(groups, digest) || group.0
            == digest),
{
    let longer = groups.push(group);
    if has_digest(groups, digest) {
        let i = index_of(groups, digest);
        assert(longer[i].0 == digest);
    }
    if group.0 == digest {
        assert(longer[groups.len() as int].0 == digest);
    }
    if has_digest(longer, digest) {
        let i = index_of(longer, digest);
        if i < groups.len() {
            assert(groups[i].0 == digest);
        }
    }
}

/// In a list without repeated digests, the paths of a digest after one more
/// group was appended: the new group's where it is the new group's digest,
/// else what they were.
pub proof fn lemma_paths_of_push(groups: Seq<Group>, group: Group, digest: Seq<u8>)
    requires
        distinct_digests(groups.push(group)),
    ensures
        distinct_digests(groups),
        !has_digest(groups, group.0),
        paths_of(groups.push(group), digest) == if group.0 == digest {
            group.1
        } else {
            paths_of(groups, digest)
        },
{
    let longer = groups.push(group);
    let n = groups.len() as int;
    assert forall|i: int, j: int| 0 <= i < j < groups.len() implies (#[trigger] groups[i]).0 != (
    #[trigger] groups[j]).0 by {
        assert(longer[i].0 != longer[j].0);
    }
    if has_digest(groups, group.0) {
        let i = index_of(groups, group.0);
        assert(longer[i].0 != longer[n].0);
    }
    lemma_has_digest_push(groups, group, digest);
    if group.0 == digest {
        lemma_index_of_unique(longer, n);
    } else if has_digest(groups, digest) {
        let i = index_of(groups, digest);
        lemma_index_of_unique(groups, i);
        assert(longer[i] == groups[i]);
        lemma_index_of_unique(longer, i);
    }
}

/// Filing one more path keeps every digest at the head of one group only.
pub proof fn lemma_added_keeps_distinct(groups: Seq<Group>, digest: Seq<u8>, path: PathBuf)
    requires
        distinct_digests(groups),
    ensures
        distinct_digests(added(groups, digest, path)),
{
    let after = added(groups, digest, path);
    if has_digest(groups, digest) {
        let k = index_of(groups, digest);
        assert forall|i: int, j: int| 0 <= i < j < after.len() implies (#[trigger] after[i]).0 != (
        #[trigger] after[j]).0 by {
            assert(after[i].0 == groups[i].0);
            assert(after[j].0 == groups[j].0);
        }
    } else {
        assert forall|i: int, j: int| 0 <= i < j < after.len() implies (#[trigger] after[i]).0 != (
        #[trigger] after[j]).0 by {
            if j < groups.len() {
                assert(after[i] == groups[i]);
                assert(after[j] == groups[j]);
            } else {
                assert(after[i] == groups[i]);
            }
        }
    }
}

/// What filing one more path does to the group of any digest: the path joins
/// the end of the list of its own digest, and no other list changes.
pub proof fn lemma_added_groups(groups: Seq<Group>, filed_under: Seq<u8>, path: PathBuf, digest: Seq<u8>)
    requires
        distinct_digests(groups),
    ensures
        has_digest(added(groups, filed_under, path), digest) == (has_digest(groups, digest)
            || digest == filed_under),
        paths_of(added(groups, filed_under, path), digest) == if digest == filed_under {
            paths_of(groups, digest).push(path)
        } else {
            paths_of(groups, digest)
        },
{
    let after = added(groups, filed_under, path);
    lemma_added_keeps_distinct(groups, filed_under, path);
    if has_digest(groups, filed_under) {
        let k = index_of(groups, filed_under);
        lemma_index_of_unique(groups, k);
        assert(after[k].0 == filed_under);
        lemma_index_of_unique(after, k);
        if digest != filed_under {
            if has_digest(groups, digest) {
                let i = index_of(groups, digest);
                lemma_index_of_unique(groups, i);
                assert(after[i] == groups[i]);
                lemma_index_of_unique(after, i);
            } else if has_digest(after, digest) {
                let i = index_of(after, digest);
                assert(groups[i].0 == digest);
            }
        }
    } else {
        lemma_paths_of_push(groups, (filed_under, seq![path]), digest);
        lemma_has_digest_push(groups, (filed_under, seq![path]), digest);
        assert(Seq::<PathBuf>::empty().push(path) =~= seq![path]);
    }
}

/// Filing one more path, read as a mapping: the digest now maps to its list
/// with the path at the end, and every other digest maps to what it did.
pub proof fn lemma_added_as_map(groups: Seq<Group>, digest: Seq<u8>, path: PathBuf)
    requires
        distinct_digests(groups),
    ensures
        as_map(added(groups, digest, path)) == as_map(groups).insert(
            digest,
            paths_of(groups, digest).push(path),
        ),
{
    let after = as_map(added(groups, digest, path));
    let expected = as_map(groups).insert(digest, paths_of(groups, digest).push(path));
    assert forall|d: Seq<u8>| after.dom().contains(d) == expected.dom().contains(d) by {
        lemma_added_groups(groups, digest, path, d);
    }
    assert(after.dom() =~= expected.dom());
    assert forall|d: Seq<u8>| #[trigger] after.dom().contains(d) implies after[d] == expected[d] by {
        lemma_added_groups(groups, digest, path, d);
    }
    assert(after =~= expected);
}

/// The number under which a digest is looked up: its first eight bytes,
/// lowest first.
pub closed spec fn key_of(digest: Seq<u8>) -> u64 {
    (digest[0] as int + digest[1] as int * 0x100 + digest[2] as int * 0x1_0000 + digest[3] as int
        * 0x100_0000 + digest[4] as int * 0x1_0000_0000 + digest[5] as int * 0x100_0000_0000
        + digest[6] as int * 0x1_0000_0000_0000 + digest[7] as int * 0x100_0000_0000_0000) as u64
}

/// Computes the number under which a digest is looked up.
fn digest_key(hash: &Sha256Sum) -> (key: u64)
    ensures
        key == key_of(hash@),
{
    let b0: u64 = hash[0] as u64;
    let b1: u64 = hash[1] as u64;
    let b2: u64 = hash[2] as u64;
    let b3: u64 = hash[3] as u64;
    let b4: u64 = hash[4] as u64;
    let b5: u64 = hash[5] as u64;
    let b6: u64 = hash[6] as u64;
    let b7: u64 = hash[7] as u64;
    b0 + b1 * 0x100 + b2 * 0x1_0000 + b3 * 0x100_0000 + b4 * 0x1_0000_0000 + b5 * 0x100_0000_0000
        + b6 * 0x1_0000_0000_0000 + b7 * 0x100_0000_0000_0000
}

/// Looks for `hash` among the groups at the positions that `chain` lists.
fn among(entries: &Vec<(Sha256Sum, Vec<PathBuf>)>, chain: &Vec<usize>, hash: &Sha256Sum) -> (found:
    Option<usize>)
    requires
        forall|u: int| 0 <= u < chain@.len() ==> (#[trigger] chain@[u]) < entries@.len(),
    ensures
        match found {
            Some(j) => j < entries@.len() && entries@[j as int].0@ == hash@,
            None => forall|u: int|
                0 <= u < chain@.len() ==> entries@[(#[trigger] chain@[u]) as int].0@ != hash@,
        },
{
    let mut t: usize = 0;
    while t < chain.len()
        invariant
            t <= chain@.len(),
            forall|u: int| 0 <= u < chain@.len() ==> (#[trigger] chain@[u]) < entries@.len(),
            forall|u: int| 0 <= u < t ==> entries@[(#[trigger] chain@[u]) as int].0@ != hash@,
        decreases chain@.len() - t,
    {
        let j = chain[t];
        if same_digest(&entries[j].0, hash) {
            return Some(j);
        }
        t += 1;
    }
    None
}

/// The digest-to-paths mapping of one side, kept in the order in which the
/// digests first arrived. An index from the first bytes of each digest to the
/// positions of the groups that start with them finds a digest without going
/// through all groups.
pub struct HashBucket {
    entries: Vec<(Sha256Sum, Vec<PathBuf>)>,
    index: HashMap<u64, Vec<usize>>,
}

impl View for HashBucket {
    type V = Seq<Group>;

    closed spec fn view(&self) -> Seq<Group> {
        groups_view(self.entries@)
    }
}

impl HashBucket {
    /// The index is exact: it lists every group under the key of the group's
    /// digest, and lists nothing else.
    pub closed spec fn indexed(&self) -> bool {
        &&& forall|i: int|
            0 <= i < self.entries@.len() ==> {
                &&& self.index@.contains_key(key_of((#[trigger] self.entries@[i]).0@))
                &&& self.index@[key_of(self.entries@[i].0@)]@.contains(i as usize)
            }
        &&& forall|key: u64, t: int|
            self.index@.contains_key(key) && 0 <= t < self.index@[key]@.len() ==> {
                &&& (#[trigger] self.index@[key]@[t]) < self.entries@.len()
                &&& key_of(self.entries@[self.index@[key]@[t] as int].0@) == key
            }
    }

    /// The bucket's invariant: every digest heads one group only, and the
    /// index is exact.
    pub open spec fn wf(&self) -> bool {
        distinct_digests(self@) && self.indexed()
    }

    /// A bucket with no digest in it.
    pub fn new() -> (bucket: HashBucket)
        ensures
            bucket@ == Seq::<Group>::empty(),
            bucket.wf(),
    {
        broadcast use vstd::std_specs::hash::group_hash_axioms;

        let bucket = HashBucket { entries: Vec::new(), index: HashMap::new() };
        assert(bucket@ =~= Seq::<Group>::empty());
        bucket
    }

    /// Finds the group of `hash`.
    fn find(&self, hash: &Sha256Sum) -> (found: Option<usize>)
        requires
            self.indexed(),
        ensures
            match found {
                Some(j) => j < self@.len() && self@[j as int].0 == hash@,
                None => !has_digest(self@, hash@),
            },
    {
        broadcast use vstd::std_specs::hash::group_hash_axioms;

        let key = digest_key(hash);
        let n = self.entries.len();
        match self.index.get(&key) {
            None => {
                proof {
                    // A group with this digest would be listed under its key.
                    if has_digest(self@, hash@) {
                        let i = index_of(self@, hash@);
                        assert(self.entries@[i].0@ == hash@);
                    }
                }
                None
            },
            Some(chain) => {
                proof {
                    assert forall|u: int| 0 <= u < chain@.len() implies (#[trigger] chain@[u])
                        < self.entries@.len() by {
                        assert(self.index@[key]@[u] == chain@[u]);
                    }
                }
                let found = among(&self.entries, chain, hash);
                proof {
                    // A group with this digest would be listed in the chain.
                    if found is None && has_digest(self@, hash@) {
                        let i = index_of(self@, hash@);
                        assert(self.entries@[i].0@ == hash@);
                        assert(i < n);
                        let at = i as usize;
                        assert(chain@.contains(at));
                        let u = choose|u: int| 0 <= u < chain@.len() && chain@[u] == at;
                        assert(self.entries@[chain@[u] as int].0@ != hash@);
                    }
                }
                found
            },
        }
    }

    /// Appends a group for a digest that the bucket does not hold yet.
    fn append(&mut self, hash: Sha256Sum, paths: Vec<PathBuf>)
        requires
            old(self).wf(),
            !has_digest(old(self)@, hash@),
        ensures
            final(self).wf(),
            final(self)@ == old(self)@.push((hash@, paths@)),
    {
        broadcast use vstd::std_specs::hash::group_hash_axioms;

        let key = digest_key(&hash);
        let at = self.entries.len();
        let mut chain = match self.index.remove(&key) {
            Some(chain) => chain,
            None => Vec::new(),
        };
        let ghost before = chain@;
        chain.push(at);
        self.index.insert(key, chain);
        self.entries.push((hash, paths));
        proof {
            assert(self@ =~= old(self)@.push((hash@, paths@)));
            assert forall|i: int, j: int| 0 <= i < j < self@.len() implies (#[trigger] self@[i]).0
                != (#[trigger] self@[j]).0 by {
                assert(self@[i] == old(self)@[i]);
                if j < at {
                    assert(self@[j] == old(self)@[j]);
                }
            }
            assert forall|i: int| 0 <= i < self.entries@.len() implies {
                &&& self.index@.contains_key(key_of((#[trigger] self.entries@[i]).0@))
                &&& self.index@[key_of(self.entries@[i].0@)]@.contains(i as usize)
            } by {
                if i < at {
                    assert(self.entries@[i] == old(self).entries@[i]);
                    let k = key_of(self.entries@[i].0@);
                    if k == key {
                        assert(before.contains(i as usize));
                        let u = choose|u: int| 0 <= u < before.len() && before[u] == i as usize;
                        assert(chain@[u] == i as usize);
                    }
                } else {
                    assert(chain@[before.len() as int] == at);
                }
            }
            assert forall|k: u64, t: int|
                self.index@.contains_key(k) && 0 <= t < self.index@[k]@.len() implies {
                &&& (#[trigger] self.index@[k]@[t]) < self.entries@.len()
                &&& key_of(self.entries@[self.index@[k]@[t] as int].0@) == k
            } by {
                if k == key {
                    if t < before.len() {
                        assert(old(self).index@[k]@[t] == before[t]);
                        assert(self.entries@[before[t] as int] == old(self).entries@[before[t] as int]);
                    }
                } else {
                    assert(old(self).index@[k]@[t] == self.index@[k]@[t]);
                    let j = self.index@[k]@[t];
                    assert(self.entries@[j as int] == old(self).entries@[j as int]);
                }
            }
        }
    }

    /// The number of distinct digests.
    pub fn len(&self) -> (n: usize)
        ensures
            n == self@.len(),
    {
        self.entries.len()
    }

    /// Whether the bucket holds no digest.
    pub fn is_empty(&self) -> (empty: bool)
        ensures
            empty == (self@.len() == 0),
    {
        self.entries.len() == 0
    }

    /// Whether some path was filed under `hash`.
    pub fn contains_key(&self, hash: &Sha256Sum) -> (found: bool)
        requires
            self.wf(),
        ensures
            found == has_digest(self@, hash@),
    {
        self.find(hash).is_some()
    }

    /// The paths filed under `hash`, if there are any.
    pub fn get(&self, hash: &Sha256Sum) -> (found: Option<&Vec<PathBuf>>)
        requires
            self.wf(),
        ensures
            found is Some == has_digest(self@, hash@),
            found matches Some(paths) ==> paths@ == paths_of(self@, hash@),
    {
        match self.find(hash) {
            Some(j) => {
                proof {
                    lemma_index_of_unique(self@, j as int);
                }
                Some(&self.entries[j].1)
            },
            None => None,
        }
    }

    /// Files `paths` under `hash` as its whole list, and hands back the list
    /// that `hash` had before, if it had one.
    pub fn insert(&mut self, hash: Sha256Sum, paths: Vec<PathBuf>) -> (before: Option<
        Vec<PathBuf>,
    >)
        requires
            old(self).wf(),
        ensures
            final(self).wf(),
            final(self)@ == replaced(old(self)@, hash@, paths@),
            before is Some == has_digest(old(self)@, hash@),
            before matches Some(list) ==> list@ == paths_of(old(self)@, hash@),
    {
        match self.find(&hash) {
            Some(j) => {
                proof {
                    lemma_index_of_unique(self@, j as int);
                }
                let mut list = paths;
                std::mem::swap(&mut self.entries[j].1, &mut list);
                proof {
                    self.lemma_same_digests(*old(self));
                    assert(self@ =~= replaced(old(self)@, hash@, paths@));
                }
                Some(list)
            },
            None => {
                self.append(hash, paths);
                None
            },
        }
    }

    /// Takes the paths filed under `hash` out of the bucket, if there are
    /// any, and leaves the digest in place with an empty list.
    pub fn take_paths(&mut self, hash: &Sha256Sum) -> (taken: Option<Vec<PathBuf>>)
        requires
            old(self).wf(),
        ensures
            final(self).wf(),
            taken is Some == has_digest(old(self)@, hash@),
            taken matches Some(paths) ==> {
                &&& paths@ == paths_of(old(self)@, hash@)
                &&& final(self)@ == old(self)@.update(
                    index_of(old(self)@, hash@),
                    (hash@, Seq::<PathBuf>::empty()),
                )
            },
            taken is None ==> final(self)@ == old(self)@,
    {
        match self.find(hash) {
            Some(j) => {
                proof {
                    lemma_index_of_unique(self@, j as int);
                }
                let mut list: Vec<PathBuf> = Vec::new();
                std::mem::swap(&mut self.entries[j].1, &mut list);
                proof {
                    self.lemma_same_digests(*old(self));
                    assert(self@ =~= old(self)@.update(
                        j as int,
                        (hash@, Seq::<PathBuf>::empty()),
                    ));
                }
                Some(list)
            },
            None => None,
        }
    }

    /// Hands the groups out, in order.
    pub fn into_groups(self) -> (groups: Vec<(Sha256Sum, Vec<PathBuf>)>)
        ensures
            groups_view(groups@) == self@,
    {
        self.entries
    }

    /// A bucket that differs from a well-formed one in the paths only, with
    /// every digest and the index as they were, is well-formed.
    proof fn lemma_same_digests(self, before: HashBucket)
        requires
            before.wf(),
            self.index == before.index,
            self.entries@.len() == before.entries@.len(),
            forall|i: int|
                0 <= i < self.entries@.len() ==> (#[trigger] self.entries@[i]).0
                    == before.entries@[i].0,
        ensures
            self.wf(),
    {
        assert forall|i: int, j: int| 0 <= i < j < self@.len() implies (#[trigger] self@[i]).0 != (
        #[trigger] self@[j]).0 by {
            assert(self.entries@[i].0 == before.entries@[i].0);
            assert(self.entries@[j].0 == before.entries@[j].0);
            assert(before@[i].0 != before@[j].0);
        }
        assert forall|i: int| 0 <= i < self.entries@.len() implies {
            &&& self.index@.contains_key(key_of((#[trigger] self.entries@[i]).0@))
            &&& self.index@[key_of(self.entries@[i].0@)]@.contains(i as usize)
        } by {
            assert(self.entries@[i].0 == before.entries@[i].0);
        }
        assert forall|key: u64, t: int|
            self.index@.contains_key(key) && 0 <= t < self.index@[key]@.len() implies {
            &&& (#[trigger] self.index@[key]@[t]) < self.entries@.len()
            &&& key_of(self.entries@[self.index@[key]@[t] as int].0@) == key
        } by {
            let j = before.index@[key]@[t];
            assert(self.entries@[j as int].0 == before.entries@[j as int].0);
        }
    }
}

/// Files `path` under `hash`: behind the paths that `hash` already has, or as
/// the first path of a digest not seen before.
pub fn add_to_result_hash_map(map: &mut HashBucket, hash: Sha256Sum, path: PathBuf)
    requires
        old(map).wf(),
    ensures
        final(map).wf(),
        final(map)@ == added(old(map)@, hash@, path),
{
    match map.find(&hash) {
        Some(j) => {
            proof {
                lemma_index_of_unique(map@, j as int);
            }
            map.entries[j].1.push(path);
            proof {
                map.lemma_same_digests(*old(map));
                assert(map@ =~= added(old(map)@, hash@, path));
            }
        },
        None => {
            let mut list: Vec<PathBuf> = Vec::with_capacity(1);
            list.push(path);
            map.append(hash, list);
            assert(map@ =~= added(old(map)@, hash@, path));
        },
    }
}

} // verus!
