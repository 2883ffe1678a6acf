//! Reconciliation: two buckets become a three-way partition.

use crate::bucket::added;
use crate::bucket::distinct_digests;
use crate::bucket::Group;
use crate::bucket::groups_view;
use crate::bucket::has_digest;
use crate::bucket::HashBucket;
use crate::bucket::index_of;
use crate::bucket::lemma_has_digest_push;
use crate::bucket::lemma_index_of_unique;
use crate::bucket::lemma_paths_of_push;
use crate::bucket::paths_of;
use crate::counting::lemma_nothing_counted;
use std::path::PathBuf;
use vstd::prelude::*;
use vstd::seq_lib::lemma_multiset_commutative;
use vstd::seq_lib::to_multiset_build;

verus! {

/// The paths of the groups of `a` whose digest `b` lacks: group after group in
/// the order of `a`, each group's paths in their own order.
pub open spec fn only_in(a: Seq<Group>, b: Seq<Group>) -> Seq<PathBuf>
    decreases a.len(),
{
    if a.len() == 0 {
        Seq::empty()
    } else if has_digest(b, a.last().0) {
        only_in(a.drop_last(), b)
    } else {
        only_in(a.drop_last(), b) + a.last().1
    }
}

/// For each group of `a` whose digest `b` has too, in the order of `a`: the
/// group's paths paired with the paths that `b` files under the same digest.
pub open spec fn in_both(a: Seq<Group>, b: Seq<Group>) -> Seq<(Seq<PathBuf>, Seq<PathBuf>)>
    decreases a.len(),
{
    if a.len() == 0 {
        Seq::empty()
    } else if has_digest(b, a.last().0) {
        in_both(a.drop_last(), b).push((a.last().1, paths_of(b, a.last().0)))
    } else {
        in_both(a.drop_last(), b)
    }
}

/// What a list of stored pairs stands for.
pub open spec fn pairs_view(pairs: Seq<(Vec<PathBuf>, Vec<PathBuf>)>) -> Seq<
    (Seq<PathBuf>, Seq<PathBuf>),
> {
    Seq::new(pairs.len(), |i: int| (pairs[i].0@, pairs[i].1@))
}

/// The three-way partition of all paths that were hashed.
pub struct Locations {
    /// Paths whose content is found on the left side only.
    pub left: Vec<PathBuf>,
    /// For each content found on both sides: its left paths and its right paths.
    pub both: Vec<(Vec<PathBuf>, Vec<PathBuf>)>,
    /// Paths whose content is found on the right side only.
    pub right: Vec<PathBuf>,
}

impl Locations {
    /// The left-only paths.
    pub open spec fn left_only(self) -> Seq<PathBuf> {
        self.left@
    }

    /// The pairs of path lists that share a digest.
    pub open spec fn both_matches(self) -> Seq<(Seq<PathBuf>, Seq<PathBuf>)> {
        pairs_view(self.both@)
    }

    /// The right-only paths.
    pub open spec fn right_only(self) -> Seq<PathBuf> {
        self.right@
    }
}

/// Splits the paths of two buckets three ways. A digest that both buckets hold
/// gives one pair in `both`: its left paths and its right paths. The paths of
/// every other digest go to `left` or to `right`, by the bucket they come from.
/// Nothing is sorted: the lists follow the buckets' own order.
pub fn split_into_locations(left: HashBucket, right: HashBucket) -> (locations: Locations)
    requires
        left.wf(),
        right.wf(),
    ensures
        locations.left_only() == only_in(left@, right@),
        locations.both_matches() == in_both(left@, right@),
        locations.right_only() == only_in(right@, left@),
{
    let ghost l = left@;
    let ghost r = right@;
    let from_left = left.into_groups();
    let mut right = right;
    let mut left_only: Vec<PathBuf> = Vec::new();
    let mut both: Vec<(Vec<PathBuf>, Vec<PathBuf>)> = Vec::new();

    // The left groups in order: each either finds its digest on the right, and
    // takes the right paths along, or goes to the left-only list.
    for group in it: from_left
        invariant
            it.seq() == from_left@,
            l == groups_view(from_left@),
            distinct_digests(l),
            distinct_digests(r),
            right.wf(),
            right@.len() == r.len(),
            forall|j: int| 0 <= j < r.len() ==> (#[trigger] right@[j]).0 == r[j].0,
            forall|j: int|
                0 <= j < r.len() ==> (#[trigger] right@[j]).1 == (if has_digest(
                    l.take(it.index() as int),
                    r[j].0,
                ) {
                    Seq::<PathBuf>::empty()
                } else {
                    r[j].1
                }),
            left_only@ == only_in(l.take(it.index() as int), r),
            pairs_view(both@) == in_both(l.take(it.index() as int), r),
    {
        let ghost i = it.index() as int;
        let ghost before = l.take(i);
        let ghost after = l.take(i + 1);
        let ghost right_before = right@;
        let (digest, mut left_paths) = group;
        proof {
            assert(l[i] == (digest@, left_paths@));
            assert(after.drop_last() =~= before);
            assert(after.last() == l[i]);
            assert(after =~= before.push(l[i]));
        }
        match right.take_paths(&digest) {
            Some(right_paths) => {
                let ghost j = index_of(right_before, digest@);
                proof {
                    assert(right_before[j].0 == r[j].0);
                    lemma_index_of_unique(right_before, j);
                    lemma_index_of_unique(r, j);
                    // No earlier left group has this digest, so the right
                    // paths are still in place.
                    if has_digest(before, r[j].0) {
                        let e = index_of(before, r[j].0);
                        assert(l[e].0 != l[i].0);
                    }
                    assert(right_before[j].1 == r[j].1);
                }
                both.push((left_paths, right_paths));
                proof {
                    assert(pairs_view(both@) =~= in_both(before, r).push(
                        (l[i].1, paths_of(r, l[i].0)),
                    ));
                    assert forall|t: int| 0 <= t < r.len() implies (#[trigger] right@[t]).0
                        == r[t].0 by {
                        assert(right_before[t].0 == r[t].0);
                    }
                    assert forall|t: int| 0 <= t < r.len() implies (#[trigger] right@[t]).1 == (
                    if has_digest(after, r[t].0) {
                        Seq::<PathBuf>::empty()
                    } else {
                        r[t].1
                    }) by {
                        lemma_has_digest_push(before, l[i], r[t].0);
                        if t != j {
                            assert(right_before[t].1 == right@[t].1);
                            assert(r[t].0 != r[j].0);
                        }
                    }
                }
            },
            None => {
                proof {
                    if has_digest(r, l[i].0) {
                        let e = index_of(r, l[i].0);
                        assert(right_before[e].0 == r[e].0);
                    }
                    assert forall|t: int| 0 <= t < r.len() implies (#[trigger] right@[t]).1 == (
                    if has_digest(after, r[t].0) {
                        Seq::<PathBuf>::empty()
                    } else {
                        r[t].1
                    }) by {
                        lemma_has_digest_push(before, l[i], r[t].0);
                        assert(right_before[t].0 == r[t].0);
                    }
                }
                left_only.append(&mut left_paths);
            },
        }
    }
    assert(l.take(l.len() as int) =~= l);

    let from_right = right.into_groups();
    // What is left on the right: the matched groups gave their paths away,
    // the others still have them.
    let mut right_only: Vec<PathBuf> = Vec::new();
    let ghost rest = groups_view(from_right@);
    for group in it: from_right
        invariant
            it.seq() == from_right@,
            rest == groups_view(from_right@),
            rest.len() == r.len(),
            forall|j: int|
                0 <= j < r.len() ==> (#[trigger] rest[j]).1 == (if has_digest(l, r[j].0) {
                    Seq::<PathBuf>::empty()
                } else {
                    r[j].1
                }),
            right_only@ == only_in(r.take(it.index() as int), l),
    {
        let ghost k = it.index() as int;
        let ghost before = r.take(k);
        let ghost after = r.take(k + 1);
        let (_, mut paths) = group;
        proof {
            assert(paths@ == rest[k].1);
            assert(after.drop_last() =~= before);
            assert(after.last() == r[k]);
        }
        right_only.append(&mut paths);
        proof {
            assert(right_only@ =~= only_in(after, l));
        }
    }
    assert(r.take(r.len() as int) =~= r);

    Locations { left: left_only, both, right: right_only }
}

/// All paths of a bucket: group after group, each group's paths in order.
pub open spec fn all_paths(groups: Seq<Group>) -> Seq<PathBuf>
    decreases groups.len(),
{
    if groups.len() == 0 {
        Seq::empty()
    } else {
        all_paths(groups.drop_last()) + groups.last().1
    }
}

/// The paths of the groups of `a` whose digest `b` has too: what `only_in`
/// leaves out.
pub open spec fn shared_paths(a: Seq<Group>, b: Seq<Group>) -> Seq<PathBuf>
    decreases a.len(),
{
    if a.len() == 0 {
        Seq::empty()
    } else if has_digest(b, a.last().0) {
        shared_paths(a.drop_last(), b) + a.last().1
    } else {
        shared_paths(a.drop_last(), b)
    }
}

/// The left paths of all pairs, pair after pair.
pub open spec fn left_halves(pairs: Seq<(Seq<PathBuf>, Seq<PathBuf>)>) -> Seq<PathBuf>
    decreases pairs.len(),
{
    if pairs.len() == 0 {
        Seq::empty()
    } else {
        left_halves(pairs.drop_last()) + pairs.last().0
    }
}

/// The right paths of all pairs, pair after pair.
pub open spec fn right_halves(pairs: Seq<(Seq<PathBuf>, Seq<PathBuf>)>) -> Seq<PathBuf>
    decreases pairs.len(),
{
    if pairs.len() == 0 {
        Seq::empty()
    } else {
        right_halves(pairs.drop_last()) + pairs.last().1
    }
}

/// The paths of a bucket are those that `only_in` keeps and those that it
/// leaves out, each counted as often as it occurs.
pub proof fn lemma_only_and_shared(a: Seq<Group>, b: Seq<Group>)
    ensures
        only_in(a, b).to_multiset().add(shared_paths(a, b).to_multiset()) == all_paths(
            a,
        ).to_multiset(),
    decreases a.len(),
{
    broadcast use vstd::multiset::group_multiset_axioms;

    if a.len() > 0 {
        let rest = a.drop_last();
        let more = a.last().1;
        lemma_only_and_shared(rest, b);
        lemma_multiset_commutative(all_paths(rest), more);
        if has_digest(b, a.last().0) {
            lemma_multiset_commutative(shared_paths(rest, b), more);
            assert(only_in(a, b).to_multiset().add(shared_paths(a, b).to_multiset()) =~= only_in(
                rest,
                b,
            ).to_multiset().add(shared_paths(rest, b).to_multiset()).add(more.to_multiset()));
        } else {
            lemma_multiset_commutative(only_in(rest, b), more);
            assert(only_in(a, b).to_multiset().add(shared_paths(a, b).to_multiset()) =~= only_in(
                rest,
                b,
            ).to_multiset().add(shared_paths(rest, b).to_multiset()).add(more.to_multiset()));
        }
    } else {
        lemma_nothing_counted(only_in(a, b));
        assert(only_in(a, b).to_multiset().add(shared_paths(a, b).to_multiset()) =~= all_paths(
            a,
        ).to_multiset());
    }
}

/// The left halves of the pairs are the left paths that `only_in` leaves out,
/// in the same order.
pub proof fn lemma_left_halves_are_shared(a: Seq<Group>, b: Seq<Group>)
    ensures
        left_halves(in_both(a, b)) == shared_paths(a, b),
    decreases a.len(),
{
    if a.len() > 0 {
        lemma_left_halves_are_shared(a.drop_last(), b);
        if has_digest(b, a.last().0) {
            let pair = (a.last().1, paths_of(b, a.last().0));
            assert(in_both(a, b).drop_last() =~= in_both(a.drop_last(), b));
            assert(in_both(a, b).last() == pair);
        }
    }
}

/// One more left digest, not seen on the left before, brings in exactly the
/// right paths filed under it.
proof fn lemma_shared_grows(b: Seq<Group>, a: Seq<Group>, group: Group)
    requires
        distinct_digests(b),
        !has_digest(a, group.0),
    ensures
        shared_paths(b, a.push(group)).to_multiset() == shared_paths(b, a).to_multiset().add(
            paths_of(b, group.0).to_multiset(),
        ),
    decreases b.len(),
{
    broadcast use vstd::multiset::group_multiset_axioms;

    if b.len() == 0 {
        assert(!has_digest(b, group.0));
        lemma_nothing_counted(paths_of(b, group.0));
    } else {
        let rest = b.drop_last();
        let last = b.last();
        assert(b =~= rest.push(last));
        lemma_paths_of_push(rest, last, group.0);
        lemma_shared_grows(rest, a, group);
        lemma_has_digest_push(a, group, last.0);
        lemma_multiset_commutative(shared_paths(rest, a.push(group)), last.1);
        lemma_multiset_commutative(shared_paths(rest, a), last.1);
        if last.0 == group.0 {
            assert(!has_digest(rest, group.0));
            lemma_nothing_counted(paths_of(rest, group.0));
        }
    }
    assert(shared_paths(b, a.push(group)).to_multiset() =~= shared_paths(b, a).to_multiset().add(
        paths_of(b, group.0).to_multiset(),
    ));
}

/// The right halves of the pairs are the right paths that `only_in` leaves
/// out, each counted as often as it occurs.
pub proof fn lemma_right_halves_are_shared(a: Seq<Group>, b: Seq<Group>)
    requires
        distinct_digests(a),
        distinct_digests(b),
    ensures
        right_halves(in_both(a, b)).to_multiset() == shared_paths(b, a).to_multiset(),
    decreases a.len(),
{
    broadcast use vstd::multiset::group_multiset_axioms;

    if a.len() == 0 {
        lemma_shared_with_nothing(b);
        assert(a =~= Seq::<Group>::empty());
        assert(right_halves(in_both(a, b)) =~= shared_paths(b, a));
    } else {
        let rest = a.drop_last();
        let last = a.last();
        assert(a =~= rest.push(last));
        lemma_paths_of_push(rest, last, last.0);
        lemma_right_halves_are_shared(rest, b);
        lemma_shared_grows(b, rest, last);
        if has_digest(b, last.0) {
            let pair = (last.1, paths_of(b, last.0));
            assert(in_both(a, b).drop_last() =~= in_both(rest, b));
            assert(in_both(a, b).last() == pair);
            lemma_multiset_commutative(right_halves(in_both(rest, b)), paths_of(b, last.0));
        } else {
            lemma_nothing_counted(paths_of(b, last.0));
        }
        assert(right_halves(in_both(a, b)).to_multiset() =~= shared_paths(b, a).to_multiset());
    }
}

/// A bucket shares no path with an empty one.
proof fn lemma_shared_with_nothing(b: Seq<Group>)
    ensures
        shared_paths(b, Seq::<Group>::empty()) == Seq::<PathBuf>::empty(),
    decreases b.len(),
{
    if b.len() > 0 {
        lemma_shared_with_nothing(b.drop_last());
        assert(!has_digest(Seq::<Group>::empty(), b.last().0));
    }
}

/// One more path in group `i` is one more path in the bucket.
proof fn lemma_all_paths_grow(groups: Seq<Group>, i: int, path: PathBuf)
    requires
        0 <= i < groups.len(),
    ensures
        all_paths(groups.update(i, (groups[i].0, groups[i].1.push(path)))).to_multiset()
            == all_paths(groups).to_multiset().insert(path),
    decreases groups.len(),
{
    broadcast use vstd::multiset::group_multiset_axioms;

    let grown = groups.update(i, (groups[i].0, groups[i].1.push(path)));
    let rest = groups.drop_last();
    if i == groups.len() - 1 {
        assert(grown.drop_last() =~= rest);
        assert(all_paths(grown) =~= all_paths(groups).push(path));
        to_multiset_build(all_paths(groups), path);
    } else {
        assert(grown.drop_last() =~= rest.update(i, (rest[i].0, rest[i].1.push(path))));
        assert(grown.last() == groups.last());
        lemma_all_paths_grow(rest, i, path);
        lemma_multiset_commutative(all_paths(grown.drop_last()), groups.last().1);
        lemma_multiset_commutative(all_paths(rest), groups.last().1);
        assert(all_paths(grown).to_multiset() =~= all_paths(groups).to_multiset().insert(path));
    }
}

/// Filing one more path adds that path to the bucket, once, and nothing else.
pub proof fn lemma_added_adds_one(groups: Seq<Group>, digest: Seq<u8>, path: PathBuf)
    requires
        distinct_digests(groups),
    ensures
        all_paths(added(groups, digest, path)).to_multiset() == all_paths(
            groups,
        ).to_multiset().insert(path),
{
    broadcast use vstd::multiset::group_multiset_axioms;

    if has_digest(groups, digest) {
        let i = index_of(groups, digest);
        lemma_all_paths_grow(groups, i, path);
    } else {
        let after = groups.push((digest, seq![path]));
        assert(after.drop_last() =~= groups);
        assert(all_paths(after) =~= all_paths(groups).push(path));
        to_multiset_build(all_paths(groups), path);
    }
}

/// One more path in group `at` is one more left-only path where the other
/// bucket lacks the group's digest, and changes nothing where it has it.
proof fn lemma_only_in_grows(groups: Seq<Group>, at: int, path: PathBuf, other: Seq<Group>)
    requires
        0 <= at < groups.len(),
    ensures
        only_in(groups.update(at, (groups[at].0, groups[at].1.push(path))), other).to_multiset()
            == if has_digest(other, groups[at].0) {
            only_in(groups, other).to_multiset()
        } else {
            only_in(groups, other).to_multiset().insert(path)
        },
    decreases groups.len(),
{
    broadcast use vstd::multiset::group_multiset_axioms;

    let grown = groups.update(at, (groups[at].0, groups[at].1.push(path)));
    let rest = groups.drop_last();
    if at == groups.len() - 1 {
        assert(grown.drop_last() =~= rest);
        if !has_digest(other, groups[at].0) {
            assert(only_in(grown, other) =~= only_in(groups, other).push(path));
            to_multiset_build(only_in(groups, other), path);
        }
    } else {
        assert(grown.drop_last() =~= rest.update(at, (rest[at].0, rest[at].1.push(path))));
        assert(grown.last() == groups.last());
        lemma_only_in_grows(rest, at, path, other);
        lemma_multiset_commutative(only_in(grown.drop_last(), other), groups.last().1);
        lemma_multiset_commutative(only_in(rest, other), groups.last().1);
        if has_digest(other, groups[at].0) {
            assert(only_in(grown, other).to_multiset() =~= only_in(groups, other).to_multiset());
        } else {
            assert(only_in(grown, other).to_multiset() =~= only_in(
                groups,
                other,
            ).to_multiset().insert(path));
        }
    }
}

/// Filing one more path adds it to the paths found on this side only, unless
/// the other bucket has its digest.
pub proof fn lemma_only_in_added(groups: Seq<Group>, digest: Seq<u8>, path: PathBuf, other: Seq<Group>)
    requires
        distinct_digests(groups),
    ensures
        only_in(added(groups, digest, path), other).to_multiset() == if has_digest(other, digest) {
            only_in(groups, other).to_multiset()
        } else {
            only_in(groups, other).to_multiset().insert(path)
        },
{
    broadcast use vstd::multiset::group_multiset_axioms;

    if has_digest(groups, digest) {
        lemma_only_in_grows(groups, index_of(groups, digest), path, other);
    } else {
        let after = groups.push((digest, seq![path]));
        assert(after.drop_last() =~= groups);
        if !has_digest(other, digest) {
            assert(only_in(after, other) =~= only_in(groups, other).push(path));
            to_multiset_build(only_in(groups, other), path);
        }
    }
}

/// What the one-sided list holds: a path is in it exactly where some group
/// holds the path whose digest the other bucket lacks.
pub proof fn lemma_only_in_holds(a: Seq<Group>, b: Seq<Group>, path: PathBuf)
    ensures
        only_in(a, b).contains(path) <==> exists|i: int|
            0 <= i < a.len() && !has_digest(b, (#[trigger] a[i]).0) && a[i].1.contains(path),
    decreases a.len(),
{
    if a.len() > 0 {
        let rest = a.drop_last();
        let last = a.last();
        lemma_only_in_holds(rest, b, path);
        if only_in(a, b).contains(path) {
            let at = choose|at: int| 0 <= at < only_in(a, b).len() && only_in(a, b)[at] == path;
            if !has_digest(b, last.0) && at >= only_in(rest, b).len() {
                assert(last.1[at - only_in(rest, b).len()] == path);
                assert(a[a.len() - 1] == last);
            } else {
                assert(only_in(rest, b)[at] == path);
                let i = choose|i: int|
                    0 <= i < rest.len() && !has_digest(b, (#[trigger] rest[i]).0)
                        && rest[i].1.contains(path);
                assert(a[i] == rest[i]);
            }
        }
        if exists|i: int|
            0 <= i < a.len() && !has_digest(b, (#[trigger] a[i]).0) && a[i].1.contains(path) {
            let i = choose|i: int|
                0 <= i < a.len() && !has_digest(b, (#[trigger] a[i]).0) && a[i].1.contains(path);
            if i < rest.len() {
                assert(rest[i] == a[i]);
                assert(only_in(rest, b).contains(path));
                let at = choose|at: int|
                    0 <= at < only_in(rest, b).len() && only_in(rest, b)[at] == path;
                assert(only_in(a, b)[at] == path);
            } else {
                let at = choose|at: int| 0 <= at < last.1.len() && last.1[at] == path;
                assert(only_in(a, b)[only_in(rest, b).len() + at] == path);
            }
        }
    }
}

/// What the list of pairs holds: a pair is in it exactly where some left
/// group, whose digest the right bucket has too, brings the pair's left
/// paths, and the right bucket files the pair's right paths under that
/// digest.
pub proof fn lemma_in_both_holds(
    a: Seq<Group>,
    b: Seq<Group>,
    pair: (Seq<PathBuf>, Seq<PathBuf>),
)
    ensures
        in_both(a, b).contains(pair) <==> exists|i: int|
            0 <= i < a.len() && has_digest(b, (#[trigger] a[i]).0) && pair == (
                a[i].1,
                paths_of(b, a[i].0),
            ),
    decreases a.len(),
{
    if a.len() > 0 {
        let rest = a.drop_last();
        let last = a.last();
        lemma_in_both_holds(rest, b, pair);
        if in_both(a, b).contains(pair) {
            let at = choose|at: int| 0 <= at < in_both(a, b).len() && in_both(a, b)[at] == pair;
            if has_digest(b, last.0) && at == in_both(rest, b).len() {
                assert(a[a.len() - 1] == last);
            } else {
                assert(in_both(rest, b)[at] == pair);
                let i = choose|i: int|
                    0 <= i < rest.len() && has_digest(b, (#[trigger] rest[i]).0) && pair == (
                        rest[i].1,
                        paths_of(b, rest[i].0),
                    );
                assert(a[i] == rest[i]);
            }
        }
        if exists|i: int|
            0 <= i < a.len() && has_digest(b, (#[trigger] a[i]).0) && pair == (
                a[i].1,
                paths_of(b, a[i].0),
            ) {
            let i = choose|i: int|
                0 <= i < a.len() && has_digest(b, (#[trigger] a[i]).0) && pair == (
                    a[i].1,
                    paths_of(b, a[i].0),
                );
            if i < rest.len() {
                assert(rest[i] == a[i]);
                assert(in_both(rest, b).contains(pair));
                let at = choose|at: int|
                    0 <= at < in_both(rest, b).len() && in_both(rest, b)[at] == pair;
                assert(in_both(a, b)[at] == pair);
            } else {
                assert(in_both(a, b)[in_both(rest, b).len() as int] == pair);
            }
        }
    }
}

/// The partition is exact. Every path of the left bucket is either in the
/// left-only list or in the left half of one pair, as often as the bucket
/// holds it and no more; and so is every path of the right bucket on its own
/// side.
pub proof fn lemma_partition_is_exact(left: Seq<Group>, right: Seq<Group>)
    requires
        distinct_digests(left),
        distinct_digests(right),
    ensures
        only_in(left, right).to_multiset().add(left_halves(in_both(left, right)).to_multiset())
            == all_paths(left).to_multiset(),
        only_in(right, left).to_multiset().add(right_halves(in_both(left, right)).to_multiset())
            == all_paths(right).to_multiset(),
{
    lemma_only_and_shared(left, right);
    lemma_left_halves_are_shared(left, right);
    lemma_only_and_shared(right, left);
    lemma_right_halves_are_shared(left, right);
}

} // verus!
