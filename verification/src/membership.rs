//! Membership: the partition does not depend on the order of the results.
//!
//! Workers finish in any order, so two runs over the same trees report the
//! same results in different orders. The buckets, and with them the lists of
//! the partition, then differ in order only: which path is placed where is
//! the same.

use crate::bucket::Group;
use crate::bucket::has_digest;
use crate::bucket::lemma_added_groups;
use crate::bucket::paths_of;
use crate::collect::collected;
use crate::collect::lemma_collected_holds_the_hashed;
use crate::counting::lemma_nothing_counted;
use crate::location::Side;
use crate::reconcile::lemma_only_in_added;
use crate::reconcile::only_in;
use crate::result::FailureModel;
use crate::result::ResultModel;
use crate::roots::RootModel;
use crate::run::finite;
use crate::run::Forest;
use crate::run::lemma_run_reports_each_once;
use crate::run::remaining;
use crate::run::run;
use crate::run::seeded;
use crate::run::supported;
use std::path::PathBuf;
use vstd::multiset::Multiset;
use vstd::prelude::*;
use vstd::seq_lib::lemma_multiset_commutative;
use vstd::seq_lib::to_multiset_build;
use vstd::seq_lib::to_multiset_contains;
use vstd::seq_lib::to_multiset_len;
use vstd::seq_lib::to_multiset_remove;

verus! {

/// The paths of the results that `keep` accepts, in the order of the results.
pub open spec fn kept(results: Seq<ResultModel>, keep: spec_fn(ResultModel) -> bool) -> Seq<
    PathBuf,
>
    decreases results.len(),
{
    if results.len() == 0 {
        Seq::empty()
    } else if keep(results.last()) {
        kept(results.drop_last(), keep).push(results.last().location.path_of())
    } else {
        kept(results.drop_last(), keep)
    }
}

/// Accepts the results on `side` that carry `digest`.
pub open spec fn carries(side: Side, digest: Seq<u8>) -> spec_fn(ResultModel) -> bool {
    |result: ResultModel|
        result.location.side_of() == side && result.outcome == Ok::<Seq<u8>, FailureModel>(digest)
}

/// Accepts the results on `side` that carry a digest which `other` does not
/// file.
pub open spec fn carries_none_of(side: Side, other: Seq<Group>) -> spec_fn(ResultModel) -> bool {
    |result: ResultModel|
        result.location.side_of() == side && (result.outcome matches Ok(digest) && !has_digest(
            other,
            digest,
        ))
}

/// The paths filed under `digest` on `side`, in the order in which their
/// results came.
pub open spec fn filed(side: Side, digest: Seq<u8>, results: Seq<ResultModel>) -> Seq<PathBuf> {
    kept(results, carries(side, digest))
}

/// What two lists of results keep is what one keeps, then what the other
/// keeps.
pub proof fn lemma_kept_of_both(
    a: Seq<ResultModel>,
    b: Seq<ResultModel>,
    keep: spec_fn(ResultModel) -> bool,
)
    ensures
        kept(a + b, keep) == kept(a, keep) + kept(b, keep),
    decreases b.len(),
{
    if b.len() == 0 {
        assert(a + b =~= a);
        assert(kept(a, keep) + kept(b, keep) =~= kept(a, keep));
    } else {
        assert((a + b).drop_last() =~= a + b.drop_last());
        assert((a + b).last() == b.last());
        lemma_kept_of_both(a, b.drop_last(), keep);
        assert(kept(a + b, keep) =~= kept(a, keep) + kept(b, keep));
    }
}

/// What one result contributes to what is kept.
pub open spec fn kept_of_one(result: ResultModel, keep: spec_fn(ResultModel) -> bool) -> Multiset<
    PathBuf,
> {
    if keep(result) {
        Multiset::singleton(result.location.path_of())
    } else {
        Multiset::empty()
    }
}

/// Without one result, what is kept lacks what that result contributed.
proof fn lemma_kept_without(results: Seq<ResultModel>, at: int, keep: spec_fn(ResultModel) -> bool)
    requires
        0 <= at < results.len(),
    ensures
        kept(results, keep).to_multiset() == kept(results.remove(at), keep).to_multiset().add(
            kept_of_one(results[at], keep),
        ),
{
    broadcast use vstd::multiset::group_multiset_axioms;

    let front = results.take(at);
    let back = results.skip(at + 1);
    let middle = seq![results[at]];
    assert(results =~= (front + middle) + back);
    assert(results.remove(at) =~= front + back);
    lemma_kept_of_both(front + middle, back, keep);
    lemma_kept_of_both(front, middle, keep);
    lemma_kept_of_both(front, back, keep);
    assert(middle.drop_last() =~= Seq::<ResultModel>::empty());
    assert(kept(middle.drop_last(), keep) =~= Seq::<PathBuf>::empty());
    let one = kept(middle, keep);
    lemma_multiset_commutative(kept(front, keep) + one, kept(back, keep));
    lemma_multiset_commutative(kept(front, keep), one);
    lemma_multiset_commutative(kept(front, keep), kept(back, keep));
    if keep(results[at]) {
        assert(one =~= Seq::<PathBuf>::empty().push(results[at].location.path_of()));
        to_multiset_build(Seq::<PathBuf>::empty(), results[at].location.path_of());
        lemma_nothing_counted(Seq::<PathBuf>::empty());
        assert(one.to_multiset() =~= kept_of_one(results[at], keep));
    } else {
        lemma_nothing_counted(one);
    }
    assert(kept(results, keep).to_multiset() =~= kept(results.remove(at), keep).to_multiset().add(
        kept_of_one(results[at], keep),
    ));
}

/// What is kept of the same results in another order is the same, each path
/// as often.
pub proof fn lemma_kept_is_order_free(
    first: Seq<ResultModel>,
    second: Seq<ResultModel>,
    keep: spec_fn(ResultModel) -> bool,
)
    requires
        first.to_multiset() == second.to_multiset(),
    ensures
        kept(first, keep).to_multiset() == kept(second, keep).to_multiset(),
    decreases first.len(),
{
    broadcast use vstd::multiset::group_multiset_axioms;

    to_multiset_len(first);
    to_multiset_len(second);
    if first.len() == 0 {
        assert(kept(first, keep) =~= kept(second, keep));
    } else {
        let last = first.last();
        let rest = first.drop_last();
        assert(first =~= rest.push(last));
        to_multiset_build(rest, last);
        to_multiset_contains(second, last);
        assert(second.to_multiset().count(last) > 0);
        let at = choose|at: int| 0 <= at < second.len() && second[at] == last;
        to_multiset_remove(second, at);
        assert(rest.to_multiset() =~= second.remove(at).to_multiset());
        lemma_kept_is_order_free(rest, second.remove(at), keep);
        lemma_kept_without(second, at, keep);
        if keep(last) {
            to_multiset_build(kept(rest, keep), last.location.path_of());
        }
        assert(kept(first, keep).to_multiset() =~= kept(second, keep).to_multiset());
    }
}

/// What the collector's bucket files under a digest: the paths of the results
/// that carry the digest on that side, in the order in which they came; and
/// it files the digest exactly where there is such a result.
pub proof fn lemma_collected_groups(side: Side, results: Seq<ResultModel>, digest: Seq<u8>)
    ensures
        has_digest(collected(side, results), digest) == (filed(side, digest, results).len() > 0),
        paths_of(collected(side, results), digest) == filed(side, digest, results),
    decreases results.len(),
{
    if results.len() == 0 {
        assert(!has_digest(collected(side, results), digest));
    } else {
        let before = results.drop_last();
        let last = results.last();
        lemma_collected_groups(side, before, digest);
        lemma_collected_holds_the_hashed(side, before);
        match last.outcome {
            Ok(found) => {
                if last.location.side_of() == side {
                    lemma_added_groups(
                        collected(side, before),
                        found,
                        last.location.path_of(),
                        digest,
                    );
                }
            },
            Err(_) => {},
        }
    }
}

/// The paths found on one side only are the paths of the results on that
/// side whose digest the other bucket lacks, each as often as it was
/// reported.
pub proof fn lemma_only_in_collected(side: Side, results: Seq<ResultModel>, other: Seq<Group>)
    ensures
        only_in(collected(side, results), other).to_multiset() == kept(
            results,
            carries_none_of(side, other),
        ).to_multiset(),
    decreases results.len(),
{
    if results.len() > 0 {
        let before = results.drop_last();
        let last = results.last();
        lemma_only_in_collected(side, before, other);
        lemma_collected_holds_the_hashed(side, before);
        match last.outcome {
            Ok(found) => {
                if last.location.side_of() == side {
                    lemma_only_in_added(
                        collected(side, before),
                        found,
                        last.location.path_of(),
                        other,
                    );
                    if !has_digest(other, found) {
                        to_multiset_build(
                            kept(before, carries_none_of(side, other)),
                            last.location.path_of(),
                        );
                    }
                }
            },
            Err(_) => {},
        }
    }
}

/// Which results are kept as carrying none of the other bucket's digests
/// depends on which digests that bucket files, not on their order.
proof fn lemma_kept_by_digests(
    side: Side,
    results: Seq<ResultModel>,
    other: Seq<Group>,
    same: Seq<Group>,
)
    requires
        forall|digest: Seq<u8>| has_digest(other, digest) == has_digest(same, digest),
    ensures
        kept(results, carries_none_of(side, other)) == kept(results, carries_none_of(side, same)),
    decreases results.len(),
{
    if results.len() > 0 {
        lemma_kept_by_digests(side, results.drop_last(), other, same);
        match results.last().outcome {
            Ok(digest) => {
                assert(has_digest(other, digest) == has_digest(same, digest));
            },
            Err(_) => {},
        }
    }
}

/// The buckets do not depend on the order of the results, but for the order
/// of their lists. Two lists that hold the same results, each as often, fill
/// a bucket with the same digests, and file the same paths under each digest,
/// each as often.
pub proof fn lemma_buckets_are_order_free(
    side: Side,
    first: Seq<ResultModel>,
    second: Seq<ResultModel>,
    digest: Seq<u8>,
)
    requires
        first.to_multiset() == second.to_multiset(),
    ensures
        has_digest(collected(side, first), digest) == has_digest(collected(side, second), digest),
        paths_of(collected(side, first), digest).to_multiset() == paths_of(
            collected(side, second),
            digest,
        ).to_multiset(),
{
    lemma_collected_groups(side, first, digest);
    lemma_collected_groups(side, second, digest);
    lemma_kept_is_order_free(first, second, carries(side, digest));
    to_multiset_len(filed(side, digest, first));
    to_multiset_len(filed(side, digest, second));
}

/// The partition does not depend on the order of the results, but for the
/// order of its lists. From two lists that hold the same results, each as
/// often: the same paths are left-only, the same paths are right-only, the
/// same digests are found on both sides, and each such digest pairs the same
/// left paths with the same right paths.
pub proof fn lemma_partition_is_order_free(first: Seq<ResultModel>, second: Seq<ResultModel>)
    requires
        first.to_multiset() == second.to_multiset(),
    ensures
        ({
            let left1 = collected(Side::Left, first);
            let right1 = collected(Side::Right, first);
            let left2 = collected(Side::Left, second);
            let right2 = collected(Side::Right, second);
            &&& only_in(left1, right1).to_multiset() == only_in(left2, right2).to_multiset()
            &&& only_in(right1, left1).to_multiset() == only_in(right2, left2).to_multiset()
            &&& forall|digest: Seq<u8>|
                (has_digest(left1, digest) && has_digest(right1, digest)) == (has_digest(
                    left2,
                    digest,
                ) && has_digest(right2, digest))
            &&& forall|digest: Seq<u8>|
                paths_of(left1, digest).to_multiset() == paths_of(left2, digest).to_multiset()
            &&& forall|digest: Seq<u8>|
                paths_of(right1, digest).to_multiset() == paths_of(right2, digest).to_multiset()
        }),
{
    let left1 = collected(Side::Left, first);
    let right1 = collected(Side::Right, first);
    let left2 = collected(Side::Left, second);
    let right2 = collected(Side::Right, second);
    assert forall|digest: Seq<u8>|
        has_digest(left1, digest) == has_digest(left2, digest) && has_digest(right1, digest)
            == has_digest(right2, digest) && paths_of(left1, digest).to_multiset() == paths_of(
            left2,
            digest,
        ).to_multiset() && paths_of(right1, digest).to_multiset() == paths_of(
            right2,
            digest,
        ).to_multiset() by {
        lemma_buckets_are_order_free(Side::Left, first, second, digest);
        lemma_buckets_are_order_free(Side::Right, first, second, digest);
    }
    lemma_only_in_collected(Side::Left, first, right1);
    lemma_only_in_collected(Side::Left, second, right2);
    lemma_kept_by_digests(Side::Left, second, right1, right2);
    lemma_kept_is_order_free(first, second, carries_none_of(Side::Left, right1));
    lemma_only_in_collected(Side::Right, first, left1);
    lemma_only_in_collected(Side::Right, second, left2);
    lemma_kept_by_digests(Side::Right, second, left1, left2);
    lemma_kept_is_order_free(first, second, carries_none_of(Side::Right, left1));
}

/// Running again over unchanged trees gives the same partition, but for the
/// order of its lists. Two runs over one finite forest from the same roots,
/// whatever order each carries its tasks out in, report the same results,
/// each as often; so the same paths are left-only and right-only, and the
/// same digests pair the same paths.
pub proof fn lemma_rerun_gives_the_same(
    forest: Forest,
    left: Seq<RootModel>,
    right: Seq<RootModel>,
    picks: Seq<int>,
    other_picks: Seq<int>,
)
    requires
        finite(forest),
        supported(forest),
        remaining(forest, seeded(left, right)) <= picks.len(),
        remaining(forest, seeded(left, right)) <= other_picks.len(),
    ensures
        ({
            let first = run(forest, seeded(left, right), picks).results;
            let second = run(forest, seeded(left, right), other_picks).results;
            let left1 = collected(Side::Left, first);
            let right1 = collected(Side::Right, first);
            let left2 = collected(Side::Left, second);
            let right2 = collected(Side::Right, second);
            &&& first.to_multiset() == second.to_multiset()
            &&& only_in(left1, right1).to_multiset() == only_in(left2, right2).to_multiset()
            &&& only_in(right1, left1).to_multiset() == only_in(right2, left2).to_multiset()
            &&& forall|digest: Seq<u8>|
                (has_digest(left1, digest) && has_digest(right1, digest)) == (has_digest(
                    left2,
                    digest,
                ) && has_digest(right2, digest))
            &&& forall|digest: Seq<u8>|
                paths_of(left1, digest).to_multiset() == paths_of(left2, digest).to_multiset()
            &&& forall|digest: Seq<u8>|
                paths_of(right1, digest).to_multiset() == paths_of(right2, digest).to_multiset()
        }),
{
    lemma_run_reports_each_once(forest, left, right, picks);
    lemma_run_reports_each_once(forest, left, right, other_picks);
    lemma_partition_is_order_free(
        run(forest, seeded(left, right), picks).results,
        run(forest, seeded(left, right), other_picks).results,
    );
}

} // verus!
