//! Collecting results into the two buckets.

use crate::bucket::add_to_result_hash_map;
use crate::bucket::added;
use crate::bucket::distinct_digests;
use crate::bucket::Group;
use crate::bucket::HashBucket;
use crate::bucket::lemma_added_keeps_distinct;
use crate::counting::lemma_nothing_counted;
use crate::location::PathLocation;
use crate::location::Side;
use crate::reconcile::all_paths;
use crate::reconcile::in_both;
use crate::reconcile::left_halves;
use crate::reconcile::lemma_added_adds_one;
use crate::reconcile::lemma_partition_is_exact;
use crate::reconcile::Locations;
use crate::reconcile::only_in;
use crate::reconcile::right_halves;
use crate::reconcile::split_into_locations;
use crate::result::Diagnostic;
use crate::result::DiagnosticModel;
use crate::result::diagnostics_view;
use crate::result::ResultModel;
use crate::result::results_view;
use crate::result::WorkResult;
use std::path::PathBuf;
use vstd::prelude::*;
use vstd::seq_lib::to_multiset_build;

verus! {

/// The bucket of `side` after `result` was recorded: a digest files the
/// result's path in the bucket of the result's own side; a failure changes
/// no bucket.
pub open spec fn recorded(groups: Seq<Group>, side: Side, result: ResultModel) -> Seq<Group> {
    match result.outcome {
        Ok(digest) => if result.location.side_of() == side {
            added(groups, digest, result.location.path_of())
        } else {
            groups
        },
        Err(_) => groups,
    }
}

/// The diagnostic that recording `result` hands on: a failure is passed on
/// with the path it was reported against; a digest gives none.
pub open spec fn diagnosed(result: ResultModel) -> Option<DiagnosticModel> {
    match result.outcome {
        Ok(_) => None,
        Err(failure) => Some(DiagnosticModel { location: result.location, failure }),
    }
}

/// The bucket of `side` after all of `results` were recorded, in order,
/// starting from an empty bucket.
pub open spec fn collected(side: Side, results: Seq<ResultModel>) -> Seq<Group>
    decreases results.len(),
{
    if results.len() == 0 {
        Seq::empty()
    } else {
        recorded(collected(side, results.drop_last()), side, results.last())
    }
}

/// The diagnostics that recording all of `results` hands on, in order.
pub open spec fn all_diagnosed(results: Seq<ResultModel>) -> Seq<DiagnosticModel>
    decreases results.len(),
{
    if results.len() == 0 {
        Seq::empty()
    } else {
        let before = all_diagnosed(results.drop_last());
        match diagnosed(results.last()) {
            Some(diagnostic) => before.push(diagnostic),
            None => before,
        }
    }
}

/// The single consumer of results: it owns the bucket of each side.
pub struct ResultCollector {
    left: HashBucket,
    right: HashBucket,
}

impl ResultCollector {
    /// The groups of the left bucket.
    pub closed spec fn left_groups(&self) -> Seq<Group> {
        self.left@
    }

    /// The groups of the right bucket.
    pub closed spec fn right_groups(&self) -> Seq<Group> {
        self.right@
    }

    /// The collector's invariant: each bucket files a digest once.
    pub closed spec fn wf(&self) -> bool {
        self.left.wf() && self.right.wf()
    }

    /// A collector with two empty buckets.
    pub fn new() -> (collector: ResultCollector)
        ensures
            collector.wf(),
            collector.left_groups() == Seq::<Group>::empty(),
            collector.right_groups() == Seq::<Group>::empty(),
    {
        ResultCollector { left: HashBucket::new(), right: HashBucket::new() }
    }

    /// Records one result. A failure is handed back as a diagnostic and
    /// enters no bucket. A digest files the path under it, in the bucket of
    /// the path's side, behind the paths that the digest already has.
    pub fn record(&mut self, result: WorkResult) -> (diagnostic: Option<Diagnostic>)
        requires
            old(self).wf(),
        ensures
            final(self).wf(),
            final(self).left_groups() == recorded(old(self).left_groups(), Side::Left, result@),
            final(self).right_groups() == recorded(old(self).right_groups(), Side::Right, result@),
            match diagnosed(result@) {
                Some(expected) => diagnostic matches Some(d) && d@ == expected,
                None => diagnostic is None,
            },
    {
        let WorkResult { path, result: outcome } = result;
        match outcome {
            Err(failure) => Some(Diagnostic { path, failure }),
            Ok(hash) => {
                match path {
                    PathLocation::Left(p) => add_to_result_hash_map(&mut self.left, hash, p),
                    PathLocation::Right(p) => add_to_result_hash_map(&mut self.right, hash, p),
                }
                None
            },
        }
    }

    /// Reconciles the two buckets into the three-way partition.
    pub fn into_locations(self) -> (locations: Locations)
        requires
            self.wf(),
        ensures
            locations.left_only() == only_in(self.left_groups(), self.right_groups()),
            locations.both_matches() == in_both(self.left_groups(), self.right_groups()),
            locations.right_only() == only_in(self.right_groups(), self.left_groups()),
    {
        split_into_locations(self.left, self.right)
    }
}

/// Collects a finished run: records every result in order, reconciles the two
/// buckets, and hands back the partition with the diagnostics of the failures.
pub fn collect_results(results: Vec<WorkResult>) -> (outcome: (Locations, Vec<Diagnostic>))
    ensures
        outcome.0.left_only() == only_in(
            collected(Side::Left, results_view(results@)),
            collected(Side::Right, results_view(results@)),
        ),
        outcome.0.both_matches() == in_both(
            collected(Side::Left, results_view(results@)),
            collected(Side::Right, results_view(results@)),
        ),
        outcome.0.right_only() == only_in(
            collected(Side::Right, results_view(results@)),
            collected(Side::Left, results_view(results@)),
        ),
        diagnostics_view(outcome.1@) == all_diagnosed(results_view(results@)),
{
    let ghost all = results_view(results@);
    let mut collector = ResultCollector::new();
    let mut diagnostics: Vec<Diagnostic> = Vec::new();
    assert(diagnostics_view(diagnostics@) =~= all_diagnosed(all.take(0)));
    for result in it: results
        invariant
            it.seq() == results@,
            all == results_view(results@),
            collector.wf(),
            collector.left_groups() == collected(Side::Left, all.take(it.index() as int)),
            collector.right_groups() == collected(Side::Right, all.take(it.index() as int)),
            diagnostics_view(diagnostics@) == all_diagnosed(all.take(it.index() as int)),
    {
        let ghost i = it.index() as int;
        let ghost told = diagnostics_view(diagnostics@);
        proof {
            assert(all.take(i + 1).drop_last() =~= all.take(i));
            assert(all.take(i + 1).last() == all[i]);
            assert(result@ == all[i]);
        }
        match collector.record(result) {
            Some(diagnostic) => {
                diagnostics.push(diagnostic);
                assert(diagnostics_view(diagnostics@) =~= told.push(diagnostic@));
            },
            None => {
                assert(diagnostics_view(diagnostics@) =~= told);
            },
        }
    }
    assert(all.take(all.len() as int) =~= all);
    (collector.into_locations(), diagnostics)
}

/// The paths of the results on `side` that carry a digest, in order: the
/// paths that were hashed with success.
pub open spec fn hashed_paths(side: Side, results: Seq<ResultModel>) -> Seq<PathBuf>
    decreases results.len(),
{
    if results.len() == 0 {
        Seq::empty()
    } else {
        let before = hashed_paths(side, results.drop_last());
        let last = results.last();
        if last.outcome is Ok && last.location.side_of() == side {
            before.push(last.location.path_of())
        } else {
            before
        }
    }
}

/// What the collector's buckets hold: each bucket files a digest once, and
/// the paths in the bucket of a side are the paths hashed with success on
/// that side, each as often as it was reported.
pub proof fn lemma_collected_holds_the_hashed(side: Side, results: Seq<ResultModel>)
    ensures
        distinct_digests(collected(side, results)),
        all_paths(collected(side, results)).to_multiset() == hashed_paths(
            side,
            results,
        ).to_multiset(),
    decreases results.len(),
{
    if results.len() == 0 {
        lemma_nothing_counted(all_paths(collected(side, results)));
        lemma_nothing_counted(hashed_paths(side, results));
    } else {
        let before = results.drop_last();
        let last = results.last();
        lemma_collected_holds_the_hashed(side, before);
        match last.outcome {
            Ok(digest) => {
                if last.location.side_of() == side {
                    let path = last.location.path_of();
                    lemma_added_keeps_distinct(collected(side, before), digest, path);
                    lemma_added_adds_one(collected(side, before), digest, path);
                    to_multiset_build(hashed_paths(side, before), path);
                }
            },
            Err(_) => {},
        }
    }
}

/// Every path that was hashed with success is placed once. The left-only
/// paths together with the left halves of the pairs are the paths hashed on
/// the left, each as often as it was reported and no more; and the same holds
/// on the right.
pub proof fn lemma_every_hashed_path_is_placed_once(results: Seq<ResultModel>)
    ensures
        ({
            let left = collected(Side::Left, results);
            let right = collected(Side::Right, results);
            &&& only_in(left, right).to_multiset().add(
                left_halves(in_both(left, right)).to_multiset(),
            ) == hashed_paths(Side::Left, results).to_multiset()
            &&& only_in(right, left).to_multiset().add(
                right_halves(in_both(left, right)).to_multiset(),
            ) == hashed_paths(Side::Right, results).to_multiset()
        }),
{
    lemma_collected_holds_the_hashed(Side::Left, results);
    lemma_collected_holds_the_hashed(Side::Right, results);
    lemma_partition_is_exact(collected(Side::Left, results), collected(Side::Right, results));
}

} // verus!
