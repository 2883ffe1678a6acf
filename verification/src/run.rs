//! The run as a whole: what it reports, and that it ends.
//!
//! The engine itself sees one task at a time. This module describes a whole
//! run over a forest, with any number of workers that take tasks and finish
//! them in any order, and states what the steps add up to. A run over a finite
//! forest ends, with nothing pending and no capability live. It has then
//! reported exactly what the forest owes: one result for every file reached,
//! one for every entry that is a symlink or could not be read, one for every
//! directory that could not be listed. And the completion signal never fires
//! early: once nothing is pending and no capability is held, no task arrives
//! any more.

use crate::counting::lemma_nothing_counted;
use crate::expand::listed_results;
use crate::expand::listed_tasks;
use crate::expand::ListingModel;
use crate::expand::only_supported_kinds;
use crate::fingerprint::file_result;
use crate::location::PathLocation;
use crate::location::Side;
use crate::queue::directories;
use crate::queue::Work;
use crate::result::ResultModel;
use crate::roots::RootModel;
use crate::roots::seeds;
use std::path::PathBuf;
use vstd::multiset::Multiset;
use vstd::prelude::*;
use vstd::seq_lib::lemma_multiset_commutative;

verus! {

/// What the file system answers during one run: for each path, what listing
/// it as a directory brings and what reading it as a file brings. `weight`
/// measures the forest: see `finite`.
pub ghost struct Forest {
    pub listing: spec_fn(PathBuf) -> ListingModel,
    pub content: spec_fn(PathBuf) -> Result<Seq<u8>, Seq<char>>,
    pub weight: spec_fn(PathBuf) -> nat,
}

/// Where a task works.
pub open spec fn location_of(task: Work) -> PathLocation {
    match task {
        Work::Directory { path } => path,
        Work::File { path } => path,
    }
}

/// The tasks that carrying out `task` submits: the children of a directory;
/// none for a file.
pub open spec fn children(forest: Forest, task: Work) -> Seq<Work> {
    match task {
        Work::Directory { path } => listed_tasks(path, (forest.listing)(path.path_of())),
        Work::File { path } => Seq::empty(),
    }
}

/// The results that carrying out `task` reports: for a directory what its
/// listing gives rise to; for a file its one result.
pub open spec fn reported(forest: Forest, task: Work) -> Seq<ResultModel> {
    match task {
        Work::Directory { path } => listed_results(path, (forest.listing)(path.path_of())),
        Work::File { path } => seq![file_result(path, (forest.content)(path.path_of()))],
    }
}

/// The weight of the path that a task works on.
pub open spec fn weight_of(forest: Forest, task: Work) -> nat {
    (forest.weight)(location_of(task).path_of())
}

/// The weights of all tasks of a list together.
pub open spec fn total_weight(forest: Forest, tasks: Seq<Work>) -> nat
    decreases tasks.len(),
{
    if tasks.len() == 0 {
        0
    } else {
        weight_of(forest, tasks.first()) + total_weight(forest, tasks.drop_first())
    }
}

/// The forest is finite and without cycles: every task weighs more than all
/// the tasks together that carrying it out submits. Such weights exist
/// exactly where every path leads to finitely many others (take the number of
/// paths below it, itself included).
pub open spec fn finite(forest: Forest) -> bool {
    forall|task: Work| #[trigger]
        total_weight(forest, children(forest, task)) < weight_of(forest, task)
}

/// Every listing holds symlinks, directories and regular files only.
pub open spec fn supported(forest: Forest) -> bool {
    forall|path: PathBuf| only_supported_kinds(#[trigger] (forest.listing)(path))
}

/// All that a list of tasks owes: what each task reports itself, and what
/// the tasks that it submits owe in turn.
pub open spec fn owed(forest: Forest, tasks: Seq<Work>) -> Multiset<ResultModel>
    decreases total_weight(forest, tasks),
    when finite(forest)
    via owed_decreases
{
    if tasks.len() == 0 {
        Multiset::empty()
    } else {
        reported(forest, tasks.first()).to_multiset().add(
            owed(forest, children(forest, tasks.first())),
        ).add(owed(forest, tasks.drop_first()))
    }
}

#[via_fn]
proof fn owed_decreases(forest: Forest, tasks: Seq<Work>) {
    if tasks.len() > 0 {
        assert(total_weight(forest, children(forest, tasks.first())) < weight_of(
            forest,
            tasks.first(),
        ));
    }
}

/// The number of capabilities that travel with a task: one with a directory
/// task, none with a file task.
pub open spec fn capability(task: Work) -> nat {
    if task is Directory {
        1
    } else {
        0
    }
}

/// The state of a run: the tasks that wait in the queue, the tasks that
/// workers have taken and not yet finished, the capabilities held outside
/// the queue, and the results reported so far.
pub ghost struct RunState {
    pub pending: Seq<Work>,
    pub taken: Seq<Work>,
    pub held: nat,
    pub results: Seq<ResultModel>,
}

/// The number of live capabilities in a state of a run: those held outside
/// the queue and those that travel with pending directory tasks.
pub open spec fn live(state: RunState) -> nat {
    state.held + directories(state.pending)
}

/// The completion signal: nothing is pending and no capability is live.
pub open spec fn complete(state: RunState) -> bool {
    state.pending.len() == 0 && live(state) == 0
}

/// Nobody but the workers holds a capability: each worker that is expanding
/// a directory holds the one that came with its task, and the seeder has
/// released its own.
pub open spec fn workers_hold_all(state: RunState) -> bool {
    state.held == directories(state.taken)
}

/// A worker takes the oldest pending task, as `TaskQueue::next` hands it out.
/// With a directory task its capability passes to the worker.
pub open spec fn take(state: RunState) -> RunState {
    RunState {
        pending: state.pending.drop_first(),
        taken: state.taken.push(state.pending.first()),
        held: state.held + capability(state.pending.first()),
        results: state.results,
    }
}

/// The worker that took the task at `at` finishes it. What the task submits
/// joins the queue at the end and what it reports joins the results, as
/// `handle_dir_work` and `fingerprint_one_file` do it; with a directory task
/// its capability is released.
pub open spec fn finish(forest: Forest, state: RunState, at: int) -> RunState {
    let task = state.taken[at];
    RunState {
        pending: state.pending + children(forest, task),
        taken: state.taken.remove(at),
        held: (state.held - capability(task)) as nat,
        results: state.results + reported(forest, task),
    }
}

/// One step of a run. A negative pick lets a worker take the next task; any
/// other pick lets the worker finish that holds the task the pick points at.
/// Where the picked kind of step is not possible, the other kind is made; a
/// run with neither pending nor taken tasks stays as it is.
pub open spec fn step(forest: Forest, state: RunState, pick: int) -> RunState {
    if state.pending.len() > 0 && (pick < 0 || state.taken.len() == 0) {
        take(state)
    } else if state.taken.len() > 0 {
        finish(forest, state, pick % (state.taken.len() as int))
    } else {
        state
    }
}

/// A run: one step for each pick. The picks stand for the order in which the
/// workers happen to take and to finish.
pub open spec fn run(forest: Forest, state: RunState, picks: Seq<int>) -> RunState
    decreases picks.len(),
{
    if picks.len() == 0 {
        state
    } else {
        run(forest, step(forest, state, picks.first()), picks.drop_first())
    }
}

/// The number of steps that a run still has to make at most: two for every
/// task that may still be pending at some time, one for every task taken.
pub open spec fn remaining(forest: Forest, state: RunState) -> int {
    2 * total_weight(forest, state.pending) + 2 * total_weight(forest, state.taken)
        - state.taken.len()
}

/// The weight of two lists is the weight of one and of the other.
pub proof fn lemma_weight_of_both(forest: Forest, a: Seq<Work>, b: Seq<Work>)
    ensures
        total_weight(forest, a + b) == total_weight(forest, a) + total_weight(forest, b),
    decreases a.len(),
{
    if a.len() == 0 {
        assert(a + b =~= b);
    } else {
        assert((a + b).drop_first() =~= a.drop_first() + b);
        lemma_weight_of_both(forest, a.drop_first(), b);
    }
}

/// A list weighs what it weighs without one task, and that task.
pub proof fn lemma_weight_without(forest: Forest, tasks: Seq<Work>, at: int)
    requires
        0 <= at < tasks.len(),
    ensures
        total_weight(forest, tasks) == weight_of(forest, tasks[at]) + total_weight(
            forest,
            tasks.remove(at),
        ),
{
    let front = tasks.take(at);
    let back = tasks.skip(at + 1);
    let middle = seq![tasks[at]];
    assert(tasks =~= front + (middle + back));
    assert(tasks.remove(at) =~= front + back);
    lemma_weight_of_both(forest, front, middle + back);
    lemma_weight_of_both(forest, front, back);
    assert((middle + back).drop_first() =~= back);
}

/// In a finite forest every task weighs something, so a list weighs at least
/// as much as it has tasks.
pub proof fn lemma_weight_bounds(forest: Forest, tasks: Seq<Work>)
    requires
        finite(forest),
    ensures
        tasks.len() <= total_weight(forest, tasks),
    decreases tasks.len(),
{
    if tasks.len() > 0 {
        assert(total_weight(forest, children(forest, tasks.first())) < weight_of(
            forest,
            tasks.first(),
        ));
        lemma_weight_bounds(forest, tasks.drop_first());
    }
}

/// The directory tasks of two lists are those of one and of the other.
pub proof fn lemma_directories_of_both(a: Seq<Work>, b: Seq<Work>)
    ensures
        directories(a + b) == directories(a) + directories(b),
    decreases b.len(),
{
    if b.len() == 0 {
        assert(a + b =~= a);
    } else {
        assert((a + b).drop_last() =~= a + b.drop_last());
        lemma_directories_of_both(a, b.drop_last());
    }
}

/// A list has no more directory tasks than tasks; without one task it has
/// one directory task less where that task is one, and as many where not.
pub proof fn lemma_directories_without(tasks: Seq<Work>, at: int)
    requires
        0 <= at < tasks.len(),
    ensures
        directories(tasks) == directories(tasks.remove(at)) + capability(tasks[at]),
        directories(tasks) <= tasks.len(),
{
    let front = tasks.take(at);
    let back = tasks.skip(at + 1);
    let middle = seq![tasks[at]];
    assert(tasks =~= (front + middle) + back);
    assert(tasks.remove(at) =~= front + back);
    lemma_directories_of_both(front + middle, back);
    lemma_directories_of_both(front, middle);
    lemma_directories_of_both(front, back);
    assert(middle.drop_last() =~= Seq::<Work>::empty());
    assert(directories(middle.drop_last()) == 0);
    lemma_directories_bound(tasks);
}

/// A list has no more directory tasks than tasks.
pub proof fn lemma_directories_bound(tasks: Seq<Work>)
    ensures
        directories(tasks) <= tasks.len(),
    decreases tasks.len(),
{
    if tasks.len() > 0 {
        lemma_directories_bound(tasks.drop_last());
    }
}

/// Two lists owe what one owes and what the other owes.
pub proof fn lemma_owed_by_both(forest: Forest, a: Seq<Work>, b: Seq<Work>)
    requires
        finite(forest),
    ensures
        owed(forest, a + b) == owed(forest, a).add(owed(forest, b)),
    decreases a.len(),
{
    broadcast use vstd::multiset::group_multiset_axioms;

    if a.len() == 0 {
        assert(a + b =~= b);
        assert(owed(forest, a + b) =~= owed(forest, a).add(owed(forest, b)));
    } else {
        assert((a + b).drop_first() =~= a.drop_first() + b);
        assert((a + b).first() == a.first());
        lemma_owed_by_both(forest, a.drop_first(), b);
        assert(owed(forest, a + b) =~= owed(forest, a).add(owed(forest, b)));
    }
}

/// A list owes what one of its tasks reports, what that task's children owe,
/// and what the list owes without the task.
pub proof fn lemma_owed_without(forest: Forest, tasks: Seq<Work>, at: int)
    requires
        finite(forest),
        0 <= at < tasks.len(),
    ensures
        owed(forest, tasks) == reported(forest, tasks[at]).to_multiset().add(
            owed(forest, children(forest, tasks[at])),
        ).add(owed(forest, tasks.remove(at))),
{
    broadcast use vstd::multiset::group_multiset_axioms;

    let front = tasks.take(at);
    let back = tasks.skip(at + 1);
    let middle = seq![tasks[at]];
    assert(tasks =~= front + (middle + back));
    assert(tasks.remove(at) =~= front + back);
    lemma_owed_by_both(forest, front, middle + back);
    lemma_owed_by_both(forest, front, back);
    assert((middle + back).drop_first() =~= back);
    assert((middle + back).first() == tasks[at]);
    assert(owed(forest, tasks) =~= reported(forest, tasks[at]).to_multiset().add(
        owed(forest, children(forest, tasks[at])),
    ).add(owed(forest, tasks.remove(at))));
}

/// All that a state of a run accounts for: the results reported, and what
/// the pending and the taken tasks still owe.
pub open spec fn account(forest: Forest, state: RunState) -> Multiset<ResultModel> {
    state.results.to_multiset().add(owed(forest, state.pending)).add(owed(forest, state.taken))
}

/// Taking a task brings the end one step nearer, keeps the account, and
/// keeps the capabilities with the workers.
pub proof fn lemma_take(forest: Forest, state: RunState)
    requires
        finite(forest),
        state.pending.len() > 0,
    ensures
        remaining(forest, take(state)) == remaining(forest, state) - 1,
        account(forest, take(state)) == account(forest, state),
        workers_hold_all(state) ==> workers_hold_all(take(state)),
        live(take(state)) == live(state),
{
    broadcast use vstd::multiset::group_multiset_axioms;

    let task = state.pending.first();
    let after = take(state);
    let one = seq![task];
    assert(after.taken =~= state.taken + one);
    lemma_weight_of_both(forest, state.taken, one);
    assert(one.drop_first() =~= Seq::<Work>::empty());
    assert(total_weight(forest, one.drop_first()) == 0);
    lemma_owed_by_both(forest, state.taken, one);
    assert(owed(forest, one.drop_first()) =~= Multiset::<ResultModel>::empty());
    assert(account(forest, after) =~= account(forest, state));
    assert(after.taken.drop_last() =~= state.taken);
    assert(state.pending =~= one + state.pending.drop_first());
    lemma_directories_of_both(one, state.pending.drop_first());
    assert(one.drop_last() =~= Seq::<Work>::empty());
    assert(directories(one.drop_last()) == 0);
    assert(directories(one) == capability(task));
}

/// Finishing a task brings the end at least one step nearer, keeps the
/// account, and keeps the capabilities with the workers.
pub proof fn lemma_finish(forest: Forest, state: RunState, at: int)
    requires
        finite(forest),
        0 <= at < state.taken.len(),
    ensures
        remaining(forest, finish(forest, state, at)) < remaining(forest, state),
        account(forest, finish(forest, state, at)) == account(forest, state),
        workers_hold_all(state) ==> workers_hold_all(finish(forest, state, at)),
{
    broadcast use vstd::multiset::group_multiset_axioms;

    let task = state.taken[at];
    let after = finish(forest, state, at);
    lemma_weight_without(forest, state.taken, at);
    lemma_weight_of_both(forest, state.pending, children(forest, task));
    assert(total_weight(forest, children(forest, task)) < weight_of(forest, task));
    lemma_owed_without(forest, state.taken, at);
    lemma_owed_by_both(forest, state.pending, children(forest, task));
    lemma_multiset_commutative(state.results, reported(forest, task));
    assert(account(forest, after) =~= account(forest, state));
    lemma_directories_without(state.taken, at);
}

/// Every step that can be made brings the end nearer. As long as a task is
/// pending or taken, a step makes the number of steps that remain smaller;
/// it keeps the account of what is reported and what is owed; and it keeps
/// the capabilities with the workers.
pub proof fn lemma_step(forest: Forest, state: RunState, pick: int)
    requires
        finite(forest),
    ensures
        state.pending.len() + state.taken.len() > 0 ==> remaining(
            forest,
            step(forest, state, pick),
        ) < remaining(forest, state),
        remaining(forest, step(forest, state, pick)) <= remaining(forest, state),
        0 <= remaining(forest, state),
        account(forest, step(forest, state, pick)) == account(forest, state),
        workers_hold_all(state) ==> workers_hold_all(step(forest, state, pick)),
{
    lemma_weight_bounds(forest, state.taken);
    if state.pending.len() > 0 && (pick < 0 || state.taken.len() == 0) {
        lemma_take(forest, state);
    } else if state.taken.len() > 0 {
        lemma_finish(forest, state, pick % (state.taken.len() as int));
    }
}

/// A run over a finite forest ends, and reports exactly what is owed. Given
/// at least as many picks as steps remain, and whatever the picks are: at
/// the end no task is pending or taken, and the results are those of the
/// start together with all that the pending and the taken tasks owed, each
/// once. Where the workers held all capabilities at the start, none is held
/// at the end.
pub proof fn lemma_run(forest: Forest, state: RunState, picks: Seq<int>)
    requires
        finite(forest),
        remaining(forest, state) <= picks.len(),
    ensures
        run(forest, state, picks).pending.len() == 0,
        run(forest, state, picks).taken.len() == 0,
        run(forest, state, picks).results.to_multiset() == account(forest, state),
        workers_hold_all(state) ==> run(forest, state, picks).held == 0,
    decreases picks.len(),
{
    broadcast use vstd::multiset::group_multiset_axioms;

    lemma_step(forest, state, 0);
    if picks.len() == 0 {
        lemma_weight_bounds(forest, state.pending);
        lemma_weight_bounds(forest, state.taken);
        assert(state.pending.len() == 0);
        assert(state.taken.len() == 0);
        assert(account(forest, state) =~= state.results.to_multiset());
        assert(directories(state.taken) == 0);
    } else {
        let next = step(forest, state, picks.first());
        lemma_step(forest, state, picks.first());
        if state.pending.len() + state.taken.len() == 0 {
            assert(next == state);
            lemma_step(forest, next, 0);
        }
        lemma_run(forest, next, picks.drop_first());
    }
}

/// The completion signal never fires early. Where the workers hold all
/// capabilities and the signal has fired, no worker is expanding a directory,
/// so whatever the workers still do, no task arrives any more: the queue
/// stays empty and the signal stays.
pub proof fn lemma_complete_is_final(forest: Forest, state: RunState, picks: Seq<int>)
    requires
        workers_hold_all(state),
        complete(state),
    ensures
        directories(state.taken) == 0,
        complete(run(forest, state, picks)),
        workers_hold_all(run(forest, state, picks)),
    decreases picks.len(),
{
    assert(state.pending.len() == 0);
    assert(directories(state.pending) == 0);
    if picks.len() > 0 {
        let next = step(forest, state, picks.first());
        if state.taken.len() > 0 {
            let at = picks.first() % (state.taken.len() as int);
            lemma_directories_without(state.taken, at);
            assert(state.taken[at] is File);
            assert(next.pending =~= Seq::<Work>::empty());
        }
        assert(directories(next.pending) == 0);
        lemma_complete_is_final(forest, next, picks.drop_first());
    }
}

/// The state in which a run starts: the tasks seeded by the roots of both
/// sides are pending, no task is taken, the seeding capability is released,
/// nothing is reported.
pub open spec fn seeded(left: Seq<RootModel>, right: Seq<RootModel>) -> RunState {
    RunState {
        pending: seeds(Side::Left, left) + seeds(Side::Right, right),
        taken: Seq::empty(),
        held: 0,
        results: Seq::empty(),
    }
}

/// The live capabilities never outnumber the steps that remain.
pub proof fn lemma_live_is_bounded(forest: Forest, state: RunState)
    requires
        finite(forest),
        workers_hold_all(state),
    ensures
        live(state) <= remaining(forest, state),
{
    lemma_weight_bounds(forest, state.pending);
    lemma_weight_bounds(forest, state.taken);
    lemma_directories_bound(state.pending);
    lemma_directories_bound(state.taken);
}

/// Termination. A run over a finite forest, started from the seeded queue,
/// comes to its end after finitely many steps, whatever order the workers
/// take and finish in: after as many steps as remained at the start, no task
/// is pending or taken and no capability is live, which is the completion
/// signal.
pub proof fn lemma_run_ends(
    forest: Forest,
    left: Seq<RootModel>,
    right: Seq<RootModel>,
    picks: Seq<int>,
)
    requires
        finite(forest),
        supported(forest),
        remaining(forest, seeded(left, right)) <= picks.len(),
    ensures
        run(forest, seeded(left, right), picks).pending.len() == 0,
        run(forest, seeded(left, right), picks).taken.len() == 0,
        live(run(forest, seeded(left, right), picks)) == 0,
        complete(run(forest, seeded(left, right), picks)),
{
    assert(directories(seeded(left, right).taken) == 0);
    lemma_run(forest, seeded(left, right), picks);
    assert(directories(run(forest, seeded(left, right), picks).pending) == 0);
}

/// Every step brings the end nearer. As long as a task is pending or taken,
/// a step leaves fewer steps to make than there were. The live capabilities
/// never outnumber the steps that remain, so their count is driven to zero
/// with them.
pub proof fn lemma_step_brings_the_end_nearer(forest: Forest, state: RunState, pick: int)
    requires
        finite(forest),
        supported(forest),
        workers_hold_all(state),
        state.pending.len() + state.taken.len() > 0,
    ensures
        remaining(forest, step(forest, state, pick)) < remaining(forest, state),
        workers_hold_all(step(forest, state, pick)),
        live(state) <= remaining(forest, state),
        live(step(forest, state, pick)) <= remaining(forest, step(forest, state, pick)),
{
    lemma_step(forest, state, pick);
    lemma_live_is_bounded(forest, state);
    lemma_live_is_bounded(forest, step(forest, state, pick));
}

/// Exactly one result for everything reached. A run over a finite forest,
/// started from the seeded queue and run to its end, has reported what the
/// seeded tasks owe and nothing else, each result once: nothing is dropped and
/// nothing is reported twice, whatever order the workers take and finish in.
pub proof fn lemma_run_reports_each_once(
    forest: Forest,
    left: Seq<RootModel>,
    right: Seq<RootModel>,
    picks: Seq<int>,
)
    requires
        finite(forest),
        supported(forest),
        remaining(forest, seeded(left, right)) <= picks.len(),
    ensures
        run(forest, seeded(left, right), picks).results.to_multiset() == owed(
            forest,
            seeded(left, right).pending,
        ),
{
    broadcast use vstd::multiset::group_multiset_axioms;

    lemma_run(forest, seeded(left, right), picks);
    lemma_nothing_counted(seeded(left, right).results);
    assert(account(forest, seeded(left, right)) =~= owed(forest, seeded(left, right).pending));
}

} // verus!
