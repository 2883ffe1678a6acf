//! Root resolution: the configured roots become the first tasks.

use crate::expand::EntryKind;
use crate::location::PathLocation;
use crate::location::Side;
use crate::queue::TaskQueue;
use crate::queue::Work;
use crate::result::Diagnostic;
use crate::result::DiagnosticModel;
use crate::result::diagnostics_view;
use crate::result::Failure;
use crate::result::FailureKind;
use crate::result::FailureModel;
use std::path::PathBuf;
use vstd::prelude::*;

verus! {

/// A configured root as contracts see it.
pub ghost struct RootModel {
    pub path: PathBuf,
    pub probe: Result<EntryKind, Seq<char>>,
}

/// A configured root with what examining it brought: its kind, or the text of
/// the error where it could not be examined.
#[derive(Debug)]
pub struct Root {
    pub path: PathBuf,
    pub probe: Result<EntryKind, String>,
}

impl View for Root {
    type V = RootModel;

    open spec fn view(&self) -> RootModel {
        RootModel {
            path: self.path,
            probe: match self.probe {
                Ok(kind) => Ok(kind),
                Err(message) => Err(message@),
            },
        }
    }
}

/// What a list of roots stands for.
pub open spec fn roots_view(roots: Seq<Root>) -> Seq<RootModel> {
    Seq::new(roots.len(), |i: int| roots[i]@)
}

/// The text of the warning for a root that is a symlink.
pub open spec fn symlink_root_message() -> Seq<char> {
    "Symlinks are not supported"@
}

/// The text of the warning for a root that is neither a file nor a directory.
pub open spec fn other_root_message() -> Seq<char> {
    "Neither a file nor a directory"@
}

/// The warning against a root on `side`.
pub open spec fn root_warning_with(side: Side, path: PathBuf, message: Seq<char>) -> DiagnosticModel {
    DiagnosticModel {
        location: PathLocation::on(side, path),
        failure: FailureModel { kind: FailureKind::RootResolution, message },
    }
}

/// The task that a root seeds: a directory or a regular file becomes a task;
/// any other root seeds nothing.
pub open spec fn root_seed(side: Side, root: RootModel) -> Option<Work> {
    match root.probe {
        Ok(EntryKind::Directory) => Some(Work::Directory { path: PathLocation::on(side, root.path) }),
        Ok(EntryKind::File) => Some(Work::File { path: PathLocation::on(side, root.path) }),
        _ => None,
    }
}

/// The warning that a root gives rise to: a symlink, a root that could not be
/// examined and a root that is neither file nor directory are each warned
/// about; a directory or a regular file is not.
pub open spec fn root_warning(side: Side, root: RootModel) -> Option<DiagnosticModel> {
    match root.probe {
        Ok(EntryKind::Directory) => None,
        Ok(EntryKind::File) => None,
        Ok(EntryKind::Symlink) => Some(root_warning_with(side, root.path, symlink_root_message())),
        Ok(EntryKind::Other) => Some(root_warning_with(side, root.path, other_root_message())),
        Err(message) => Some(root_warning_with(side, root.path, message)),
    }
}

/// The tasks that the roots of one side seed, in the order of the roots.
pub open spec fn seeds(side: Side, roots: Seq<RootModel>) -> Seq<Work>
    decreases roots.len(),
{
    if roots.len() == 0 {
        Seq::empty()
    } else {
        let before = seeds(side, roots.drop_last());
        match root_seed(side, roots.last()) {
            Some(task) => before.push(task),
            None => before,
        }
    }
}

/// The warnings that the roots of one side give rise to, in the order of the
/// roots.
pub open spec fn root_warnings(side: Side, roots: Seq<RootModel>) -> Seq<DiagnosticModel>
    decreases roots.len(),
{
    if roots.len() == 0 {
        Seq::empty()
    } else {
        let before = root_warnings(side, roots.drop_last());
        match root_warning(side, roots.last()) {
            Some(warning) => before.push(warning),
            None => before,
        }
    }
}

/// Submits the first tasks of one side. A root that is a directory or a
/// regular file becomes a task. Every other root is skipped with a warning,
/// and the roots after it are still looked at.
pub fn enqueue_initial_work_for_side(roots: Vec<Root>, side: Side, queue: &mut TaskQueue) -> (warnings:
    Vec<Diagnostic>)
    requires
        old(queue).held() >= 1,
    ensures
        final(queue).pending() == old(queue).pending() + seeds(side, roots_view(roots@)),
        final(queue).held() == old(queue).held(),
        diagnostics_view(warnings@) == root_warnings(side, roots_view(roots@)),
{
    let ghost all = roots_view(roots@);
    let mut warnings: Vec<Diagnostic> = Vec::new();
    assert(queue.pending() =~= old(queue).pending() + seeds(side, all.take(0)));
    assert(diagnostics_view(warnings@) =~= root_warnings(side, all.take(0)));
    for root in it: roots
        invariant
            it.seq() == roots@,
            all == roots_view(roots@),
            queue.held() == old(queue).held(),
            queue.held() >= 1,
            queue.pending() == old(queue).pending() + seeds(side, all.take(it.index() as int)),
            diagnostics_view(warnings@) == root_warnings(side, all.take(it.index() as int)),
    {
        let ghost i = it.index();
        let ghost seen = all.take(i as int);
        let ghost next = all.take(i as int + 1);
        let ghost warned = diagnostics_view(warnings@);
        proof {
            assert(root@ == all[i as int]);
            assert(next.drop_last() =~= seen);
            assert(next.last() == all[i as int]);
        }
        let location = PathLocation::new_on(side, root.path);
        match root.probe {
            Ok(EntryKind::Directory) => {
                queue.submit(Work::Directory { path: location });
                assert(diagnostics_view(warnings@) =~= warned);
            },
            Ok(EntryKind::File) => {
                queue.submit(Work::File { path: location });
                assert(diagnostics_view(warnings@) =~= warned);
            },
            Ok(EntryKind::Symlink) => {
                warnings.push(
                    Diagnostic {
                        path: location,
                        failure: Failure::new(
                            FailureKind::RootResolution,
                            "Symlinks are not supported".to_owned(),
                        ),
                    },
                );
                assert(diagnostics_view(warnings@) =~= warned.push(
                    root_warning(side, all[i as int]).unwrap(),
                ));
            },
            Ok(EntryKind::Other) => {
                warnings.push(
                    Diagnostic {
                        path: location,
                        failure: Failure::new(
                            FailureKind::RootResolution,
                            "Neither a file nor a directory".to_owned(),
                        ),
                    },
                );
                assert(diagnostics_view(warnings@) =~= warned.push(
                    root_warning(side, all[i as int]).unwrap(),
                ));
            },
            Err(message) => {
                warnings.push(
                    Diagnostic {
                        path: location,
                        failure: Failure::new(FailureKind::RootResolution, message),
                    },
                );
                assert(diagnostics_view(warnings@) =~= warned.push(
                    root_warning(side, all[i as int]).unwrap(),
                ));
            },
        }
    }
    assert(all.take(all.len() as int) =~= all);
    warnings
}

/// Submits the first tasks of both sides: the left roots, then the right
/// roots. The warnings come back in the same order.
pub fn enqueue_initial_work_from_args(left: Vec<Root>, right: Vec<Root>, queue: &mut TaskQueue) -> (warnings:
    Vec<Diagnostic>)
    requires
        old(queue).held() >= 1,
    ensures
        final(queue).pending() == old(queue).pending() + seeds(Side::Left, roots_view(left@))
            + seeds(Side::Right, roots_view(right@)),
        final(queue).held() == old(queue).held(),
        diagnostics_view(warnings@) == root_warnings(Side::Left, roots_view(left@))
            + root_warnings(Side::Right, roots_view(right@)),
{
    let mut warnings = enqueue_initial_work_for_side(left, Side::Left, queue);
    let mut more = enqueue_initial_work_for_side(right, Side::Right, queue);
    let ghost first = diagnostics_view(warnings@);
    let ghost second = diagnostics_view(more@);
    warnings.append(&mut more);
    assert(diagnostics_view(warnings@) =~= first + second);
    warnings
}

/// A queue that holds the first tasks of both sides and nothing else, with
/// the seeding capability already released: from here on only the directory
/// tasks keep the queue open.
pub fn seeded_queue(left: Vec<Root>, right: Vec<Root>) -> (seeded: (TaskQueue, Vec<Diagnostic>))
    ensures
        seeded.0.pending() == seeds(Side::Left, roots_view(left@)) + seeds(
            Side::Right,
            roots_view(right@),
        ),
        seeded.0.held() == 0,
        diagnostics_view(seeded.1@) == root_warnings(Side::Left, roots_view(left@))
            + root_warnings(Side::Right, roots_view(right@)),
{
    let mut queue = TaskQueue::new();
    let warnings = enqueue_initial_work_from_args(left, right, &mut queue);
    queue.release();
    assert(queue.pending() =~= seeds(Side::Left, roots_view(left@)) + seeds(
        Side::Right,
        roots_view(right@),
    ));
    (queue, warnings)
}

} // verus!
