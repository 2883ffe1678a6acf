//! Directory expansion: one listing becomes tasks and results.

use crate::location::PathLocation;
use crate::queue::TaskQueue;
use crate::queue::Work;
use crate::result::Failure;
use crate::result::FailureKind;
use crate::result::FailureModel;
use crate::result::ResultModel;
use crate::result::results_view;
use crate::result::symlink_entry_message;
use crate::result::WorkResult;
use std::path::PathBuf;
use vstd::prelude::*;

verus! {

/// What a directory entry, or a configured root, was found to be.
#[derive(Clone, Copy, Debug, PartialEq, Eq, Structural)]
pub enum EntryKind {
    Symlink,
    Directory,
    File,
    /// Neither a symlink, nor a directory, nor a regular file.
    Other,
}

impl EntryKind {
    /// The kind told by three observations of one path, asked in this order:
    /// is it a symlink, else a directory, else a regular file.
    pub fn from_probes(is_symlink: bool, is_dir: bool, is_file: bool) -> (kind: EntryKind)
        ensures
            kind == if is_symlink {
                EntryKind::Symlink
            } else if is_dir {
                EntryKind::Directory
            } else if is_file {
                EntryKind::File
            } else {
                EntryKind::Other
            },
    {
        if is_symlink {
            EntryKind::Symlink
        } else if is_dir {
            EntryKind::Directory
        } else if is_file {
            EntryKind::File
        } else {
            EntryKind::Other
        }
    }
}

/// One entry of a directory listing that could be read: its path and kind.
#[derive(Debug)]
pub struct DirEntryProbe {
    pub path: PathBuf,
    pub kind: EntryKind,
}

/// One step of a directory listing as contracts see it: the entry, or the
/// text of the error that stood in its place.
pub type EntryModel = Result<DirEntryProbe, Seq<char>>;

/// A directory listing as contracts see it: its steps, or the text of the
/// error with which listing failed as a whole.
pub type ListingModel = Result<Seq<EntryModel>, Seq<char>>;

/// What a list of listing steps stands for.
pub open spec fn entries_view(entries: Seq<Result<DirEntryProbe, String>>) -> Seq<EntryModel> {
    Seq::new(
        entries.len(),
        |i: int|
            match entries[i] {
                Ok(probe) => Ok(probe),
                Err(message) => Err(message@),
            },
    )
}

/// What a directory listing stands for.
pub open spec fn listing_view(
    listing: Result<Vec<Result<DirEntryProbe, String>>, String>,
) -> ListingModel {
    match listing {
        Ok(entries) => Ok(entries_view(entries@)),
        Err(message) => Err(message@),
    }
}

/// The result that reports a failed enumeration against the directory.
pub open spec fn enumeration_failure(parent: PathLocation, message: Seq<char>) -> ResultModel {
    ResultModel {
        location: parent,
        outcome: Err(FailureModel { kind: FailureKind::Enumeration, message }),
    }
}

/// The task that one listing step gives rise to: a directory or a regular file
/// becomes a task on the side of its parent; nothing else does.
pub open spec fn entry_task(parent: PathLocation, entry: EntryModel) -> Option<Work> {
    match entry {
        Ok(probe) => match probe.kind {
            EntryKind::Directory => Some(
                Work::Directory { path: PathLocation::on(parent.side_of(), probe.path) },
            ),
            EntryKind::File => Some(
                Work::File { path: PathLocation::on(parent.side_of(), probe.path) },
            ),
            _ => None,
        },
        Err(_) => None,
    }
}

/// The result that one listing step gives rise to: a step that failed is
/// reported against the directory, a symlink against its own path; nothing
/// else is reported.
pub open spec fn entry_result(parent: PathLocation, entry: EntryModel) -> Option<ResultModel> {
    match entry {
        Ok(probe) => match probe.kind {
            EntryKind::Symlink => Some(
                ResultModel {
                    location: PathLocation::on(parent.side_of(), probe.path),
                    outcome: Err(
                        FailureModel {
                            kind: FailureKind::UnsupportedEntry,
                            message: symlink_entry_message(),
                        },
                    ),
                },
            ),
            _ => None,
        },
        Err(message) => Some(enumeration_failure(parent, message)),
    }
}

/// The tasks that the steps of a listing give rise to, in listing order.
pub open spec fn entry_tasks(parent: PathLocation, entries: Seq<EntryModel>) -> Seq<Work>
    decreases entries.len(),
{
    if entries.len() == 0 {
        Seq::empty()
    } else {
        let before = entry_tasks(parent, entries.drop_last());
        match entry_task(parent, entries.last()) {
            Some(task) => before.push(task),
            None => before,
        }
    }
}

/// The results that the steps of a listing give rise to, in listing order.
pub open spec fn entry_results(parent: PathLocation, entries: Seq<EntryModel>) -> Seq<
    ResultModel,
>
    decreases entries.len(),
{
    if entries.len() == 0 {
        Seq::empty()
    } else {
        let before = entry_results(parent, entries.drop_last());
        match entry_result(parent, entries.last()) {
            Some(result) => before.push(result),
            None => before,
        }
    }
}

/// The tasks that expanding a directory submits.
pub open spec fn listed_tasks(parent: PathLocation, listing: ListingModel) -> Seq<Work> {
    match listing {
        Ok(entries) => entry_tasks(parent, entries),
        Err(_) => Seq::empty(),
    }
}

/// The results that expanding a directory reports.
pub open spec fn listed_results(parent: PathLocation, listing: ListingModel) -> Seq<ResultModel> {
    match listing {
        Ok(entries) => entry_results(parent, entries),
        Err(message) => seq![enumeration_failure(parent, message)],
    }
}

/// Every entry that could be read is a symlink, a directory or a regular file.
pub open spec fn only_supported_kinds(listing: ListingModel) -> bool {
    match listing {
        Ok(entries) => forall|i: int|
            0 <= i < entries.len() ==> match #[trigger] entries[i] {
                Ok(probe) => probe.kind != EntryKind::Other,
                Err(_) => true,
            },
        Err(_) => true,
    }
}

/// Whether every entry that could be read is of a kind that expansion
/// handles. An entry of any other kind is a violated invariant of the forest:
/// the caller stops the run instead of expanding the directory.
pub fn listing_is_supported(listing: &Result<Vec<Result<DirEntryProbe, String>>, String>) -> (ok:
    bool)
    ensures
        ok == only_supported_kinds(listing_view(*listing)),
{
    match listing {
        Ok(entries) => {
            let mut i: usize = 0;
            while i < entries.len()
                invariant
                    i <= entries@.len(),
                    listing_view(*listing) == Ok::<Seq<EntryModel>, Seq<char>>(
                        entries_view(entries@),
                    ),
                    forall|t: int|
                        0 <= t < i ==> match #[trigger] entries_view(entries@)[t] {
                            Ok(probe) => probe.kind != EntryKind::Other,
                            Err(_) => true,
                        },
                decreases entries@.len() - i,
            {
                if let Ok(probe) = &entries[i] {
                    if let EntryKind::Other = probe.kind {
                        proof {
                            let shown = entries_view(entries@);
                            assert(shown[i as int] matches Ok(found) && found.kind
                                == EntryKind::Other);
                        }
                        return false;
                    }
                }
                i += 1;
            }
            true
        },
        Err(_) => true,
    }
}

/// Expands one directory, given what listing it brought. Every step of the
/// listing is handled, whatever came before it: a step that failed is
/// reported against the directory; a symlink is reported against its own
/// path and not followed; a directory or a regular file is submitted as a
/// task on the directory's side. A listing that failed as a whole is reported
/// against the directory. At the end the capability that came with the
/// directory task is released.
pub fn handle_dir_work(
    path: PathLocation,
    listing: Result<Vec<Result<DirEntryProbe, String>>, String>,
    queue: &mut TaskQueue,
) -> (results: Vec<WorkResult>)
    requires
        old(queue).held() >= 1,
        only_supported_kinds(listing_view(listing)),
    ensures
        final(queue).pending() == old(queue).pending() + listed_tasks(path, listing_view(listing)),
        final(queue).held() == old(queue).held() - 1,
        results_view(results@) == listed_results(path, listing_view(listing)),
{
    let mut results: Vec<WorkResult> = Vec::new();
    match listing {
        Err(message) => {
            results.push(
                WorkResult::from_err(path, Failure::new(FailureKind::Enumeration, message)),
            );
            assert(results_view(results@) =~= listed_results(path, listing_view(listing)));
            assert(queue.pending() =~= old(queue).pending() + listed_tasks(
                path,
                listing_view(listing),
            ));
        },
        Ok(entries) => {
            let ghost all = entries_view(entries@);
            assert(queue.pending() =~= old(queue).pending() + entry_tasks(path, all.take(0)));
            assert(results_view(results@) =~= entry_results(path, all.take(0)));
            for entry in it: entries
                invariant
                    it.seq() == entries@,
                    all == entries_view(entries@),
                    only_supported_kinds(Ok(all)),
                    queue.held() == old(queue).held(),
                    queue.held() >= 1,
                    queue.pending() == old(queue).pending() + entry_tasks(
                        path,
                        all.take(it.index() as int),
                    ),
                    results_view(results@) == entry_results(path, all.take(it.index() as int)),
            {
                let ghost i = it.index();
                let ghost seen = all.take(i as int);
                let ghost next = all.take(i as int + 1);
                let ghost reported = results_view(results@);
                proof {
                    assert(next.drop_last() =~= seen);
                    assert(next.last() == all[i as int]);
                }
                match entry {
                    Err(message) => {
                        results.push(
                            WorkResult::from_err(
                                path.duplicate(),
                                Failure::new(FailureKind::Enumeration, message),
                            ),
                        );
                        assert(results_view(results@) =~= reported.push(
                            enumeration_failure(path, message@),
                        ));
                    },
                    Ok(probe) => {
                        let location = PathLocation::new_same_side(&path, probe.path);
                        match probe.kind {
                            EntryKind::Symlink => {
                                results.push(
                                    WorkResult::from_err(
                                        location,
                                        Failure::new(
                                            FailureKind::UnsupportedEntry,
                                            "Symlinks are not supported. Ignoring.".to_owned(),
                                        ),
                                    ),
                                );
                                assert(results_view(results@) =~= reported.push(
                                    entry_result(path, all[i as int]).unwrap(),
                                ));
                            },
                            EntryKind::Directory => {
                                queue.submit(Work::Directory { path: location });
                                assert(results_view(results@) =~= reported);
                            },
                            EntryKind::File => {
                                queue.submit(Work::File { path: location });
                                assert(results_view(results@) =~= reported);
                            },
                            EntryKind::Other => {
                                assert(false);
                            },
                        }
                    },
                }
            }
            assert(all.take(all.len() as int) =~= all);
        },
    }
    queue.release();
    results
}

} // verus!
