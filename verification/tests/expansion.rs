use contentdiff::enqueue_initial_work_for_side;
use contentdiff::enqueue_initial_work_from_args;
use contentdiff::handle_dir_work;
use contentdiff::listing_is_supported;
use contentdiff::seeded_queue;
use contentdiff::DirEntryProbe;
use contentdiff::EntryKind;
use contentdiff::FailureKind;
use contentdiff::Next;
use contentdiff::PathLocation;
use contentdiff::Root;
use contentdiff::Side;
use contentdiff::TaskQueue;
use contentdiff::Work;
use std::path::PathBuf;

fn entry(path: &str, kind: EntryKind) -> Result<DirEntryProbe, String> {
    Ok(DirEntryProbe {
        path: PathBuf::from(path),
        kind,
    })
}

fn root(path: &str, probe: Result<EntryKind, String>) -> Root {
    Root {
        path: PathBuf::from(path),
        probe,
    }
}

fn drain(queue: &mut TaskQueue) -> Vec<(bool, Side, PathBuf)> {
    let mut out = Vec::new();
    loop {
        match queue.next() {
            Next::Task(Work::Directory { path }) => {
                out.push((true, path.side(), path.path().clone()));
                queue.release();
            }
            Next::Task(Work::File { path }) => out.push((false, path.side(), path.path().clone())),
            Next::Wait | Next::Closed => return out,
        }
    }
}

#[test]
fn kind_is_told_from_the_probes_in_order() {
    assert_eq!(EntryKind::from_probes(true, true, true), EntryKind::Symlink);
    assert_eq!(EntryKind::from_probes(true, false, false), EntryKind::Symlink);
    assert_eq!(EntryKind::from_probes(false, true, true), EntryKind::Directory);
    assert_eq!(EntryKind::from_probes(false, true, false), EntryKind::Directory);
    assert_eq!(EntryKind::from_probes(false, false, true), EntryKind::File);
    assert_eq!(EntryKind::from_probes(false, false, false), EntryKind::Other);
}

#[test]
fn expansion_submits_children_and_reports_the_rest() {
    let mut queue = TaskQueue::new();
    let listing = Ok(vec![
        entry("d/file1", EntryKind::File),
        Err(String::from("entry unreadable")),
        entry("d/link", EntryKind::Symlink),
        entry("d/sub", EntryKind::Directory),
        entry("d/file2", EntryKind::File),
    ]);
    assert!(listing_is_supported(&listing));
    let results = handle_dir_work(
        PathLocation::new_right(PathBuf::from("d")),
        listing,
        &mut queue,
    );

    // The capability that came with the task is released at the end.
    assert_eq!(queue.held_count(), 0);

    assert_eq!(results.len(), 2);
    // A failed step is reported against the directory itself.
    assert_eq!(results[0].path.path(), &PathBuf::from("d"));
    assert_eq!(results[0].path.side(), Side::Right);
    let failure = results[0].result.as_ref().unwrap_err();
    assert_eq!(failure.kind, FailureKind::Enumeration);
    assert_eq!(failure.message, "entry unreadable");
    // A symlink is reported against its own path.
    assert_eq!(results[1].path.path(), &PathBuf::from("d/link"));
    assert_eq!(results[1].path.side(), Side::Right);
    let failure = results[1].result.as_ref().unwrap_err();
    assert_eq!(failure.kind, FailureKind::UnsupportedEntry);
    assert_eq!(failure.message, "Symlinks are not supported. Ignoring.");

    assert_eq!(
        drain(&mut queue),
        vec![
            (false, Side::Right, PathBuf::from("d/file1")),
            (true, Side::Right, PathBuf::from("d/sub")),
            (false, Side::Right, PathBuf::from("d/file2")),
        ]
    );
}

#[test]
fn a_directory_that_cannot_be_listed_is_reported_once() {
    let mut queue = TaskQueue::new();
    let results = handle_dir_work(
        PathLocation::new_left(PathBuf::from("locked")),
        Err(String::from("Permission denied")),
        &mut queue,
    );
    assert_eq!(results.len(), 1);
    assert_eq!(results[0].path.path(), &PathBuf::from("locked"));
    assert_eq!(results[0].path.side(), Side::Left);
    let failure = results[0].result.as_ref().unwrap_err();
    assert_eq!(failure.kind, FailureKind::Enumeration);
    assert_eq!(failure.message, "Permission denied");
    assert_eq!(queue.pending_len(), 0);
    assert!(queue.is_closed());
}

#[test]
fn an_empty_directory_gives_nothing_and_lets_go() {
    let mut queue = TaskQueue::new();
    let results = handle_dir_work(
        PathLocation::new_left(PathBuf::from("empty")),
        Ok(Vec::new()),
        &mut queue,
    );
    assert!(results.is_empty());
    assert!(queue.is_closed());
}

#[test]
fn an_entry_of_another_kind_is_not_supported() {
    let listing = Ok(vec![
        entry("d/file", EntryKind::File),
        entry("d/socket", EntryKind::Other),
    ]);
    assert!(!listing_is_supported(&listing));
    assert!(listing_is_supported(&Err(String::from("whatever"))));
    assert!(listing_is_supported(&Ok(vec![Err(String::from("x"))])));
}

#[test]
fn roots_seed_tasks_or_warn() {
    let mut queue = TaskQueue::new();
    let warnings = enqueue_initial_work_for_side(
        vec![
            root("dir", Ok(EntryKind::Directory)),
            root("link", Ok(EntryKind::Symlink)),
            root("gone", Err(String::from("No such file or directory"))),
            root("file", Ok(EntryKind::File)),
            root("pipe", Ok(EntryKind::Other)),
        ],
        Side::Left,
        &mut queue,
    );
    assert_eq!(queue.held_count(), 1);
    assert_eq!(queue.pending_len(), 2);

    assert_eq!(warnings.len(), 3);
    for warning in warnings.iter() {
        assert_eq!(warning.failure.kind, FailureKind::RootResolution);
        assert_eq!(warning.path.side(), Side::Left);
    }
    assert_eq!(warnings[0].path.path(), &PathBuf::from("link"));
    assert_eq!(warnings[0].failure.message, "Symlinks are not supported");
    assert_eq!(warnings[1].path.path(), &PathBuf::from("gone"));
    assert_eq!(warnings[1].failure.message, "No such file or directory");
    assert_eq!(warnings[2].path.path(), &PathBuf::from("pipe"));
    assert_eq!(warnings[2].failure.message, "Neither a file nor a directory");

    queue.release();
    assert_eq!(
        drain(&mut queue),
        vec![
            (true, Side::Left, PathBuf::from("dir")),
            (false, Side::Left, PathBuf::from("file")),
        ]
    );
}

#[test]
fn left_roots_are_seeded_before_right_roots() {
    let mut queue = TaskQueue::new();
    let warnings = enqueue_initial_work_from_args(
        vec![
            root("l1", Ok(EntryKind::File)),
            root("l2", Ok(EntryKind::Symlink)),
        ],
        vec![
            root("r1", Ok(EntryKind::Symlink)),
            root("r2", Ok(EntryKind::Directory)),
        ],
        &mut queue,
    );
    assert_eq!(warnings.len(), 2);
    assert_eq!(warnings[0].path.side(), Side::Left);
    assert_eq!(warnings[0].path.path(), &PathBuf::from("l2"));
    assert_eq!(warnings[1].path.side(), Side::Right);
    assert_eq!(warnings[1].path.path(), &PathBuf::from("r1"));
    queue.release();
    assert_eq!(
        drain(&mut queue),
        vec![
            (false, Side::Left, PathBuf::from("l1")),
            (true, Side::Right, PathBuf::from("r2")),
        ]
    );
}

#[test]
fn seeded_queue_has_let_go_of_the_seeding_capability() {
    let (queue, warnings) = seeded_queue(vec![root("l", Ok(EntryKind::File))], Vec::new());
    assert!(warnings.is_empty());
    assert_eq!(queue.held_count(), 0);
    assert_eq!(queue.pending_len(), 1);
    assert!(!queue.is_closed());

    let (queue, warnings) = seeded_queue(Vec::new(), Vec::new());
    assert!(warnings.is_empty());
    assert!(queue.is_closed());
}

#[test]
fn locations_keep_their_side() {
    let left = PathLocation::new_left(PathBuf::from("a"));
    let right = PathLocation::new_right(PathBuf::from("b"));
    assert_eq!(left.side(), Side::Left);
    assert_eq!(right.side(), Side::Right);
    assert_eq!(left.path(), &PathBuf::from("a"));
    let child = PathLocation::new_same_side(&right, PathBuf::from("b/c"));
    assert_eq!(child.side(), Side::Right);
    assert_eq!(child.path(), &PathBuf::from("b/c"));
    let copy = child.duplicate();
    assert_eq!(copy.side(), Side::Right);
    assert_eq!(copy.into_path(), PathBuf::from("b/c"));
    assert_eq!(PathLocation::new_on(Side::Left, PathBuf::from("x")).side(), Side::Left);
}
