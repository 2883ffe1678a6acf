use contentdiff::collect_results;
use contentdiff::fingerprint_one_file;
use contentdiff::handle_dir_work;
use contentdiff::listing_is_supported;
use contentdiff::seeded_queue;
use contentdiff::Diagnostic;
use contentdiff::DirEntryProbe;
use contentdiff::EntryKind;
use contentdiff::FailureKind;
use contentdiff::HashEngine;
use contentdiff::Locations;
use contentdiff::Next;
use contentdiff::ResultCollector;
use contentdiff::Root;
use contentdiff::Side;
use contentdiff::Work;
use contentdiff::WorkResult;
use std::path::PathBuf;

/// A file tree held in memory: what stands at a path.
enum Node {
    File(&'static [u8]),
    Locked,
    Link,
    Dir(Vec<&'static str>),
}

struct Tree {
    nodes: Vec<(&'static str, Node)>,
}

impl Tree {
    fn find(&self, path: &PathBuf) -> Option<&Node> {
        self.nodes
            .iter()
            .find(|(name, _)| PathBuf::from(name) == *path)
            .map(|(_, node)| node)
    }

    fn kind(&self, path: &PathBuf) -> Result<EntryKind, String> {
        match self.find(path) {
            None => Err(String::from("No such file or directory")),
            Some(Node::Link) => Ok(EntryKind::Symlink),
            Some(Node::Dir(_)) => Ok(EntryKind::Directory),
            Some(Node::File(_)) | Some(Node::Locked) => Ok(EntryKind::File),
        }
    }

    fn root(&self, path: &str) -> Root {
        let path = PathBuf::from(path);
        let probe = self.kind(&path);
        Root { path, probe }
    }

    fn list(&self, path: &PathBuf) -> Result<Vec<Result<DirEntryProbe, String>>, String> {
        match self.find(path) {
            Some(Node::Dir(children)) => Ok(children
                .iter()
                .map(|child| {
                    let path = PathBuf::from(child);
                    self.kind(&path).map(|kind| DirEntryProbe { path, kind })
                })
                .collect()),
            _ => Err(String::from("Not a directory")),
        }
    }

    fn read(&self, path: &PathBuf) -> Result<HashEngine, String> {
        match self.find(path) {
            Some(Node::File(content)) => {
                let mut engine = HashEngine::new();
                for chunk in content.chunks(3) {
                    engine.update(chunk);
                }
                Ok(engine)
            }
            Some(Node::Locked) => Err(String::from("Permission denied (os error 13)")),
            _ => Err(String::from("No such file or directory")),
        }
    }
}

/// Runs the engine over the tree with one worker, and hands back the results
/// in the order they were reported, with the warnings about the roots.
fn fingerprint(tree: &Tree, left: &[&str], right: &[&str]) -> (Vec<WorkResult>, Vec<Diagnostic>) {
    let left = left.iter().map(|path| tree.root(path)).collect();
    let right = right.iter().map(|path| tree.root(path)).collect();
    let (mut queue, warnings) = seeded_queue(left, right);
    let mut results = Vec::new();
    let mut steps = 0;
    loop {
        steps += 1;
        assert!(steps < 1000, "the run does not end");
        match queue.next() {
            Next::Closed => break,
            Next::Wait => panic!("a single worker never has to wait"),
            Next::Task(Work::Directory { path }) => {
                let listing = tree.list(path.path());
                assert!(listing_is_supported(&listing));
                results.extend(handle_dir_work(path, listing, &mut queue));
            }
            Next::Task(Work::File { path }) => {
                let read = tree.read(path.path());
                results.push(fingerprint_one_file(path, read));
            }
        }
    }
    assert!(queue.is_closed());
    assert_eq!(queue.held_count(), 0);
    (results, warnings)
}

fn compare(tree: &Tree, left: &[&str], right: &[&str]) -> (Locations, Vec<Diagnostic>, Vec<Diagnostic>) {
    let (results, warnings) = fingerprint(tree, left, right);
    let (locations, diagnostics) = collect_results(results);
    (locations, diagnostics, warnings)
}

fn paths(names: &[&str]) -> Vec<PathBuf> {
    names.iter().map(PathBuf::from).collect()
}

#[test]
fn same_content_on_both_sides_is_one_match() {
    let tree = Tree {
        nodes: vec![
            ("a", Node::Dir(vec!["a/x.txt"])),
            ("a/x.txt", Node::File(b"hello")),
            ("b", Node::Dir(vec!["b/y.txt"])),
            ("b/y.txt", Node::File(b"hello")),
        ],
    };
    let (locations, diagnostics, warnings) = compare(&tree, &["a"], &["b"]);
    assert_eq!(
        locations.both,
        vec![(paths(&["a/x.txt"]), paths(&["b/y.txt"]))]
    );
    assert_eq!(locations.left, paths(&[]));
    assert_eq!(locations.right, paths(&[]));
    assert!(diagnostics.is_empty());
    assert!(warnings.is_empty());
}

#[test]
fn content_on_the_left_alone_is_left_only() {
    let tree = Tree {
        nodes: vec![
            ("a", Node::Dir(vec!["a/x.txt"])),
            ("a/x.txt", Node::File(b"hello")),
            ("b", Node::Dir(vec![])),
        ],
    };
    let (locations, diagnostics, warnings) = compare(&tree, &["a"], &["b"]);
    assert_eq!(locations.left, paths(&["a/x.txt"]));
    assert!(locations.both.is_empty());
    assert!(locations.right.is_empty());
    assert!(diagnostics.is_empty());
    assert!(warnings.is_empty());

    // With no right root at all the outcome is the same.
    let (locations, _, _) = compare(&tree, &["a"], &[]);
    assert_eq!(locations.left, paths(&["a/x.txt"]));
    assert!(locations.both.is_empty());
    assert!(locations.right.is_empty());
}

#[test]
fn a_file_that_cannot_be_read_is_reported_and_placed_nowhere() {
    let tree = Tree {
        nodes: vec![
            ("a", Node::Dir(vec!["a/open.txt", "a/locked.txt", "a/other.txt"])),
            ("a/open.txt", Node::File(b"hello")),
            ("a/locked.txt", Node::Locked),
            ("a/other.txt", Node::File(b"different")),
            ("b", Node::Dir(vec!["b/y.txt"])),
            ("b/y.txt", Node::File(b"hello")),
        ],
    };
    let (locations, diagnostics, warnings) = compare(&tree, &["a"], &["b"]);
    assert!(warnings.is_empty());

    assert_eq!(diagnostics.len(), 1);
    assert_eq!(diagnostics[0].failure.kind, FailureKind::HashIo);
    assert_eq!(diagnostics[0].path.side(), Side::Left);
    assert_eq!(diagnostics[0].path.path(), &PathBuf::from("a/locked.txt"));
    assert_eq!(diagnostics[0].failure.message, "Permission denied (os error 13)");

    let locked = PathBuf::from("a/locked.txt");
    assert!(!locations.left.contains(&locked));
    assert!(!locations.right.contains(&locked));
    for (lpaths, rpaths) in locations.both.iter() {
        assert!(!lpaths.contains(&locked));
        assert!(!rpaths.contains(&locked));
    }

    // The siblings are classified as if nothing had happened.
    assert_eq!(locations.left, paths(&["a/other.txt"]));
    assert_eq!(
        locations.both,
        vec![(paths(&["a/open.txt"]), paths(&["b/y.txt"]))]
    );
    assert!(locations.right.is_empty());
}

#[test]
fn a_root_that_is_a_symlink_is_warned_about_and_gives_nothing() {
    let tree = Tree {
        nodes: vec![
            ("a", Node::Dir(vec!["a/x.txt"])),
            ("a/x.txt", Node::File(b"hello")),
            ("link", Node::Link),
            ("b", Node::Dir(vec!["b/y.txt"])),
            ("b/y.txt", Node::File(b"bye")),
        ],
    };
    let (results, warnings) = fingerprint(&tree, &["link", "a"], &["b"]);
    assert_eq!(warnings.len(), 1);
    assert_eq!(warnings[0].failure.kind, FailureKind::RootResolution);
    assert_eq!(warnings[0].path.side(), Side::Left);
    assert_eq!(warnings[0].path.path(), &PathBuf::from("link"));
    for result in results.iter() {
        assert_ne!(result.path.path(), &PathBuf::from("link"));
    }

    let (locations, diagnostics) = collect_results(results);
    assert!(diagnostics.is_empty());
    assert_eq!(locations.left, paths(&["a/x.txt"]));
    assert!(locations.both.is_empty());
    assert_eq!(locations.right, paths(&["b/y.txt"]));

    // A symlink as the only root of a side leaves that side empty.
    let (locations, diagnostics, warnings) = compare(&tree, &["link"], &["b"]);
    assert_eq!(warnings.len(), 1);
    assert!(diagnostics.is_empty());
    assert!(locations.left.is_empty());
    assert!(locations.both.is_empty());
    assert_eq!(locations.right, paths(&["b/y.txt"]));
}

fn deep_tree() -> Tree {
    Tree {
        nodes: vec![
            ("l", Node::Dir(vec!["l/a", "l/sub", "l/link", "l/b"])),
            ("l/a", Node::File(b"alpha")),
            ("l/b", Node::File(b"beta")),
            ("l/link", Node::Link),
            ("l/sub", Node::Dir(vec!["l/sub/a2", "l/sub/deep", "l/sub/ghost"])),
            ("l/sub/a2", Node::File(b"alpha")),
            ("l/sub/deep", Node::Dir(vec!["l/sub/deep/c"])),
            ("l/sub/deep/c", Node::File(b"gamma")),
            ("r", Node::Dir(vec!["r/one", "r/two", "r/none"])),
            ("r/one", Node::File(b"alpha")),
            ("r/two", Node::File(b"delta")),
            ("r/none", Node::Dir(vec![])),
            ("single", Node::File(b"gamma")),
        ],
    }
}

#[test]
fn every_file_reached_is_reported_exactly_once() {
    let tree = deep_tree();
    let (results, warnings) = fingerprint(&tree, &["l"], &["r", "single"]);
    assert!(warnings.is_empty());

    let mut reported: Vec<(Side, PathBuf, bool)> = results
        .iter()
        .map(|r| (r.path.side(), r.path.path().clone(), r.result.is_ok()))
        .collect();
    reported.sort_by(|a, b| a.1.cmp(&b.1));
    assert_eq!(
        reported,
        vec![
            (Side::Left, PathBuf::from("l/a"), true),
            (Side::Left, PathBuf::from("l/b"), true),
            (Side::Left, PathBuf::from("l/link"), false),
            // "l/sub/ghost" is listed but cannot be examined: the failure is
            // reported against the directory that lists it.
            (Side::Left, PathBuf::from("l/sub"), false),
            (Side::Left, PathBuf::from("l/sub/a2"), true),
            (Side::Left, PathBuf::from("l/sub/deep/c"), true),
            (Side::Right, PathBuf::from("r/one"), true),
            (Side::Right, PathBuf::from("r/two"), true),
            (Side::Right, PathBuf::from("single"), true),
        ]
    );
}

#[test]
fn a_deep_tree_is_partitioned_by_content() {
    let tree = deep_tree();
    let (mut locations, diagnostics, _) = compare(&tree, &["l"], &["r", "single"]);
    assert_eq!(diagnostics.len(), 2);
    locations.left.sort_unstable();
    locations.right.sort_unstable();
    locations.both.sort_unstable();
    assert_eq!(locations.left, paths(&["l/b"]));
    assert_eq!(locations.right, paths(&["r/two"]));
    assert_eq!(
        locations.both,
        vec![
            (paths(&["l/a", "l/sub/a2"]), paths(&["r/one"])),
            (paths(&["l/sub/deep/c"]), paths(&["single"])),
        ]
    );
}

#[test]
fn the_order_of_the_results_does_not_change_who_is_where() {
    let tree = deep_tree();
    let (forward, _) = fingerprint(&tree, &["l"], &["r", "single"]);
    let (mut backward, _) = fingerprint(&tree, &["l"], &["r", "single"]);
    backward.reverse();

    let (mut one, _) = collect_results(forward);
    let (mut two, _) = collect_results(backward);
    one.left.sort_unstable();
    two.left.sort_unstable();
    one.right.sort_unstable();
    two.right.sort_unstable();
    for (lpaths, rpaths) in one.both.iter_mut().chain(two.both.iter_mut()) {
        lpaths.sort_unstable();
        rpaths.sort_unstable();
    }
    one.both.sort_unstable();
    two.both.sort_unstable();
    assert_eq!(one.left, two.left);
    assert_eq!(one.right, two.right);
    assert_eq!(one.both, two.both);
}

#[test]
fn running_twice_gives_the_same_digests() {
    let tree = deep_tree();
    let (first, _) = fingerprint(&tree, &["l"], &["r", "single"]);
    let (second, _) = fingerprint(&tree, &["l"], &["r", "single"]);
    assert_eq!(first.len(), second.len());
    for (a, b) in first.iter().zip(second.iter()) {
        assert_eq!(a.path.path(), b.path.path());
        assert_eq!(a.result.as_ref().ok(), b.result.as_ref().ok());
    }
}

#[test]
fn one_side_alone_is_plain_fingerprinting() {
    let tree = deep_tree();
    let (results, _) = fingerprint(&tree, &["r"], &[]);
    let digests: Vec<(PathBuf, String)> = results
        .iter()
        .map(|r| {
            (
                r.path.path().clone(),
                contentdiff::digest_hex(r.result.as_ref().unwrap()),
            )
        })
        .collect();
    assert_eq!(
        digests,
        vec![
            (
                PathBuf::from("r/one"),
                String::from("8ed3f6ad685b959ead7022518e1af76cd816f8e8ec7ccdda1ed4018e8f2223f8")
            ),
            (
                PathBuf::from("r/two"),
                String::from("4f4a9410ffcdf895c4adb880659e9b5c0dd1f23a30790684340b3eaacb045398")
            ),
        ]
    );
}

#[test]
fn the_collector_passes_failures_on_and_files_digests() {
    let tree = deep_tree();
    let (results, _) = fingerprint(&tree, &["l"], &["r"]);
    let mut collector = ResultCollector::new();
    let mut diagnostics = Vec::new();
    for result in results {
        let failed = result.result.is_err();
        match collector.record(result) {
            Some(diagnostic) => {
                assert!(failed);
                diagnostics.push(diagnostic);
            }
            None => assert!(!failed),
        }
    }
    assert_eq!(diagnostics.len(), 2);
    assert_eq!(diagnostics[0].failure.kind, FailureKind::UnsupportedEntry);
    assert_eq!(diagnostics[0].path.path(), &PathBuf::from("l/link"));
    assert_eq!(diagnostics[1].failure.kind, FailureKind::Enumeration);
    assert_eq!(diagnostics[1].path.path(), &PathBuf::from("l/sub"));
    let locations = collector.into_locations();
    assert_eq!(locations.left, paths(&["l/b", "l/sub/deep/c"]));
    assert_eq!(locations.right, paths(&["r/two"]));
    assert_eq!(
        locations.both,
        vec![(paths(&["l/a", "l/sub/a2"]), paths(&["r/one"]))]
    );
}

#[test]
fn the_run_ends_with_nothing_pending_and_no_capability_live() {
    let tree = deep_tree();
    let left = vec![tree.root("l")];
    let right = vec![tree.root("r"), tree.root("single")];
    let (mut queue, _) = seeded_queue(left, right);
    let mut taken = 0;
    loop {
        match queue.next() {
            Next::Closed => break,
            Next::Wait => panic!("a single worker never has to wait"),
            Next::Task(Work::Directory { path }) => {
                taken += 1;
                // While the directory is expanded its capability is held.
                assert_eq!(queue.held_count(), 1);
                assert!(!queue.is_closed());
                let listing = tree.list(path.path());
                handle_dir_work(path, listing, &mut queue);
                assert_eq!(queue.held_count(), 0);
            }
            Next::Task(Work::File { path: _ }) => {
                taken += 1;
                assert_eq!(queue.held_count(), 0);
            }
        }
        assert!(taken <= 12, "the run does not end");
    }
    // Five directories and seven files are reached from the roots
    // ("l/link" and "l/sub/ghost" give no task).
    assert_eq!(taken, 12);
    assert!(queue.is_closed());
    assert_eq!(queue.pending_len(), 0);
    assert_eq!(queue.held_count(), 0);
}

#[test]
fn workers_that_overlap_keep_the_queue_open_until_the_last_lets_go() {
    let tree = Tree {
        nodes: vec![
            ("a", Node::Dir(vec!["a/x"])),
            ("a/x", Node::File(b"x")),
            ("b", Node::Dir(vec!["b/sub"])),
            ("b/sub", Node::Dir(vec![])),
        ],
    };
    let (mut queue, _) = seeded_queue(vec![tree.root("a")], vec![tree.root("b")]);

    // Two workers take the two roots.
    let first = match queue.next() {
        Next::Task(Work::Directory { path }) => path,
        other => panic!("expected a directory, got {:?}", other),
    };
    let second = match queue.next() {
        Next::Task(Work::Directory { path }) => path,
        other => panic!("expected a directory, got {:?}", other),
    };
    assert_eq!(queue.held_count(), 2);
    // A third worker finds nothing, but has to wait: more may arrive.
    assert!(matches!(queue.next(), Next::Wait));

    // The second worker finishes first.
    let listing = tree.list(second.path());
    assert!(handle_dir_work(second, listing, &mut queue).is_empty());
    assert_eq!(queue.held_count(), 1);
    assert_eq!(queue.pending_len(), 1);

    // The third worker takes what arrived, an empty directory, and finishes it.
    let third = match queue.next() {
        Next::Task(Work::Directory { path }) => path,
        other => panic!("expected a directory, got {:?}", other),
    };
    assert_eq!(third.path(), &PathBuf::from("b/sub"));
    let listing = tree.list(third.path());
    assert!(handle_dir_work(third, listing, &mut queue).is_empty());

    // Nothing is pending, but the first worker still holds its capability.
    assert_eq!(queue.pending_len(), 0);
    assert_eq!(queue.held_count(), 1);
    assert!(!queue.is_closed());
    assert!(matches!(queue.next(), Next::Wait));

    let listing = tree.list(first.path());
    assert!(handle_dir_work(first, listing, &mut queue).is_empty());
    assert_eq!(queue.held_count(), 0);
    assert!(!queue.is_closed());
    assert!(matches!(queue.next(), Next::Task(Work::File { .. })));
    assert!(queue.is_closed());
    assert!(matches!(queue.next(), Next::Closed));
}
