use file_sorter::bucket::{BucketResult, MatchGroup};
use file_sorter::paths::{FilePath, PartKind, PathPart};
use file_sorter::resume::{load_resume_state, save_resume_state, ResumeState, RootKey};
use file_sorter::scan::{Scan, ScanPhase, ScanResult};
use file_sorter::walk::{EntryAction, EntryKind, Walker};

fn path(s: &str) -> FilePath {
    let mut parts = vec![PathPart { kind: PartKind::RootDir, name: Vec::new() }];
    for name in s.split('/').filter(|n| !n.is_empty()) {
        parts.push(PathPart::named(name.as_bytes().to_vec()));
    }
    FilePath::new(s.to_string(), parts)
}

/// The entries of a directory: what each is, its name, and the directory that it leads to.
type Entries = Vec<(EntryKind, &'static str, &'static str)>;

/// Real directories by their keys.
type Tree = Vec<(&'static str, Entries)>;

/// Two directories with links from one to the other and back up, and one that cannot be
/// read.
fn tree() -> Tree {
    vec![
        (
            "r",
            vec![
                (EntryKind::File, "1", ""),
                (EntryKind::Dir, "a", "a"),
                (EntryKind::OtherLink, "to_1", ""),
                (EntryKind::DirLink, "again", "b"),
                (EntryKind::Dir, "b", "b"),
                (EntryKind::Dir, "secret", "secret"),
                (EntryKind::File, "2", ""),
            ],
        ),
        (
            "a",
            vec![
                (EntryKind::File, "x", ""),
                (EntryKind::DirLink, "up", "r"),
                (EntryKind::DirLink, "beside", "b"),
                (EntryKind::File, "y", ""),
            ],
        ),
        ("b", vec![(EntryKind::File, "x", ""), (EntryKind::DirLink, "self", "b"), (EntryKind::Dir, "c", "c")]),
        ("c", vec![(EntryKind::File, "y", ""), (EntryKind::Unreadable, "z", "")]),
    ]
}

#[derive(Clone, Debug, PartialEq)]
enum Event {
    File(String),
    Dir(String),
}

fn listing<'a>(tree: &'a Tree, key: &str) -> Option<&'a Entries> {
    tree.iter().find(|d| d.0 == key).map(|d| &d.1)
}

fn enter(tree: &Tree, walker: &mut Walker, stack: &mut Vec<(String, String, usize)>, at: String, key: &str) {
    if walker.try_push(key) && listing(tree, key).is_some() {
        stack.push((at, key.to_string(), 0));
        walker.opened(key.to_string());
    }
}

/// Walks the tree from "/r" until the answer to an event is `false`.
fn walk(tree: &Tree, mut walker: Walker, mut on_event: impl FnMut(Event) -> bool) {
    let mut stack = Vec::new();
    enter(tree, &mut walker, &mut stack, "/r".to_string(), "r");
    while let Some(top) = stack.len().checked_sub(1) {
        let (dir, key, at) = stack[top].clone();
        match listing(tree, &key).unwrap().get(at) {
            None => {
                stack.pop();
                if !on_event(Event::Dir(walker.leave().unwrap())) {
                    return;
                }
            }
            Some((kind, name, to)) => {
                stack[top].2 += 1;
                let entry = format!("{}/{}", dir, name);
                match walker.entry_action(*kind, &name.as_bytes().to_vec(), &path(&entry)) {
                    EntryAction::Skip => {}
                    EntryAction::Enter => enter(tree, &mut walker, &mut stack, entry, to),
                    EntryAction::Report => {
                        if !on_event(Event::File(entry)) {
                            return;
                        }
                    }
                }
            }
        }
    }
}

fn walk_all(tree: &Tree, walker: Walker) -> Vec<Event> {
    let mut events = Vec::new();
    walk(tree, walker, |e| {
        events.push(e);
        true
    });
    events
}

fn new_walker() -> Walker {
    Walker::new(&Vec::new(), &Vec::new(), &Vec::new(), None, false)
}

fn file(s: &str) -> Event {
    Event::File(s.to_string())
}

fn dir(s: &str) -> Event {
    Event::Dir(s.to_string())
}

#[test]
fn each_directory_is_walked_once_however_it_is_reached() {
    assert_eq!(
        walk_all(&tree(), new_walker()),
        vec![
            file("/r/1"),
            file("/r/a/x"),
            file("/r/a/beside/x"),
            file("/r/a/beside/c/y"),
            dir("c"),
            dir("b"),
            file("/r/a/y"),
            dir("a"),
            file("/r/2"),
            dir("r"),
        ]
    );
}

#[test]
fn a_walk_taken_up_again_reports_the_rest() {
    let whole = walk_all(&tree(), new_walker());
    for cut in 0..whole.len() + 1 {
        let mut completed = Vec::new();
        let mut seen = Vec::new();
        for event in &whole[..cut] {
            match event {
                Event::File(p) => seen.push(path(p)),
                Event::Dir(key) => completed.push(key.clone()),
            }
        }
        let again = Walker::new(&completed, &seen, &Vec::new(), None, false);
        assert_eq!(walk_all(&tree(), again), whole[cut..].to_vec(), "{}", cut);
    }
}

#[test]
fn a_file_less_leaves_the_rest_of_a_walk() {
    let whole = walk_all(&tree(), new_walker());
    let mut less = tree();
    assert_eq!(less[2].1.remove(0).1, "x");
    let rest: Vec<Event> = whole.into_iter().filter(|e| *e != file("/r/a/beside/x")).collect();
    assert_eq!(walk_all(&less, new_walker()), rest);
}

// ------------------------------------------------------------------ whole scans

fn roots() -> Vec<RootKey> {
    vec![RootKey { directory: "/r".to_string(), key: "r".to_string() }]
}

/// What a file holds: one content for the files called `x`, one for those called `y`, and
/// two for the others. A file that cannot be read holds nothing.
fn content(p: &FilePath, unreadable: &str) -> Option<String> {
    if p.text == unreadable {
        None
    } else {
        Some(p.text[p.text.len() - 1..].to_string())
    }
}

fn compared(bucket: &[FilePath], unreadable: &str) -> BucketResult {
    let mut groups: Vec<MatchGroup> = Vec::new();
    let mut skipped = Vec::new();
    for p in bucket {
        match content(p, unreadable) {
            None => skipped.push(p.clone()),
            Some(digest) => match groups.iter_mut().find(|g| g.digest == digest) {
                Some(g) => g.paths.push(p.clone()),
                None => groups.push(MatchGroup { digest, paths: vec![p.clone()] }),
            },
        }
    }
    groups.retain(|g| g.paths.len() > 1);
    BucketResult { groups, skipped, processed_count: bucket.len() }
}

/// Scans the tree, up to so many steps where there is an end to them.
fn scan(tree: &Tree, unreadable: &str, resume: Option<ResumeState>, steps: Option<usize>) -> ScanResult {
    let mut scan = Scan::begin(&roots(), 0, resume);
    let mut done = 0;
    let mut stop = || {
        done += 1;
        steps.map_or(false, |n| done > n)
    };
    if scan.phase() == ScanPhase::Walking {
        let mut cancelled = false;
        walk(tree, scan.walker(&Vec::new(), None, false), |e| {
            cancelled = stop();
            match e {
                Event::File(p) => scan.file_found(cancelled, &path(&p), Some(1)).go_on,
                Event::Dir(key) => scan.dir_done(cancelled, &key).go_on,
            }
        });
        scan.walk_finished(cancelled);
    }
    while scan.phase() == ScanPhase::Hashing {
        if let Some(batch) = scan.next_hash_batch(stop()) {
            let hashes = batch.iter().map(|p| content(p, unreadable)).collect();
            scan.hashes_done(&hashes);
        }
    }
    while scan.phase() == ScanPhase::Confirming {
        if let Some(batch) = scan.next_confirm_batch(stop()) {
            let results = batch.iter().map(|b| compared(b, unreadable)).collect();
            scan.confirm_done(&results);
        }
    }
    scan.finish(&vec![path("/r")], &roots())
}

fn groups(result: &ScanResult) -> Vec<Vec<&str>> {
    result.groups.iter().map(|g| g.paths.iter().map(|p| p.text.as_str()).collect()).collect()
}

#[test]
fn files_of_one_content_are_found_wherever_they_are() {
    let result = scan(&tree(), "", None, None);
    assert!(!result.cancelled);
    assert_eq!(groups(&result), vec![vec!["/r/a/x", "/r/a/beside/x"], vec!["/r/a/beside/c/y", "/r/a/y"]]);
}

#[test]
fn a_scan_that_is_cancelled_over_and_over_comes_to_the_same() {
    let whole = format!("{:?}", scan(&tree(), "/r/2", None, None));
    for pace in 0..14 {
        for through_store in [false, true] {
            let mut resume: Option<ResumeState> = None;
            let mut cancels = 0;
            let mut allowed = pace;
            let result = loop {
                let result = scan(&tree(), "/r/2", resume, Some(allowed));
                if !result.cancelled {
                    break result;
                }
                cancels += 1;
                // A scan that got nowhere is given one step more.
                allowed = pace.max(1) + cancels % 2;
                let snapshot = result.resume_state.unwrap();
                resume = Some(if through_store {
                    let rows = save_resume_state(&snapshot);
                    load_resume_state(snapshot.directories.clone(), snapshot.stage.clone(), rows)
                } else {
                    snapshot
                });
            };
            assert!(cancels > 0 || pace > 10);
            assert_eq!(format!("{:?}", result), whole, "{} {}", pace, through_store);
        }
    }
}

#[test]
fn a_file_that_cannot_be_read_is_as_if_it_were_not_there() {
    let with = scan(&tree(), "/r/2", None, None);
    let mut less = tree();
    assert_eq!(less[0].1.pop().unwrap().1, "2");
    let without = scan(&less, "", None, None);
    assert_eq!(with.skipped.iter().map(|p| p.text.as_str()).collect::<Vec<&str>>(), vec!["/r/2"]);
    assert!(without.skipped.is_empty());
    assert_eq!(groups(&with), groups(&without));
    assert_eq!(groups(&with).len(), 2);
}
