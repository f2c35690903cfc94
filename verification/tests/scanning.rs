use file_sorter::bucket::{BucketResult, MatchGroup};
use file_sorter::groups::DuplicateGroup;
use file_sorter::folders::{count_folders, find_duplicate_folders, report_folders, FolderInfo};
use file_sorter::paths::{FilePath, PartKind, PathPart};
use file_sorter::resume::{
    checkpoint_progress, checkpoint_record, drop_oldest_resume_runs, load_resume_state, resumable_run_ids,
    save_resume_state, CheckpointDelta, Entry, ProgressRow, ResumeState, RootKey,
};
use file_sorter::scan::{
    resume_roots_match, stage_from, stage_name, Scan, ScanPhase, ScanResult, ScanStage, BATCH_SIZE, CHECKPOINT_INTERVAL,
};
use file_sorter::tables::PathList;
use file_sorter::walk::{EntryAction, EntryKind};

fn path(s: &str) -> FilePath {
    let mut parts = Vec::new();
    if s.starts_with('/') {
        parts.push(PathPart { kind: PartKind::RootDir, name: Vec::new() });
    }
    for name in s.split('/').filter(|n| !n.is_empty()) {
        parts.push(match name {
            ".." => PathPart { kind: PartKind::ParentDir, name: Vec::new() },
            _ => PathPart::named(name.as_bytes().to_vec()),
        });
    }
    FilePath::new(s.to_string(), parts)
}

fn paths(list: &[&str]) -> Vec<FilePath> {
    list.iter().map(|s| path(s)).collect()
}

fn shown(list: &[FilePath]) -> Vec<&str> {
    list.iter().map(|p| p.text.as_str()).collect()
}

fn root() -> Vec<RootKey> {
    vec![RootKey { directory: "/r".to_string(), key: "/real/r".to_string() }]
}

/// A file with its size, its beginning and its contents.
type Disk = Vec<(String, u64, &'static str, &'static str)>;

fn small_disk() -> Disk {
    vec![
        ("/r/a/1".to_string(), 10, "p", "x"),
        ("/r/b/1".to_string(), 10, "p", "x"),
        ("/r/2".to_string(), 10, "p", "y"),
        ("/r/3".to_string(), 10, "q", "z"),
        ("/r/4".to_string(), 20, "q", "w"),
    ]
}

fn find<'a>(disk: &'a Disk, p: &FilePath) -> &'a (String, u64, &'static str, &'static str) {
    disk.iter().find(|f| f.0 == p.text).unwrap()
}

fn confirm(disk: &Disk, bucket: &[FilePath]) -> BucketResult {
    let mut groups: Vec<MatchGroup> = Vec::new();
    for p in bucket {
        let digest = find(disk, p).3.to_string();
        match groups.iter_mut().find(|g| g.digest == digest) {
            Some(g) => g.paths.push(p.clone()),
            None => groups.push(MatchGroup { digest, paths: vec![p.clone()] }),
        }
    }
    groups.retain(|g| g.paths.len() > 1 || bucket.len() == 1);
    BucketResult { groups, skipped: Vec::new(), processed_count: bucket.len() }
}

/// Which step a scan is cancelled at, if any.
#[derive(Clone, Copy, PartialEq)]
enum Cancel {
    Never,
    Walk,
    Hash,
    Confirm,
}

fn walk(scan: &mut Scan, disk: &Disk, cancel: bool) -> Vec<CheckpointDelta> {
    let mut saved = Vec::new();
    for f in disk {
        let reply = scan.file_found(false, &path(&f.0), Some(f.1));
        saved.extend(reply.checkpoint);
        assert!(reply.go_on);
    }
    if cancel {
        assert!(!scan.dir_done(true, "/real/r").go_on);
    } else {
        let reply = scan.dir_done(false, "/real/r");
        saved.extend(reply.checkpoint);
        assert!(reply.go_on);
    }
    saved.extend(scan.walk_finished(cancel));
    saved
}

fn finish(scan: &mut Scan, disk: &Disk, cancel: Cancel) -> (ScanResult, Vec<CheckpointDelta>) {
    let mut saved = Vec::new();
    while scan.phase() == ScanPhase::Hashing {
        if let Some(batch) = scan.next_hash_batch(cancel == Cancel::Hash) {
            let hashes = batch.iter().map(|p| Some(find(disk, p).2.to_string())).collect();
            saved.extend(scan.hashes_done(&hashes));
        }
    }
    while scan.phase() == ScanPhase::Confirming {
        if let Some(batch) = scan.next_confirm_batch(cancel == Cancel::Confirm) {
            let results = batch.iter().map(|b| confirm(disk, b)).collect();
            saved.extend(scan.confirm_done(&results).0);
        }
    }
    (scan.finish(&paths(&["/r"]), &root()), saved)
}

fn scan_all(disk: &Disk, threshold: u64, cancel: Cancel, resume: Option<ResumeState>) -> (ScanResult, Vec<CheckpointDelta>) {
    let mut scan = Scan::begin(&root(), threshold, resume);
    let mut saved = Vec::new();
    if scan.phase() == ScanPhase::Walking {
        saved = walk(&mut scan, disk, cancel == Cancel::Walk);
    }
    let (result, more) = finish(&mut scan, disk, cancel);
    saved.extend(more);
    (result, saved)
}

/// Rows that a store holds after these checkpoints.
fn stored(saved: &[CheckpointDelta]) -> Vec<ProgressRow> {
    let mut rows: Vec<ProgressRow> = Vec::new();
    for delta in saved {
        let more = checkpoint_progress(delta, &rows);
        rows.extend(more);
    }
    rows
}

fn summary(groups: &[DuplicateGroup]) -> Vec<(String, u64, Vec<String>, bool)> {
    groups
        .iter()
        .map(|g| (g.file_hash.clone(), g.size, shown(&g.paths).iter().map(|s| s.to_string()).collect(), g.confirmed))
        .collect()
}

fn expected() -> Vec<(String, u64, Vec<String>, bool)> {
    vec![("x".to_string(), 10, vec!["/r/a/1".to_string(), "/r/b/1".to_string()], true)]
}

// ----------------------------------------------------------------- whole scans

#[test]
fn equal_files_are_found() {
    let (result, _) = scan_all(&small_disk(), 0, Cancel::Never, None);
    assert!(!result.cancelled);
    assert!(result.resume_state.is_none());
    assert!(result.reused_run_id.is_none());
    assert!(result.skipped.is_empty());
    assert_eq!(summary(&result.groups), expected());
    assert_eq!(result.folder_groups.len(), 1);
    assert_eq!(shown(&result.folder_groups[0].paths), vec!["/r/a", "/r/b"]);
}

#[test]
fn only_files_of_a_shared_size_are_hashed() {
    let mut scan = Scan::begin(&root(), 0, None);
    walk(&mut scan, &small_disk(), false);
    assert_eq!(scan.hash_total(), 4);
    let batch = scan.next_hash_batch(false).unwrap();
    assert_eq!(shown(&batch), vec!["/r/a/1", "/r/b/1", "/r/2", "/r/3"]);
    let hashes = vec![Some("p".to_string()), Some("p".to_string()), Some("p".to_string()), None];
    let delta = scan.hashes_done(&hashes).unwrap();
    assert_eq!(delta.stage, "quick_hash");
    assert_eq!(delta.new_entries.len(), 3);
    assert_eq!(delta.new_entries[0].key, "10:p");
    assert_eq!(shown(&delta.new_skipped), vec!["/r/3"]);
    assert!(delta.by_size.is_some());
    assert!(scan.next_hash_batch(false).is_none());
    assert_eq!(scan.phase(), ScanPhase::Confirming);
    assert_eq!(scan.confirm_total(), 3);
}

#[test]
fn large_groups_are_reported_unconfirmed() {
    let (result, _) = scan_all(&small_disk(), 10, Cancel::Never, None);
    assert_eq!(
        summary(&result.groups),
        vec![("10:p".to_string(), 10, vec!["/r/a/1".to_string(), "/r/b/1".to_string(), "/r/2".to_string()], false)]
    );
    let (result, _) = scan_all(&small_disk(), 11, Cancel::Never, None);
    assert_eq!(summary(&result.groups), expected());
}

#[test]
fn files_of_unknown_size_are_skipped() {
    let mut scan = Scan::begin(&root(), 0, None);
    scan.file_found(false, &path("/r/gone"), None);
    let delta = scan.walk_finished(false).unwrap();
    assert_eq!(delta.stage, "scanning");
    assert!(delta.new_entries.is_empty());
    assert_eq!(shown(&delta.new_skipped), vec!["/r/gone"]);
    let (result, _) = finish(&mut scan, &Vec::new(), Cancel::Never);
    assert_eq!(shown(&result.skipped), vec!["/r/gone"]);
}

#[test]
fn a_file_that_cannot_be_read_changes_no_other_group() {
    let mut disk = small_disk();
    disk.push(("/r/locked".to_string(), 10, "p", "x"));
    disk.push(("/r/alone".to_string(), 99, "p", "x"));
    let mut scan = Scan::begin(&root(), 0, None);
    walk(&mut scan, &disk, false);
    while let Some(batch) = scan.next_hash_batch(false) {
        let hashes = batch
            .iter()
            .map(|p| if p.text == "/r/locked" { None } else { Some(find(&disk, p).2.to_string()) })
            .collect();
        scan.hashes_done(&hashes);
    }
    let (result, _) = finish(&mut scan, &disk, Cancel::Never);
    assert_eq!(shown(&result.skipped), vec!["/r/locked"]);
    assert_eq!(summary(&result.groups), expected());
}

// ----------------------------------------------------------------- checkpoints

fn many_files(n: usize) -> Disk {
    (0..n).map(|i| (format!("/r/{}", i), 7, "p", "x")).collect()
}

#[test]
fn a_checkpoint_comes_with_every_interval() {
    let mut scan = Scan::begin(&root(), 0, None);
    for i in 0..CHECKPOINT_INTERVAL - 1 {
        assert!(scan.file_found(false, &path(&format!("/r/{}", i)), Some(1)).checkpoint.is_none());
    }
    let delta = scan.dir_done(false, "/real/r").checkpoint.unwrap();
    assert_eq!(delta.stage, "scanning");
    assert_eq!(delta.new_entries.len(), CHECKPOINT_INTERVAL - 1);
    assert_eq!(delta.new_completed_dirs, vec!["/real/r".to_string()]);
    assert_eq!(delta.directories, Some(vec!["/r".to_string()]));
    assert_eq!(delta.root_keys.unwrap()[0].key, "/real/r");
    assert!(scan.walk_finished(false).is_none());
}

#[test]
fn directories_are_sent_with_the_first_checkpoint_only() {
    let disk = many_files(CHECKPOINT_INTERVAL + 1);
    let (_, saved) = scan_all(&disk, 0, Cancel::Never, None);
    assert!(saved.len() >= 3);
    assert!(saved[0].directories.is_some() && saved[0].root_keys.is_some());
    assert!(saved[1..].iter().all(|d| d.directories.is_none() && d.root_keys.is_none()));
    assert_eq!(saved.iter().filter(|d| d.by_size.is_some()).count(), 1);
}

#[test]
fn work_is_handed_out_in_batches() {
    let disk = many_files(BATCH_SIZE + 5);
    let mut scan = Scan::begin(&root(), 0, None);
    walk(&mut scan, &disk, false);
    let first = scan.next_hash_batch(false).unwrap();
    assert_eq!(first.len(), BATCH_SIZE);
    scan.hashes_done(&vec![Some("p".to_string()); first.len()]);
    let second = scan.next_hash_batch(false).unwrap();
    assert_eq!(second.len(), 5);
    scan.hashes_done(&vec![Some("p".to_string()); second.len()]);
    assert!(scan.next_hash_batch(false).is_none());
    let buckets = scan.next_confirm_batch(false).unwrap();
    assert_eq!(buckets.len(), BATCH_SIZE);
    assert!(buckets.iter().all(|b| b.len() == 1));
    let (delta, processed) = scan.confirm_done(&buckets.iter().map(|b| confirm(&disk, b)).collect());
    assert_eq!(processed, BATCH_SIZE as u64);
    assert_eq!(delta.unwrap().new_processed.len(), BATCH_SIZE);
    assert_eq!(scan.next_confirm_batch(false).unwrap().len(), 5);
}

#[test]
fn files_of_an_ordinary_bucket_are_compared_together() {
    let disk = many_files(BATCH_SIZE);
    let mut scan = Scan::begin(&root(), 0, None);
    walk(&mut scan, &disk, false);
    let batch = scan.next_hash_batch(false).unwrap();
    scan.hashes_done(&vec![Some("p".to_string()); batch.len()]);
    assert!(scan.next_hash_batch(false).is_none());
    let buckets = scan.next_confirm_batch(false).unwrap();
    assert_eq!(buckets.len(), 1);
    assert_eq!(buckets[0].len(), BATCH_SIZE);
}

#[test]
fn no_checkpoint_waits_for_more_than_an_interval_of_files() {
    let disk = many_files(3 * BATCH_SIZE + 1);
    let (result, saved) = scan_all(&disk, 0, Cancel::Never, None);
    assert_eq!(result.groups.len(), 1);
    assert_eq!(result.groups[0].paths.len(), 3 * BATCH_SIZE + 1);
    for delta in &saved {
        assert!(delta.new_entries.len() <= CHECKPOINT_INTERVAL);
        assert!(delta.new_processed.len() <= CHECKPOINT_INTERVAL);
    }
    let compared: usize = saved.iter().map(|d| d.new_processed.len()).sum();
    assert_eq!(compared, 3 * BATCH_SIZE + 1);
    assert_eq!(saved.iter().filter(|d| d.stage == "full_hash").count(), 4);
}

#[test]
fn a_checkpoint_takes_nothing_away() {
    let (_, saved) = scan_all(&small_disk(), 0, Cancel::Never, None);
    let before = stored(&saved);
    let again = CheckpointDelta {
        stage: "quick_hash".to_string(),
        new_entries: Vec::new(),
        new_skipped: Vec::new(),
        new_completed_dirs: Vec::new(),
        new_processed: Vec::new(),
        by_size: Some(vec![list("10", &["/r/new", "/r/2"]), list("30", &["/r/other"])]),
        directories: None,
        root_keys: Some(vec![
            RootKey { directory: "/r".to_string(), key: "/elsewhere".to_string() },
            RootKey { directory: "/s".to_string(), key: "/real/s".to_string() },
        ]),
    };
    let more = checkpoint_progress(&again, &before);
    let added: Vec<(&str, &str, &str)> =
        more.iter().map(|r| (r.list_name.as_str(), r.key.as_str(), r.path.text.as_str())).collect();
    assert_eq!(
        added,
        vec![("by_size", "10", "/r/new"), ("by_size", "30", "/r/other"), ("root_keys", "/s", "/real/s")]
    );
}

#[test]
fn what_checkpoints_saved_is_the_scan() {
    let disk = small_disk();
    let (_, saved) = scan_all(&disk, 0, Cancel::Never, None);
    let state = load_resume_state(vec!["/r".to_string()], "full_hash".to_string(), stored(&saved));
    let sizes: Vec<&str> = state.by_size.iter().map(|l| l.key.as_str()).collect();
    assert_eq!(sizes, vec!["10", "20"]);
    assert_eq!(shown(&state.by_size[0].paths), vec!["/r/a/1", "/r/b/1", "/r/2", "/r/3"]);
    let partials: Vec<&str> = state.by_partial.iter().map(|l| l.key.as_str()).collect();
    assert_eq!(partials, vec!["10:p", "10:q"]);
    assert_eq!(state.by_full.len(), 1);
    assert_eq!(state.completed_dirs, vec!["/real/r".to_string()]);
    assert_eq!(state.root_keys[0].key, "/real/r");
}

// --------------------------------------------------------------------- resuming

fn resumed(cancel: Cancel, through_store: bool) -> (ScanResult, ScanResult) {
    let disk = small_disk();
    let (first, saved) = scan_all(&disk, 0, cancel, None);
    assert!(first.cancelled);
    let snapshot = first.resume_state.as_ref().unwrap();
    let rows = if through_store { save_resume_state(snapshot) } else { stored(&saved) };
    let state = load_resume_state(snapshot.directories.clone(), snapshot.stage.clone(), rows);
    let (second, _) = scan_all(&disk, 0, Cancel::Never, Some(state));
    (first, second)
}

#[test]
fn a_scan_cancelled_while_hashing_goes_on() {
    let (first, second) = resumed(Cancel::Hash, true);
    assert_eq!(first.resume_state.unwrap().stage, "quick_hash");
    assert!(first.groups.is_empty() && first.folder_groups.is_empty());
    assert_eq!(summary(&second.groups), expected());
}

#[test]
fn a_scan_cancelled_while_confirming_goes_on() {
    let (first, second) = resumed(Cancel::Confirm, true);
    assert_eq!(first.resume_state.unwrap().stage, "full_hash");
    assert_eq!(summary(&second.groups), expected());
    assert_eq!(shown(&second.folder_groups[0].paths), vec!["/r/a", "/r/b"]);
}

#[test]
fn checkpoints_serve_a_scan_that_was_cut_off() {
    let (_, second) = resumed(Cancel::Confirm, false);
    assert_eq!(summary(&second.groups), expected());
}

#[test]
fn a_snapshot_serves_without_being_saved() {
    for cancel in [Cancel::Hash, Cancel::Confirm] {
        let disk = small_disk();
        let (first, _) = scan_all(&disk, 0, cancel, None);
        let (second, _) = scan_all(&disk, 0, Cancel::Never, first.resume_state);
        assert_eq!(summary(&second.groups), expected());
        assert_eq!(shown(&second.folder_groups[0].paths), vec!["/r/a", "/r/b"]);
    }
}

#[test]
fn a_scan_cut_short_after_any_batch_comes_to_the_same() {
    let large = (0..BATCH_SIZE + 7).map(|i| (format!("/r/large/{}", i), 9, "p", "v"));
    let many: Disk = small_disk().into_iter().chain(large).collect();
    let (whole, _) = scan_all(&many, 0, Cancel::Never, None);
    assert_eq!(whole.groups.len(), 2);
    for stop in 0..4 {
        let mut scan = Scan::begin(&root(), 0, None);
        walk(&mut scan, &many, false);
        let mut left = stop;
        while scan.phase() == ScanPhase::Hashing {
            if let Some(batch) = scan.next_hash_batch(left == 0) {
                let hashes = batch.iter().map(|p| Some(find(&many, p).2.to_string())).collect();
                scan.hashes_done(&hashes);
                left -= 1;
            }
        }
        while scan.phase() == ScanPhase::Confirming {
            if let Some(batch) = scan.next_confirm_batch(left == 0) {
                let results = batch.iter().map(|b| confirm(&many, b)).collect();
                scan.confirm_done(&results);
                left -= 1;
            }
        }
        let cut = scan.finish(&paths(&["/r"]), &root());
        assert!(cut.cancelled);
        let snapshot = cut.resume_state.unwrap();
        let rows = save_resume_state(&snapshot);
        let state = load_resume_state(snapshot.directories.clone(), snapshot.stage.clone(), rows);
        for state in [snapshot, state] {
            let (resumed, _) = scan_all(&many, 0, Cancel::Never, Some(state));
            assert_eq!(summary(&resumed.groups), summary(&whole.groups));
        }
    }
}

#[test]
fn a_walk_that_was_cancelled_goes_on_where_it_was() {
    let disk = small_disk();
    let (first, _) = scan_all(&disk, 0, Cancel::Walk, None);
    let state = first.resume_state.unwrap();
    assert_eq!(state.stage, "scanning");
    assert_eq!(state.by_size.len(), 2);
    assert!(state.completed_dirs.is_empty());
    let mut scan = Scan::begin(&root(), 0, Some(state));
    assert_eq!(scan.phase(), ScanPhase::Walking);
    let walker = scan.walker(&Vec::new(), None, false);
    let action = |p: &str| walker.entry_action(EntryKind::File, &path(p).file_name().unwrap(), &path(p));
    assert_eq!(action("/r/2"), EntryAction::Skip);
    assert_eq!(action("/r/new"), EntryAction::Report);
    assert!(scan.walk_finished(false).is_none());
    let (result, _) = finish(&mut scan, &disk, Cancel::Never);
    assert_eq!(summary(&result.groups), expected());
}

#[test]
fn hashed_files_are_not_hashed_again() {
    let disk = many_files(BATCH_SIZE + 5);
    let mut scan = Scan::begin(&root(), 0, None);
    walk(&mut scan, &disk, false);
    let first = scan.next_hash_batch(false).unwrap();
    scan.hashes_done(&vec![Some("p".to_string()); first.len()]);
    assert!(scan.next_hash_batch(true).is_none());
    assert_eq!(scan.phase(), ScanPhase::Ended);
    let result = scan.finish(&paths(&["/r"]), &root());
    let snapshot = result.resume_state.unwrap();
    let state = load_resume_state(snapshot.directories.clone(), snapshot.stage.clone(), save_resume_state(&snapshot));
    assert_eq!(state.processed.len(), BATCH_SIZE);
    assert_eq!(snapshot.processed.len(), BATCH_SIZE);
    assert_eq!(Scan::begin(&root(), 0, Some(snapshot)).hash_total(), 5);
    let again = Scan::begin(&root(), 0, Some(state));
    assert_eq!(again.phase(), ScanPhase::Hashing);
    assert_eq!(again.hash_total(), 5);
}

#[test]
fn confirmed_buckets_are_not_confirmed_again() {
    let disk = small_disk();
    let (_, saved) = scan_all(&disk, 0, Cancel::Never, None);
    let state = |rows| load_resume_state(vec!["/r".to_string()], "full_hash".to_string(), rows);
    let unmarked = stored(&saved).into_iter().filter(|r| r.list_name != "processed").collect();
    let mut scan = Scan::begin(&root(), 0, Some(state(unmarked)));
    assert!(scan.next_hash_batch(false).is_none());
    assert_eq!(scan.confirm_total(), 3);
    let mut scan = Scan::begin(&root(), 0, Some(state(stored(&saved))));
    assert!(scan.next_hash_batch(false).is_none());
    assert_eq!(scan.confirm_total(), 0);
    assert!(scan.next_confirm_batch(false).is_none());
    let result = scan.finish(&paths(&["/r"]), &root());
    assert_eq!(summary(&result.groups), expected());
}

#[test]
fn progress_of_directories_that_lead_elsewhere_is_ignored() {
    let (first, _) = scan_all(&small_disk(), 0, Cancel::Hash, None);
    let state = first.resume_state.unwrap();
    assert!(resume_roots_match(&state, &root()));
    let moved = vec![RootKey { directory: "/r".to_string(), key: "/other".to_string() }];
    assert!(!resume_roots_match(&state, &moved));
    let unknown = vec![RootKey { directory: "/s".to_string(), key: "/other".to_string() }];
    assert!(resume_roots_match(&state, &unknown));
    let scan = Scan::begin(&moved, 0, Some(state));
    assert!(scan.resume_ignored());
    assert_eq!(scan.phase(), ScanPhase::Walking);
    assert!(!Scan::begin(&root(), 0, None).resume_ignored());
}

#[test]
fn stages_have_names() {
    for stage in [ScanStage::Scanning, ScanStage::QuickHash, ScanStage::FullHash] {
        assert_eq!(stage_from(&stage_name(stage)), Some(stage));
    }
    assert_eq!(stage_name(ScanStage::QuickHash), "quick_hash");
    assert_eq!(stage_from("other"), None);
}

// ----------------------------------------------------------------- resume state

fn list(key: &str, list: &[&str]) -> PathList {
    PathList { key: key.to_string(), paths: paths(list) }
}

#[test]
fn a_saved_state_reads_back() {
    let state = ResumeState {
        directories: vec!["/r".to_string()],
        stage: "quick_hash".to_string(),
        by_size: vec![list("10", &["/r/b", "/r/a"]), list("3", &["/r/c"])],
        by_partial: vec![list("10:p", &["/r/b"])],
        by_full: vec![list("d", &["/r/z"])],
        processed: Vec::new(),
        skipped: paths(&["/r/s"]),
        completed_dirs: vec!["/real/r/x".to_string()],
        root_keys: root(),
    };
    let rows = save_resume_state(&state);
    assert_eq!(rows.len(), 8);
    let back = load_resume_state(state.directories.clone(), state.stage.clone(), rows);
    assert_eq!(back.directories, state.directories);
    assert_eq!(back.stage, "quick_hash");
    assert_eq!(back.by_size.len(), 2);
    assert_eq!(back.by_size[0].key, "10");
    assert_eq!(shown(&back.by_size[0].paths), vec!["/r/b", "/r/a"]);
    assert_eq!(shown(&back.by_partial[0].paths), vec!["/r/b"]);
    assert_eq!(shown(&back.by_full[0].paths), vec!["/r/z"]);
    assert_eq!(shown(&back.skipped), vec!["/r/s"]);
    assert_eq!(back.completed_dirs, state.completed_dirs);
    assert_eq!(back.root_keys[0].key, "/real/r");
    assert_eq!(shown(&back.processed), vec!["/r/b", "/r/s", "/r/z"]);
}

#[test]
fn rows_of_unknown_lists_are_passed_over() {
    let rows = vec![ProgressRow { list_name: "notes".to_string(), key: "k".to_string(), path: path("/r/a") }];
    let back = load_resume_state(Vec::new(), "scanning".to_string(), rows);
    assert!(back.by_size.is_empty() && back.skipped.is_empty() && back.processed.is_empty());
}

#[test]
fn a_checkpoint_says_where_its_entries_go() {
    let entry = || Entry { key: "k".to_string(), path: path("/r/a") };
    for (stage, name) in [("scanning", "by_size"), ("quick_hash", "by_partial"), ("full_hash", "by_full"), ("odd", "odd")] {
        let delta = CheckpointDelta {
            stage: stage.to_string(),
            new_entries: vec![entry()],
            new_skipped: Vec::new(),
            new_completed_dirs: Vec::new(),
            new_processed: paths(&["/r/b"]),
            by_size: None,
            directories: None,
            root_keys: None,
        };
        let rows = checkpoint_progress(&delta, &Vec::new());
        assert_eq!(rows.len(), 2);
        assert_eq!(rows[0].list_name, name);
        assert_eq!((rows[1].list_name.as_str(), rows[1].path.text.as_str()), ("processed", "/r/b"));
    }
}

#[test]
fn a_checkpoint_keeps_the_directories_of_its_run() {
    let mut scan = Scan::begin(&root(), 0, None);
    scan.file_found(false, &path("/r/a"), Some(1));
    let mut delta = scan.walk_finished(false).unwrap();
    let dirs = |list: &[&str]| -> Vec<String> { list.iter().map(|s| s.to_string()).collect() };
    assert_eq!(checkpoint_record(&delta, Some(dirs(&["/old"]))), (dirs(&["/r"]), "scanning".to_string()));
    delta.directories = None;
    delta.stage = "full_hash".to_string();
    assert_eq!(checkpoint_record(&delta, Some(dirs(&["/old"]))), (dirs(&["/old"]), "full_hash".to_string()));
    assert_eq!(checkpoint_record(&delta, None), (Vec::new(), "full_hash".to_string()));
}

#[test]
fn old_snapshots_make_room() {
    let runs = |n: usize| -> Vec<String> { (0..n).map(|i| i.to_string()).collect() };
    assert!(drop_oldest_resume_runs(&runs(50)).is_empty());
    assert_eq!(drop_oldest_resume_runs(&runs(53)), vec!["0", "1", "2"]);
    assert!(drop_oldest_resume_runs(&Vec::new()).is_empty());
}

#[test]
fn runs_that_could_be_read_can_be_resumed() {
    let found = vec![Some("1".to_string()), None, Some("2".to_string()), Some("1".to_string())];
    assert_eq!(resumable_run_ids(&found), vec!["1".to_string(), "2".to_string()]);
}

// ---------------------------------------------------------------------- folders

fn group(hash: &str, size: u64, list: &[&str], confirmed: bool) -> DuplicateGroup {
    DuplicateGroup { file_hash: hash.to_string(), size, paths: paths(list), confirmed }
}

fn folders(all: &[&str], skipped: &[&str], groups: &[DuplicateGroup]) -> Vec<(Vec<String>, usize, u64, bool)> {
    let copies: Vec<DuplicateGroup> =
        groups.iter().map(|g| group(&g.file_hash, g.size, &shown(&g.paths), g.confirmed)).collect();
    find_duplicate_folders(&paths(all), &paths(skipped), &copies, &paths(&["/r"]))
        .into_iter()
        .map(|f| (shown(&f.paths).iter().map(|s| s.to_string()).collect(), f.file_count, f.size, f.confirmed))
        .collect()
}

#[test]
fn equal_folders_are_found() {
    let all = ["/r/a/1", "/r/a/2", "/r/b/1", "/r/b/2"];
    let groups = [group("x", 5, &["/r/a/1", "/r/b/1"], true), group("y", 7, &["/r/a/2", "/r/b/2"], true)];
    assert_eq!(folders(&all, &[], &groups), vec![(vec!["/r/a".to_string(), "/r/b".to_string()], 2, 12, true)]);
}

#[test]
fn folders_with_renamed_files_differ() {
    let groups = [group("x", 5, &["/r/a/1", "/r/b/one"], true)];
    assert!(folders(&["/r/a/1", "/r/b/one"], &[], &groups).is_empty());
}

#[test]
fn one_unmatched_file_disqualifies_a_folder() {
    let groups = [group("x", 5, &["/r/a/1", "/r/b/1"], true)];
    assert!(folders(&["/r/a/1", "/r/b/1", "/r/b/more"], &[], &groups).is_empty());
    assert!(folders(&["/r/a/1", "/r/b/1"], &["/r/b/unreadable"], &groups).is_empty());
}

#[test]
fn an_unmatched_folder_disqualifies_what_holds_it() {
    let groups = [group("x", 5, &["/r/a/1", "/r/b/1"], true)];
    assert!(folders(&["/r/a/1", "/r/b/1", "/r/b/deep/down/z"], &[], &groups).is_empty());
}

#[test]
fn folders_inside_reported_ones_are_not_reported() {
    let all = ["/r/a/in/1", "/r/b/in/1"];
    let groups = [group("x", 5, &["/r/a/in/1", "/r/b/in/1"], true)];
    assert_eq!(folders(&all, &[], &groups), vec![(vec!["/r/a".to_string(), "/r/b".to_string()], 1, 5, true)]);
}

#[test]
fn a_folder_is_as_confirmed_as_its_files() {
    let all = ["/r/a/1", "/r/a/2", "/r/b/1", "/r/b/2"];
    let groups = [group("x", 5, &["/r/a/1", "/r/b/1"], true), group("7:p", 7, &["/r/a/2", "/r/b/2"], false)];
    assert_eq!(folders(&all, &[], &groups), vec![(vec!["/r/a".to_string(), "/r/b".to_string()], 2, 12, false)]);
}

#[test]
fn nested_copies_of_a_folder_are_found() {
    let all = ["/r/a/1", "/r/x/b/1", "/r/x/other"];
    let groups = [group("x", 5, &["/r/a/1", "/r/x/b/1"], true)];
    assert_eq!(folders(&all, &[], &groups), vec![(vec!["/r/a".to_string(), "/r/x/b".to_string()], 1, 5, true)]);
}

#[test]
fn a_root_inside_another_root_is_part_of_it() {
    let groups = vec![group("h", 5, &["/r/x", "/q/x"], true)];
    let search = |all: &[&str], roots: &[&str]| find_duplicate_folders(&paths(all), &Vec::new(), &groups, &paths(roots));
    assert!(search(&["/r/x", "/r/a/z", "/q/x"], &["/r", "/r/a", "/q"]).is_empty());
    let found = search(&["/r/x", "/q/x"], &["/r", "/r/a", "/q"]);
    assert_eq!(shown(&found[0].paths), vec!["/q", "/r"]);
    let groups = vec![group("h", 5, &["/r/a/x", "/r/b/x"], true)];
    let all = paths(&["/r/a/x", "/r/b/x"]);
    let found = find_duplicate_folders(&all, &Vec::new(), &groups, &paths(&["/r/a", "/r", "/r/b"]));
    assert_eq!(shown(&found[0].paths), vec!["/r/a", "/r/b"]);
}

#[test]
fn a_file_that_was_skipped_disqualifies_its_folders_whatever_its_group() {
    let groups = [group("x", 5, &["/r/a/1", "/r/b/1"], true), group("y", 5, &["/r/a/2", "/r/b/2"], true)];
    let all = ["/r/a/1", "/r/b/1", "/r/a/2", "/r/b/2"];
    assert_eq!(folders(&all, &[], &groups).len(), 1);
    assert!(folders(&all, &["/r/b/2"], &groups).is_empty());
    assert!(folders(&all, &["/r/b"], &groups).is_empty());
}

#[test]
fn files_outside_all_roots_are_in_folders_too() {
    let groups = vec![group("x", 5, &["/o/a/1", "/o/b/1"], true)];
    let all = paths(&["/o/a/1", "/o/b/1"]);
    for roots in [vec![], paths(&["/r"])] {
        let found = find_duplicate_folders(&all, &Vec::new(), &groups, &roots);
        assert_eq!(found.len(), 1);
        assert_eq!(shown(&found[0].paths), vec!["/o/a", "/o/b"]);
    }
    assert_eq!(count_folders(&all, &Vec::new(), &Vec::new()), 4);
    assert_eq!(count_folders(&all, &Vec::new(), &paths(&["/o"])), 3);
}

#[test]
fn a_folder_that_holds_a_root_is_no_duplicate() {
    let groups = vec![group("x", 5, &["/o/1", "/p/1"], true)];
    let search = |all: &[&str], roots: &[&str]| find_duplicate_folders(&paths(all), &Vec::new(), &groups, &paths(roots));
    assert!(search(&["/o/1", "/p/1", "/o/root/z"], &["/o/root"]).is_empty());
    assert!(search(&["/o/1", "/p/1", "/o/root/z"], &[]).is_empty());
    assert_eq!(shown(&search(&["/o/1", "/p/1"], &["/o/root"])[0].paths), vec!["/o", "/p"]);
}

#[test]
fn equal_folders_inside_one_kept_folder_are_not_reported() {
    let all = ["/r/a/s/x", "/r/a/t/x", "/r/b/s/x", "/r/b/t/x"];
    let groups = [group("x", 5, &all, true)];
    assert_eq!(folders(&all, &[], &groups), vec![(vec!["/r/a".to_string(), "/r/b".to_string()], 2, 10, true)]);
}

#[test]
fn a_group_stands_out_from_the_folders_around_it() {
    let all = ["/r/a/s/x", "/r/a/t/x", "/r/b/s/x", "/r/b/t/x", "/r/c/s/x", "/r/c/y"];
    let groups = [group("x", 5, &all[..5], true)];
    let found: Vec<Vec<String>> = folders(&all, &[], &groups).into_iter().map(|f| f.0).collect();
    let named = |list: &[&str]| -> Vec<String> { list.iter().map(|s| s.to_string()).collect() };
    assert_eq!(found.len(), 2);
    assert!(found.contains(&named(&["/r/a", "/r/b"])));
    assert!(found.contains(&named(&["/r/a/s", "/r/a/t", "/r/c/s"])));
}

#[test]
fn a_copy_elsewhere_is_found_beside_copies_inside_reported_folders() {
    let all = ["/r/a/s/1", "/r/b/s/1", "/r/c/s/1", "/r/a/2", "/r/b/2", "/r/c/3"];
    let groups = [
        group("x", 5, &["/r/a/s/1", "/r/b/s/1", "/r/c/s/1"], true),
        group("y", 7, &["/r/a/2", "/r/b/2"], true),
    ];
    let found: Vec<Vec<String>> = folders(&all, &[], &groups).into_iter().map(|f| f.0).collect();
    assert_eq!(found.len(), 2);
    assert!(found.contains(&vec!["/r/a".to_string(), "/r/b".to_string()]));
    assert!(found.contains(&vec!["/r/a/s".to_string(), "/r/c/s".to_string()]));
}

#[test]
fn names_that_show_alike_are_told_apart() {
    let odd = |dir: &str, byte: u8| {
        let mut parts = path(dir).parts;
        parts.push(PathPart::named(vec![byte]));
        FilePath::new(format!("{}/\u{fffd}", dir), parts)
    };
    let files = |second: u8| vec![odd("/r/a", 0xff), odd("/r/b", second)];
    let search = |second: u8| {
        let groups = vec![DuplicateGroup { file_hash: "x".to_string(), size: 5, paths: files(second), confirmed: true }];
        find_duplicate_folders(&files(second), &Vec::new(), &groups, &paths(&["/r"])).len()
    };
    assert_eq!(search(0xff), 1);
    assert_eq!(search(0xfe), 0);
}

#[test]
fn folders_with_one_signature_are_reported_outermost_first() {
    let info = |sig: Option<&str>, confirmed, size| FolderInfo {
        signature: sig.map(|s| s.to_string()),
        confirmed,
        size,
        count: 2,
    };
    let dirs = paths(&["/r/b", "/r/a", "/r/a/in", "/r/b/in", "/r/c", "/r", "/r/d/e"]);
    let infos = vec![
        info(Some("outer"), true, 9),
        info(Some("outer"), false, 9),
        info(Some("inner"), true, 4),
        info(Some("inner"), true, 4),
        info(Some("other"), true, 70),
        info(None, true, 0),
        info(Some("other"), true, 70),
    ];
    let found = report_folders(&dirs, &infos, &paths(&["/r"]));
    let shown_groups: Vec<(Vec<&str>, u64, bool)> =
        found.iter().map(|g| (shown(&g.paths), g.size, g.confirmed)).collect();
    assert_eq!(
        shown_groups,
        vec![(vec!["/r/c", "/r/d/e"], 70, true), (vec!["/r/a", "/r/b"], 9, false)]
    );
}

#[test]
fn folders_that_hold_files_are_counted() {
    assert_eq!(count_folders(&paths(&["/r/a/x/1", "/r/b/1"]), &paths(&["/r/c/2"]), &paths(&["/r"])), 5);
    assert_eq!(count_folders(&paths(&["/r/1"]), &Vec::new(), &paths(&["/r"])), 1);
    let mut scan = Scan::begin(&root(), 0, None);
    walk(&mut scan, &small_disk(), false);
    assert_eq!(scan.folder_total(&paths(&["/r"])), 3);
}

#[test]
fn the_folders_that_take_up_most_come_first() {
    let all = ["/r/a/1", "/r/b/1", "/r/c/2", "/r/d/2"];
    let groups = [group("x", 5, &["/r/a/1", "/r/b/1"], true), group("y", 50, &["/r/c/2", "/r/d/2"], true)];
    let found = folders(&all, &[], &groups);
    assert_eq!(found[0].0, vec!["/r/c".to_string(), "/r/d".to_string()]);
    assert_eq!(found[1].0, vec!["/r/a".to_string(), "/r/b".to_string()]);
}

// ------------------------------------------------------------------ whole scans

/// A disk of many files: the same few contents over and over.
fn mixed_disk() -> Disk {
    let contents = ["alpha", "beta", "gamma", "delta", "epsilon"];
    (0..400usize)
        .map(|i| {
            let content = contents[(i * i + i / 7) % contents.len()];
            (format!("/r/{}/{}", i % 13, i), content.len() as u64, &content[..1], content)
        })
        .collect()
}

#[test]
fn files_are_grouped_by_content_and_by_nothing_else() {
    let disk = mixed_disk();
    let (result, _) = scan_all(&disk, 0, Cancel::Never, None);
    for (i, a) in disk.iter().enumerate() {
        for b in &disk[i + 1..] {
            let together = result.groups.iter().any(|g| {
                let names = shown(&g.paths);
                names.contains(&a.0.as_str()) && names.contains(&b.0.as_str())
            });
            assert_eq!(together, a.3 == b.3, "{} {}", a.0, b.0);
        }
    }
}

#[test]
fn every_file_is_in_one_group_at_most() {
    let disk = mixed_disk();
    let (result, _) = scan_all(&disk, 0, Cancel::Never, None);
    let mut names: Vec<&str> = result.groups.iter().flat_map(|g| shown(&g.paths)).collect();
    let count = names.len();
    names.sort();
    names.dedup();
    assert_eq!(names.len(), count);
}
