use file_sorter::groups::{keep_folders_of_size, keep_groups_of_size, rank_folders, DuplicateGroup, FolderGroup};
use file_sorter::history::{
    count_redundant, drop_oldest_runs, find_listed, import_history, invalid_request, latest_run, no_detail_message, not_negative, past_run_header,
    print_history, read_resume_request, record_run, resolve_resume_run_id, run_status, window_line,
    ResumeRequest, RunRecord,
};
use file_sorter::manifest::{
    after_find, after_load, after_manifest, all_equal, dir_key_for, find_reusable_run, keeps_manifest,
    save_scan_manifest, scan_or_reuse, FileStamp, Manifest, ManifestRow, ManifestWalk, ReuseStep, TimePair,
};
use file_sorter::paths::{FilePath, PartKind, PathPart};
use file_sorter::results::{load_run_groups, save_run_groups, GroupPathRow, GroupRow};
use file_sorter::scan::ScanResult;
use file_sorter::summary::{check_resumed_directory, choose_run, past_summary, run_scan, ScanHandle, ScanOutcome};

fn texts(list: &[&str]) -> Vec<String> {
    list.iter().map(|s| s.to_string()).collect()
}

fn path(s: &str) -> FilePath {
    let mut parts = vec![PathPart { kind: PartKind::RootDir, name: Vec::new() }];
    for name in s.split('/').filter(|n| !n.is_empty()) {
        parts.push(PathPart::named(name.as_bytes().to_vec()));
    }
    FilePath::new(s.to_string(), parts)
}

fn paths(list: &[&str]) -> Vec<FilePath> {
    list.iter().map(|s| path(s)).collect()
}

fn shown(list: &[FilePath]) -> Vec<&str> {
    list.iter().map(|p| p.text.as_str()).collect()
}

fn group(hash: &str, size: u64, list: &[&str]) -> DuplicateGroup {
    DuplicateGroup { file_hash: hash.to_string(), size, paths: paths(list), confirmed: true }
}

fn folder(size: u64, list: &[&str], confirmed: bool) -> FolderGroup {
    FolderGroup { paths: paths(list), file_count: 3, size, confirmed }
}

fn result(groups: Vec<DuplicateGroup>, folder_groups: Vec<FolderGroup>, cancelled: bool) -> ScanResult {
    ScanResult { groups, skipped: paths(&["/s"]), cancelled, resume_state: None, folder_groups, reused_run_id: None }
}

// ------------------------------------------------------------------ saved groups

#[test]
fn saved_groups_read_back() {
    let groups = vec![group("x", u64::MAX, &["/a", "/b"]), group("y", 3, &["/c", "/d", "/e"])];
    let folders = vec![folder(9, &["/f", "/g"], false)];
    let rows = save_run_groups(&groups, &folders);
    assert_eq!(rows.groups.len(), 3);
    assert_eq!(rows.groups[0].kind, "file");
    assert_eq!(rows.groups[0].size, -1);
    assert_eq!(rows.groups[0].file_hash, Some("x".to_string()));
    assert_eq!(rows.groups[0].file_count, None);
    assert_eq!(rows.groups[2].kind, "folder");
    assert_eq!(rows.groups[2].file_hash, None);
    assert_eq!(rows.groups[2].file_count, Some(3));
    assert_eq!(rows.paths.len(), 7);
    assert_eq!(rows.paths[4].seq, 2);
    let (back, back_folders) = load_run_groups(&rows.groups, &rows.paths).unwrap();
    assert_eq!(back.len(), 2);
    assert_eq!(back[0].size, u64::MAX);
    assert_eq!(back[1].file_hash, "y");
    assert_eq!(shown(&back[1].paths), vec!["/c", "/d", "/e"]);
    assert!(back[1].confirmed);
    assert_eq!(back_folders.len(), 1);
    assert_eq!(back_folders[0].file_count, 3);
    assert!(!back_folders[0].confirmed);
    assert_eq!(shown(&back_folders[0].paths), vec!["/f", "/g"]);
}

#[test]
fn a_run_without_groups_has_nothing_to_read() {
    let rows = save_run_groups(&Vec::new(), &Vec::new());
    assert!(load_run_groups(&rows.groups, &rows.paths).is_none());
    let stray = vec![GroupPathRow { idx: 0, kind: "file".to_string(), seq: 0, path: path("/a") }];
    assert!(load_run_groups(&Vec::new(), &stray).is_none());
}

#[test]
fn missing_values_read_as_nothing() {
    let row = |kind: &str, file_count| GroupRow {
        idx: 4,
        kind: kind.to_string(),
        file_hash: None,
        file_count,
        size: 1,
        confirmed: false,
    };
    let path_rows = vec![
        GroupPathRow { idx: 4, kind: "folder".to_string(), seq: 0, path: path("/f") },
        GroupPathRow { idx: 5, kind: "file".to_string(), seq: 0, path: path("/other") },
    ];
    let (files, folders) = load_run_groups(&vec![row("file", None), row("folder", None)], &path_rows).unwrap();
    assert_eq!(files[0].file_hash, "");
    assert!(files[0].paths.is_empty());
    assert_eq!(folders[0].file_count, 0);
    assert_eq!(shown(&folders[0].paths), vec!["/f"]);
}

#[test]
fn small_groups_are_left_out() {
    let groups = vec![group("x", 5, &["/a", "/b"]), group("y", 4, &["/c", "/d"])];
    let kept = keep_groups_of_size(&groups, 5);
    assert_eq!(kept.len(), 1);
    assert_eq!(kept[0].file_hash, "x");
    assert_eq!(keep_groups_of_size(&groups, 0).len(), 2);
    let folders = vec![folder(9, &["/f", "/g"], true), folder(1, &["/h", "/i"], true)];
    assert_eq!(keep_folders_of_size(&folders, 2).len(), 1);
    assert_eq!(rank_folders(&folders)[0].size, 9);
}

// --------------------------------------------------------------------- manifests

fn stamp(path: &str, size: u64, mtime: u64) -> FileStamp {
    FileStamp { path: path.to_string(), size, mtime }
}

fn manifest(stamps: Vec<FileStamp>) -> Manifest {
    let mut walk = ManifestWalk::quick_scan_manifest();
    for s in stamps {
        assert!(walk.event(false, Some(s)));
    }
    assert!(walk.event(false, None));
    walk.finish().unwrap()
}

#[test]
fn an_unchanged_tree_is_recognised() {
    let m = manifest(vec![stamp("/a", 1, 10), stamp("/b", u64::MAX, 20)]);
    assert_eq!(m.len(), 2);
    let rows = save_scan_manifest(&m);
    assert_eq!(rows[1].size, -1);
    let pairs = find_reusable_run(&rows, &m).unwrap();
    assert_eq!(pairs, vec![TimePair { current: 10, saved: 10 }, TimePair { current: 20, saved: 20 }]);
}

#[test]
fn a_changed_tree_is_not() {
    let rows = save_scan_manifest(&manifest(vec![stamp("/a", 1, 10), stamp("/b", 2, 20)]));
    assert!(find_reusable_run(&rows, &manifest(vec![stamp("/a", 1, 10)])).is_none());
    assert!(find_reusable_run(&rows, &manifest(vec![stamp("/a", 1, 10), stamp("/b", 3, 20)])).is_none());
    assert!(find_reusable_run(&rows, &manifest(vec![stamp("/a", 1, 10), stamp("/c", 2, 20)])).is_none());
    let touched = find_reusable_run(&rows, &manifest(vec![stamp("/a", 1, 11), stamp("/b", 2, 20)])).unwrap();
    assert_eq!(touched[0], TimePair { current: 11, saved: 10 });
    let none: Vec<ManifestRow> = Vec::new();
    assert_eq!(find_reusable_run(&none, &manifest(Vec::new())), Some(Vec::new()));
}

#[test]
fn a_file_found_twice_is_noted_once() {
    let m = manifest(vec![stamp("/a", 1, 10), stamp("/a", 2, 20)]);
    assert_eq!(m.len(), 1);
    assert_eq!(save_scan_manifest(&m)[0].mtime, 20);
}

#[test]
fn a_cancelled_walk_has_no_manifest() {
    let mut walk = ManifestWalk::quick_scan_manifest();
    assert!(walk.event(false, Some(stamp("/a", 1, 1))));
    assert!(!walk.event(true, Some(stamp("/b", 1, 1))));
    assert!(walk.finish().is_none());
}

#[test]
fn directories_have_one_key_in_any_order() {
    assert_eq!(dir_key_for(&texts(&["/b", "/a \"x\""])), "[\"/a \\\"x\\\"\",\"/b\"]");
    assert_eq!(dir_key_for(&texts(&["/b", "/a"])), dir_key_for(&texts(&["/a", "/b"])));
}

#[test]
fn a_fresh_scan_looks_for_a_run_to_reuse() {
    assert!(matches!(scan_or_reuse(true), ReuseStep::Scan));
    assert!(matches!(scan_or_reuse(false), ReuseStep::CollectManifest));
    match after_manifest(false) {
        ReuseStep::Finish(r) => assert!(r.cancelled && r.groups.is_empty() && r.resume_state.is_none()),
        _ => panic!(),
    }
    assert!(matches!(after_manifest(true), ReuseStep::FindRun));
    assert!(matches!(after_find(None), ReuseStep::Scan));
    assert!(matches!(after_find(Some("7".to_string())), ReuseStep::LoadRun(id) if id == "7"));
    assert!(matches!(after_load("7".to_string(), None, None), ReuseStep::Scan));
    assert!(matches!(after_load("7".to_string(), Some(2), None), ReuseStep::Scan));
    match after_load("7".to_string(), Some(0), None) {
        ReuseStep::Finish(r) => {
            assert_eq!(r.reused_run_id, Some("7".to_string()));
            assert!(!r.cancelled && r.groups.is_empty() && r.folder_groups.is_empty());
        }
        _ => panic!(),
    }
    match after_load("7".to_string(), Some(1), Some((vec![group("x", 1, &["/a", "/b"])], Vec::new()))) {
        ReuseStep::Finish(r) => {
            assert_eq!(r.reused_run_id, Some("7".to_string()));
            assert!(!r.cancelled);
            assert_eq!(r.groups.len(), 1);
        }
        _ => panic!(),
    }
    assert!(keeps_manifest(true, false));
    assert!(!keeps_manifest(true, true) && !keeps_manifest(false, false));
    assert!(all_equal(&vec![true, true]) && all_equal(&Vec::new()) && !all_equal(&vec![true, false]));
}

// ----------------------------------------------------------------------- history

#[test]
fn an_unchanged_scan_is_replayed_with_its_own_groups() {
    for found in [vec![], vec![group("x", 3, &["/a", "/b"]), group("y", 4, &["/c", "/d", "/e"])]] {
        let m = manifest(vec![stamp("/a", 3, 10), stamp("/b", 3, 20)]);
        let times = find_reusable_run(&save_scan_manifest(&m), &m).unwrap();
        let equal: Vec<bool> = times.iter().map(|t| t.current == t.saved).collect();
        assert!(all_equal(&equal));
        let rows = save_run_groups(&found, &Vec::new());
        let recorded = Some(found.len() as i64);
        match after_load("7".to_string(), recorded, load_run_groups(&rows.groups, &rows.paths)) {
            ReuseStep::Finish(r) => {
                assert_eq!(r.reused_run_id, Some("7".to_string()));
                assert_eq!(r.groups.len(), found.len());
                for (a, b) in r.groups.iter().zip(&found) {
                    assert_eq!((&a.file_hash, a.size, shown(&a.paths)), (&b.file_hash, b.size, shown(&b.paths)));
                }
            }
            other => panic!("{:?}", other),
        }
    }
}

fn record(timestamp: &str, dirs: &[&str], cancelled: bool) -> RunRecord {
    RunRecord {
        timestamp: timestamp.to_string(),
        when: format!("day {}", timestamp),
        directories: texts(dirs),
        groups: 2,
        reclaimable_bytes: 2048,
        skipped: 1,
        cancelled,
        duration_seconds: "0.5".to_string(),
    }
}

#[test]
fn a_run_is_recorded_with_what_could_be_reclaimed() {
    let groups = vec![group("x", 100, &["/a", "/b", "/c"]), group("y", 7, &["/d", "/e"])];
    assert_eq!(count_redundant(&groups), 207);
    let r = record_run(&texts(&["/r"]), &result(groups, Vec::new(), true), "12.5".to_string(), "now".to_string(), "3.0".to_string());
    assert_eq!(r.timestamp, "12.5");
    assert_eq!(r.when, "now");
    assert_eq!(r.directories, texts(&["/r"]));
    assert_eq!((r.groups, r.reclaimable_bytes, r.skipped, r.cancelled), (2, 207, 1, true));
    assert_eq!(r.duration_seconds, "3.0");
}

#[test]
fn old_runs_make_room() {
    let runs = |n: usize| -> Vec<String> { (0..n).map(|i| i.to_string()).collect() };
    let owners = vec![
        ("[\"/a\"]".to_string(), "0".to_string()),
        ("[\"/b\"]".to_string(), "5".to_string()),
        ("[\"/c\"]".to_string(), "1".to_string()),
    ];
    let all_fit = drop_oldest_runs(&runs(200), &owners);
    assert!(all_fit.runs.is_empty() && all_fit.stamps.is_empty());
    let dropped = drop_oldest_runs(&runs(202), &owners);
    assert_eq!(dropped.runs, vec!["0", "1"]);
    assert_eq!(dropped.stamps, vec!["[\"/a\"]", "[\"/c\"]"]);
    assert_eq!(not_negative(-3), 0);
    assert_eq!(not_negative(3), 3);
}

#[test]
fn known_runs_are_not_imported_again() {
    let existing = vec![record("1", &["/a"], false)];
    let incoming = vec![record("1", &["/a"], false), record("2", &["/a"], false), record("2", &["/a"], true), record("1", &["/b"], false)];
    let new = import_history(&existing, &incoming);
    let keys: Vec<(&str, &str)> = new.iter().map(|r| (r.timestamp.as_str(), r.directories[0].as_str())).collect();
    assert_eq!(keys, vec![("2", "/a"), ("1", "/b")]);
    assert!(!new[0].cancelled);
    assert!(import_history(&new, &new).is_empty());
}

#[test]
fn the_newest_run_is_listed_first() {
    assert_eq!(print_history(&Vec::new(), &Vec::new()), texts(&["No run history yet."]));
    let records = vec![record("1", &["/a", "/b"], true), record("2", &["/c"], false)];
    assert_eq!(
        print_history(&records, &texts(&["1"])),
        texts(&[
            "#1  day 2  [done]  /c",
            "    2 duplicate group(s), 2.0KB reclaimable, 1 skipped, 0.5s",
            "#2  day 1  [cancelled, resumable]  /a, /b",
            "    2 duplicate group(s), 2.0KB reclaimable, 1 skipped, 0.5s",
        ])
    );
    assert_eq!(run_status(&records[0], &Vec::new()), "cancelled");
    assert_eq!(window_line(&records[1]), "2 duplicate group(s) -- 2.0KB reclaimable -- 1 skipped -- 0.5s");
}

#[test]
fn a_run_to_resume_is_looked_up() {
    assert!(matches!(read_resume_request("LAST"), ResumeRequest::Latest));
    assert!(matches!(read_resume_request("3"), ResumeRequest::Listed(3)));
    match read_resume_request("a\"b") {
        ResumeRequest::Invalid(s) => {
            assert_eq!(s, "--resume expects the # index shown by --history, got \"a\\\"b\"");
        }
        _ => panic!(),
    }
    assert!(matches!(
        invalid_request("'x'"),
        ResumeRequest::Invalid(s) if s == "--resume expects the # index shown by --history, got 'x'"
    ));
    assert_eq!(latest_run(Some("9".to_string())), Ok("9".to_string()));
    assert_eq!(latest_run(None), Err("No stopped run to resume.".to_string()));
    let records = vec![record("1", &["/a"], true), record("2", &["/c"], false), record("3", &["/c"], true)];
    let resumable = texts(&["1", "2"]);
    assert_eq!(resolve_resume_run_id(&records, &resumable, 3), Ok("1".to_string()));
    assert_eq!(resolve_resume_run_id(&records, &resumable, 2), Err("Run #2 has no saved progress to resume.".to_string()));
    assert_eq!(resolve_resume_run_id(&records, &resumable, 1), Err("Run #1 has no saved progress to resume.".to_string()));
    for index in [0, 4] {
        assert_eq!(
            resolve_resume_run_id(&records, &resumable, index),
            Err(format!("No run #{} in history -- run --history to see valid indexes.", index))
        );
    }
}

#[test]
fn what_is_listed_as_resumable_can_be_resumed() {
    let records = vec![record("1", &["/a"], true), record("2", &["/b"], true), record("3", &["/c"], false)];
    let resumable = texts(&["2", "3"]);
    for index in 1..=3 {
        let listed = find_listed(&records, index).unwrap();
        let says_so = run_status(&listed, &resumable) == "cancelled, resumable";
        assert_eq!(resolve_resume_run_id(&records, &resumable, index).is_ok(), says_so);
    }
}

#[test]
fn a_past_run_has_a_header() {
    let records = vec![record("1", &["/a", "/b"], true)];
    let found = find_listed(&records, 1).unwrap();
    assert_eq!(past_run_header(1, &found), "Run #1 -- day 1 -- /a, /b");
    assert!(find_listed(&records, 2).is_err());
    assert_eq!(no_detail_message(4), "Run #4 has no saved detailed results to show (only its summary is kept).");
}

// --------------------------------------------------------------------- summaries

#[test]
fn a_scan_is_summed_up() {
    let r = result(vec![group("x", 5, &["/a", "/b"]), group("y", 4, &["/c", "/d"])], vec![folder(3, &["/f", "/g"], true)], true);
    let s = run_scan("7".to_string(), paths(&["/r"]), &r, &record("7", &["/r"], true), 5);
    assert_eq!(s.run_id, "7");
    assert_eq!(s.groups.len(), 1);
    assert!(s.folder_groups.is_empty());
    assert_eq!((s.skipped, s.cancelled, s.resumable, s.reused), (1, true, false, false));
    assert_eq!(s.reclaimable_bytes, 5);
    assert_eq!(s.duration_seconds, "0.5");
    let all = run_scan("7".to_string(), paths(&["/r"]), &r, &record("7", &["/r"], true), 0);
    assert_eq!((all.groups.len(), all.folder_groups.len(), all.reclaimable_bytes), (2, 1, 9));
}

#[test]
fn a_past_run_is_summed_up() {
    let mut rec = record("7", &["/r"], true);
    rec.skipped = -1;
    rec.reclaimable_bytes = -5;
    let s = past_summary(&rec, paths(&["/r"]), vec![group("x", 5, &["/a", "/b"])], Vec::new(), true);
    assert_eq!((s.skipped, s.reclaimable_bytes), (0, 0));
    assert!(s.resumable && s.cancelled && !s.reused);
    assert_eq!(s.run_id, "7");
}

#[test]
fn a_resumed_run_keeps_its_id_and_its_directories() {
    let id = |s: &str| s.to_string();
    assert_eq!(choose_run(None, None, texts(&["/a"]), id("9")), Ok((id("9"), texts(&["/a"]))));
    assert_eq!(
        choose_run(Some(id("3")), Some(texts(&["/b"])), texts(&["/a"]), id("9")),
        Ok((id("3"), texts(&["/b"])))
    );
    assert_eq!(choose_run(Some(id("3")), None, texts(&["/a"]), id("9")), Err(id("No stopped run to resume.")));
}

#[test]
fn a_resumed_directory_must_still_be_one() {
    assert_eq!(check_resumed_directory(&path("/r"), true), Ok(()));
    assert_eq!(
        check_resumed_directory(&path("/r"), false),
        Err("Cannot resume -- /r is no longer a directory".to_string())
    );
}

#[test]
fn a_scan_handle_gives_its_outcome_once() {
    let mut h = ScanHandle::started();
    assert!(!h.is_done() && h.take().is_none() && !h.cancel);
    h.request_cancel();
    assert!(h.cancel);
    h.complete(ScanOutcome::Failed("no".to_string()));
    assert!(h.is_done());
    assert!(matches!(h.take(), Some(ScanOutcome::Failed(e)) if e == "no"));
    assert!(h.take().is_none() && h.is_done());
}
