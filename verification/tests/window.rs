use file_sorter::actions::{ActionKind, ActionReport};
use file_sorter::groups::{DuplicateGroup, FolderGroup};
use file_sorter::history::RunRecord;
use file_sorter::paths::{FilePath, PartKind, PathPart};
use file_sorter::picks::{file_bytes, folder_bytes, PickSet};
use file_sorter::session::{
    read_threads, resolve_typed, App, Effect, Message, PendingAction, Phase, ResultsView, Sizes, Tab,
};
use file_sorter::summary::{ScanOutcome, ScanSummary};

fn path(s: &str) -> FilePath {
    let mut parts = vec![PathPart { kind: PartKind::RootDir, name: Vec::new() }];
    for name in s.split('/').filter(|n| !n.is_empty()) {
        parts.push(PathPart::named(name.as_bytes().to_vec()));
    }
    FilePath::new(s.to_string(), parts)
}

fn paths(list: &[&str]) -> Vec<FilePath> {
    list.iter().map(|s| path(s)).collect()
}

fn group(size: u64, list: &[&str], confirmed: bool) -> DuplicateGroup {
    DuplicateGroup { file_hash: "h".to_string(), size, paths: paths(list), confirmed }
}

fn folder(size: u64, list: &[&str], confirmed: bool) -> FolderGroup {
    FolderGroup { paths: paths(list), file_count: 1, size, confirmed }
}

fn sizes() -> Sizes {
    Sizes { min_size: 7, large_threshold: 70 }
}

fn send(app: &mut App, message: Message) -> Effect {
    app.update(message, sizes())
}

fn quiet(app: &mut App, message: Message) {
    assert!(matches!(send(app, message), Effect::Nothing));
}

fn summary() -> ScanSummary {
    ScanSummary {
        run_id: "1".to_string(),
        directories: paths(&["/r"]),
        groups: vec![group(10, &["/r/a", "/r/b", "/r/e/1"], true), group(5, &["/r/c", "/r/d"], false)],
        folder_groups: vec![folder(20, &["/r/f", "/r/e"], true), folder(30, &["/r/g", "/r/h"], false)],
        skipped: 0,
        cancelled: false,
        resumable: false,
        reused: false,
        duration_seconds: "1.0".to_string(),
        reclaimable_bytes: 25,
    }
}

fn reviewing() -> App {
    let mut app = App::default();
    app.apply_scan_summary(summary());
    app
}

fn record(timestamp: &str) -> RunRecord {
    RunRecord {
        timestamp: timestamp.to_string(),
        when: "then".to_string(),
        directories: vec!["/r".to_string()],
        groups: 1,
        reclaimable_bytes: 10,
        skipped: 2,
        cancelled: true,
        duration_seconds: "1.0".to_string(),
    }
}

// ------------------------------------------------------------------------- picks

#[test]
fn picks_are_a_set() {
    let mut p = PickSet::new();
    p.insert(0, 1);
    p.insert(0, 1);
    p.insert(2, 3);
    assert_eq!(p.len(), 2);
    assert!(p.contains(0, 1) && !p.contains(1, 0));
    assert_eq!((p.count_in(0), p.count_in(1)), (1, 0));
    p.remove(0, 1);
    p.remove(9, 9);
    assert_eq!(p.len(), 1);
    p.clear();
    assert_eq!(p.len(), 0);
}

#[test]
fn first_copies_are_not_picked() {
    let s = summary();
    let mut files = PickSet::new();
    files.pick_files(&s.groups);
    assert_eq!(files.len(), 3);
    assert!(!files.contains(0, 0) && files.contains(0, 2) && files.contains(1, 1));
    assert_eq!(file_bytes(&files, &s.groups), 25);
    let mut folders = PickSet::new();
    folders.pick_folders(&s.folder_groups);
    assert_eq!(folders.len(), 1);
    assert!(folders.contains(0, 1) && !folders.contains(1, 1));
    assert_eq!(folder_bytes(&folders, &s.folder_groups), 20);
}

// ------------------------------------------------------------------ configuration

#[test]
fn the_window_opens_with_defaults() {
    let app = App::default();
    assert_eq!((app.tab, app.phase, app.results_view), (Tab::Scan, Phase::Idle, ResultsView::Files));
    assert_eq!((app.min_size_mb.as_str(), app.threads.as_str(), app.large_threshold_mb.as_str()), ("0", "0", "500"));
    assert!(app.use_default_excludes && app.exclude_temp_files && !app.dry_run);
    assert!(app.directories.is_empty() && !app.is_waiting());
}

#[test]
fn directories_are_added_once() {
    let mut app = App::default();
    quiet(&mut app, Message::DirectoryPicked(Some(path("/r"))));
    quiet(&mut app, Message::DirectoryPicked(Some(path("/r"))));
    quiet(&mut app, Message::DirectoryPicked(None));
    quiet(&mut app, Message::DirectoryPicked(Some(path("/s"))));
    assert_eq!(app.directories.len(), 2);
    quiet(&mut app, Message::RemoveDirectory(5));
    quiet(&mut app, Message::RemoveDirectory(0));
    assert_eq!(app.directories[0].text, "/s");
    assert!(matches!(send(&mut app, Message::PickDirectory), Effect::PickDirectory));
}

#[test]
fn a_typed_directory_is_trimmed() {
    let mut app = App::default();
    quiet(&mut app, Message::DirInputChanged("  /r x \t".to_string()));
    assert!(matches!(send(&mut app, Message::AddTypedDirectory), Effect::ResolveDirectory(p) if p == "/r x"));
    assert_eq!(app.dir_input, "");
    quiet(&mut app, Message::DirInputChanged("   ".to_string()));
    quiet(&mut app, Message::AddTypedDirectory);
    assert_eq!(app.dir_input, "");
}

#[test]
fn typed_texts_are_read() {
    assert!(matches!(resolve_typed("/r"), Effect::ResolveDirectory(p) if p == "/r"));
    assert!(matches!(resolve_typed(""), Effect::Nothing));
    assert_eq!((read_threads("8"), read_threads(""), read_threads("x")), (8, 0, 0));
    let mut app = App::default();
    app.add_exclude("Build");
    app.add_exclude("bUILD");
    app.add_exclude("");
    assert_eq!(app.excludes, vec!["Build".to_string()]);
}

#[test]
fn number_fields_take_numbers_only() {
    let mut app = App::default();
    quiet(&mut app, Message::MinSizeChanged("1.5".to_string()));
    quiet(&mut app, Message::MinSizeChanged("1,5".to_string()));
    assert_eq!(app.min_size_mb, "1.5");
    quiet(&mut app, Message::ThreadsChanged("4".to_string()));
    quiet(&mut app, Message::ThreadsChanged("4.".to_string()));
    assert_eq!(app.threads, "4");
    quiet(&mut app, Message::LargeThresholdChanged("".to_string()));
    assert_eq!(app.large_threshold_mb, "");
    quiet(&mut app, Message::LargeThresholdChanged("9a".to_string()));
    assert_eq!(app.large_threshold_mb, "");
}

#[test]
fn excludes_are_added_once_whatever_their_case() {
    let mut app = App::default();
    for name in [" Build ", "BUILD", "", "dist"] {
        quiet(&mut app, Message::ExcludeInputChanged(name.to_string()));
        quiet(&mut app, Message::AddExclude);
        assert_eq!(app.exclude_input, "");
    }
    assert_eq!(app.excludes, vec!["Build".to_string(), "dist".to_string()]);
    quiet(&mut app, Message::RemoveExclude(0));
    quiet(&mut app, Message::RemoveExclude(7));
    assert_eq!(app.excludes, vec!["dist".to_string()]);
}

#[test]
fn switches_are_switched() {
    let mut app = App::default();
    quiet(&mut app, Message::ToggleDefaultExcludes(false));
    quiet(&mut app, Message::ToggleExcludeTempFiles(false));
    quiet(&mut app, Message::ToggleDryRun(true));
    quiet(&mut app, Message::ToggleFileType("audio".to_string(), true));
    quiet(&mut app, Message::ToggleFileType("audio".to_string(), true));
    quiet(&mut app, Message::ToggleFileType("video".to_string(), true));
    quiet(&mut app, Message::ToggleFileType("audio".to_string(), false));
    quiet(&mut app, Message::ResultsViewChanged(ResultsView::Folders));
    assert!(!app.use_default_excludes && !app.exclude_temp_files && app.dry_run);
    assert_eq!(app.file_type_filter, vec!["video".to_string()]);
    assert_eq!(app.results_view, ResultsView::Folders);
}

// ------------------------------------------------------------------------- scans

#[test]
fn a_scan_needs_a_directory() {
    let mut app = App::default();
    quiet(&mut app, Message::StartScan);
    assert_eq!(app.error, Some("Add at least one directory to scan first.".to_string()));
    assert_eq!(app.phase, Phase::Idle);
    quiet(&mut app, Message::DismissError);
    assert!(app.error.is_none());
    quiet(&mut app, Message::ResumeScan);
    assert_eq!(app.phase, Phase::Idle);
}

#[test]
fn a_scan_takes_the_options_along() {
    let mut app = App::default();
    app.add_directory(path("/r"));
    quiet(&mut app, Message::ThreadsChanged("3".to_string()));
    quiet(&mut app, Message::ExcludeInputChanged("BUILD".to_string()));
    quiet(&mut app, Message::AddExclude);
    match send(&mut app, Message::StartScan) {
        Effect::StartScan(r) => {
            assert_eq!(r.directories[0].text, "/r");
            assert_eq!((r.min_size, r.options.large_file_threshold, r.options.workers), (7, 70, 3));
            assert_eq!(r.options.exclude_dirs.len(), 14);
            assert_eq!(r.options.exclude_dirs[13], "build");
            assert!(!r.options.show_progress && r.options.file_types.is_none());
            assert!(r.resume_run_id.is_none());
        }
        other => panic!("{:?}", other),
    }
    assert_eq!(app.phase, Phase::Scanning);
    assert!(app.is_waiting());
    assert!(matches!(send(&mut app, Message::CancelScan), Effect::CancelScan));
    assert!(app.scan_handle.as_ref().unwrap().cancel);
    quiet(&mut app, Message::Tick);
    app.scan_handle.as_mut().unwrap().complete(ScanOutcome::Scanned(summary()));
    assert!(matches!(send(&mut app, Message::Tick), Effect::RefreshHistory));
    assert_eq!((app.phase, app.tab), (Phase::Reviewing, Tab::Scan));
    assert_eq!(app.selected_totals(true), (3, 25));
    assert_eq!(app.selected_totals(false), (1, 20));
    assert!(app.scan_handle.is_none());
}

#[test]
fn a_failed_scan_shows_its_error() {
    let mut app = App::default();
    app.add_directory(path("/r"));
    send(&mut app, Message::StartScan);
    app.scan_handle.as_mut().unwrap().complete(ScanOutcome::Failed("no luck".to_string()));
    send(&mut app, Message::Tick);
    assert_eq!(app.error, Some("no luck".to_string()));
    assert_eq!(app.phase, Phase::Idle);
}

#[test]
fn a_stopped_run_is_resumed() {
    let mut app = App::default();
    app.refresh_history(Ok(vec![record("1"), record("2")]), vec!["2".to_string()], Some("2".to_string()));
    assert_eq!(app.history[0].timestamp, "2");
    match send(&mut app, Message::ResumeScan) {
        Effect::StartScan(r) => {
            assert_eq!(r.resume_run_id, Some("2".to_string()));
            assert!(r.directories.is_empty());
        }
        other => panic!("{:?}", other),
    }
}

// ------------------------------------------------------------------------ actions

fn action_paths(effect: Effect) -> Vec<String> {
    match effect {
        Effect::StartAction(items, _, _) => items.iter().map(|i| i.path.text.clone()).collect(),
        other => panic!("{:?}", other),
    }
}

#[test]
fn trashing_is_confirmed_first() {
    let mut app = reviewing();
    quiet(&mut app, Message::ConfirmAction);
    quiet(&mut app, Message::RequestTrash);
    assert_eq!(app.confirm, Some(PendingAction::Trash));
    quiet(&mut app, Message::CancelConfirm);
    quiet(&mut app, Message::ConfirmAction);
    assert_eq!(app.phase, Phase::Reviewing);
    quiet(&mut app, Message::RequestTrash);
    let effect = send(&mut app, Message::ConfirmAction);
    assert_eq!(action_paths(effect), vec!["/r/e", "/r/b", "/r/d"]);
    assert_eq!(app.phase, Phase::Acting);
    assert!(app.confirm.is_none());
}

#[test]
fn a_destination_is_picked_first() {
    let mut app = reviewing();
    assert!(matches!(send(&mut app, Message::RequestMoveTo), Effect::PickDestination));
    quiet(&mut app, Message::MoveDestPicked(None));
    match send(&mut app, Message::MoveDestPicked(Some(path("/dest")))) {
        Effect::StartAction(items, ActionKind::MoveTo(d), dry) => {
            assert_eq!(d.text, "/dest");
            assert!(!dry);
            assert!(items[0].is_folder && !items[0].needs_verify);
            assert!(items[2].needs_verify && !items[1].needs_verify);
            assert_eq!(items[2].reference.text, "/r/c");
        }
        other => panic!("{:?}", other),
    }
}

#[test]
fn nothing_picked_is_an_error() {
    let mut app = reviewing();
    quiet(&mut app, Message::SelectNoneFiles);
    quiet(&mut app, Message::SelectNoneFolders);
    quiet(&mut app, Message::MoveDestPicked(Some(path("/dest"))));
    assert_eq!(app.error, Some("Nothing selected to act on.".to_string()));
    assert_eq!(app.phase, Phase::Reviewing);
    assert!(app.collect_selected_items().is_empty());
}

#[test]
fn kept_copies_cannot_be_picked() {
    let mut app = reviewing();
    quiet(&mut app, Message::SelectNoneFiles);
    quiet(&mut app, Message::SelectNoneFolders);
    quiet(&mut app, Message::ToggleFileRemoved(0, 0, true));
    quiet(&mut app, Message::ToggleFolderRemoved(1, 1, true));
    assert!(app.collect_selected_items().is_empty());
    quiet(&mut app, Message::ToggleFileRemoved(0, 2, true));
    assert_eq!(app.collect_selected_items()[0].path.text, "/r/e/1");
    quiet(&mut app, Message::ToggleFileRemoved(0, 2, false));
    quiet(&mut app, Message::SelectAllFiles);
    quiet(&mut app, Message::SelectAllFolders);
    assert_eq!(app.collect_selected_items().len(), 3);
}

#[test]
fn of_each_group_a_copy_is_left() {
    let picked = |list: &[&str]| {
        let mut app = App::default();
        let mut s = summary();
        s.groups = vec![group(10, list, true)];
        app.apply_scan_summary(s);
        quiet(&mut app, Message::SelectAllFiles);
        quiet(&mut app, Message::SelectAllFolders);
        app.collect_selected_items().into_iter().map(|i| i.path.text).collect::<Vec<String>>()
    };
    assert_eq!(picked(&["/r/e/1", "/r/b"]), vec!["/r/e"]);
    assert_eq!(picked(&["/r/e/1", "/r/b", "/r/c"]), vec!["/r/e", "/r/c"]);
    assert_eq!(picked(&["/r/a", "/r/b", "/r/e/1"]), vec!["/r/e", "/r/b"]);
    assert_eq!(picked(&["/r/e/1", "/r/e/2"]), vec!["/r/e"]);
}

fn report(dry_run: bool, gone: &[&str]) -> ActionReport {
    ActionReport { moved_files: 0, moved_folders: 0, failures: Vec::new(), dry_run, dest: None, succeeded_paths: paths(gone) }
}

fn after_action(r: ActionReport) -> App {
    let mut app = reviewing();
    send(&mut app, Message::MoveDestPicked(Some(path("/dest"))));
    quiet(&mut app, Message::Tick);
    app.action_handle.as_mut().unwrap().complete(r);
    quiet(&mut app, Message::Tick);
    assert_eq!(app.phase, Phase::Reviewing);
    assert!(app.last_action_report.is_some() && app.action_handle.is_none());
    app
}

#[test]
fn what_is_gone_leaves_the_results() {
    let app = after_action(report(false, &["/r/d", "/r/b", "/r/e"]));
    let s = app.last_summary.as_ref().unwrap();
    assert_eq!(s.groups.len(), 1);
    assert_eq!(s.groups[0].paths.len(), 2);
    assert_eq!(s.folder_groups.len(), 1);
    assert!(!s.folder_groups[0].confirmed);
    assert_eq!(app.selected_totals(true), (1, 10));
}

#[test]
fn a_dry_run_leaves_the_results() {
    let app = after_action(report(true, &[]));
    assert_eq!(app.last_summary.as_ref().unwrap().groups.len(), 2);
}

// ------------------------------------------------------------------------ history

#[test]
fn the_history_is_loaded_with_its_tab() {
    let mut app = App::default();
    assert!(matches!(send(&mut app, Message::TabSelected(Tab::History)), Effect::RefreshHistory));
    app.refresh_history(Err("locked".to_string()), Vec::new(), None);
    assert_eq!(app.history_error, Some("locked".to_string()));
    app.refresh_history(Ok(Vec::new()), Vec::new(), None);
    assert!(app.history_error.is_none());
    quiet(&mut app, Message::TabSelected(Tab::Scan));
}

#[test]
fn a_past_run_is_shown_again() {
    let mut app = App::default();
    app.refresh_history(Ok(vec![record("1"), record("2")]), vec!["1".to_string()], None);
    quiet(&mut app, Message::LoadHistoryRun(2));
    assert!(matches!(send(&mut app, Message::LoadHistoryRun(1)), Effect::LoadRun(1, id) if id == "1"));
    app.load_history_run(1, paths(&["/r"]), Ok(Some((vec![group(1, &["/a", "/b"], true)], Vec::new()))));
    let s = app.last_summary.as_ref().unwrap();
    assert_eq!((s.run_id.as_str(), s.skipped, s.resumable, s.cancelled), ("1", 2, true, true));
    assert_eq!(app.directories[0].text, "/r");
    app.load_history_run(0, paths(&["/r"]), Ok(None));
    assert_eq!(app.error, Some("No saved detail for that run -- it may predate detail tracking.".to_string()));
    app.load_history_run(0, paths(&["/r"]), Err("broken".to_string()));
    assert_eq!(app.error, Some("broken".to_string()));
}
