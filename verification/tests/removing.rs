use file_sorter::actions::{
    dest_failed, move_path, report_headline, shown_failures, Action, ActionHandle, ActionItem, ActionKind, ActionReport,
    ActionRequest, MoveStep, Verified, Wording,
};
use file_sorter::command::{
    after_scan, changed_root_warning, check_directory, choose_command, expand_tilde, exported_text, imported_text,
    interrupt, refuse_type, scan_options, store_home, Arguments, Command, TildeForm,
};
use file_sorter::filetypes::default_excluded_dir_names;
use file_sorter::groups::{DuplicateGroup, FolderGroup};
use file_sorter::paths::{FilePath, PartKind, PathPart};
use file_sorter::removal::{
    abort_text, amounts_text, answer_agrees, close_removal, is_yes, mirrored_path, open_removal,
    plan_duplicates_to_remove, under_any, Opening, RemovalPlan,
};
use file_sorter::report::print_scan_results;
use file_sorter::resume::ResumeState;
use file_sorter::scan::ScanResult;

fn texts(list: &[&str]) -> Vec<String> {
    list.iter().map(|s| s.to_string()).collect()
}

fn path(s: &str) -> FilePath {
    let mut parts = vec![PathPart { kind: PartKind::RootDir, name: Vec::new() }];
    for name in s.split('/').filter(|n| !n.is_empty()) {
        parts.push(PathPart::named(name.as_bytes().to_vec()));
    }
    FilePath::new(s.to_string(), parts)
}

fn paths(list: &[&str]) -> Vec<FilePath> {
    list.iter().map(|s| path(s)).collect()
}

fn shown(list: &[FilePath]) -> Vec<&str> {
    list.iter().map(|p| p.text.as_str()).collect()
}

fn group(hash: &str, size: u64, list: &[&str], confirmed: bool) -> DuplicateGroup {
    DuplicateGroup { file_hash: hash.to_string(), size, paths: paths(list), confirmed }
}

fn folder(list: &[&str], confirmed: bool) -> FolderGroup {
    FolderGroup { paths: paths(list), file_count: 2, size: 1536, confirmed }
}

fn planned(plan: &RemovalPlan) -> (Vec<&str>, Vec<&str>) {
    (
        plan.folders.iter().map(|i| i.path.text.as_str()).collect(),
        plan.files.iter().map(|i| i.path.text.as_str()).collect(),
    )
}

// -------------------------------------------------------------------------- plan

#[test]
fn the_first_copy_is_kept() {
    let plan = plan_duplicates_to_remove(&vec![group("x", 1, &["/a", "/b", "/c"], true)], &Vec::new());
    assert_eq!(planned(&plan), (vec![], vec!["/b", "/c"]));
    assert!(!plan.files[0].needs_verify);
    assert_eq!(plan.files[0].reference.text, "/a");
}

#[test]
fn unconfirmed_files_are_verified_first() {
    let plan = plan_duplicates_to_remove(&vec![group("1:p", 1, &["/a", "/b"], false)], &Vec::new());
    assert!(plan.files[0].needs_verify);
}

#[test]
fn confirmed_folders_go_as_a_whole() {
    let groups = vec![group("x", 1, &["/d/1", "/e/1"], true)];
    let plan = plan_duplicates_to_remove(&groups, &vec![folder(&["/d", "/e"], true)]);
    assert_eq!(planned(&plan), (vec!["/e"], vec![]));
    assert!(plan.folders[0].is_folder && !plan.folders[0].needs_verify);
}

#[test]
fn unconfirmed_folders_go_file_by_file() {
    let groups = vec![group("1:p", 1, &["/d/1", "/e/1"], false)];
    let plan = plan_duplicates_to_remove(&groups, &vec![folder(&["/d", "/e"], false)]);
    assert_eq!(planned(&plan), (vec![], vec!["/e/1"]));
}

#[test]
fn a_copy_outside_removed_folders_stays() {
    let groups = vec![group("x", 1, &["/e/1", "/d/1", "/z"], true)];
    let plan = plan_duplicates_to_remove(&groups, &vec![folder(&["/d", "/e"], true)]);
    assert_eq!(planned(&plan), (vec!["/e"], vec!["/z"]));
    assert!(under_any(&path("/e/1"), &paths(&["/d", "/e"])));
    assert!(!under_any(&path("/ee/1"), &paths(&["/d", "/e"])));
}

#[test]
fn no_content_is_lost_with_the_folders() {
    let folders = vec![folder(&["/d", "/e"], true), folder(&["/f", "/g", "/h/i"], true)];
    let everywhere = group("x", 1, &["/e/1", "/g/1", "/h/i/1", "/f/1", "/d/1"], true);
    let plan = plan_duplicates_to_remove(&vec![everywhere], &folders);
    assert_eq!(planned(&plan), (vec!["/e", "/g", "/h/i"], vec!["/d/1"]));
    assert_eq!(plan.files[0].reference.text, "/e/1");
    let pair = group("y", 1, &["/g/2", "/f/2"], true);
    assert_eq!(planned(&plan_duplicates_to_remove(&vec![pair], &folders)), (vec!["/e", "/g", "/h/i"], vec![]));
}

#[test]
fn moved_files_keep_their_whole_path() {
    assert_eq!(mirrored_path(&path("/home/user/a.jpg"), &path("/dest")).text, "/dest/home/user/a.jpg");
    assert_eq!(mirrored_path(&path("/home/user/a.jpg"), &path("/")).text, "/home/user/a.jpg");
    let windows = FilePath::new(
        "D:\\Photos\\a.jpg".to_string(),
        vec![
            PathPart { kind: PartKind::Prefix, name: b"D:".to_vec() },
            PathPart { kind: PartKind::RootDir, name: Vec::new() },
            PathPart::named(b"Photos".to_vec()),
            PathPart { kind: PartKind::ParentDir, name: Vec::new() },
            PathPart { kind: PartKind::CurDir, name: Vec::new() },
            PathPart::named(b"a.jpg".to_vec()),
        ],
    );
    assert_eq!(mirrored_path(&windows, &path("/dest")).text, "/dest/D/Photos/.../a.jpg");
    assert!(!mirrored_path(&path("/a/x"), &path("/dest")).same(&mirrored_path(&path("/b/x"), &path("/dest"))));
}

fn on_drive(drive: &str, names: &[&str]) -> FilePath {
    let mut parts = vec![
        PathPart { kind: PartKind::Prefix, name: drive.as_bytes().to_vec() },
        PathPart { kind: PartKind::RootDir, name: Vec::new() },
    ];
    for name in names {
        parts.push(match *name {
            ".." => PathPart { kind: PartKind::ParentDir, name: Vec::new() },
            _ => PathPart::named(name.as_bytes().to_vec()),
        });
    }
    FilePath::new(format!("{}\\{}", drive, names.join("\\")), parts)
}

#[test]
fn moved_files_never_meet() {
    let sources = vec![
        on_drive("C:", &["a", "x"]),
        on_drive("D:", &["a", "x"]),
        on_drive("C:", &["a", "..", "x"]),
        on_drive("C:", &["a", "...", "x"]),
        on_drive("C:", &["a", "....", "x"]),
        on_drive("C:", &["C", "a", "x"]),
        on_drive("\\\\host\\share", &["a", "x"]),
        on_drive("\\\\host\\share:", &["a", "x"]),
        on_drive("\\\\?\\C:", &["a", "x"]),
    ];
    for (i, a) in sources.iter().enumerate() {
        for b in &sources[i + 1..] {
            let (a, b) = (mirrored_path(a, &path("/dest")), mirrored_path(b, &path("/dest")));
            assert!(!a.same(&b), "{} {}", a.text, b.text);
            assert_ne!(a.text, b.text);
        }
    }
}

#[test]
fn a_copy_of_every_group_stays() {
    let groups = vec![
        group("x", 1, &["/a/1", "/b/1", "/c/1"], true),
        group("y", 1, &["/a/in/2", "/b/in/2"], true),
        group("z", 1, &["/c/3", "/a/3"], false),
    ];
    let folders = vec![folder(&["/a/in", "/b/in"], true), folder(&["/a", "/b"], true)];
    let plan = plan_duplicates_to_remove(&groups, &folders);
    for g in &groups {
        let stays = |p: &FilePath| {
            !plan.folders.iter().any(|f| p.starts_with(&f.path)) && !plan.files.iter().any(|f| p.same(&f.path))
        };
        assert!(g.paths.iter().any(stays));
    }
}

// --------------------------------------------------------------------- questions

#[test]
fn a_removal_opens_with_a_question() {
    let plan = plan_duplicates_to_remove(&vec![group("x", 1, &["/a", "/b"], true)], &vec![folder(&["/d", "/e"], true)]);
    let to = ActionKind::MoveTo(path("/dest"));
    let ask = |p: &RemovalPlan, k: &ActionKind, skip, dry| match open_removal(p, k, skip, dry) {
        Opening::Nothing => "nothing".to_string(),
        Opening::Say(s) => format!("say {}", s),
        Opening::Ask(s) => format!("ask {}", s),
        Opening::Go => "go".to_string(),
    };
    assert_eq!(ask(&plan, &ActionKind::Trash, false, false), "ask \nMove 1 folder(s) and 1 file(s) to Trash? [y/N] ");
    assert_eq!(ask(&plan, &to, false, false), "ask \nMove 1 folder(s) and 1 file(s) to /dest? [y/N] ");
    assert_eq!(ask(&plan, &ActionKind::Trash, true, false), "go");
    assert_eq!(ask(&plan, &ActionKind::Trash, false, true), "say \nDry run -- nothing will actually be deleted.");
    assert_eq!(ask(&plan, &to, true, true), "say \nDry run -- nothing will actually be moved to /dest.");
    let empty = plan_duplicates_to_remove(&Vec::new(), &Vec::new());
    assert_eq!(ask(&empty, &to, false, true), "nothing");
    assert_eq!(abort_text(&ActionKind::Trash), "Aborted -- nothing deleted.");
    assert_eq!(abort_text(&to), "Aborted -- nothing moved.");
}

#[test]
fn only_a_yes_is_a_yes() {
    for answer in ["y", "Y\n", " yes ", "YES\r\n", "\u{a0}\u{2003}y\u{3000}\u{85}"] {
        assert!(answer_agrees(answer), "{:?}", answer);
    }
    for answer in ["", "\n", "n", "yess", "ye", "y e s", "\u{200b}y", "y\u{180e}"] {
        assert!(!answer_agrees(answer), "{:?}", answer);
    }
}

#[test]
fn only_two_words_say_yes() {
    assert!(is_yes("y") && is_yes("yes"));
    assert!(!is_yes("Y") && !is_yes(""));
}

#[test]
fn amounts_leave_out_what_is_none() {
    assert_eq!(amounts_text(2, 3), "2 folder(s) and 3 file(s)");
    assert_eq!(amounts_text(0, 3), "3 file(s)");
    assert_eq!(amounts_text(2, 0), "2 folder(s)");
}

// ----------------------------------------------------------------------- actions

fn item(p: &str, is_folder: bool, needs_verify: bool) -> ActionItem {
    ActionItem { path: path(p), is_folder, needs_verify, reference: path("/keep") }
}

fn two_items() -> Vec<ActionItem> {
    vec![item("/d", true, false), item("/b", false, true)]
}

/// Runs an action; gives what it asked for and what it reports.
fn run(mut action: Action, verified: Option<bool>, exists: bool, error: Option<&str>) -> (Vec<String>, ActionReport) {
    let mut log = Vec::new();
    loop {
        match action.request() {
            ActionRequest::Verify(a, b) => {
                log.push(format!("verify {} {}", a.text, b.text));
                action.verified(match verified {
                    Some(true) => Verified::Same,
                    Some(false) => Verified::Different,
                    None => Verified::Failed("gone".to_string()),
                });
            }
            ActionRequest::LookAt(p) => {
                log.push(format!("look {}", p.text));
                action.looked(exists);
            }
            ActionRequest::Note(s) => {
                log.push(format!("note {}", s));
                action.noted();
            }
            ActionRequest::Trash(p) => {
                log.push(format!("trash {}", p.text));
                action.acted(error.map(|e| e.to_string()));
            }
            ActionRequest::Move(a, b) => {
                log.push(format!("move {} {}", a.text, b.text));
                action.acted(error.map(|e| e.to_string()));
            }
            ActionRequest::Done => break,
        }
    }
    (log, action.finish())
}

#[test]
fn items_are_trashed() {
    let a = Action::run_action(two_items(), ActionKind::Trash, false, Wording::Command);
    assert!(a.dest_to_make().is_none());
    let (log, report) = run(a, Some(true), false, None);
    assert_eq!(log, texts(&["trash /d", "verify /keep /b", "trash /b"]));
    assert_eq!((report.moved_folders, report.moved_files), (1, 1));
    assert_eq!(shown(&report.succeeded_paths), vec!["/d", "/b"]);
    assert!(report.failures.is_empty() && !report.dry_run && report.dest.is_none());
    assert_eq!(close_removal(&report, &ActionKind::Trash, false), texts(&["\nDeleted 1 folder(s) and 1 file(s) to Trash."]));
    assert_eq!(report_headline(&report), "Moved 1 file(s) and 1 folder(s) to Trash.");
}

#[test]
fn items_are_moved_below_the_destination() {
    let kind = || ActionKind::MoveTo(path("/dest"));
    let a = Action::run_action(two_items(), kind(), false, Wording::Command);
    assert_eq!(a.dest_to_make().unwrap().text, "/dest");
    let (log, report) = run(a, Some(true), false, None);
    assert_eq!(
        log,
        texts(&["look /dest/d", "move /d /dest/d", "verify /keep /b", "look /dest/b", "move /b /dest/b"])
    );
    assert_eq!(close_removal(&report, &kind(), false), texts(&["\nMoved 1 folder(s) and 1 file(s) to /dest."]));
    assert_eq!(report_headline(&report), "Moved 1 file(s) and 1 folder(s) to /dest.");
}

#[test]
fn a_dry_run_touches_nothing() {
    let (log, report) = run(Action::run_action(two_items(), ActionKind::Trash, true, Wording::Command), Some(true), false, None);
    assert_eq!(log, texts(&["note   would delete folder: /d", "verify /keep /b", "note   would delete: /b"]));
    assert_eq!((report.moved_folders, report.moved_files), (1, 1));
    assert!(report.succeeded_paths.is_empty() && report.dry_run);
    assert_eq!(report_headline(&report), "Would move 1 file(s) and 1 folder(s) to Trash.");
    let a = Action::run_action(two_items(), ActionKind::MoveTo(path("/dest")), true, Wording::Command);
    assert!(a.dest_to_make().is_none());
    let (log, _) = run(a, Some(true), false, None);
    assert_eq!(log[1], "note   would move folder: /d -> /dest/d");
    assert_eq!(log.last().unwrap(), "note   would move: /b -> /dest/b");
}

#[test]
fn what_is_no_copy_is_left() {
    let one = || vec![item("/b", false, true)];
    let (log, report) = run(Action::run_action(one(), ActionKind::Trash, false, Wording::Command), Some(false), false, None);
    assert_eq!(log, texts(&["verify /keep /b"]));
    assert_eq!(
        report.failures,
        texts(&["/b: not verified as an actual duplicate of the kept file -- skipped rather than risk deleting a non-duplicate"])
    );
    assert_eq!(
        close_removal(&report, &ActionKind::Trash, false),
        vec!["\nDeleted 0 folder(s) and 0 file(s) to Trash.".to_string(), "1 item(s) were not deleted:".to_string(), format!("  {}", report.failures[0])]
    );
    let to = ActionKind::MoveTo(path("/dest"));
    let (_, report) = run(Action::run_action(one(), to, true, Wording::Command), Some(false), false, None);
    assert_eq!(
        report.failures,
        texts(&["/b: not verified as an actual duplicate of the kept file -- would be skipped rather than risk moving a non-duplicate"])
    );
    let (_, report) = run(Action::run_action(one(), ActionKind::Trash, true, Wording::Window), Some(false), false, None);
    assert_eq!(
        report.failures,
        texts(&["/b: not verified as an actual duplicate of the kept file -- skipped rather than risk it"])
    );
}

#[test]
fn failures_are_reported() {
    let one = || vec![item("/b", false, true)];
    let (_, report) = run(Action::run_action(one(), ActionKind::Trash, false, Wording::Command), None, false, None);
    assert_eq!(report.failures, texts(&["/b: could not verify against kept file: gone"]));
    let (_, report) = run(Action::run_action(one(), ActionKind::Trash, false, Wording::Window), Some(true), false, Some("busy"));
    assert_eq!(report.failures, texts(&["/b: busy"]));
    assert!(report.succeeded_paths.is_empty());
    assert_eq!(report.moved_files, 0);
    let to = ActionKind::MoveTo(path("/dest"));
    let (log, report) = run(Action::run_action(one(), to, false, Wording::Command), Some(true), true, None);
    assert_eq!(log, texts(&["verify /keep /b", "look /dest/b"]));
    assert_eq!(report.failures, texts(&["/b: destination /dest/b already exists -- skipped"]));
    let report = dest_failed(&path("/dest"), false, "denied");
    assert_eq!(report.failures, texts(&["/dest: could not create destination: denied"]));
    assert_eq!(report.dest.unwrap().text, "/dest");
}

#[test]
fn a_window_notes_nothing_in_a_dry_run() {
    let (log, report) = run(Action::run_action(two_items(), ActionKind::Trash, true, Wording::Window), Some(true), false, None);
    assert!(log.iter().all(|l| !l.starts_with("trash") && !l.starts_with("move")));
    assert_eq!((report.moved_folders, report.moved_files), (1, 1));
}

#[test]
fn every_item_is_accounted_for() {
    for error in [None, Some("busy")] {
        for verified in [Some(true), Some(false), None] {
            for exists in [true, false] {
                let a = Action::run_action(two_items(), ActionKind::MoveTo(path("/dest")), false, Wording::Command);
                let (_, report) = run(a, verified, exists, error);
                assert_eq!(report.moved_files + report.moved_folders + report.failures.len(), 2);
                assert_eq!(report.moved_files + report.moved_folders, report.succeeded_paths.len());
            }
        }
    }
}

#[test]
fn a_window_shows_the_first_failures() {
    let mut report = dest_failed(&path("/dest"), false, "denied");
    report.failures = (0..25).map(|i| i.to_string()).collect();
    assert_eq!(shown_failures(&report).len(), 20);
    assert_eq!(shown_failures(&report)[19], "19");
    report.failures.truncate(3);
    assert_eq!(shown_failures(&report), texts(&["0", "1", "2"]));
}

#[test]
fn a_move_across_devices_copies() {
    assert_eq!(move_path(true, true), MoveStep::Done);
    assert_eq!(move_path(false, true), MoveStep::CopyFolder);
    assert_eq!(move_path(false, false), MoveStep::CopyFile);
}

#[test]
fn an_action_handle_gives_its_report_once() {
    let mut h = ActionHandle::started();
    assert!(!h.is_done() && h.take().is_none());
    h.complete(dest_failed(&path("/dest"), true, "x"));
    assert!(h.is_done());
    assert!(h.take().unwrap().dry_run);
    assert!(h.take().is_none());
}

// ----------------------------------------------------------------------- reports

#[test]
fn an_empty_report() {
    assert_eq!(print_scan_results(&Vec::new(), &Vec::new(), 0, false), texts(&["No duplicates found."]));
    assert_eq!(
        print_scan_results(&Vec::new(), &Vec::new(), 2, true),
        texts(&[
            "Scan cancelled before any duplicates were confirmed.",
            "\nSkipped 2 unreadable file(s) (permission denied or removed)."
        ])
    );
}

#[test]
fn a_report_lists_folders_and_files() {
    let groups = vec![group("0123456789abcdef", 1024, &["/a", "/b", "/c"], true), group("5:p", 5, &["/d", "/e"], false)];
    let folders = vec![folder(&["/f", "/g"], true), folder(&["/h", "/i"], false)];
    assert_eq!(
        print_scan_results(&groups, &folders, 0, true),
        texts(&[
            "\nFolder duplicate: 2 copies (2 file(s), 1.5KB each):",
            "  /f",
            "  /g",
            "\nFolder duplicate: 2 copies (2 file(s), 1.5KB each, NOT VERIFIED -- large file(s)):",
            "  /h",
            "  /i",
            "\n2 duplicate folder(s) found -- their files are also listed individually below. --delete removes a confirmed one as a single unit; an unverified (large-file) one is handled file by file instead.",
            "\n3 copies, 1.0KB each (sha256 0123456789ab...):",
            "  /a",
            "  /b",
            "  /c",
            "\n2 copies, 5B each (NOT VERIFIED -- large file, matched by size + partial hash only):",
            "  /d",
            "  /e",
            "\n2 duplicate group(s), 2.0KB reclaimable (scan cancelled -- partial results).",
            "1 of those group(s) are large files not fully verified -- they will be confirmed before deletion, and a group could turn out to be a false match (files that only happen to share a size and partial hash).",
        ])
    );
}

#[test]
fn a_short_digest_is_shown_whole() {
    let lines = print_scan_results(&vec![group("abc", 1, &["/a", "/b"], true)], &Vec::new(), 0, false);
    assert_eq!(lines[0], "\n2 copies, 1B each (sha256 abc...):");
    assert_eq!(lines[3], "\n1 duplicate group(s), 1B reclaimable.");
}

// ------------------------------------------------------------------ command lines

fn arguments() -> Arguments {
    Arguments {
        directories: Vec::new(),
        min_size: 0,
        quiet: false,
        threads: 0,
        large_threshold: 500,
        exclude: Vec::new(),
        no_default_excludes: false,
        file_types: Vec::new(),
        delete: false,
        move_to: None,
        yes: false,
        dry_run: false,
        resume: None,
        history: false,
        show: None,
        export_history: None,
        import_history: None,
    }
}

fn refusal(args: &Arguments) -> (String, i32) {
    match choose_command(args) {
        Command::Refuse(s, code) => (s, code),
        other => panic!("{:?}", other),
    }
}

#[test]
fn command_lines_that_are_refused() {
    assert_eq!(refusal(&arguments()), ("Error: the following arguments are required: directories".to_string(), 2));
    let mut a = arguments();
    a.delete = true;
    a.move_to = Some("/x".to_string());
    a.history = true;
    assert_eq!(refusal(&a), ("Error: --delete and --move-to are mutually exclusive".to_string(), 1));
    let mut a = arguments();
    a.resume = Some("LAST".to_string());
    a.directories = texts(&["/r"]);
    assert_eq!(refusal(&a), ("Error: --resume picks up a stopped scan and doesn't take directories".to_string(), 1));
    a.file_types = texts(&["audio", "mu\"sic"]);
    assert_eq!(
        refusal(&a),
        (
            "Error: invalid --type value \"mu\\\"sic\" -- valid categories: archives, audio, documents, images, misc, programs, video"
                .to_string(),
            2
        )
    );
}

#[test]
fn an_unknown_type_is_named_as_it_shows() {
    assert!(matches!(
        refuse_type("'x'"),
        Command::Refuse(s, 2) if s == "Error: invalid --type value 'x' -- valid categories: archives, audio, documents, images, misc, programs, video"
    ));
}

#[test]
fn the_first_command_that_applies_is_chosen() {
    let mut a = arguments();
    a.directories = texts(&["/r", "/s"]);
    assert!(matches!(choose_command(&a), Command::Scan(d) if d == texts(&["/r", "/s"])));
    a.show = Some(3);
    assert!(matches!(choose_command(&a), Command::Show(3)));
    a.import_history = Some("in".to_string());
    assert!(matches!(choose_command(&a), Command::Import(p) if p == "in"));
    a.export_history = Some("out".to_string());
    assert!(matches!(choose_command(&a), Command::Export(p) if p == "out"));
    a.history = true;
    assert!(matches!(choose_command(&a), Command::History));
    let mut a = arguments();
    a.resume = Some("2".to_string());
    assert!(matches!(choose_command(&a), Command::Resume(r) if r == "2"));
}

#[test]
fn options_follow_the_command_line() {
    let mut a = arguments();
    a.exclude = texts(&["Skip"]);
    let opts = scan_options(&a);
    assert!(opts.show_progress && opts.exclude_temp_files && opts.file_types.is_none());
    assert_eq!(opts.exclude_dirs.len(), default_excluded_dir_names().len() + 1);
    assert_eq!(opts.exclude_dirs.last().unwrap(), "Skip");
    a.no_default_excludes = true;
    a.quiet = true;
    a.threads = 4;
    a.file_types = texts(&["audio"]);
    let opts = scan_options(&a);
    assert!(!opts.show_progress && !opts.exclude_temp_files);
    assert_eq!((opts.workers, opts.large_file_threshold), (4, 500));
    assert_eq!(opts.exclude_dirs, texts(&["Skip"]));
    assert_eq!(opts.file_types, Some(texts(&["audio"])));
}

#[test]
fn directories_are_checked() {
    assert_eq!(check_directory(&path("/r"), true, false), Ok(()));
    assert_eq!(check_directory(&path("/r"), false, false), Err("Error: /r is not a directory".to_string()));
    assert_eq!(
        check_directory(&path("/r"), false, true),
        Err("Error: cannot resume -- /r is no longer a directory".to_string())
    );
}

#[test]
fn tildes_are_expanded() {
    assert!(matches!(expand_tilde("~"), TildeForm::Home));
    assert!(matches!(expand_tilde("~/a/b"), TildeForm::InHome(r) if r == "a/b"));
    assert!(matches!(expand_tilde("~\\a"), TildeForm::InHome(r) if r == "a"));
    assert!(matches!(expand_tilde("~user/a"), TildeForm::Plain));
    assert!(matches!(expand_tilde(""), TildeForm::Plain));
    assert_eq!(store_home(Some("/h".to_string()), Some("/p".to_string())), "/h");
    assert_eq!(store_home(None, Some("/p".to_string())), "/p");
    assert_eq!(store_home(None, None), ".");
}

#[test]
fn messages_of_the_command_line() {
    assert_eq!(exported_text(3, &path("/out")), "Exported 3 run(s) to /out");
    assert_eq!(imported_text(&path("/in"), true, Ok(2)), ("Imported 2 new run(s) from /in".to_string(), 0));
    assert_eq!(imported_text(&path("/in"), false, Ok(2)), ("Error: /in is not a file".to_string(), 1));
    assert_eq!(imported_text(&path("/in"), true, Err("bad".to_string())), ("Error importing history: bad".to_string(), 1));
    assert_eq!(interrupt(false), ("\nCancelling... (press Ctrl+C again to force quit)".to_string(), None));
    assert_eq!(interrupt(true), ("\nForce quitting.".to_string(), Some(130)));
    assert!(changed_root_warning().starts_with("warning: ignoring saved progress -- "));
}

fn snapshot() -> ResumeState {
    ResumeState {
        directories: Vec::new(),
        stage: "scanning".to_string(),
        by_size: Vec::new(),
        by_partial: Vec::new(),
        by_full: Vec::new(),
        processed: Vec::new(),
        skipped: Vec::new(),
        completed_dirs: Vec::new(),
        root_keys: Vec::new(),
    }
}

#[test]
fn what_follows_a_scan() {
    let mut a = arguments();
    a.min_size = 10;
    a.delete = true;
    let mut r = ScanResult {
        groups: vec![group("x", 10, &["/a", "/b"], true), group("y", 9, &["/c", "/d"], true)],
        skipped: Vec::new(),
        cancelled: true,
        resume_state: Some(snapshot()),
        folder_groups: Vec::new(),
        reused_run_id: Some("1".to_string()),
    };
    let after = after_scan(&a, &r);
    assert_eq!(after.groups.len(), 1);
    assert!(after.save_progress && after.delete && after.move_to.is_none());
    assert_eq!(
        after.reuse_note.unwrap(),
        "Nothing changed since the last scan of these directories -- reused those results."
    );
    assert_eq!(
        after.resume_hint.unwrap(),
        "\nRun 'file-sorter --resume' to continue this scan where it left off."
    );
    a.min_size = 11;
    a.quiet = true;
    a.delete = false;
    a.move_to = Some("/x".to_string());
    r.cancelled = false;
    let after = after_scan(&a, &r);
    assert!(after.groups.is_empty() && after.reuse_note.is_none() && after.resume_hint.is_none());
    assert!(!after.save_progress && !after.delete && after.move_to.is_none());
    r.folder_groups = vec![folder(&["/f", "/g"], true)];
    let size = r.folder_groups[0].size;
    a.min_size = size;
    let after = after_scan(&a, &r);
    assert_eq!((after.folder_groups.len(), after.move_to), (1, Some("/x".to_string())));
    a.min_size = size + 1;
    a.delete = true;
    r.groups = Vec::new();
    let after = after_scan(&a, &r);
    assert!(after.folder_groups.is_empty() && !after.delete && after.move_to.is_none());
}
