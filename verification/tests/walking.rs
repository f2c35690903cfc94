use file_sorter::bucket::{BucketResolver, Compared, ResolverPhase};
use file_sorter::filetypes::{
    at_least_one, build_extension_filter, default_excluded_dir_names, default_workers, extension_of,
    file_matches_types, file_type_categories, is_default_excluded_file, is_excluded_lowered, lower_all, valid_file_types, valid_types_text,
    worker_count, ScanOptions,
};
use file_sorter::paths::{FilePath, PartKind, PathPart};
use file_sorter::walk::{EntryAction, EntryKind, Walker};

fn texts(list: &[&str]) -> Vec<String> {
    list.iter().map(|s| s.to_string()).collect()
}

fn path(s: &str) -> FilePath {
    let mut parts = Vec::new();
    if s.starts_with('/') {
        parts.push(PathPart { kind: PartKind::RootDir, name: Vec::new() });
    }
    for name in s.split('/').filter(|n| !n.is_empty()) {
        parts.push(PathPart::named(name.as_bytes().to_vec()));
    }
    FilePath::new(s.to_string(), parts)
}

fn shown(paths: &[FilePath]) -> Vec<&str> {
    paths.iter().map(|p| p.text.as_str()).collect()
}

// ------------------------------------------------------------------ file types

#[test]
fn categories_have_their_extensions() {
    let categories = file_type_categories();
    let names: Vec<&str> = categories.iter().map(|c| c.name).collect();
    assert_eq!(names, vec!["images", "audio", "video", "documents", "archives", "programs"]);
    let counts: Vec<usize> = categories.iter().map(|c| c.extensions.len()).collect();
    assert_eq!(counts, vec![17, 10, 11, 17, 9, 12]);
    assert_eq!(valid_file_types(), vec!["images", "audio", "video", "documents", "archives", "programs", "misc"]);
    assert_eq!(valid_types_text(), "archives, audio, documents, images, misc, programs, video");
}

#[test]
fn extensions_are_lowered_and_have_a_dot() {
    assert_eq!(extension_of(&path("/a/PHOTO.JPG")), ".jpg");
    assert_eq!(extension_of(&path("/a/x.\u{c4}B")), ".\u{e4}b");
    assert_eq!(extension_of(&path("/a/Makefile")), "");
    assert_eq!(extension_of(&path("/a/.hidden")), "");
}

#[test]
fn files_match_their_categories() {
    assert!(file_matches_types(&path("/a.MP3"), &texts(&["audio"])));
    assert!(!file_matches_types(&path("/a.mp3"), &texts(&["video", "misc"])));
    assert!(file_matches_types(&path("/a.xyz"), &texts(&["misc"])));
    assert!(file_matches_types(&path("/Makefile"), &texts(&["misc"])));
    assert!(!file_matches_types(&path("/a.mp3"), &texts(&[])));
}

#[test]
fn a_filter_accepts_what_matches() {
    assert!(build_extension_filter(None).unwrap().is_none());
    let chosen = texts(&["images", "misc"]);
    let filter = build_extension_filter(Some(&chosen)).unwrap().unwrap();
    for name in ["/a.png", "/a.mp3", "/a.q", "/a", "/b.PDF", "/c.HEIC"] {
        assert_eq!(filter.accepts(&extension_of(&path(name))), file_matches_types(&path(name), &chosen), "{}", name);
    }
    let everything: Vec<String> = valid_file_types().iter().map(|s| s.to_string()).collect();
    let all = build_extension_filter(Some(&everything)).unwrap().unwrap();
    for ext in ["", ".zip", ".anything"] {
        assert!(all.accepts(ext));
    }
}

#[test]
fn unknown_categories_are_named() {
    let one = build_extension_filter(Some(&texts(&["audio", "musik"]))).unwrap_err();
    assert_eq!(
        one.message(),
        "Unknown file type category: musik -- valid categories: archives, audio, documents, images, misc, programs, video"
    );
    let two = build_extension_filter(Some(&texts(&["z", "audio", "b"]))).unwrap_err();
    assert_eq!(
        two.message(),
        "Unknown file type categories: b, z -- valid categories: archives, audio, documents, images, misc, programs, video"
    );
}

#[test]
fn leftovers_are_excluded_by_default() {
    for name in [".DS_Store", "Thumbs.db", "desktop.ini", ".gitkeep", ".localized", "notes.txt~", "a.TMP", "b.bak"] {
        assert!(is_default_excluded_file(name), "{}", name);
    }
    for name in ["a.txt", "tmp", "DS_Store", "~a"] {
        assert!(!is_default_excluded_file(name), "{}", name);
    }
}

#[test]
fn names_in_lower_case_decide() {
    for name in ["thumbs.db", "a~", "~", "x.swp", "a.b.bak"] {
        assert!(is_excluded_lowered(name), "{}", name);
    }
    for name in ["", "..", ".tmp", "tmp.", "a.tmpx", "thumbs.DB"] {
        assert!(!is_excluded_lowered(name), "{}", name);
    }
}

#[test]
fn default_options() {
    let opts = ScanOptions::default();
    assert!(opts.show_progress);
    assert_eq!(opts.workers, 0);
    assert_eq!(opts.large_file_threshold, 500 * 1024 * 1024);
    assert_eq!(opts.exclude_dirs, default_excluded_dir_names());
    assert_eq!(opts.exclude_dirs.len(), 13);
    assert!(opts.exclude_dirs.contains(&"node_modules".to_string()));
    assert!(opts.exclude_temp_files);
    assert!(opts.file_types.is_none());
}

#[test]
fn workers_are_those_asked_for_or_one_per_core() {
    let mut opts = ScanOptions::default();
    assert_eq!(worker_count(&opts), default_workers());
    assert_eq!(default_workers(), num_cpus::get().max(1));
    opts.workers = 3;
    assert_eq!(worker_count(&opts), 3);
    assert_eq!(at_least_one(0), 1);
    assert_eq!(at_least_one(8), 8);
}

#[test]
fn names_are_lowered() {
    assert_eq!(lower_all(&texts(&["Node_Modules", "\u{c4}B", "x"])), texts(&["node_modules", "\u{e4}b", "x"]));
}

// ------------------------------------------------------------------------ walk

fn plain_walker() -> Walker {
    Walker::new(&Vec::new(), &Vec::new(), &Vec::new(), None, false)
}

#[test]
fn a_directory_is_entered_once() {
    let mut w = plain_walker();
    assert!(w.try_push("/real/a"));
    w.opened("/real/a".to_string());
    assert!(!w.try_push("/real/a"));
    assert!(w.try_push("/real/b"));
    w.opened("/real/b".to_string());
    assert_eq!(w.leave(), Some("/real/b".to_string()));
    assert!(!w.try_push("/real/b"));
    assert!(w.is_open());
    assert_eq!(w.leave(), Some("/real/a".to_string()));
    assert!(!w.is_open());
    assert_eq!(w.leave(), None);
    assert!(!w.try_push("/real/a"));
}

#[test]
fn an_unreadable_directory_is_not_tried_again() {
    let mut w = plain_walker();
    assert!(w.try_push("/secret"));
    assert!(!w.is_open());
    assert!(!w.try_push("/secret"));
}

#[test]
fn a_completed_directory_is_not_entered() {
    let mut w = Walker::new(&texts(&["/done"]), &Vec::new(), &Vec::new(), None, false);
    assert!(!w.try_push("/done"));
    assert!(w.try_push("/other"));
}

#[test]
fn links_to_directories_are_followed_and_links_to_files_are_not() {
    let w = plain_walker();
    let name = b"x".to_vec();
    let p = path("/a/x");
    assert_eq!(w.entry_action(EntryKind::DirLink, &name, &p), EntryAction::Enter);
    assert_eq!(w.entry_action(EntryKind::OtherLink, &name, &p), EntryAction::Skip);
    assert_eq!(w.entry_action(EntryKind::Dir, &name, &p), EntryAction::Enter);
    assert_eq!(w.entry_action(EntryKind::File, &name, &p), EntryAction::Report);
    assert_eq!(w.entry_action(EntryKind::Other, &name, &p), EntryAction::Skip);
    assert_eq!(w.entry_action(EntryKind::Unreadable, &name, &p), EntryAction::Skip);
}

#[test]
fn excluded_names_are_compared_in_lower_case() {
    let w = Walker::new(&Vec::new(), &Vec::new(), &texts(&["node_modules"]), None, false);
    let p = path("/a/Node_Modules");
    assert_eq!(w.entry_action(EntryKind::Dir, &b"Node_Modules".to_vec(), &p), EntryAction::Skip);
    assert_eq!(w.entry_action(EntryKind::DirLink, &b"NODE_MODULES".to_vec(), &p), EntryAction::Skip);
    assert_eq!(w.entry_action(EntryKind::File, &b"node_modules".to_vec(), &p), EntryAction::Report);
}

#[test]
fn entries_are_decided_by_what_is_known_of_them() {
    let filter = build_extension_filter(Some(&texts(&["audio"]))).unwrap();
    let w = Walker::new(&Vec::new(), &vec![path("/old.mp3")], &texts(&["skip"]), filter, true);
    assert_eq!(w.dir_action("skip"), EntryAction::Skip);
    assert_eq!(w.dir_action("keep"), EntryAction::Enter);
    assert_eq!(w.file_action(&path("/new.mp3"), false, ".mp3"), EntryAction::Report);
    assert_eq!(w.file_action(&path("/new.mp3"), true, ".mp3"), EntryAction::Skip);
    assert_eq!(w.file_action(&path("/old.mp3"), false, ".mp3"), EntryAction::Skip);
    assert_eq!(w.file_action(&path("/new.txt"), false, ".txt"), EntryAction::Skip);
}

#[test]
fn files_are_filtered() {
    let filter = build_extension_filter(Some(&texts(&["images"]))).unwrap();
    let seen = vec![path("/a/old.png")];
    let w = Walker::new(&Vec::new(), &seen, &Vec::new(), filter, true);
    let act = |name: &str| w.entry_action(EntryKind::File, &name.as_bytes().to_vec(), &path(&format!("/a/{}", name)));
    assert_eq!(act("new.png"), EntryAction::Report);
    assert_eq!(act("old.png"), EntryAction::Skip);
    assert_eq!(act("new.txt"), EntryAction::Skip);
    assert_eq!(act("Thumbs.db"), EntryAction::Skip);
}

// --------------------------------------------------------------------- buckets

/// A file with its contents; those without any cannot be read.
type Disk = Vec<(&'static str, Option<&'static str>)>;

fn contents(disk: &Disk, p: &FilePath) -> Option<&'static str> {
    disk.iter().find(|(name, _)| *name == p.text).and_then(|(_, c)| *c)
}

/// Whether the digest of a file can be taken after all.
fn resolve(disk: &Disk, hashable: bool) -> (Vec<(String, Vec<String>)>, Vec<String>, usize) {
    let paths: Vec<FilePath> = disk.iter().map(|(name, _)| path(name)).collect();
    answer(BucketResolver::resolve_bucket(&paths), disk, hashable)
}

fn answer(mut r: BucketResolver, disk: &Disk, hashable: bool) -> (Vec<(String, Vec<String>)>, Vec<String>, usize) {
    loop {
        match r.phase() {
            ResolverPhase::Opening => {
                let ok = contents(disk, r.representative()).is_some();
                r.opened(ok);
            }
            ResolverPhase::Comparing => {
                let outcome = match (contents(disk, r.representative()), contents(disk, r.candidate())) {
                    (Some(a), Some(b)) if a == b => Compared::Same,
                    (Some(_), Some(_)) => Compared::Different,
                    _ => Compared::Unreadable,
                };
                r.compared(outcome);
            }
            ResolverPhase::Hashing => {
                let digest = if hashable { contents(disk, r.representative()).map(|c| format!("hash of {}", c)) } else { None };
                r.hashed(digest);
            }
            ResolverPhase::Done => break,
        }
    }
    let result = r.result();
    let groups =
        result.groups.iter().map(|g| (g.digest.clone(), shown(&g.paths).iter().map(|s| s.to_string()).collect())).collect();
    (groups, shown(&result.skipped).iter().map(|s| s.to_string()).collect(), result.processed_count)
}

#[test]
fn a_bucket_falls_apart_by_content() {
    let disk: Disk = vec![("/1", Some("x")), ("/2", Some("y")), ("/3", Some("x")), ("/4", Some("y")), ("/5", Some("z"))];
    let (groups, skipped, processed) = resolve(&disk, true);
    assert_eq!(groups, vec![("hash of x".to_string(), texts(&["/1", "/3"])), ("hash of y".to_string(), texts(&["/2", "/4"]))]);
    assert!(skipped.is_empty());
    assert_eq!(processed, 5);
}

#[test]
fn a_bucket_of_equal_files_is_one_group() {
    let disk: Disk = vec![("/1", Some("x")), ("/2", Some("x")), ("/3", Some("x"))];
    let (groups, skipped, processed) = resolve(&disk, true);
    assert_eq!(groups, vec![("hash of x".to_string(), texts(&["/1", "/2", "/3"]))]);
    assert!(skipped.is_empty());
    assert_eq!(processed, 3);
}

#[test]
fn unreadable_files_are_skipped() {
    let disk: Disk = vec![("/1", None), ("/2", Some("x")), ("/3", None), ("/4", Some("x"))];
    let (groups, skipped, processed) = resolve(&disk, true);
    assert_eq!(groups, vec![("hash of x".to_string(), texts(&["/2", "/4"]))]);
    assert_eq!(skipped, texts(&["/1", "/3"]));
    assert_eq!(processed, 4);
}

#[test]
fn a_group_without_a_digest_is_skipped() {
    let disk: Disk = vec![("/1", Some("x")), ("/2", Some("x"))];
    let (groups, skipped, processed) = resolve(&disk, false);
    assert!(groups.is_empty());
    assert_eq!(skipped, texts(&["/1", "/2"]));
    assert_eq!(processed, 2);
}

#[test]
fn small_buckets_hold_no_group() {
    let (groups, skipped, processed) = resolve(&vec![("/1", None)], true);
    assert!(groups.is_empty() && skipped.is_empty());
    assert_eq!(processed, 1);
    let (groups, skipped, processed) = resolve(&Vec::new(), true);
    assert!(groups.is_empty() && skipped.is_empty());
    assert_eq!(processed, 0);
}

#[test]
fn a_file_on_its_own_has_its_digest_taken() {
    let piece = |disk: &Disk, hashable| {
        let paths: Vec<FilePath> = disk.iter().map(|(name, _)| path(name)).collect();
        answer(BucketResolver::resolve_piece(&paths), disk, hashable)
    };
    let one: Disk = vec![("/1", Some("x"))];
    assert_eq!(piece(&one, true), (vec![("hash of x".to_string(), texts(&["/1"]))], Vec::new(), 1));
    assert_eq!(piece(&one, false), (Vec::new(), texts(&["/1"]), 1));
    let two: Disk = vec![("/1", Some("x")), ("/2", Some("y"))];
    assert_eq!(piece(&two, true), resolve(&two, true));
}
