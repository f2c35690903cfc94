use file_sorter::digest::{
    compare_chunks, digest_of, hex_text, partial_hash, read_chunk, ChunkVerdict, ContentHasher, ReadOutcome, ReadStep,
    FULL_READ_CHUNK_SIZE, PARTIAL_CHUNK_SIZE,
};
use file_sorter::groups::{partial_key, plus_wrapping, rank_groups, times_saturating, times_wrapping, DuplicateGroup};
use file_sorter::json::{decode_texts, encode_texts};
use file_sorter::order::{key_of_bytes, lex_less, sort_texts, stable_order};
use file_sorter::paths::{extension_of_name, FilePath, PartKind, PathMap, PathPart, PathSet};
use file_sorter::progress::Progress;
use file_sorter::text::{
    bytes_of, chars_of, concat2, concat3, copy_texts, count_text, decimal_text, join, list_contains, pair_key_text,
    parse_count, parse_number, parse_u64, signed_text, split_at_first, text_of,
};

const EMPTY_DIGEST: &str = "e3b0c44298fc1c149afbf4c8996fb92427ae41e4649b934ca495991b7852b855";
const ABC_DIGEST: &str = "ba7816bf8f01cfea414140de5dae2223b00361a396177a9cb410ff61f20015ad";

fn texts(list: &[&str]) -> Vec<String> {
    list.iter().map(|s| s.to_string()).collect()
}

fn path(s: &str) -> FilePath {
    let mut parts = Vec::new();
    if s.starts_with('/') {
        parts.push(PathPart { kind: PartKind::RootDir, name: Vec::new() });
    }
    for name in s.split('/').filter(|n| !n.is_empty()) {
        parts.push(match name {
            ".." => PathPart { kind: PartKind::ParentDir, name: Vec::new() },
            "." => PathPart { kind: PartKind::CurDir, name: Vec::new() },
            _ => PathPart::named(name.as_bytes().to_vec()),
        });
    }
    FilePath::new(s.to_string(), parts)
}

// ------------------------------------------------------------------------ text

#[test]
fn decimals_are_written_and_read_back() {
    for n in [0, 1, 9, 10, 99, 100, 65535, u64::MAX - 1, u64::MAX] {
        assert_eq!(decimal_text(n), n.to_string());
        assert_eq!(parse_u64(&decimal_text(n)), Some(n));
    }
    assert_eq!(count_text(1234), "1234");
}

#[test]
fn numbers_are_read_as_std_reads_them() {
    let cases = [
        "", "+", "-", "-1", "+7", "007", "12a", " 3", "3 ", "1.5", "18446744073709551615", "18446744073709551616",
        "99999999999999999999999", "++1", "\u{0663}",
    ];
    for s in cases {
        assert_eq!(parse_u64(s), s.parse::<u64>().ok(), "{:?}", s);
        assert_eq!(parse_count(s), s.parse::<usize>().ok(), "{:?}", s);
    }
    assert_eq!(parse_number("255", 255), Some(255));
    assert_eq!(parse_number("256", 255), None);
}

#[test]
fn signed_numbers_are_written() {
    for n in [0, 5, -5, i64::MAX, i64::MIN] {
        assert_eq!(signed_text(n), n.to_string());
    }
}

#[test]
fn texts_are_joined_and_split() {
    assert_eq!(join(&texts(&[]), ", "), "");
    assert_eq!(join(&texts(&["a"]), ", "), "a");
    assert_eq!(join(&texts(&["a", "", "c"]), ", "), "a, , c");
    assert_eq!(split_at_first("12:ab:cd", ':'), Some(("12".to_string(), "ab:cd".to_string())));
    assert_eq!(split_at_first(":", ':'), Some((String::new(), String::new())));
    assert_eq!(split_at_first("none", ':'), None);
    assert_eq!(concat2("a", "b"), "ab");
    assert_eq!(concat3("a", "", "c"), "ac");
}

#[test]
fn texts_are_taken_apart() {
    let chars = chars_of("h\u{e9}!");
    assert_eq!(chars, vec!['h', '\u{e9}', '!']);
    assert_eq!(text_of(&chars, 1, 3), "\u{e9}!");
    assert_eq!(text_of(&chars, 2, 2), "");
    assert_eq!(bytes_of("h\u{e9}"), vec![0x68, 0xc3, 0xa9]);
}

#[test]
fn lists_of_texts_are_searched_by_whole_text() {
    let list = texts(&["ab", "c"]);
    assert!(list_contains(&list, "ab"));
    assert!(!list_contains(&list, "a"));
    assert!(!list_contains(&list, ""));
    assert_eq!(copy_texts(&list), list);
}

#[test]
fn pairs_get_keys_of_their_own() {
    assert_ne!(pair_key_text("a", "bc"), pair_key_text("ab", "c"));
    assert_ne!(pair_key_text("", "1:a"), pair_key_text("1:", "a"));
    assert_eq!(pair_key_text("x", "y"), pair_key_text("x", "y"));
}

// ----------------------------------------------------------------------- order

#[test]
fn rows_sort_like_words() {
    assert!(lex_less(&vec![], &vec![0]));
    assert!(lex_less(&vec![1, 2], &vec![1, 3]));
    assert!(!lex_less(&vec![1, 2], &vec![1, 2]));
    assert!(!lex_less(&vec![2], &vec![1, 9]));
}

#[test]
fn equal_keys_keep_their_order() {
    let keys = vec![vec![3], vec![1], vec![3], vec![1], vec![2]];
    assert_eq!(stable_order(&keys), vec![1, 3, 4, 0, 2]);
    assert_eq!(stable_order(&Vec::new()), Vec::<usize>::new());
}

#[test]
fn texts_sort_by_their_bytes() {
    let list = texts(&["b", "\u{e9}", "B", "", "ba", "a"]);
    let mut by_std = list.clone();
    by_std.sort();
    assert_eq!(sort_texts(&list), by_std);
    assert_eq!(key_of_bytes(&[0, 255]), vec![0, 255]);
}

// ----------------------------------------------------------------------- paths

#[test]
fn paths_are_compared_part_by_part() {
    assert!(path("/a/b/c").starts_with(&path("/a/b")));
    assert!(path("/a/b").starts_with(&path("/a/b")));
    assert!(!path("/a/bc").starts_with(&path("/a/b")));
    assert!(!path("/a").starts_with(&path("/a/b")));
    assert!(path("/a/b").same(&path("/a//b")));
    assert!(!path("/a").same(&path("a")));
}

#[test]
fn parents_and_names() {
    let p = path("/home/user/a.jpg");
    assert_eq!(p.file_name(), Some(b"a.jpg".to_vec()));
    assert_eq!(p.parent().unwrap().text, "/home/user");
    assert_eq!(path("/home").parent().unwrap().text, "/");
    assert!(path("/").parent().is_none());
    assert!(path("/").file_name().is_none());
    assert!(path("/a/..").file_name().is_none());
    assert_eq!(path("a").parent().unwrap().text, "");
    assert_eq!(p.depth(), 4);
    assert_eq!(p.shown(), "/home/user/a.jpg");
}

#[test]
fn parents_of_untidy_paths_show_as_they_should() {
    let at = |text: &str, names: &[&str]| {
        let mut parts = vec![PathPart { kind: PartKind::RootDir, name: Vec::new() }];
        parts.extend(names.iter().map(|n| PathPart::named(n.as_bytes().to_vec())));
        FilePath::new(text.to_string(), parts)
    };
    assert_eq!(at("/a//b", &["a", "b"]).parent().unwrap().text, "/a");
    assert_eq!(at("/a/b/", &["a", "b"]).parent().unwrap().text, "/a");
    assert_eq!(at("/a/b/.", &["a", "b"]).parent().unwrap().text, "/a");
    assert_eq!(at("//b", &["b"]).parent().unwrap().text, "/");
    let drive = FilePath::new(
        "D:\\".to_string(),
        vec![
            PathPart { kind: PartKind::Prefix, name: b"D:".to_vec() },
            PathPart { kind: PartKind::RootDir, name: Vec::new() },
        ],
    );
    let below = drive.child(b"a".to_vec());
    assert_eq!(below.text, "D:\\a");
    assert_eq!(below.child(b"b".to_vec()).text, "D:\\a\\b");
    assert_eq!(below.child(b"b".to_vec()).parent().unwrap().text, "D:\\a");
    assert_eq!(below.parent().unwrap().text, "D:\\");
}

#[test]
fn children_are_shown_below_their_parent() {
    assert_eq!(path("/a").child(b"b".to_vec()).text, "/a/b");
    assert_eq!(path("/").child(b"b".to_vec()).text, "/b");
    assert!(path("/a").child(b"b".to_vec()).same(&path("/a/b")));
    let odd = path("/a").child(vec![b'x', 0xff]);
    assert_eq!(odd.text, "/a/x\u{fffd}");
    assert_eq!(odd.file_name(), Some(vec![b'x', 0xff]));
}

#[test]
fn extensions_follow_the_last_dot() {
    let ext = |s: &str| extension_of_name(s.as_bytes()).map(|e| String::from_utf8(e).unwrap());
    for name in ["a.txt", "a.tar.gz", "a", ".bashrc", ".a.b", "a.", "..", "...", "a..b", "."] {
        let by_std = std::path::Path::new(name).extension().map(|e| e.to_str().unwrap().to_string());
        assert_eq!(ext(name), by_std, "{}", name);
    }
}

#[test]
fn paths_sort_as_std_sorts_them() {
    let all = ["/", "/a", "/a/b", "/a.b", "/b", "a", "/a/b/c", "..", "/ab"];
    for x in all {
        for y in all {
            let ours = lex_less(&path(x).sort_key(), &path(y).sort_key());
            assert_eq!(ours, std::path::Path::new(x) < std::path::Path::new(y), "{} {}", x, y);
        }
    }
}

#[test]
fn path_sets_and_maps_go_by_parts() {
    let mut set = PathSet::new();
    assert!(set.insert(&path("/a/b")));
    assert!(!set.insert(&path("/a//b")));
    assert!(set.contains(&path("/a/b")));
    assert!(!set.contains(&path("/a")));
    let mut map: PathMap<u64> = PathMap::new();
    map.insert(&path("/a"), 1);
    map.insert(&path("/a"), 2);
    assert_eq!(map.get(&path("/a")), Some(&2));
    assert_eq!(map.get(&path("/b")), None);
}

// ---------------------------------------------------------------------- digest

#[test]
fn digests_are_those_of_sha256() {
    assert_eq!(digest_of(b""), Some(EMPTY_DIGEST.to_string()));
    assert_eq!(digest_of(b"abc"), Some(ABC_DIGEST.to_string()));
    assert_eq!(partial_hash(b"abc"), ABC_DIGEST);
}

#[test]
fn digests_do_not_depend_on_the_chunks() {
    let mut h = ContentHasher::new();
    assert!(h.feed(b"a"));
    assert!(h.feed(b""));
    assert!(h.feed(b"bc"));
    assert_eq!(h.finish(), ABC_DIGEST);
    assert_eq!(ContentHasher::new().finish(), EMPTY_DIGEST);
}

#[test]
fn bytes_are_shown_in_hex() {
    assert_eq!(hex_text(&vec![0x00, 0x0f, 0xa0, 0xff]), "000fa0ff");
}

#[test]
fn chunks_are_filled_over_several_reads() {
    assert_eq!(read_chunk(0, 10, ReadOutcome::Bytes(4)), ReadStep::Again(4));
    assert_eq!(read_chunk(4, 10, ReadOutcome::Interrupted), ReadStep::Again(4));
    assert_eq!(read_chunk(4, 10, ReadOutcome::Bytes(6)), ReadStep::Complete(10));
    assert_eq!(read_chunk(4, 10, ReadOutcome::Bytes(0)), ReadStep::Complete(4));
    assert_eq!(read_chunk(4, 10, ReadOutcome::Failed), ReadStep::Fail);
    assert_eq!(PARTIAL_CHUNK_SIZE, 8192);
    assert_eq!(FULL_READ_CHUNK_SIZE, 1024 * 1024);
}

#[test]
fn chunks_tell_whether_files_are_equal() {
    assert_eq!(compare_chunks(b"ab", b"ab"), ChunkVerdict::Continue);
    assert_eq!(compare_chunks(b"ab", b"ac"), ChunkVerdict::Differ);
    assert_eq!(compare_chunks(b"ab", b"abc"), ChunkVerdict::Differ);
    assert_eq!(compare_chunks(b"", b""), ChunkVerdict::Same);
    assert_eq!(compare_chunks(b"", b"a"), ChunkVerdict::Differ);
}

#[test]
fn comparing_chunk_by_chunk_is_comparing_contents() {
    let contents: [&[u8]; 5] = [b"", b"abcd", b"abce", b"abcdef", b"abcdef"];
    for a in contents {
        for b in contents {
            let mut at = 0;
            let equal = loop {
                let ca = &a[at.min(a.len())..(at + 3).min(a.len())];
                let cb = &b[at.min(b.len())..(at + 3).min(b.len())];
                match compare_chunks(ca, cb) {
                    ChunkVerdict::Differ => break false,
                    ChunkVerdict::Same => break true,
                    ChunkVerdict::Continue => at += 3,
                }
            };
            assert_eq!(equal, a == b);
        }
    }
}

// ------------------------------------------------------------------------ json

#[test]
fn lists_of_texts_go_through_json() {
    let list = texts(&["/a \"b\"", "c\\d", "\u{e9}\n", ""]);
    let json = encode_texts(&list).unwrap();
    assert_eq!(json, "[\"/a \\\"b\\\"\",\"c\\\\d\",\"\u{e9}\\n\",\"\"]");
    assert_eq!(decode_texts(&json), list);
    assert_eq!(encode_texts(&Vec::new()), Some("[]".to_string()));
}

#[test]
fn what_is_no_list_of_texts_reads_as_none() {
    for json in ["", "{}", "[1]", "[\"a\"", "null"] {
        assert!(decode_texts(json).is_empty(), "{:?}", json);
    }
    assert_eq!(decode_texts(" [ \"a\" ] "), texts(&["a"]));
}

// ---------------------------------------------------------------------- groups

fn group(hash: &str, size: u64, paths: &[&str]) -> DuplicateGroup {
    DuplicateGroup {
        file_hash: hash.to_string(),
        size,
        paths: paths.iter().map(|p| path(p)).collect(),
        confirmed: true,
    }
}

#[test]
fn partial_keys_hold_the_size_and_the_hash() {
    assert_eq!(partial_key(12, "ab:c"), "12:ab:c");
    assert_eq!(split_at_first(&partial_key(7, "x:y"), ':'), Some(("7".to_string(), "x:y".to_string())));
}

#[test]
fn groups_that_take_up_most_come_first() {
    let groups =
        vec![group("a", 10, &["/1", "/2"]), group("b", 30, &["/3", "/4"]), group("c", 20, &["/5", "/6", "/7"]), group("d", 5, &["/8", "/9"])];
    let ranked: Vec<String> = rank_groups(&groups).into_iter().map(|g| g.file_hash).collect();
    assert_eq!(ranked, texts(&["b", "c", "a", "d"]));
    let huge = vec![group("small", 1, &["/1", "/2"]), group("huge", u64::MAX, &["/3", "/4"])];
    assert_eq!(rank_groups(&huge)[0].file_hash, "huge");
}

#[test]
fn products_saturate_or_wrap() {
    assert_eq!(times_saturating(u64::MAX, 2), u64::MAX);
    assert_eq!(times_saturating(6, 7), 42);
    assert_eq!(times_wrapping(u64::MAX, 2), u64::MAX.wrapping_mul(2));
    assert_eq!(plus_wrapping(u64::MAX, 3), 2);
}

// -------------------------------------------------------------------- progress

const SECOND: u64 = 1_000_000_000;

#[test]
fn the_first_update_reports_and_the_next_wait() {
    let mut p = Progress::new("Scanning", None, true, false);
    assert_eq!(p.update(1, 5 * SECOND), Some("Scanning: 1\n".to_string()));
    assert_eq!(p.update(1, 5 * SECOND + 199_999_999), None);
    assert_eq!(p.update(1, 5 * SECOND + 200_000_000), Some("Scanning: 3\n".to_string()));
    assert_eq!(p.count(), 3);
    assert_eq!(p.close(), Some("Scanning: 3\n".to_string()));
}

#[test]
fn a_terminal_line_is_rewritten() {
    let mut p = Progress::new("Quick hash", Some(40), true, true);
    assert_eq!(p.update(4, 0), Some("\r\u{1b}[KQuick hash: 4/40".to_string()));
    assert_eq!(p.close(), Some("\r\u{1b}[KQuick hash: 4/40\n".to_string()));
}

#[test]
fn disabled_progress_only_counts() {
    let mut p = Progress::new("Scanning", None, false, false);
    assert_eq!(p.update(2, 0), None);
    assert_eq!(p.update(3, 10 * SECOND), None);
    assert_eq!(p.count(), 5);
    assert_eq!(p.close(), None);
}
