//! What holds of the tables and lists that a scan keeps and saves.

use vstd::prelude::*;

use crate::groups::{FolderV, GroupV};
use crate::manifest::{
    lemma_stamp_at, lemma_stamp_pos, row_stands, same_files, stamp_put, stamps_unique, time_pairs, ManifestRowV, StampV,
};
use crate::order::{lemma_order_exists, lemma_order_no_duplicates, stable_order_of};
use crate::paths::{PathId, PathV};
use crate::results::{
    file_rows, folder_group_row, folder_rows, has_group, kept_index, loaded, of_group, paths_of_group, run_rows,
    GroupRowV, PathRowV,
};
use crate::resume::{
    distinct_paths, lemma_root_put, load_rows, nothing_loaded, readable, root_key_of, root_key_put, sorted_by_text,
    state_of, RootKeyV, RowV,
};
use crate::resuming::lemma_distinct_ids;
use crate::tables::{
    added, all_paths, distinct, extended, keys_unique, lemma_pos, lemma_pos_is, paths_under, pos, put, without, BucketV,
    TableV,
};
use crate::walk::{ids_of, lemma_ids_concat, lemma_ids_has};

verus! {

// ----------------------------------------------------------------------- the tables

/// A path that is added under a key is the last under that key; nothing changes under the
/// others.
pub proof fn law_paths_are_added(t: TableV, key: Seq<char>, size: u64, path: PathV, other: Seq<char>)
    requires
        keys_unique(t),
    ensures
        paths_under(added(t, key, size, path), key) == paths_under(t, key).push(path),
        other != key ==> paths_under(added(t, key, size, path), other) == paths_under(t, other),
{
    let n = added(t, key, size, path);
    lemma_pos(t, key);
    lemma_pos(n, key);
    lemma_pos(t, other);
    lemma_pos(n, other);
    crate::tables::lemma_added_unique(t, key, size, path);
    let p = pos(t, key);
    lemma_pos_is(n, p);
    if other != key && pos(t, other) < t.len() {
        lemma_pos_is(n, pos(t, other));
    }
    if other != key && pos(n, other) < n.len() && pos(t, other) == t.len() {
        assert(t[pos(n, other)].key == other);
    }
    assert(Seq::<PathV>::empty().push(path) =~= seq![path]);
}

/// Paths that are put under a key are then all that is under it.
pub proof fn law_paths_are_put(t: TableV, key: Seq<char>, size: u64, paths: Seq<PathV>, other: Seq<char>)
    requires
        keys_unique(t),
    ensures
        paths_under(put(t, key, size, paths), key) == paths,
        other != key ==> paths_under(put(t, key, size, paths), other) == paths_under(t, other),
{
    let n = put(t, key, size, paths);
    lemma_pos(t, key);
    lemma_pos(n, key);
    lemma_pos(t, other);
    lemma_pos(n, other);
    crate::tables::lemma_put_unique(t, key, size, paths);
    lemma_pos_is(n, pos(t, key));
    if other != key && pos(t, other) < t.len() {
        lemma_pos_is(n, pos(t, other));
    }
    if other != key && pos(n, other) < n.len() && pos(t, other) == t.len() {
        assert(t[pos(n, other)].key == other);
    }
}

/// Paths that a key is extended by follow those under it.
pub proof fn law_paths_are_appended(t: TableV, key: Seq<char>, paths: Seq<PathV>, other: Seq<char>)
    requires
        keys_unique(t),
    ensures
        paths_under(extended(t, key, paths), key) == paths_under(t, key) + paths,
        other != key ==> paths_under(extended(t, key, paths), other) == paths_under(t, other),
{
    let n = extended(t, key, paths);
    lemma_pos(t, key);
    lemma_pos(n, key);
    lemma_pos(t, other);
    lemma_pos(n, other);
    crate::tables::lemma_extended_unique(t, key, paths);
    lemma_pos_is(n, pos(t, key));
    if other != key && pos(t, other) < t.len() {
        lemma_pos_is(n, pos(t, other));
    }
    if other != key && pos(n, other) < n.len() && pos(t, other) == t.len() {
        assert(t[pos(n, other)].key == other);
    }
    assert(Seq::<PathV>::empty() + paths =~= paths);
}

/// Dropping keys leaves all that is under the others, in its order.
pub proof fn law_keys_are_dropped(t: TableV, keys: Set<Seq<char>>)
    ensures
        without(t, keys) == t.filter(|b: BucketV| !keys.contains(b.key)),
    decreases t.len(),
{
    reveal(Seq::filter);
    if t.len() > 0 {
        law_keys_are_dropped(t.drop_last(), keys);
    }
}

/// The paths of a table are those under its keys.
pub proof fn law_all_paths_are_listed(t: TableV, path: PathV)
    ensures
        all_paths(t).contains(path) <==> exists|b: int| 0 <= b < t.len() && (#[trigger] t[b]).paths.contains(path),
    decreases t.len(),
{
    if t.len() > 0 {
        let s = t.drop_last();
        let n = t.len() - 1;
        law_all_paths_are_listed(s, path);
        let (before, mine, all) = (all_paths(s), t.last().paths, all_paths(t));
        if all.contains(path) {
            let i = choose|i: int| 0 <= i < all.len() && all[i] == path;
            if i < before.len() {
                assert(before[i] == path);
                let b = choose|b: int| 0 <= b < s.len() && (#[trigger] s[b]).paths.contains(path);
                assert(t[b].paths.contains(path));
            } else {
                assert(mine[i - before.len()] == path);
                assert(t[n].paths.contains(path));
            }
        }
        if exists|b: int| 0 <= b < t.len() && (#[trigger] t[b]).paths.contains(path) {
            let b = choose|b: int| 0 <= b < t.len() && (#[trigger] t[b]).paths.contains(path);
            if b < n {
                assert(s[b].paths.contains(path));
                let i = choose|i: int| 0 <= i < before.len() && before[i] == path;
                assert(all[i] == path);
            } else {
                let i = choose|i: int| 0 <= i < mine.len() && mine[i] == path;
                assert(all[before.len() + i] == path);
            }
        }
    }
}

/// Of texts that come up more than once, each is kept once, and none is lost.
pub proof fn law_texts_are_kept_once(list: Seq<Seq<char>>, text: Seq<char>)
    ensures
        distinct(list).no_duplicates(),
        distinct(list).contains(text) <==> list.contains(text),
    decreases list.len(),
{
    if list.len() > 0 {
        let s = list.drop_last();
        let x = list.last();
        law_texts_are_kept_once(s, text);
        law_texts_are_kept_once(s, x);
        let (before, all) = (distinct(s), distinct(list));
        assert(list[list.len() - 1] == x);
        if s.contains(text) {
            let i = choose|i: int| 0 <= i < s.len() && s[i] == text;
            assert(list[i] == text);
        }
        if list.contains(text) && text != x {
            let i = choose|i: int| 0 <= i < list.len() && list[i] == text;
            assert(s[i] == text);
        }
        if !before.contains(x) {
            assert(all[before.len() as int] == x);
            if before.contains(text) {
                let i = choose|i: int| 0 <= i < before.len() && before[i] == text;
                assert(all[i] == text);
            }
            if all.contains(text) && text != x {
                let i = choose|i: int| 0 <= i < all.len() && all[i] == text;
                assert(before[i] == text);
            }
            assert forall|i: int, j: int| 0 <= i < all.len() && 0 <= j < all.len() && i != j implies all[i] != all[j] by {
                if i < before.len() {
                    assert(before.contains(before[i]));
                }
                if j < before.len() {
                    assert(before.contains(before[j]));
                }
            }
        }
    }
}

/// The runs that can be taken up again are those whose record could be read.
pub proof fn law_readable_runs_can_be_resumed(found: Seq<Option<Seq<char>>>, run: Seq<char>)
    ensures
        distinct(readable(found)).contains(run) <==> found.contains(Some(run)),
        distinct(readable(found)).no_duplicates(),
{
    lemma_readable(found, run);
    law_texts_are_kept_once(readable(found), run);
}

proof fn lemma_readable(found: Seq<Option<Seq<char>>>, run: Seq<char>)
    ensures
        readable(found).contains(run) <==> found.contains(Some(run)),
    decreases found.len(),
{
    if found.len() > 0 {
        let s = found.drop_last();
        lemma_readable(s, run);
        let (before, all) = (readable(s), readable(found));
        assert(found[found.len() - 1] == found.last());
        if s.contains(Some(run)) {
            let i = choose|i: int| 0 <= i < s.len() && s[i] == Some(run);
            assert(found[i] == Some(run));
        }
        if found.contains(Some(run)) && found.last() != Some(run) {
            let i = choose|i: int| 0 <= i < found.len() && found[i] == Some(run);
            assert(s[i] == Some(run));
        }
        if found.last() is Some {
            let x = found.last().unwrap();
            assert(all[before.len() as int] == x);
            if before.contains(run) {
                let i = choose|i: int| 0 <= i < before.len() && before[i] == run;
                assert(all[i] == run);
            }
            if all.contains(run) && run != x {
                let i = choose|i: int| 0 <= i < all.len() && all[i] == run;
                assert(before[i] == run);
            }
        }
    }
}

/// The key that is recorded for a directory is the last one that was.
pub proof fn law_last_root_key_counts(list: Seq<RootKeyV>, entry: RootKeyV, directory: Seq<char>)
    ensures
        root_key_of(root_key_put(list, entry), directory) == (if directory == entry.directory {
            Some(entry.key)
        } else {
            root_key_of(list, directory)
        }),
        root_key_of(Seq::empty(), directory) is None,
{
    lemma_root_put(list, entry, directory);
}

// ------------------------------------------------------------------------ the stamps

/// A stamp replaces the one of the same path; the others stay.
pub proof fn law_last_stamp_counts(list: Seq<StampV>, stamp: StampV, other: StampV)
    requires
        stamps_unique(list),
    ensures
        stamp_put(list, stamp).contains(other) <==> other == stamp || (list.contains(other) && other.path != stamp.path),
{
    lemma_stamp_pos(list, stamp.path);
    let p = crate::manifest::stamp_pos(list, stamp.path);
    let n = stamp_put(list, stamp);
    assert(n[p] == stamp);
    if list.contains(other) && other.path != stamp.path {
        let i = choose|i: int| 0 <= i < list.len() && list[i] == other;
        assert(n[i] == other);
    }
    if n.contains(other) && other != stamp {
        let i = choose|i: int| 0 <= i < n.len() && n[i] == other;
        assert(list[i] == other);
        if other.path == stamp.path {
            if p < i {
                assert(list[p].path != list[i].path);
            } else {
                assert(list[i].path != list[p].path);
            }
        }
    }
}

/// A saved file stands where a file of its path and size is there; all stand, and no more
/// are there than were saved, where nothing has come, gone or changed its size. The times
/// that are compared then are those of one file.
pub proof fn law_saved_files_are_compared(rows: Seq<ManifestRowV>, stamps: Seq<StampV>, i: int, j: int)
    requires
        stamps_unique(stamps),
        0 <= i < rows.len(),
        0 <= j < stamps.len(),
        stamps[j].path == rows[i].path,
    ensures
        row_stands(rows[i], stamps) <==> stamps[j].size as i64 == rows[i].size,
        time_pairs(rows, stamps).len() == rows.len(),
        time_pairs(rows, stamps)[i].current == stamps[j].mtime,
        time_pairs(rows, stamps)[i].saved == rows[i].mtime,
{
    lemma_stamp_at(stamps, j);
}

/// A file that is gone, or one that is new, or one of another size, is enough for a saved
/// scan not to stand.
pub proof fn law_changed_files_are_noticed(rows: Seq<ManifestRowV>, stamps: Seq<StampV>, i: int)
    requires
        0 <= i < rows.len(),
    ensures
        (forall|j: int|
            0 <= j < stamps.len() && (#[trigger] stamps[j]).path == rows[i].path ==> stamps[j].size as i64
                != rows[i].size) ==> !same_files(rows, stamps),
        rows.len() != stamps.len() ==> !same_files(rows, stamps),
{
    lemma_stamp_pos(stamps, rows[i].path);
    if same_files(rows, stamps) {
        assert(row_stands(rows[i], stamps));
        let p = crate::manifest::stamp_pos(stamps, rows[i].path);
        assert(stamps[p].path == rows[i].path);
    }
}

// --------------------------------------------------------------------- saved progress

/// The files that need no further work are those that were hashed in this stage or after
/// it, those that were skipped and those that were noted as done, whatever the order.
pub proof fn law_what_is_processed(directories: Seq<Seq<char>>, stage: Seq<char>, rows: Seq<RowV>, id: PathId)
    ensures
        ({
            let l = load_rows(nothing_loaded(), rows);
            let done = all_paths(l.by_full) + l.skipped + l.processed;
            distinct_paths((if stage == "full_hash"@ {
                Seq::empty()
            } else {
                all_paths(l.by_partial)
            }) + all_paths(l.by_full) + l.skipped + l.processed).len() <= usize::MAX ==> (ids_of(
                state_of(directories, stage, rows).processed,
            ).contains(id) <==> ids_of(done).contains(id) || (stage != "full_hash"@ && ids_of(
                all_paths(l.by_partial),
            ).contains(id)))
        }),
{
    let l = load_rows(nothing_loaded(), rows);
    let hashed = if stage == "full_hash"@ {
        Seq::empty()
    } else {
        all_paths(l.by_partial)
    };
    let all = hashed + all_paths(l.by_full) + l.skipped + l.processed;
    let once = distinct_paths(all);
    if once.len() <= usize::MAX {
        lemma_distinct_ids(all);
        lemma_sorted_ids(once, id);
        lemma_ids_concat(hashed + all_paths(l.by_full) + l.skipped, l.processed);
        lemma_ids_concat(hashed + all_paths(l.by_full), l.skipped);
        lemma_ids_concat(hashed, all_paths(l.by_full));
        lemma_ids_concat(all_paths(l.by_full) + l.skipped, l.processed);
        lemma_ids_concat(all_paths(l.by_full), l.skipped);
        lemma_ids_has(Seq::empty(), id);
    }
}

proof fn lemma_sorted_ids(list: Seq<PathV>, id: PathId)
    requires
        list.len() <= usize::MAX,
    ensures
        ids_of(sorted_by_text(list)).contains(id) <==> ids_of(list).contains(id),
{
    let keys = list.map_values(|p: PathV| crate::order::text_key(p.text));
    lemma_order_exists(keys);
    let perm = stable_order_of(keys);
    lemma_order_no_duplicates(keys, perm);
    let out = sorted_by_text(list);
    lemma_ids_has(list, id);
    lemma_ids_has(out, id);
    if ids_of(out).contains(id) {
        let i = choose|i: int| 0 <= i < out.len() && (#[trigger] out[i]).parts == id;
        assert(list[perm[i] as int].parts == id);
    }
    if ids_of(list).contains(id) {
        let j = choose|j: int| 0 <= j < list.len() && (#[trigger] list[j]).parts == id;
        let i = crate::order::lemma_covers(perm, j);
        assert(out[i].parts == id);
    }
}

pub proof fn lemma_list_names()
    ensures
        "by_size"@ != "by_partial"@,
        "by_size"@ != "by_full"@,
        "by_size"@ != "skipped"@,
        "by_size"@ != "completed_dirs"@,
        "by_size"@ != "root_keys"@,
        "by_size"@ != "processed"@,
        "by_partial"@ != "by_full"@,
        "by_partial"@ != "skipped"@,
        "by_partial"@ != "completed_dirs"@,
        "by_partial"@ != "root_keys"@,
        "by_partial"@ != "processed"@,
        "by_full"@ != "skipped"@,
        "by_full"@ != "completed_dirs"@,
        "by_full"@ != "root_keys"@,
        "by_full"@ != "processed"@,
        "skipped"@ != "completed_dirs"@,
        "skipped"@ != "root_keys"@,
        "skipped"@ != "processed"@,
        "completed_dirs"@ != "root_keys"@,
        "completed_dirs"@ != "processed"@,
        "root_keys"@ != "processed"@,
{
    reveal_strlit("by_size");
    reveal_strlit("by_partial");
    reveal_strlit("by_full");
    reveal_strlit("skipped");
    reveal_strlit("completed_dirs");
    reveal_strlit("root_keys");
    reveal_strlit("processed");
    assert("by_partial"@.len() == 10 && "completed_dirs"@.len() == 14 && "root_keys"@.len() == 9);
    assert("by_size"@[3] == 's' && "by_full"@[3] == 'f');
    assert("by_size"@[0] == 'b' && "skipped"@[0] == 's' && "by_full"@[0] == 'b');
    assert("root_keys"@[0] == 'r' && "processed"@[0] == 'p');
}

/// The rows of a list, in their order.
pub open spec fn rows_named(rows: Seq<RowV>, name: Seq<char>) -> Seq<RowV> {
    rows.filter(|r: RowV| r.list_name == name)
}

/// The paths of a list under a key, in their order.
pub open spec fn paths_named(rows: Seq<RowV>, name: Seq<char>, key: Seq<char>) -> Seq<PathV> {
    rows.filter(|r: RowV| r.list_name == name && r.key == key).map_values(|r: RowV| r.path)
}

/// What is read of saved progress is what the rows of each name say, in their order.
pub proof fn law_saved_rows_are_read(rows: Seq<RowV>, key: Seq<char>)
    ensures
        ({
            let l = load_rows(nothing_loaded(), rows);
            &&& keys_unique(l.by_size) && keys_unique(l.by_partial) && keys_unique(l.by_full)
            &&& paths_under(l.by_size, key) == paths_named(rows, "by_size"@, key)
            &&& paths_under(l.by_partial, key) == paths_named(rows, "by_partial"@, key)
            &&& paths_under(l.by_full, key) == paths_named(rows, "by_full"@, key)
            &&& l.skipped == rows_named(rows, "skipped"@).map_values(|r: RowV| r.path)
            &&& l.processed == rows_named(rows, "processed"@).map_values(|r: RowV| r.path)
            &&& l.completed_dirs == rows_named(rows, "completed_dirs"@).map_values(|r: RowV| r.path.text)
        }),
    decreases rows.len(),
{
    reveal(Seq::filter);
    lemma_list_names();
    if rows.len() == 0 {
        let l = load_rows(nothing_loaded(), rows);
        lemma_pos(l.by_size, key);
        assert(paths_named(rows, "by_size"@, key) =~= Seq::<PathV>::empty());
        assert(paths_named(rows, "by_partial"@, key) =~= Seq::<PathV>::empty());
        assert(paths_named(rows, "by_full"@, key) =~= Seq::<PathV>::empty());
        assert(rows_named(rows, "skipped"@).map_values(|r: RowV| r.path) =~= Seq::<PathV>::empty());
        assert(rows_named(rows, "processed"@).map_values(|r: RowV| r.path) =~= Seq::<PathV>::empty());
        assert(rows_named(rows, "completed_dirs"@).map_values(|r: RowV| r.path.text) =~= Seq::<Seq<char>>::empty());
    } else {
        let s = rows.drop_last();
        let row = rows.last();
        law_saved_rows_are_read(s, key);
        let (b, l) = (load_rows(nothing_loaded(), s), load_rows(nothing_loaded(), rows));
        lemma_named_push(s, row, "by_size"@, key);
        lemma_named_push(s, row, "by_partial"@, key);
        lemma_named_push(s, row, "by_full"@, key);
        lemma_rows_push(s, row, "skipped"@);
        lemma_rows_push(s, row, "processed"@);
        lemma_rows_push(s, row, "completed_dirs"@);
        assert(s.push(row) =~= rows);
        if row.list_name == "by_size"@ {
            law_paths_are_added(b.by_size, row.key, 0, row.path, key);
            crate::tables::lemma_added_unique(b.by_size, row.key, 0, row.path);
        } else if row.list_name == "by_partial"@ {
            law_paths_are_added(b.by_partial, row.key, 0, row.path, key);
            crate::tables::lemma_added_unique(b.by_partial, row.key, 0, row.path);
        } else if row.list_name == "by_full"@ {
            law_paths_are_added(b.by_full, row.key, 0, row.path, key);
            crate::tables::lemma_added_unique(b.by_full, row.key, 0, row.path);
        }
    }
}

proof fn lemma_named_push(s: Seq<RowV>, row: RowV, name: Seq<char>, key: Seq<char>)
    ensures
        paths_named(s.push(row), name, key) == (if row.list_name == name && row.key == key {
            paths_named(s, name, key).push(row.path)
        } else {
            paths_named(s, name, key)
        }),
{
    reveal(Seq::filter);
    let keep = |r: RowV| r.list_name == name && r.key == key;
    assert(s.push(row).drop_last() =~= s);
    assert(s.filter(keep).push(row).map_values(|r: RowV| r.path) =~= s.filter(keep).map_values(|r: RowV| r.path).push(
        row.path,
    ));
}

proof fn lemma_rows_push(s: Seq<RowV>, row: RowV, name: Seq<char>)
    ensures
        rows_named(s.push(row), name).map_values(|r: RowV| r.path) == (if row.list_name == name {
            rows_named(s, name).map_values(|r: RowV| r.path).push(row.path)
        } else {
            rows_named(s, name).map_values(|r: RowV| r.path)
        }),
        rows_named(s.push(row), name).map_values(|r: RowV| r.path.text) == (if row.list_name == name {
            rows_named(s, name).map_values(|r: RowV| r.path.text).push(row.path.text)
        } else {
            rows_named(s, name).map_values(|r: RowV| r.path.text)
        }),
{
    reveal(Seq::filter);
    let keep = |r: RowV| r.list_name == name;
    assert(s.push(row).drop_last() =~= s);
    assert(s.filter(keep).push(row).map_values(|r: RowV| r.path) =~= s.filter(keep).map_values(|r: RowV| r.path).push(
        row.path,
    ));
    assert(s.filter(keep).push(row).map_values(|r: RowV| r.path.text) =~= s.filter(keep).map_values(
        |r: RowV| r.path.text,
    ).push(row.path.text));
}

// ---------------------------------------------------------------------- saved results

/// Whether no two rows are of one group.
pub open spec fn groups_once(rows: Seq<GroupRowV>) -> bool {
    forall|i: int, j: int|
        0 <= i < j < rows.len() ==> (#[trigger] rows[i]).kind != (#[trigger] rows[j]).kind || rows[i].idx != rows[j].idx
}

/// The paths of a saved group, in their order.
pub open spec fn saved_paths(paths: Seq<PathRowV>, row: GroupRowV) -> Seq<PathV> {
    paths.filter(|p: PathRowV| p.kind == row.kind && p.idx == row.idx).map_values(|p: PathRowV| p.path)
}

pub open spec fn file_group_of(row: GroupRowV, paths: Seq<PathRowV>) -> GroupV {
    GroupV {
        file_hash: match row.file_hash {
            Some(h) => h,
            None => Seq::empty(),
        },
        size: row.size as u64,
        paths: saved_paths(paths, row),
        confirmed: row.confirmed,
    }
}

pub open spec fn folder_group_of(row: GroupRowV, paths: Seq<PathRowV>) -> FolderV {
    FolderV {
        paths: saved_paths(paths, row),
        file_count: match row.file_count {
            Some(n) => n as usize,
            None => 0,
        },
        size: row.size as u64,
        confirmed: row.confirmed,
    }
}

/// Each saved row of a group of files is read as such a group with what it says and with
/// the paths of that group, and every other row as a group of folders, in their order.
pub proof fn law_saved_groups_are_read(rows: Seq<GroupRowV>, paths: Seq<PathRowV>)
    requires
        groups_once(rows),
    ensures
        loaded(rows, paths).groups == rows.filter(|r: GroupRowV| r.kind == "file"@).map_values(
            |r: GroupRowV| file_group_of(r, paths),
        ),
        loaded(rows, paths).folder_groups == rows.filter(|r: GroupRowV| r.kind != "file"@).map_values(
            |r: GroupRowV| folder_group_of(r, paths),
        ),
    decreases rows.len(),
{
    reveal(Seq::filter);
    let f = |r: GroupRowV| file_group_of(r, paths);
    let d = |r: GroupRowV| folder_group_of(r, paths);
    let is_file = |r: GroupRowV| r.kind == "file"@;
    let is_other = |r: GroupRowV| r.kind != "file"@;
    if rows.len() > 0 {
        let s = rows.drop_last();
        let row = rows.last();
        let n = rows.len() - 1;
        assert(groups_once(s)) by {
            assert forall|i: int, j: int| 0 <= i < j < s.len() implies (#[trigger] s[i]).kind != (#[trigger] s[j]).kind
                || s[i].idx != s[j].idx by {
                assert(rows[i].kind != rows[j].kind || rows[i].idx != rows[j].idx);
            }
        }
        law_saved_groups_are_read(s, paths);
        assert(!has_group(s, row.kind, row.idx)) by {
            assert forall|i: int| 0 <= i < s.len() implies (#[trigger] s[i]).kind != row.kind || s[i].idx != row.idx by {
                assert(rows[i].kind != rows[n].kind || rows[i].idx != rows[n].idx);
            }
        }
        assert(of_group(row.kind, row.idx) =~= (|p: PathRowV| p.kind == row.kind && p.idx == row.idx));
        assert(paths_of_group(paths, row.kind, row.idx) == saved_paths(paths, row));
        assert(s.filter(is_file).push(row).map_values(f) =~= s.filter(is_file).map_values(f).push(f(row)));
        assert(s.filter(is_other).push(row).map_values(d) =~= s.filter(is_other).map_values(d).push(d(row)));
    }
}

proof fn lemma_file_rows(groups: Seq<GroupV>, g: int)
    requires
        0 <= g < groups.len(),
    ensures
        file_rows(groups).groups.len() == groups.len(),
        file_rows(groups).groups[g].idx == kept_index(g),
        file_rows(groups).groups[g].kind == "file"@,
        file_rows(groups).groups[g].file_hash == Some(groups[g].file_hash),
        file_rows(groups).groups[g].size == groups[g].size as i64,
        file_rows(groups).groups[g].confirmed == groups[g].confirmed,
        forall|k: int|
            0 <= k < groups[g].paths.len() ==> file_rows(groups).paths.contains(
                PathRowV {
                    idx: kept_index(g),
                    kind: "file"@,
                    seq: kept_index(k),
                    path: #[trigger] groups[g].paths[k],
                },
            ),
    decreases groups.len(),
{
    let s = groups.drop_last();
    let n = groups.len() - 1;
    if s.len() > 0 {
        lemma_file_rows(s, if g < n {
            g
        } else {
            0
        });
    }
    let (before, all) = (file_rows(s), file_rows(groups));
    assert forall|k: int| 0 <= k < groups[g].paths.len() implies all.paths.contains(
        PathRowV { idx: kept_index(g), kind: "file"@, seq: kept_index(k), path: #[trigger] groups[g].paths[k] },
    ) by {
        let row = PathRowV { idx: kept_index(g), kind: "file"@, seq: kept_index(k), path: groups[g].paths[k] };
        if g < n {
            assert(s[g].paths[k] == groups[g].paths[k]);
            assert(before.paths.contains(row));
            let i = choose|i: int| 0 <= i < before.paths.len() && before.paths[i] == row;
            assert(all.paths[i] == row);
        } else {
            assert(all.paths[before.paths.len() + k] == row);
        }
    }
}

proof fn lemma_folder_rows(groups: Seq<FolderV>, g: int)
    requires
        0 <= g < groups.len(),
    ensures
        folder_rows(groups).groups.len() == groups.len(),
        folder_rows(groups).groups[g].idx == kept_index(g),
        folder_rows(groups).groups[g].kind == "folder"@,
        folder_rows(groups).groups[g].file_count == Some(kept_index(groups[g].file_count as int)),
        folder_rows(groups).groups[g].size == groups[g].size as i64,
        folder_rows(groups).groups[g].confirmed == groups[g].confirmed,
    decreases groups.len(),
{
    let s = groups.drop_last();
    let n = groups.len() - 1;
    if s.len() > 0 {
        lemma_folder_rows(s, if g < n {
            g
        } else {
            0
        });
    }
    let before = folder_rows(s);
    assert(folder_rows(groups).groups == before.groups.push(folder_group_row(n, groups.last())));
    assert(before.groups.len() == n);
}

/// A group of files is saved under its number, with its hash, its size, how sure it is and
/// all its paths.
pub proof fn law_groups_are_saved(groups: Seq<GroupV>, folders: Seq<FolderV>, g: int, k: int)
    requires
        0 <= g < groups.len(),
        0 <= k < groups[g].paths.len(),
    ensures
        ({
            let rows = run_rows(groups, folders);
            let row = rows.groups[g];
            &&& rows.groups.len() == groups.len() + folders.len()
            &&& g <= i64::MAX ==> row.idx == g
            &&& row.kind == "file"@
            &&& row.file_hash == Some(groups[g].file_hash)
            &&& row.size == groups[g].size as i64
            &&& row.confirmed == groups[g].confirmed
            &&& g <= i64::MAX && k <= i64::MAX ==> rows.paths.contains(
                PathRowV { idx: g as i64, kind: "file"@, seq: k as i64, path: groups[g].paths[k] },
            )
        }),
{
    lemma_file_rows(groups, g);
    if folders.len() > 0 {
        lemma_folder_rows(folders, 0);
    }
    let rows = run_rows(groups, folders);
    if g <= i64::MAX && k <= i64::MAX {
        assert((g as u64) as i64 == g);
        assert((k as u64) as i64 == k);
        let row = PathRowV { idx: g as i64, kind: "file"@, seq: k as i64, path: groups[g].paths[k] };
        let mine = file_rows(groups).paths;
        assert(mine.contains(row));
        let i = choose|i: int| 0 <= i < mine.len() && mine[i] == row;
        assert(rows.paths[i] == row);
    } else if g <= i64::MAX {
        assert((g as u64) as i64 == g);
    }
}

/// A group of folders is saved behind the groups of files, with what is told of it.
pub proof fn law_folders_are_saved(groups: Seq<GroupV>, folders: Seq<FolderV>, g: int)
    requires
        0 <= g < folders.len(),
    ensures
        ({
            let rows = run_rows(groups, folders);
            let row = rows.groups[groups.len() + g];
            &&& rows.groups.len() == groups.len() + folders.len()
            &&& row.kind == "folder"@
            &&& row.size == folders[g].size as i64
            &&& row.confirmed == folders[g].confirmed
            &&& folders[g].file_count <= i64::MAX ==> row.file_count == Some(folders[g].file_count as i64)
        }),
{
    lemma_folder_rows(folders, g);
    if groups.len() > 0 {
        lemma_file_rows(groups, 0);
    }
    let n = folders[g].file_count as int;
    if n <= i64::MAX {
        assert((n as u64) as i64 == n);
    }
}

} // verus!
