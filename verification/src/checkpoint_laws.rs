//! What holds of saved progress after a checkpoint was added to it.

use vstd::prelude::*;

use crate::paths::PathV;
use crate::resume::{
    completed_rows, delta_rows, entry_rows, is_stage, is_table_name, lemma_load_completed, lemma_load_concat,
    lemma_load_lists, lemma_load_processed, lemma_load_roots, lemma_load_skipped, lemma_root_put, list_added,
    list_of_stage, lists_added, lists_rows, load_rows, missing_lists, missing_paths, missing_roots, nothing_loaded,
    processed_rows, root_key_of, root_rows, roots_added, roots_unique, rows_after, skipped_rows, table_named, texts_of,
    with_table, DeltaV, EntryV, LoadV, RootKeyV, RowV,
};
use crate::table_laws::{law_paths_are_added, law_saved_rows_are_read, lemma_list_names};
use crate::tables::{added, keys_unique, lemma_added_unique, paths_under, ListV, TableV};

verus! {

/// The paths of some entries under a key, in their order.
pub open spec fn entries_under(entries: Seq<EntryV>, key: Seq<char>) -> Seq<PathV> {
    entries.filter(|e: EntryV| e.key == key).map_values(|e: EntryV| e.path)
}

proof fn lemma_load_entries(l: LoadV, name: Seq<char>, entries: Seq<EntryV>, key: Seq<char>) -> (t: TableV)
    requires
        is_table_name(name),
        keys_unique(table_named(l, name)),
    ensures
        load_rows(l, entry_rows(name, entries)) == with_table(l, name, t),
        keys_unique(t),
        paths_under(t, key) == paths_under(table_named(l, name), key) + entries_under(entries, key),
    decreases entries.len(),
{
    reveal(Seq::filter);
    lemma_list_names();
    let old = table_named(l, name);
    let keep = |e: EntryV| e.key == key;
    if entries.len() == 0 {
        assert(entries_under(entries, key) =~= Seq::<PathV>::empty());
        assert(paths_under(old, key) + entries_under(entries, key) =~= paths_under(old, key));
        assert(load_rows(l, entry_rows(name, entries)) == l);
        old
    } else {
        let s = entries.drop_last();
        let e = entries.last();
        let before = lemma_load_entries(l, name, s, key);
        assert(entry_rows(name, entries).drop_last() =~= entry_rows(name, s));
        let row = entry_rows(name, entries).last();
        assert(row == RowV { list_name: name, key: e.key, path: e.path });
        let t = added(before, e.key, 0, e.path);
        lemma_added_unique(before, e.key, 0, e.path);
        law_paths_are_added(before, e.key, 0, e.path, key);
        assert(s.filter(keep).push(e).map_values(|e: EntryV| e.path) =~= s.filter(keep).map_values(
            |e: EntryV| e.path,
        ).push(e.path));
        if e.key == key {
            assert(paths_under(old, key) + entries_under(s, key).push(e.path) =~= (paths_under(old, key) + entries_under(
                s,
                key,
            )).push(e.path));
        }
        t
    }
}

proof fn lemma_list_added(t: TableV, name: Seq<char>, paths: Seq<PathV>, key: Seq<char>)
    requires
        keys_unique(t),
    ensures
        keys_unique(list_added(t, name, paths)),
        paths_under(list_added(t, name, paths), key) == (if key == name {
            paths_under(t, key) + paths
        } else {
            paths_under(t, key)
        }),
    decreases paths.len(),
{
    if paths.len() > 0 {
        let s = paths.drop_last();
        lemma_list_added(t, name, s, key);
        let before = list_added(t, name, s);
        lemma_added_unique(before, name, 0, paths.last());
        law_paths_are_added(before, name, 0, paths.last(), key);
        assert(paths_under(t, key) + paths =~= (paths_under(t, key) + s).push(paths.last()));
    } else {
        assert(paths_under(t, key) + paths =~= paths_under(t, key));
    }
}

/// What is under a key after lists were added: what was, and the paths of the lists of that
/// key.
proof fn lemma_lists_added(t: TableV, lists: Seq<ListV>, key: Seq<char>, p: PathV)
    requires
        keys_unique(t),
    ensures
        keys_unique(lists_added(t, lists)),
        paths_under(lists_added(t, lists), key).contains(p) <==> paths_under(t, key).contains(p) || exists|i: int|
            0 <= i < lists.len() && (#[trigger] lists[i]).key == key && lists[i].paths.contains(p),
    decreases lists.len(),
{
    if lists.len() > 0 {
        let s = lists.drop_last();
        let n = lists.len() - 1;
        let last = lists.last();
        lemma_lists_added(t, s, key, p);
        let before = lists_added(t, s);
        lemma_list_added(before, last.key, last.paths, key);
        let (a, b) = (paths_under(before, key), last.paths);
        if a.contains(p) {
            let i = choose|i: int| 0 <= i < a.len() && a[i] == p;
            assert((a + b)[i] == p);
        }
        if b.contains(p) {
            let i = choose|i: int| 0 <= i < b.len() && b[i] == p;
            assert((a + b)[a.len() + i] == p);
        }
        if exists|i: int| 0 <= i < s.len() && (#[trigger] s[i]).key == key && s[i].paths.contains(p) {
            let i = choose|i: int| 0 <= i < s.len() && (#[trigger] s[i]).key == key && s[i].paths.contains(p);
            assert(lists[i].key == key && lists[i].paths.contains(p));
        }
        if last.key == key && b.contains(p) {
            assert(lists[n].key == key && lists[n].paths.contains(p));
        }
        if exists|i: int| 0 <= i < lists.len() && (#[trigger] lists[i]).key == key && lists[i].paths.contains(p) {
            let i = choose|i: int| 0 <= i < lists.len() && (#[trigger] lists[i]).key == key && lists[i].paths.contains(p);
            if i < n {
                assert(s[i].key == key && s[i].paths.contains(p));
            }
        }
        if (a + b).contains(p) {
            let i = choose|i: int| 0 <= i < (a + b).len() && (a + b)[i] == p;
            if i < a.len() {
                assert(a[i] == p);
            } else {
                assert(b[i - a.len()] == p);
            }
        }
    }
}

/// What is read after the sizes and the root keys of a checkpoint.
spec fn with_sizes(l: LoadV, d: DeltaV) -> LoadV {
    LoadV {
        by_size: match d.by_size {
            Some(lists) => lists_added(l.by_size, missing_lists(l.by_size, lists)),
            None => l.by_size,
        },
        root_keys: match d.root_keys {
            Some(list) => roots_added(l.root_keys, missing_roots(l.root_keys, list)),
            None => l.root_keys,
        },
        ..l
    }
}

proof fn lemma_after(before: Seq<RowV>, d: DeltaV, key: Seq<char>) -> (t: TableV)
    requires
        is_stage(d.stage),
    ensures
        ({
            let l = load_rows(nothing_loaded(), before);
            let m = with_sizes(l, d);
            let name = list_of_stage(d.stage);
            &&& is_table_name(name)
            &&& keys_unique(l.by_size) && keys_unique(m.by_size)
            &&& load_rows(nothing_loaded(), rows_after(before, d)) == (LoadV {
                skipped: l.skipped + d.new_skipped,
                completed_dirs: l.completed_dirs + d.new_completed_dirs,
                processed: l.processed + d.new_processed,
                ..with_table(m, name, t)
            })
            &&& keys_unique(t)
            &&& paths_under(t, key) == paths_under(table_named(m, name), key) + entries_under(d.new_entries, key)
        }),
{
    lemma_list_names();
    law_saved_rows_are_read(before, key);
    reveal_strlit("scanning");
    reveal_strlit("quick_hash");
    reveal_strlit("full_hash");
    assert("scanning"@.len() == 8 && "quick_hash"@.len() == 10 && "full_hash"@.len() == 9);
    let l = load_rows(nothing_loaded(), before);
    let name = list_of_stage(d.stage);
    let sizes = match d.by_size {
        Some(lists) => lists_rows("by_size"@, missing_lists(l.by_size, lists)),
        None => Seq::empty(),
    };
    let roots = match d.root_keys {
        Some(list) => root_rows(missing_roots(l.root_keys, list)),
        None => Seq::empty(),
    };
    let (e, s, c, p) = (
        entry_rows(name, d.new_entries),
        skipped_rows(d.new_skipped),
        completed_rows(d.new_completed_dirs),
        processed_rows(d.new_processed),
    );
    assert(delta_rows(d, l) == sizes + roots + e + s + c + p);
    lemma_load_concat(nothing_loaded(), before, sizes + roots + e + s + c + p);
    lemma_load_concat(l, sizes + roots + e + s + c, p);
    lemma_load_concat(l, sizes + roots + e + s, c);
    lemma_load_concat(l, sizes + roots + e, s);
    lemma_load_concat(l, sizes + roots, e);
    lemma_load_concat(l, sizes, roots);
    let l1 = load_rows(l, sizes);
    if d.by_size is Some {
        lemma_load_lists(l, "by_size"@, missing_lists(l.by_size, d.by_size.unwrap()));
        lemma_lists_added(l.by_size, missing_lists(l.by_size, d.by_size.unwrap()), key, PathV {
            text: Seq::empty(),
            parts: Seq::empty(),
        });
    }
    let l2 = load_rows(l1, roots);
    if d.root_keys is Some {
        lemma_load_roots(l1, missing_roots(l.root_keys, d.root_keys.unwrap()));
    }
    let m = with_sizes(l, d);
    assert(l2 == m);
    let t = lemma_load_entries(m, name, d.new_entries, key);
    let l3 = load_rows(m, e);
    lemma_load_skipped(l3, d.new_skipped);
    let l4 = load_rows(l3, s);
    lemma_load_completed(l4, d.new_completed_dirs);
    let l5 = load_rows(l4, c);
    lemma_load_processed(l5, d.new_processed);
    t
}

/// A checkpoint adds the files that were skipped, those that are done and the directories
/// that were gone through, behind those that were saved.
pub proof fn law_checkpoint_adds_to_the_lists(before: Seq<RowV>, d: DeltaV)
    requires
        is_stage(d.stage),
    ensures
        ({
            let l = load_rows(nothing_loaded(), before);
            let n = load_rows(nothing_loaded(), rows_after(before, d));
            &&& n.skipped == l.skipped + d.new_skipped
            &&& n.processed == l.processed + d.new_processed
            &&& n.completed_dirs == l.completed_dirs + d.new_completed_dirs
        }),
{
    lemma_list_names();
    let t = lemma_after(before, d, Seq::empty());
}

/// The entries of a checkpoint are added under their keys to the table of its stage; the
/// other tables of hashes stay as they are.
pub proof fn law_checkpoint_adds_the_entries(before: Seq<RowV>, d: DeltaV, key: Seq<char>)
    requires
        is_stage(d.stage),
    ensures
        ({
            let l = load_rows(nothing_loaded(), before);
            let n = load_rows(nothing_loaded(), rows_after(before, d));
            let more = entries_under(d.new_entries, key);
            &&& d.stage == "quick_hash"@ ==> paths_under(n.by_partial, key) == paths_under(l.by_partial, key) + more
                && n.by_full == l.by_full
            &&& d.stage == "full_hash"@ ==> paths_under(n.by_full, key) == paths_under(l.by_full, key) + more
                && n.by_partial == l.by_partial
            &&& d.stage == "scanning"@ ==> n.by_partial == l.by_partial && n.by_full == l.by_full
            &&& d.stage == "scanning"@ && d.by_size is None ==> paths_under(n.by_size, key) == paths_under(
                l.by_size,
                key,
            ) + more
            &&& d.stage != "scanning"@ && d.by_size is None ==> n.by_size == l.by_size
        }),
{
    lemma_list_names();
    reveal_strlit("scanning");
    reveal_strlit("quick_hash");
    reveal_strlit("full_hash");
    assert("scanning"@.len() == 8 && "quick_hash"@.len() == 10 && "full_hash"@.len() == 9);
    let t = lemma_after(before, d, key);
}

proof fn lemma_missing(known: Set<Seq<char>>, paths: Seq<PathV>, p: PathV)
    ensures
        missing_paths(known, paths).contains(p) <==> paths.contains(p) && !known.contains(p.text),
    decreases paths.len(),
{
    if paths.len() > 0 {
        let s = paths.drop_last();
        let x = paths.last();
        lemma_missing(known, s, p);
        let (before, all) = (missing_paths(known, s), missing_paths(known, paths));
        assert(paths[paths.len() - 1] == x);
        if s.contains(p) {
            let i = choose|i: int| 0 <= i < s.len() && s[i] == p;
            assert(paths[i] == p);
        }
        if paths.contains(p) && p != x {
            let i = choose|i: int| 0 <= i < paths.len() && paths[i] == p;
            assert(s[i] == p);
        }
        if !known.contains(x.text) {
            assert(all[before.len() as int] == x);
            if before.contains(p) {
                let i = choose|i: int| 0 <= i < before.len() && before[i] == p;
                assert(all[i] == p);
            }
            if all.contains(p) && p != x {
                let i = choose|i: int| 0 <= i < all.len() && all[i] == p;
                assert(before[i] == p);
            }
        }
    }
}

/// Whether one of these paths shows as a text.
pub open spec fn shows(paths: Seq<PathV>, text: Seq<char>) -> bool {
    exists|i: int| 0 <= i < paths.len() && (#[trigger] paths[i]).text == text
}

proof fn lemma_shows(paths: Seq<PathV>, text: Seq<char>)
    ensures
        texts_of(paths).contains(text) <==> shows(paths, text),
{
    let m = paths.map_values(|p: PathV| p.text);
    if texts_of(paths).contains(text) {
        let i = choose|i: int| 0 <= i < m.len() && m[i] == text;
        assert(paths[i].text == text);
    }
    if shows(paths, text) {
        let i = choose|i: int| 0 <= i < paths.len() && (#[trigger] paths[i]).text == text;
        assert(m[i] == text);
    }
}

/// Where a checkpoint holds the files by their sizes, all of them are saved then under those
/// sizes, also those that were not before.
pub proof fn law_checkpoint_saves_all_sizes(before: Seq<RowV>, d: DeltaV, i: int, j: int)
    requires
        is_stage(d.stage),
        d.by_size is Some,
        0 <= i < d.by_size.unwrap().len(),
        0 <= j < d.by_size.unwrap()[i].paths.len(),
    ensures
        shows(
            paths_under(
                load_rows(nothing_loaded(), rows_after(before, d)).by_size,
                d.by_size.unwrap()[i].key,
            ),
            d.by_size.unwrap()[i].paths[j].text,
        ),
{
    lemma_list_names();
    let lists = d.by_size.unwrap();
    let key = lists[i].key;
    let p = lists[i].paths[j];
    let l = load_rows(nothing_loaded(), before);
    let m = with_sizes(l, d);
    let t = lemma_after(before, d, key);
    let n = load_rows(nothing_loaded(), rows_after(before, d));
    let known = texts_of(paths_under(l.by_size, key));
    let missing = missing_lists(l.by_size, lists);
    lemma_shows(paths_under(l.by_size, key), p.text);
    lemma_missing(known, lists[i].paths, p);
    let q = if known.contains(p.text) {
        let x = choose|x: int|
            0 <= x < paths_under(l.by_size, key).len() && (#[trigger] paths_under(l.by_size, key)[x]).text == p.text;
        paths_under(l.by_size, key)[x]
    } else {
        p
    };
    lemma_lists_added(l.by_size, missing, key, q);
    if !known.contains(p.text) {
        assert(lists[i].paths.contains(p));
        assert(missing[i].key == key && missing[i].paths.contains(p));
    }
    let held = paths_under(m.by_size, key);
    assert(held.contains(q));
    let x = choose|x: int| 0 <= x < held.len() && held[x] == q;
    let now = paths_under(n.by_size, key);
    assert(now[x] == q);
}

proof fn lemma_roots_added(list: Seq<RootKeyV>, more: Seq<RootKeyV>, directory: Seq<char>, key: Seq<char>)
    requires
        forall|i: int| 0 <= i < more.len() && (#[trigger] more[i]).directory == directory ==> more[i].key == key,
    ensures
        root_key_of(roots_added(list, more), directory) == (if exists|i: int|
            0 <= i < more.len() && (#[trigger] more[i]).directory == directory {
            Some(key)
        } else {
            root_key_of(list, directory)
        }),
    decreases more.len(),
{
    if more.len() > 0 {
        let s = more.drop_last();
        let n = more.len() - 1;
        assert forall|i: int| 0 <= i < s.len() && (#[trigger] s[i]).directory == directory implies s[i].key == key by {
            assert(s[i] == more[i]);
        }
        lemma_roots_added(list, s, directory, key);
        lemma_root_put(roots_added(list, s), more.last(), directory);
        assert(more[n] == more.last());
        if exists|i: int| 0 <= i < s.len() && (#[trigger] s[i]).directory == directory {
            let i = choose|i: int| 0 <= i < s.len() && (#[trigger] s[i]).directory == directory;
            assert(more[i].directory == directory);
        }
        if exists|i: int| 0 <= i < more.len() && (#[trigger] more[i]).directory == directory {
            let i = choose|i: int| 0 <= i < more.len() && (#[trigger] more[i]).directory == directory;
            if i < n {
                assert(s[i].directory == directory);
            }
        }
    }
}

proof fn lemma_missing_root(known: Seq<RootKeyV>, list: Seq<RootKeyV>, r: RootKeyV)
    ensures
        missing_roots(known, list).contains(r) <==> list.contains(r) && root_key_of(known, r.directory) is None,
    decreases list.len(),
{
    if list.len() > 0 {
        let s = list.drop_last();
        let x = list.last();
        lemma_missing_root(known, s, r);
        let (before, all) = (missing_roots(known, s), missing_roots(known, list));
        assert(list[list.len() - 1] == x);
        if s.contains(r) {
            let i = choose|i: int| 0 <= i < s.len() && s[i] == r;
            assert(list[i] == r);
        }
        if list.contains(r) && r != x {
            let i = choose|i: int| 0 <= i < list.len() && list[i] == r;
            assert(s[i] == r);
        }
        if root_key_of(known, x.directory) is None {
            assert(all[before.len() as int] == x);
            if before.contains(r) {
                let i = choose|i: int| 0 <= i < before.len() && before[i] == r;
                assert(all[i] == r);
            }
            if all.contains(r) && r != x {
                let i = choose|i: int| 0 <= i < all.len() && all[i] == r;
                assert(before[i] == r);
            }
        }
    }
}

/// Where a checkpoint holds the keys of the directories, each is saved then, and one that
/// was saved before stays.
pub proof fn law_checkpoint_saves_the_root_keys(before: Seq<RowV>, d: DeltaV, i: int)
    requires
        is_stage(d.stage),
        d.root_keys is Some,
        roots_unique(d.root_keys.unwrap()),
        0 <= i < d.root_keys.unwrap().len(),
    ensures
        ({
            let r = d.root_keys.unwrap()[i];
            let old = root_key_of(load_rows(nothing_loaded(), before).root_keys, r.directory);
            root_key_of(load_rows(nothing_loaded(), rows_after(before, d)).root_keys, r.directory) == (if old is Some {
                old
            } else {
                Some(r.key)
            })
        }),
{
    lemma_list_names();
    let list = d.root_keys.unwrap();
    let r = list[i];
    let l = load_rows(nothing_loaded(), before);
    let t = lemma_after(before, d, Seq::empty());
    let more = missing_roots(l.root_keys, list);
    assert forall|k: int| 0 <= k < more.len() && (#[trigger] more[k]).directory == r.directory implies more[k].key
        == r.key && root_key_of(l.root_keys, r.directory) is None by {
        lemma_missing_root(l.root_keys, list, more[k]);
        assert(more.contains(more[k]));
        let x = choose|x: int| 0 <= x < list.len() && list[x] == more[k];
        if x < i {
            assert(list[x].directory != list[i].directory);
        } else if i < x {
            assert(list[i].directory != list[x].directory);
        }
    }
    lemma_roots_added(l.root_keys, more, r.directory, r.key);
    lemma_missing_root(l.root_keys, list, r);
    assert(list.contains(r));
    if root_key_of(l.root_keys, r.directory) is None {
        let k = choose|k: int| 0 <= k < more.len() && more[k] == r;
        assert(more[k].directory == r.directory);
    }
}

} // verus!
