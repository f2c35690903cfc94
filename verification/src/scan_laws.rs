//! What holds of scans as a whole: that what is saved keeps up with what is
//! found, that a cancelled scan is taken up where it stopped, and what the
//! groups that are found are.

use vstd::prelude::*;

use crate::bucket::{BucketResultV, MatchV};
use crate::groups::{law_partial_key_splits, law_ranking, partial_key_text, GroupV};
use crate::paths::{PathId, PathV};
use crate::resume::{
    completed_rows, delta_rows, entry_rows, lemma_load_completed, lemma_load_concat, lemma_load_lists,
    lemma_load_processed, lemma_load_roots, lemma_load_skipped, lemma_names_differ, list_of_stage, lists_rows,
    load_rows, missing_lists, missing_roots, nothing_loaded, processed_rows, root_keys_from, root_rows, rows_after,
    skipped_rows, DeltaV, EntryV, LoadV, RootKeyV, RowV,
};
use crate::scan::{
    candidates_of, confirmed, confirmed_groups, deferred_of, deferred_size, entries_under, flat_batches,
    fulls_loaded, groups_taken, hashed, open_buckets, partials_loaded, roots_match, scan_begun, sizes_loaded,
    stage_named, stage_text, unconfirmed, unprocessed, CandidateV, ScanStage, ScanV,
};
use crate::tables::{
    added, distinct, extended, keys_unique, lemma_pos, lists_of, noted, pos, put, BucketV, ListV, TableV,
};
use crate::text::{decimal, law_decimal_round_trip};

verus! {

// ------------------------------------------------------------------ checkpoints

/// The rows that would save what a walk has found since its last checkpoint.
pub open spec fn pending_rows(s: ScanV) -> Seq<RowV> {
    entry_rows("by_size"@, s.pending_entries) + skipped_rows(s.pending_skipped) + completed_rows(s.pending_completed)
}

/// Whether the saved rows of a run, with what is pending, amount to what its
/// walk has found: the files by size, the files skipped, the directories done.
pub open spec fn in_step(s: ScanV, rows: Seq<RowV>) -> bool {
    let l = load_rows(load_rows(nothing_loaded(), rows), pending_rows(s));
    &&& lists_of(l.by_size) == lists_of(s.by_size)
    &&& l.skipped == s.skipped
    &&& l.completed_dirs.to_set() == s.completed_dirs.to_set()
}

/// The saved rows after a checkpoint, if there was one.
pub open spec fn saved(rows: Seq<RowV>, delta: Option<DeltaV>) -> Seq<RowV> {
    match delta {
        Some(d) => rows_after(rows, d),
        None => rows,
    }
}

/// A table after entries went in.
pub open spec fn entries_added(t: TableV, entries: Seq<EntryV>) -> TableV
    decreases entries.len(),
{
    if entries.len() == 0 {
        t
    } else {
        added(entries_added(t, entries.drop_last()), entries.last().key, 0, entries.last().path)
    }
}

proof fn lemma_load_entries(l: LoadV, entries: Seq<EntryV>)
    ensures
        load_rows(l, entry_rows("by_size"@, entries)) == (LoadV {
            by_size: entries_added(l.by_size, entries),
            ..l
        }),
    decreases entries.len(),
{
    if entries.len() > 0 {
        lemma_load_entries(l, entries.drop_last());
        assert(entry_rows("by_size"@, entries).drop_last() =~= entry_rows("by_size"@, entries.drop_last()));
    }
}

proof fn lemma_load_pending(l: LoadV, s: ScanV)
    ensures
        load_rows(l, pending_rows(s)) == (LoadV {
            by_size: entries_added(l.by_size, s.pending_entries),
            skipped: l.skipped + s.pending_skipped,
            completed_dirs: l.completed_dirs + s.pending_completed,
            ..l
        }),
{
    let a = entry_rows("by_size"@, s.pending_entries);
    let b = skipped_rows(s.pending_skipped);
    let c = completed_rows(s.pending_completed);
    lemma_load_entries(l, s.pending_entries);
    let l1 = load_rows(l, a);
    lemma_load_concat(l, a, b);
    lemma_load_skipped(l1, s.pending_skipped);
    let l2 = load_rows(l1, b);
    lemma_load_concat(l, a + b, c);
    lemma_load_completed(l2, s.pending_completed);
}

/// Where a key stands depends on the keys alone.
proof fn lemma_pos_of_lists(a: TableV, b: TableV, key: Seq<char>)
    requires
        lists_of(a) == lists_of(b),
    ensures
        pos(a, key) == pos(b, key),
        a.len() == b.len(),
{
    lemma_pos(a, key);
    lemma_pos(b, key);
    assert(lists_of(a).len() == a.len());
    assert(lists_of(b).len() == b.len());
    assert forall|i: int| 0 <= i < a.len() implies (#[trigger] a[i]).key == b[i].key by {
        assert(lists_of(a)[i].key == lists_of(b)[i].key);
    }
    if pos(a, key) < pos(b, key) {
        assert(b[pos(a, key)].key == a[pos(a, key)].key);
    }
    if pos(b, key) < pos(a, key) {
        assert(a[pos(b, key)].key == b[pos(b, key)].key);
    }
}

proof fn lemma_added_lists(a: TableV, b: TableV, key: Seq<char>, m: u64, n: u64, path: PathV)
    requires
        lists_of(a) == lists_of(b),
    ensures
        lists_of(added(a, key, m, path)) == lists_of(added(b, key, n, path)),
{
    lemma_pos_of_lists(a, b, key);
    lemma_pos(a, key);
    let x = added(a, key, m, path);
    let y = added(b, key, n, path);
    assert forall|i: int| 0 <= i < x.len() implies lists_of(x)[i] == lists_of(y)[i] by {
        if i < a.len() {
            assert(lists_of(a)[i] == lists_of(b)[i]);
            assert(lists_of(a)[i] == (ListV { key: a[i].key, paths: a[i].paths }));
            assert(lists_of(b)[i] == (ListV { key: b[i].key, paths: b[i].paths }));
        }
    }
    assert(lists_of(x) =~= lists_of(y));
}

pub proof fn lemma_push_set(a: Seq<Seq<char>>, x: Seq<char>)
    ensures
        a.push(x).to_set() == a.to_set().insert(x),
        noted(a, x).to_set() == a.to_set().insert(x),
{
    let p = a.push(x);
    assert forall|y: Seq<char>| p.to_set().contains(y) == a.to_set().insert(x).contains(y) by {
        if a.contains(y) {
            let j = choose|j: int| 0 <= j < a.len() && a[j] == y;
            assert(p[j] == y);
        }
        if y == x {
            assert(p[a.len() as int] == y);
        }
        if p.contains(y) && y != x {
            let j = choose|j: int| 0 <= j < p.len() && p[j] == y;
            assert(a[j] == y);
        }
    }
    assert(p.to_set() =~= a.to_set().insert(x));
    if a.contains(x) {
        assert(a.to_set() =~= a.to_set().insert(x));
    }
}

proof fn lemma_dir_in_step(s: ScanV, rows: Seq<RowV>, key: Seq<char>)
    requires
        in_step(s, rows),
    ensures
        in_step(s.after_dir(key), rows),
{
    let l = load_rows(nothing_loaded(), rows);
    lemma_load_pending(l, s);
    lemma_load_pending(l, s.after_dir(key));
    lemma_push_set(s.completed_dirs, key);
    lemma_push_set(l.completed_dirs + s.pending_completed, key);
    assert(l.completed_dirs + s.pending_completed.push(key) =~= (l.completed_dirs + s.pending_completed).push(key));
}

proof fn lemma_file_in_step(s: ScanV, rows: Seq<RowV>, path: PathV, size: Option<u64>)
    requires
        in_step(s, rows),
    ensures
        in_step(s.after_file(path, size), rows),
{
    let l = load_rows(nothing_loaded(), rows);
    lemma_load_pending(l, s);
    lemma_load_pending(l, s.after_file(path, size));
    match size {
        Some(n) => {
            let e = EntryV { key: decimal(n as nat), path };
            let more = s.pending_entries.push(e);
            assert(more.drop_last() =~= s.pending_entries);
            lemma_added_lists(entries_added(l.by_size, s.pending_entries), s.by_size, e.key, 0, n, path);
        },
        None => {
            assert(l.skipped + s.pending_skipped.push(path) =~= (l.skipped + s.pending_skipped).push(path));
        },
    }
}

proof fn lemma_saved_in_step(s: ScanV, rows: Seq<RowV>)
    requires
        in_step(s, rows),
    ensures
        in_step(s.walk_saved(), saved(rows, s.walk_delta())),
{
    if s.pending() > 0 {
        let d = s.walk_delta()->Some_0;
        let l = load_rows(nothing_loaded(), rows);
        lemma_load_pending(l, s);
        let missing = match d.root_keys {
            Some(list) => missing_roots(l.root_keys, list),
            None => Seq::empty(),
        };
        let roots = root_rows(missing);
        assert(delta_rows(d, l) =~= roots + pending_rows(s));
        lemma_load_concat(nothing_loaded(), rows, delta_rows(d, l));
        lemma_load_concat(l, roots, pending_rows(s));
        lemma_load_roots(l, missing);
        let l1 = load_rows(l, roots);
        lemma_load_pending(l1, s);
        let l2 = load_rows(l1, pending_rows(s));
        let s2 = s.walk_saved();
        assert(load_rows(nothing_loaded(), saved(rows, Some(d))) == l2);
        lemma_load_pending(l2, s2);
        assert(l2.skipped + s2.pending_skipped =~= l2.skipped);
        assert(l2.completed_dirs + s2.pending_completed =~= l2.completed_dirs);
    }
}

/// While directories are walked, the saved rows and what is pending amount to
/// what was found, through every event and every checkpoint. A crash loses what
/// is pending, and no more.
pub proof fn law_checkpoints_keep_up(s: ScanV, rows: Seq<RowV>, key: Seq<char>, path: PathV, size: Option<u64>)
    requires
        in_step(s, rows),
    ensures
        in_step(s.after_dir(key).checkpointed(), saved(rows, s.after_dir(key).due_delta())),
        in_step(s.after_file(path, size).checkpointed(), saved(rows, s.after_file(path, size).due_delta())),
{
    lemma_dir_in_step(s, rows, key);
    lemma_file_in_step(s, rows, path, size);
    lemma_saved_in_step(s.after_dir(key), rows);
    lemma_saved_in_step(s.after_file(path, size), rows);
}

/// When the walk is over, everything it found is saved.
pub proof fn law_walk_ends_saved(s: ScanV, rows: Seq<RowV>, cancel: bool)
    requires
        in_step(s, rows),
    ensures
        ({
            let l = load_rows(nothing_loaded(), saved(rows, s.walk_delta()));
            &&& lists_of(l.by_size) == lists_of(s.after_walk(cancel).by_size)
            &&& l.skipped == s.after_walk(cancel).skipped
            &&& l.completed_dirs.to_set() == s.after_walk(cancel).completed_dirs.to_set()
        }),
{
    lemma_saved_in_step(s, rows);
    let s2 = s.walk_saved();
    let l = load_rows(nothing_loaded(), saved(rows, s.walk_delta()));
    lemma_load_pending(l, s2);
    assert(s2.pending_entries.len() == 0 && s2.pending_skipped.len() == 0 && s2.pending_completed.len() == 0);
    assert(l.skipped + s2.pending_skipped =~= l.skipped);
    assert(l.completed_dirs + s2.pending_completed =~= l.completed_dirs);
}

/// A new scan is in step with a run of which nothing is saved.
pub proof fn law_new_scan_in_step(roots: Seq<RootKeyV>, threshold: u64)
    ensures
        in_step(scan_begun(roots, threshold, None), Seq::empty()),
{
    let s = scan_begun(roots, threshold, None);
    let l = load_rows(nothing_loaded(), Seq::empty());
    lemma_load_pending(l, s);
    assert(lists_of(entries_added(l.by_size, s.pending_entries)) =~= lists_of(s.by_size));
    assert(l.skipped + s.pending_skipped =~= s.skipped);
    assert(l.completed_dirs + s.pending_completed =~= s.completed_dirs);
}

proof fn lemma_load_named(l: LoadV, name: Seq<char>, entries: Seq<EntryV>)
    requires
        name == "by_partial"@ || name == "by_full"@,
    ensures
        load_rows(l, entry_rows(name, entries)) == (if name == "by_partial"@ {
            LoadV { by_partial: entries_added(l.by_partial, entries), ..l }
        } else {
            LoadV { by_full: entries_added(l.by_full, entries), ..l }
        }),
    decreases entries.len(),
{
    lemma_names_differ();
    if entries.len() > 0 {
        lemma_load_named(l, name, entries.drop_last());
        assert(entry_rows(name, entries).drop_last() =~= entry_rows(name, entries.drop_last()));
    }
}

/// What a checkpoint of the second or third stage adds to what is saved.
proof fn lemma_load_delta(l: LoadV, d: DeltaV, stage: ScanStage)
    requires
        stage != ScanStage::Scanning,
        d.stage == stage_text(stage),
        d.new_completed_dirs.len() == 0,
    ensures
        ({
            let m = load_rows(l, delta_rows(d, l));
            &&& m.by_partial == (if stage == ScanStage::QuickHash {
                entries_added(l.by_partial, d.new_entries)
            } else {
                l.by_partial
            })
            &&& m.by_full == (if stage == ScanStage::FullHash {
                entries_added(l.by_full, d.new_entries)
            } else {
                l.by_full
            })
            &&& m.skipped == l.skipped + d.new_skipped
            &&& m.processed == l.processed + d.new_processed
        }),
{
    lemma_names_differ();
    crate::scan::lemma_stage_names();
    let name = if stage == ScanStage::QuickHash {
        "by_partial"@
    } else {
        "by_full"@
    };
    assert(list_of_stage(d.stage) == name);
    let a = match d.by_size {
        Some(lists) => lists_rows("by_size"@, missing_lists(l.by_size, lists)),
        None => Seq::empty(),
    };
    let b = match d.root_keys {
        Some(list) => root_rows(missing_roots(l.root_keys, list)),
        None => Seq::empty(),
    };
    let c = entry_rows(name, d.new_entries);
    let e = skipped_rows(d.new_skipped);
    let f = completed_rows(d.new_completed_dirs);
    let g = processed_rows(d.new_processed);
    match d.by_size {
        Some(lists) => lemma_load_lists(l, "by_size"@, missing_lists(l.by_size, lists)),
        None => {},
    }
    let l1 = load_rows(l, a);
    match d.root_keys {
        Some(list) => lemma_load_roots(l1, missing_roots(l.root_keys, list)),
        None => {},
    }
    let l2 = load_rows(l1, b);
    lemma_load_named(l2, name, d.new_entries);
    let l3 = load_rows(l2, c);
    lemma_load_skipped(l3, d.new_skipped);
    let l4 = load_rows(l3, e);
    lemma_load_completed(l4, d.new_completed_dirs);
    let l5 = load_rows(l4, f);
    lemma_load_processed(l5, d.new_processed);
    lemma_load_concat(l, a, b);
    lemma_load_concat(l, a + b, c);
    lemma_load_concat(l, a + b + c, e);
    lemma_load_concat(l, a + b + c + e, f);
    lemma_load_concat(l, a + b + c + e + f, g);
}

/// Whether the saved rows of a run amount to what hashing has come to: the files by
/// quick hash and the files skipped.
pub open spec fn hash_in_step(s: ScanV, rows: Seq<RowV>) -> bool {
    let l = load_rows(nothing_loaded(), rows);
    &&& lists_of(l.by_partial) == lists_of(s.by_partial)
    &&& l.skipped == s.skipped
}

/// Whether the saved rows of a run amount to what comparing has come to: the files by
/// digest, the files skipped and the files compared.
pub open spec fn compare_in_step(s: ScanV, rows: Seq<RowV>) -> bool {
    let l = load_rows(nothing_loaded(), rows);
    &&& lists_of(l.by_full) == lists_of(s.by_full)
    &&& l.skipped == s.skipped
    &&& l.processed == s.done_in(ScanStage::FullHash)
}

proof fn lemma_hashed_lists(t: TableV, u: TableV, batch: Seq<CandidateV>, results: Seq<Option<Seq<char>>>)
    requires
        lists_of(t) == lists_of(u),
        batch.len() == results.len(),
    ensures
        lists_of(entries_added(t, hashed(u, batch, results).entries)) == lists_of(hashed(u, batch, results).by_partial),
    decreases batch.len(),
{
    if batch.len() > 0 {
        let h = hashed(u, batch.drop_last(), results.drop_last());
        lemma_hashed_lists(t, u, batch.drop_last(), results.drop_last());
        let c = batch.last();
        match results.last() {
            Some(digest) => {
                let e = EntryV { key: partial_key_text(c.size, digest), path: c.path };
                assert(h.entries.push(e).drop_last() =~= h.entries);
                lemma_added_lists(entries_added(t, h.entries), h.by_partial, e.key, 0, c.size, c.path);
            },
            None => {},
        }
    }
}

proof fn lemma_entries_concat(t: TableV, a: Seq<EntryV>, b: Seq<EntryV>)
    ensures
        entries_added(t, a + b) == entries_added(entries_added(t, a), b),
    decreases b.len(),
{
    if b.len() == 0 {
        assert(a + b =~= a);
    } else {
        lemma_entries_concat(t, a, b.drop_last());
        assert((a + b).drop_last() =~= a + b.drop_last());
    }
}

proof fn lemma_extended_lists(t: TableV, u: TableV, key: Seq<char>, paths: Seq<PathV>)
    requires
        lists_of(t) == lists_of(u),
        paths.len() > 0,
    ensures
        lists_of(entries_added(t, entries_under(key, paths))) == lists_of(extended(u, key, paths)),
    decreases paths.len(),
{
    let shorter = paths.drop_last();
    let entries = entries_under(key, paths);
    assert(entries.drop_last() =~= entries_under(key, shorter));
    lemma_pos(u, key);
    if shorter.len() == 0 {
        assert(entries_added(t, entries.drop_last()) == t);
        lemma_added_lists(t, u, key, 0, 0, paths.last());
        assert(paths =~= seq![paths.last()]);
        let p = pos(u, key);
        if p < u.len() {
            assert(u[p].paths + paths =~= u[p].paths.push(paths.last()));
        }
    } else {
        let v = extended(u, key, shorter);
        lemma_extended_lists(t, u, key, shorter);
        lemma_added_lists(entries_added(t, entries.drop_last()), v, key, 0, 0, paths.last());
        lemma_extended_pos(u, key, shorter);
        let p = pos(u, key);
        if p < u.len() {
            assert((u[p].paths + shorter).push(paths.last()) =~= u[p].paths + paths);
            assert(added(v, key, 0, paths.last()) =~= extended(u, key, paths));
        } else {
            assert(shorter.push(paths.last()) =~= paths);
            assert(added(v, key, 0, paths.last()) =~= extended(u, key, paths));
        }
    }
}

proof fn lemma_extended_pos(u: TableV, key: Seq<char>, paths: Seq<PathV>)
    ensures
        pos(extended(u, key, paths), key) == pos(u, key),
{
    let v = extended(u, key, paths);
    lemma_pos(u, key);
    lemma_pos(v, key);
    let (p, q) = (pos(u, key), pos(v, key));
    assert(v[p].key == key);
    if q < p {
        assert(u[q].key == v[q].key);
    }
    if p < q {
        assert(v[p].key != key);
    }
}

proof fn lemma_taken_lists(u: TableV, entries: Seq<EntryV>, base: TableV, groups: Seq<MatchV>)
    requires
        lists_of(entries_added(base, entries)) == lists_of(u),
        forall|g: int| 0 <= g < groups.len() ==> (#[trigger] groups[g]).paths.len() > 0,
    ensures
        lists_of(entries_added(base, groups_taken(u, entries, groups).1)) == lists_of(groups_taken(u, entries, groups).0),
    decreases groups.len(),
{
    if groups.len() > 0 {
        let rest = groups.drop_last();
        assert forall|g: int| 0 <= g < rest.len() implies (#[trigger] rest[g]).paths.len() > 0 by {
            assert(rest[g] == groups[g]);
        }
        lemma_taken_lists(u, entries, base, rest);
        let (v, e) = groups_taken(u, entries, rest);
        let g = groups.last();
        assert(groups[groups.len() - 1].paths.len() > 0);
        lemma_entries_concat(base, e, entries_under(g.digest, g.paths));
        lemma_extended_lists(entries_added(base, e), v, g.digest, g.paths);
    }
}

/// Whether no group of a bucket is empty.
pub open spec fn groups_filled(r: BucketResultV) -> bool {
    forall|g: int| 0 <= g < r.groups.len() ==> (#[trigger] r.groups[g]).paths.len() > 0
}

proof fn lemma_confirmed_lists(t: TableV, u: TableV, results: Seq<BucketResultV>)
    requires
        lists_of(t) == lists_of(u),
        forall|i: int| 0 <= i < results.len() ==> groups_filled(#[trigger] results[i]),
    ensures
        lists_of(entries_added(t, confirmed(u, results).entries)) == lists_of(confirmed(u, results).by_full),
    decreases results.len(),
{
    if results.len() > 0 {
        let rest = results.drop_last();
        assert forall|i: int| 0 <= i < rest.len() implies groups_filled(#[trigger] rest[i]) by {
            assert(rest[i] == results[i]);
        }
        lemma_confirmed_lists(t, u, rest);
        let c = confirmed(u, rest);
        assert(groups_filled(results[results.len() - 1]));
        lemma_taken_lists(c.by_full, c.entries, t, results.last().groups);
    }
}

/// While files are hashed and compared, the saved rows amount to what is known after
/// every batch: a crash loses the batch that is worked on, and no more.
pub proof fn law_later_checkpoints_keep_up(
    s: ScanV,
    rows: Seq<RowV>,
    hashes: Seq<Option<Seq<char>>>,
    outcomes: Seq<BucketResultV>,
)
    ensures
        hash_in_step(s, rows) && hashes.len() == s.hash_batch().len() ==> ({
            let h = hashed(s.by_partial, s.hash_batch(), hashes);
            hash_in_step(
                s.after_hashes(hashes),
                saved(rows, s.stage_delta(ScanStage::QuickHash, h.entries, h.skipped, Seq::empty())),
            )
        }),
        compare_in_step(s, rows) && s.at_batch < s.batches.len() && (forall|i: int|
            0 <= i < outcomes.len() ==> groups_filled(#[trigger] outcomes[i])) ==> ({
            let c = confirmed(s.by_full, outcomes);
            compare_in_step(
                s.after_confirm(outcomes),
                saved(rows, s.stage_delta(ScanStage::FullHash, c.entries, c.skipped, s.batch_files())),
            )
        }),
{
    let l = load_rows(nothing_loaded(), rows);
    if hash_in_step(s, rows) && hashes.len() == s.hash_batch().len() {
        let h = hashed(s.by_partial, s.hash_batch(), hashes);
        lemma_hashed_lists(l.by_partial, s.by_partial, s.hash_batch(), hashes);
        match s.stage_delta(ScanStage::QuickHash, h.entries, h.skipped, Seq::empty()) {
            Some(d) => {
                lemma_load_delta(l, d, ScanStage::QuickHash);
                lemma_load_concat(nothing_loaded(), rows, delta_rows(d, l));
            },
            None => {
                assert(s.skipped + h.skipped =~= s.skipped);
            },
        }
    }
    if compare_in_step(s, rows) && s.at_batch < s.batches.len() && (forall|i: int|
        0 <= i < outcomes.len() ==> groups_filled(#[trigger] outcomes[i])) {
        let c = confirmed(s.by_full, outcomes);
        let n = s.at_batch as int;
        lemma_confirmed_lists(l.by_full, s.by_full, outcomes);
        let upto = s.batches.take(n + 1);
        assert(upto.drop_last() =~= s.batches.take(n));
        assert(upto.last() == s.batches[n]);
        let (before, all) = (s.compared_before(), flat_batches(s.batches.take(n)));
        assert((before + all) + s.batch_files() =~= before + (all + s.batch_files()));
        match s.stage_delta(ScanStage::FullHash, c.entries, c.skipped, s.batch_files()) {
            Some(d) => {
                lemma_load_delta(l, d, ScanStage::FullHash);
                lemma_load_concat(nothing_loaded(), rows, delta_rows(d, l));
            },
            None => {
                assert(s.skipped + c.skipped =~= s.skipped);
                assert(before + all + s.batch_files() =~= before + all);
            },
        }
    }
}

// -------------------------------------------------------------- taking up again

/// Whether each bucket stands under its size.
pub open spec fn sizes_canonical(t: TableV) -> bool {
    &&& keys_unique(t)
    &&& forall|i: int| 0 <= i < t.len() ==> (#[trigger] t[i]).key == decimal(t[i].size as nat)
}

/// Whether a key is that of a size and some quick hash.
pub open spec fn is_partial_key(key: Seq<char>, size: u64) -> bool {
    exists|hash: Seq<char>| key == #[trigger] partial_key_text(size, hash)
}

/// Whether each bucket stands under its size and a quick hash.
pub open spec fn partials_canonical(t: TableV) -> bool {
    &&& keys_unique(t)
    &&& forall|i: int| 0 <= i < t.len() ==> is_partial_key((#[trigger] t[i]).key, t[i].size)
}

/// Whether no bucket has a size of its own.
pub open spec fn fulls_canonical(t: TableV) -> bool {
    &&& keys_unique(t)
    &&& forall|i: int| 0 <= i < t.len() ==> (#[trigger] t[i]).size == 0
}

/// Whether the tables of a scan are in order.
pub open spec fn canonical(s: ScanV) -> bool {
    &&& sizes_canonical(s.by_size)
    &&& partials_canonical(s.by_partial)
    &&& fulls_canonical(s.by_full)
    &&& s.completed_dirs.no_duplicates()
}

proof fn lemma_put_fresh(t: TableV, b: BucketV)
    requires
        forall|i: int| 0 <= i < t.len() ==> (#[trigger] t[i]).key != b.key,
    ensures
        put(t, b.key, b.size, b.paths) == t.push(b),
{
    lemma_pos(t, b.key);
}

proof fn lemma_shorter(t: TableV)
    requires
        t.len() > 0,
        keys_unique(t),
    ensures
        keys_unique(t.drop_last()),
        lists_of(t).drop_last() == lists_of(t.drop_last()),
        lists_of(t).last() == (ListV { key: t.last().key, paths: t.last().paths }),
        forall|i: int| 0 <= i < t.len() - 1 ==> (#[trigger] t.drop_last()[i]).key != t.last().key,
        t.drop_last().push(t.last()) == t,
{
    let s = t.drop_last();
    assert(lists_of(t).drop_last() =~= lists_of(s));
    assert(s.push(t.last()) =~= t);
    assert forall|i: int, j: int| 0 <= i < j < s.len() implies (#[trigger] s[i]).key != (#[trigger] s[j]).key by {
        assert(t[i].key != t[j].key);
    }
    assert forall|i: int| 0 <= i < s.len() implies (#[trigger] s[i]).key != t.last().key by {
        assert(t[i].key != t[t.len() - 1].key);
    }
}

/// A table by size that is saved reads back as it was.
pub proof fn law_sizes_read_back(t: TableV)
    requires
        sizes_canonical(t),
    ensures
        sizes_loaded(lists_of(t)) == t,
    decreases t.len(),
{
    if t.len() > 0 {
        lemma_shorter(t);
        let s = t.drop_last();
        assert forall|i: int| 0 <= i < s.len() implies (#[trigger] s[i]).key == decimal(s[i].size as nat) by {
            assert(t[i].key == decimal(t[i].size as nat));
        }
        law_sizes_read_back(s);
        assert(t[t.len() - 1].key == decimal(t.last().size as nat));
        law_decimal_round_trip(t.last().size as nat, u64::MAX as nat);
        lemma_put_fresh(s, t.last());
    } else {
        assert(sizes_loaded(lists_of(t)) =~= t);
    }
}

/// A table by size and quick hash that is saved reads back as it was.
pub proof fn law_partials_read_back(t: TableV)
    requires
        partials_canonical(t),
    ensures
        partials_loaded(lists_of(t)) == t,
    decreases t.len(),
{
    if t.len() > 0 {
        lemma_shorter(t);
        let s = t.drop_last();
        assert forall|i: int| 0 <= i < s.len() implies is_partial_key((#[trigger] s[i]).key, s[i].size) by {
            assert(is_partial_key(t[i].key, t[i].size));
        }
        law_partials_read_back(s);
        assert(is_partial_key(t[t.len() - 1].key, t[t.len() - 1].size));
        let hash = choose|hash: Seq<char>| t.last().key == #[trigger] partial_key_text(t.last().size, hash);
        law_partial_key_splits(t.last().size, hash);
        lemma_put_fresh(s, t.last());
    } else {
        assert(partials_loaded(lists_of(t)) =~= t);
    }
}

/// A table by digest that is saved reads back as it was.
pub proof fn law_fulls_read_back(t: TableV)
    requires
        fulls_canonical(t),
    ensures
        fulls_loaded(lists_of(t)) == t,
    decreases t.len(),
{
    if t.len() > 0 {
        lemma_shorter(t);
        let s = t.drop_last();
        assert forall|i: int| 0 <= i < s.len() implies (#[trigger] s[i]).size == 0 by {
            assert(t[i].size == 0);
        }
        law_fulls_read_back(s);
        assert(t[t.len() - 1].size == 0);
        lemma_put_fresh(s, t.last());
    } else {
        assert(fulls_loaded(lists_of(t)) =~= t);
    }
}

proof fn lemma_distinct_kept(list: Seq<Seq<char>>)
    requires
        list.no_duplicates(),
    ensures
        distinct(list) == list,
    decreases list.len(),
{
    if list.len() > 0 {
        let s = list.drop_last();
        assert(s.no_duplicates()) by {
            assert forall|i: int, j: int| 0 <= i < s.len() && 0 <= j < s.len() && i != j implies s[i] != s[j] by {
                assert(list[i] != list[j]);
            }
        }
        lemma_distinct_kept(s);
        if s.contains(list.last()) {
            let i = choose|i: int| 0 <= i < s.len() && s[i] == list.last();
            assert(list[i] != list[list.len() - 1]);
        }
        assert(s.push(list.last()) =~= list);
    } else {
        assert(distinct(list) =~= list);
    }
}

/// A scan that was cancelled and is taken up again, its directories leading
/// where they did, has what it had: what was found and skipped, which
/// directories were done, and the hashes and digests told so far.
pub proof fn law_resume_restores(s: ScanV, roots: Seq<RootKeyV>, stage: ScanStage)
    requires
        canonical(s),
        s.cancelled == Some(stage),
        roots_match(root_keys_from(roots), roots),
    ensures
        ({
            let again = scan_begun(roots, s.threshold, s.snapshot(roots));
            &&& !again.resume_ignored
            &&& again.resumed == Some(stage)
            &&& again.by_size == s.by_size
            &&& again.skipped == s.skipped
            &&& stage == ScanStage::Scanning ==> again.completed_dirs == s.completed_dirs
            &&& stage != ScanStage::Scanning ==> again.by_partial == s.by_partial
            &&& stage == ScanStage::FullHash ==> fulls_loaded(again.saved_full) == s.by_full
        }),
{
    crate::scan::lemma_stage_names();
    assert(stage_named(stage_text(stage)) == Some(stage));
    law_sizes_read_back(s.by_size);
    law_partials_read_back(s.by_partial);
    law_fulls_read_back(s.by_full);
    lemma_distinct_kept(s.completed_dirs);
}

proof fn lemma_added_canonical(t: TableV, size: u64, path: PathV)
    requires
        sizes_canonical(t),
    ensures
        sizes_canonical(added(t, decimal(size as nat), size, path)),
{
    lemma_pos(t, decimal(size as nat));
    crate::tables::lemma_added_unique(t, decimal(size as nat), size, path);
}

proof fn lemma_added_partial(t: TableV, size: u64, hash: Seq<char>, path: PathV)
    requires
        partials_canonical(t),
    ensures
        partials_canonical(added(t, partial_key_text(size, hash), size, path)),
{
    let key = partial_key_text(size, hash);
    lemma_pos(t, key);
    crate::tables::lemma_added_unique(t, key, size, path);
    let n = added(t, key, size, path);
    assert forall|i: int| 0 <= i < n.len() implies is_partial_key((#[trigger] n[i]).key, n[i].size) by {
        if i < t.len() {
            assert(is_partial_key(t[i].key, t[i].size));
        } else {
            assert(n[i].key == partial_key_text(size, hash));
        }
    }
}

proof fn lemma_sizes_loaded_canonical(lists: Seq<ListV>)
    ensures
        sizes_canonical(sizes_loaded(lists)),
    decreases lists.len(),
{
    if lists.len() > 0 {
        let before = sizes_loaded(lists.drop_last());
        lemma_sizes_loaded_canonical(lists.drop_last());
        match crate::text::parsed_number(lists.last().key, u64::MAX as nat) {
            Some(n) => {
                assert(n <= u64::MAX);
                lemma_pos(before, decimal(n));
                crate::tables::lemma_put_unique(before, decimal(n), n as u64, lists.last().paths);
            },
            None => {},
        }
    }
}

proof fn lemma_partials_loaded_canonical(lists: Seq<ListV>)
    ensures
        partials_canonical(partials_loaded(lists)),
    decreases lists.len(),
{
    if lists.len() > 0 {
        let before = partials_loaded(lists.drop_last());
        lemma_partials_loaded_canonical(lists.drop_last());
        match crate::scan::partial_parts(lists.last().key) {
            Some((n, hash)) => {
                let key = partial_key_text(n as u64, hash);
                lemma_pos(before, key);
                crate::tables::lemma_put_unique(before, key, n as u64, lists.last().paths);
                let t = partials_loaded(lists);
                assert forall|i: int| 0 <= i < t.len() implies is_partial_key((#[trigger] t[i]).key, t[i].size) by {
                    if t[i].key == key {
                        if i < before.len() && i != pos(before, key) {
                            assert(is_partial_key(before[i].key, before[i].size));
                        } else {
                            assert(t[i].key == partial_key_text(n as u64, hash));
                        }
                    } else {
                        assert(is_partial_key(before[i].key, before[i].size));
                    }
                }
            },
            None => {},
        }
    }
}

proof fn lemma_fulls_loaded_canonical(lists: Seq<ListV>)
    ensures
        fulls_canonical(fulls_loaded(lists)),
    decreases lists.len(),
{
    if lists.len() > 0 {
        let before = fulls_loaded(lists.drop_last());
        lemma_fulls_loaded_canonical(lists.drop_last());
        lemma_pos(before, lists.last().key);
        crate::tables::lemma_put_unique(before, lists.last().key, 0, lists.last().paths);
    }
}

proof fn lemma_distinct_unique(list: Seq<Seq<char>>)
    ensures
        distinct(list).no_duplicates(),
    decreases list.len(),
{
    if list.len() > 0 {
        lemma_distinct_unique(list.drop_last());
        lemma_noted_unique(distinct(list.drop_last()), list.last());
    }
}

proof fn lemma_noted_unique(list: Seq<Seq<char>>, key: Seq<char>)
    requires
        list.no_duplicates(),
    ensures
        noted(list, key).no_duplicates(),
{
    let n = noted(list, key);
    assert forall|i: int, j: int| 0 <= i < n.len() && 0 <= j < n.len() && i != j implies n[i] != n[j] by {
        if i < list.len() {
            assert(list.contains(list[i]));
        }
        if j < list.len() {
            assert(list.contains(list[j]));
        }
    }
}

proof fn lemma_hashing_canonical(s: ScanV)
    requires
        canonical(s),
    ensures
        canonical(s.hashing()),
{
    lemma_partials_loaded_canonical(s.saved_partial);
}

proof fn lemma_hashed_canonical(
    t: TableV,
    batch: Seq<CandidateV>,
    results: Seq<Option<Seq<char>>>,
)
    requires
        partials_canonical(t),
    ensures
        partials_canonical(crate::scan::hashed(t, batch, results).by_partial),
    decreases batch.len(),
{
    if batch.len() > 0 {
        lemma_hashed_canonical(t, batch.drop_last(), results.drop_last());
        let h = crate::scan::hashed(t, batch.drop_last(), results.drop_last());
        match results.last() {
            Some(digest) => {
                lemma_added_partial(h.by_partial, batch.last().size, digest, batch.last().path);
            },
            None => {},
        }
    }
}

proof fn lemma_taken_canonical(t: TableV, entries: Seq<EntryV>, groups: Seq<crate::bucket::MatchV>)
    requires
        fulls_canonical(t),
    ensures
        fulls_canonical(crate::scan::groups_taken(t, entries, groups).0),
    decreases groups.len(),
{
    if groups.len() > 0 {
        lemma_taken_canonical(t, entries, groups.drop_last());
        let u = crate::scan::groups_taken(t, entries, groups.drop_last()).0;
        lemma_pos(u, groups.last().digest);
        crate::tables::lemma_extended_unique(u, groups.last().digest, groups.last().paths);
    }
}

proof fn lemma_confirmed_canonical(t: TableV, results: Seq<crate::bucket::BucketResultV>)
    requires
        fulls_canonical(t),
    ensures
        fulls_canonical(crate::scan::confirmed(t, results).by_full),
    decreases results.len(),
{
    if results.len() > 0 {
        lemma_confirmed_canonical(t, results.drop_last());
        let c = crate::scan::confirmed(t, results.drop_last());
        lemma_taken_canonical(c.by_full, c.entries, results.last().groups);
    }
}

proof fn lemma_without_canonical(t: TableV, keys: Set<Seq<char>>)
    requires
        fulls_canonical(t),
    ensures
        fulls_canonical(crate::tables::without(t, keys)),
{
    crate::tables::lemma_without(t, keys);
    let w = crate::tables::without(t, keys);
    assert forall|i: int| 0 <= i < w.len() implies (#[trigger] w[i]).size == 0 by {
        assert(t.contains(w[i]));
        let j = choose|j: int| 0 <= j < t.len() && t[j] == w[i];
        assert(t[j].size == 0);
    }
}

/// The tables of a scan are in order from its beginning, whatever snapshot it
/// was taken up from, and every step keeps them so.
pub proof fn law_tables_stay_in_order(
    roots: Seq<RootKeyV>,
    threshold: u64,
    resume: Option<crate::resume::ResumeV>,
    s: ScanV,
    key: Seq<char>,
    path: PathV,
    size: Option<u64>,
    cancel: bool,
    stage: ScanStage,
    hashes: Seq<Option<Seq<char>>>,
    results: Seq<crate::bucket::BucketResultV>,
)
    requires
        canonical(s),
    ensures
        canonical(scan_begun(roots, threshold, resume)),
        canonical(s.after_dir(key).checkpointed()),
        canonical(s.after_file(path, size).checkpointed()),
        canonical(s.after_walk(cancel)),
        canonical(s.after_hashes(hashes)),
        canonical(s.confirming()),
        canonical(s.after_confirm(results)),
        canonical(s.cancelled_in(stage)),
{
    let blank = crate::scan::scan_blank(roots, threshold);
    assert(canonical(blank));
    match resume {
        Some(rs) => {
            lemma_sizes_loaded_canonical(rs.by_size);
            lemma_distinct_unique(rs.completed_dirs);
            lemma_partials_loaded_canonical(rs.by_partial);
            lemma_partials_loaded_canonical(Seq::empty());
        },
        None => {},
    }
    lemma_noted_unique(s.completed_dirs, key);
    match size {
        Some(n) => {
            lemma_added_canonical(s.by_size, n, path);
        },
        None => {},
    }
    lemma_hashing_canonical(s.walk_saved());
    lemma_hashed_canonical(s.by_partial, s.hash_batch(), hashes);
    lemma_fulls_loaded_canonical(s.saved_full);
    let at = crate::scan::list_positions(s.saved_full);
    lemma_without_canonical(
        fulls_loaded(s.saved_full),
        crate::scan::stale_keys(s.open_at_start(), s.saved_full, at),
    );
    lemma_confirmed_canonical(s.by_full, results);
}

// ---------------------------------------------------------------------- results

/// A file is hashed only if it shares its size with another and was not
/// processed before.
pub proof fn law_only_shared_sizes_hashed(by_size: TableV, done: Set<PathId>, c: CandidateV)
    requires
        candidates_of(by_size, done).contains(c),
    ensures
        !done.contains(c.path.parts),
        exists|i: int|
            0 <= i < by_size.len() && (#[trigger] by_size[i]).size == c.size && by_size[i].paths.len() >= 2
                && by_size[i].paths.contains(c.path),
    decreases by_size.len(),
{
    let all = candidates_of(by_size, done);
    let k = choose|k: int| 0 <= k < all.len() && all[k] == c;
    let s = by_size.drop_last();
    let before = candidates_of(s, done);
    if k < before.len() {
        assert(before[k] == c);
        law_only_shared_sizes_hashed(s, done, c);
        let i = choose|i: int|
            0 <= i < s.len() && (#[trigger] s[i]).size == c.size && s[i].paths.len() >= 2 && s[i].paths.contains(c.path);
        assert(by_size[i] == s[i]);
    } else {
        let b = by_size.last();
        let new = unprocessed(b.size, b.paths, done);
        assert(new[k - before.len()] == c);
        assert(new.contains(c));
        lemma_unprocessed(b.size, b.paths, done, c);
        assert(by_size[by_size.len() - 1] == b);
    }
}

proof fn lemma_unprocessed(size: u64, paths: Seq<PathV>, done: Set<PathId>, c: CandidateV)
    requires
        unprocessed(size, paths, done).contains(c),
    ensures
        !done.contains(c.path.parts),
        c.size == size,
        paths.contains(c.path),
    decreases paths.len(),
{
    let all = unprocessed(size, paths, done);
    let k = choose|k: int| 0 <= k < all.len() && all[k] == c;
    let s = paths.drop_last();
    let before = unprocessed(size, s, done);
    if k < before.len() {
        assert(before[k] == c);
        assert(before.contains(c));
        lemma_unprocessed(size, s, done, c);
        let j = choose|j: int| 0 <= j < s.len() && s[j] == c.path;
        assert(paths[j] == c.path);
    } else {
        assert(paths[paths.len() - 1] == c.path);
    }
}

/// What holds of every group: it has two or more files, and it is unconfirmed
/// only where its files have the size from which groups are left so.
pub open spec fn group_in_order(g: GroupV, threshold: u64) -> bool {
    g.paths.len() >= 2 && (!g.confirmed ==> deferred_size(g.size, threshold))
}

proof fn lemma_confirmed_groups(t: TableV, sizes: Map<PathId, u64>, threshold: u64)
    ensures
        forall|i: int|
            0 <= i < confirmed_groups(t, sizes).len() ==> group_in_order(
                #[trigger] confirmed_groups(t, sizes)[i],
                threshold,
            ),
    decreases t.len(),
{
    if t.len() > 0 {
        lemma_confirmed_groups(t.drop_last(), sizes, threshold);
        let before = confirmed_groups(t.drop_last(), sizes);
        let all = confirmed_groups(t, sizes);
        assert forall|i: int| 0 <= i < all.len() implies group_in_order(#[trigger] all[i], threshold) by {
            if i < before.len() {
                assert(all[i] == before[i]);
            }
        }
    }
}

proof fn lemma_open_buckets(t: TableV, at: Set<PathId>)
    ensures
        forall|i: int| 0 <= i < open_buckets(t, at).len() ==> unconfirmed(#[trigger] open_buckets(t, at)[i], at),
    decreases t.len(),
{
    if t.len() > 0 {
        lemma_open_buckets(t.drop_last(), at);
        let before = open_buckets(t.drop_last(), at);
        let all = open_buckets(t, at);
        assert forall|i: int| 0 <= i < all.len() implies unconfirmed(#[trigger] all[i], at) by {
            if i < before.len() {
                assert(all[i] == before[i]);
            }
        }
    }
}

proof fn lemma_deferred(buckets: Seq<BucketV>, threshold: u64)
    requires
        forall|i: int| 0 <= i < buckets.len() ==> (#[trigger] buckets[i]).paths.len() >= 2,
    ensures
        forall|i: int|
            0 <= i < deferred_of(buckets, threshold).len() ==> group_in_order(
                #[trigger] deferred_of(buckets, threshold)[i],
                threshold,
            ),
    decreases buckets.len(),
{
    if buckets.len() > 0 {
        let s = buckets.drop_last();
        assert forall|i: int| 0 <= i < s.len() implies (#[trigger] s[i]).paths.len() >= 2 by {
            assert(buckets[i].paths.len() >= 2);
        }
        lemma_deferred(s, threshold);
        let before = deferred_of(s, threshold);
        let all = deferred_of(buckets, threshold);
        assert(buckets[buckets.len() - 1].paths.len() >= 2);
        assert forall|i: int| 0 <= i < all.len() implies group_in_order(#[trigger] all[i], threshold) by {
            if i < before.len() {
                assert(all[i] == before[i]);
            }
        }
    }
}

/// The groups set aside when confirming begins are in order.
pub proof fn law_deferred_groups(s: ScanV)
    ensures
        forall|i: int|
            0 <= i < s.confirming().deferred.len() ==> group_in_order(
                #[trigger] s.confirming().deferred[i],
                s.threshold,
            ),
{
    let at = s.settled();
    let open = open_buckets(s.by_partial, at);
    lemma_open_buckets(s.by_partial, at);
    assert forall|i: int| 0 <= i < open.len() implies (#[trigger] open[i]).paths.len() >= 2 by {
        assert(unconfirmed(open[i], at));
    }
    lemma_deferred(open, s.threshold);
}

/// Every group that a scan gives is in order.
pub proof fn law_groups_found(s: ScanV)
    requires
        confirmed_groups(s.by_full, crate::scan::file_sizes(s.by_partial)).len() + s.deferred.len() <= usize::MAX,
        forall|i: int| 0 <= i < s.deferred.len() ==> group_in_order(#[trigger] s.deferred[i], s.threshold),
    ensures
        forall|i: int|
            0 <= i < s.groups_found().len() ==> group_in_order(#[trigger] s.groups_found()[i], s.threshold),
{
    let sizes = crate::scan::file_sizes(s.by_partial);
    let sure = confirmed_groups(s.by_full, sizes);
    let all = sure + s.deferred;
    lemma_confirmed_groups(s.by_full, sizes, s.threshold);
    law_ranking(all);
    let found = s.groups_found();
    assert forall|i: int| 0 <= i < found.len() implies group_in_order(#[trigger] found[i], s.threshold) by {
        assert(found.contains(found[i]));
        assert(all.contains(found[i]));
        let j = choose|j: int| 0 <= j < all.len() && all[j] == found[i];
        if j < sure.len() {
            assert(all[j] == sure[j]);
        } else {
            assert(all[j] == s.deferred[j - sure.len()]);
        }
    }
}

/// A bucket all of whose files were confirmed before is not compared again.
pub proof fn law_confirmed_not_repeated(t: TableV, at: Set<PathId>, b: BucketV)
    requires
        crate::scan::all_resolved(b.paths, at),
    ensures
        !open_buckets(t, at).contains(b),
{
    lemma_open_buckets(t, at);
    let open = open_buckets(t, at);
    if open.contains(b) {
        let i = choose|i: int| 0 <= i < open.len() && open[i] == b;
        assert(unconfirmed(open[i], at));
    }
}

} // verus!
