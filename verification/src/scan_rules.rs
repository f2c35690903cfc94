//! Which files a scan hashes, which it compares, which it leaves unsure, and what it
//! gives as its result.

use vstd::prelude::*;

use crate::bucket::{BucketResultV, MatchV};
use crate::command_laws::law_groups_are_ranked;
use crate::folder_sums::total;
use crate::folders::tree_of;
use crate::groups::{law_ranking, ranked, GroupV};
use crate::paths::{PathId, PathV};
use crate::resume::{root_key_of, EntryV, ResumeV, RootKeyV};
use crate::scan::{
    all_resolved, batches_of, candidates_of, confirmed, confirmed_groups, deferred_of, file_sizes, files_in, flat,
    flat_batches, group_size, groups_taken, hashed, open_buckets, packed, pieces, roots_match, scan_begun, singles,
    stage_named, stage_text, to_confirm, unconfirmed, unprocessed, CandidateV, ScanStage, ScanV,
};
use crate::table_laws::{law_paths_are_added, law_paths_are_appended};
use crate::tables::{
    all_paths, keys_unique, lemma_added_unique, lemma_extended_unique, lemma_marked, lists_of, paths_under, BucketV,
    TableV,
};
use crate::text::decimal;
use crate::walk::ids_of;

verus! {

// ------------------------------------------------------------------- what is hashed

proof fn lemma_unprocessed(size: u64, paths: Seq<PathV>, done: Set<PathId>, c: CandidateV)
    ensures
        unprocessed(size, paths, done).contains(c) <==> c.size == size && paths.contains(c.path) && !done.contains(
            c.path.parts,
        ),
    decreases paths.len(),
{
    if paths.len() > 0 {
        let s = paths.drop_last();
        let x = paths.last();
        lemma_unprocessed(size, s, done, c);
        let (before, all) = (unprocessed(size, s, done), unprocessed(size, paths, done));
        assert(paths[paths.len() - 1] == x);
        if s.contains(c.path) {
            let i = choose|i: int| 0 <= i < s.len() && s[i] == c.path;
            assert(paths[i] == c.path);
        }
        if paths.contains(c.path) && c.path != x {
            let i = choose|i: int| 0 <= i < paths.len() && paths[i] == c.path;
            assert(s[i] == c.path);
        }
        if !done.contains(x.parts) {
            let mine = CandidateV { size, path: x };
            assert(all[before.len() as int] == mine);
            if before.contains(c) {
                let i = choose|i: int| 0 <= i < before.len() && before[i] == c;
                assert(all[i] == c);
            }
            if all.contains(c) && c != mine {
                let i = choose|i: int| 0 <= i < all.len() && all[i] == c;
                assert(before[i] == c);
            }
        }
    }
}

/// A file is hashed if and only if another has its size and it was not hashed before.
pub proof fn law_what_is_hashed(by_size: TableV, done: Set<PathId>, c: CandidateV)
    ensures
        candidates_of(by_size, done).contains(c) <==> !done.contains(c.path.parts) && exists|b: int|
            0 <= b < by_size.len() && (#[trigger] by_size[b]).size == c.size && by_size[b].paths.len() >= 2
                && by_size[b].paths.contains(c.path),
    decreases by_size.len(),
{
    if by_size.len() > 0 {
        let s = by_size.drop_last();
        let n = by_size.len() - 1;
        let last = by_size.last();
        law_what_is_hashed(s, done, c);
        lemma_unprocessed(last.size, last.paths, done, c);
        let (before, mine, all) = (
            candidates_of(s, done),
            unprocessed(last.size, last.paths, done),
            candidates_of(by_size, done),
        );
        if all.contains(c) {
            let i = choose|i: int| 0 <= i < all.len() && all[i] == c;
            if i < before.len() {
                assert(before[i] == c);
                let b = choose|b: int|
                    0 <= b < s.len() && (#[trigger] s[b]).size == c.size && s[b].paths.len() >= 2
                        && s[b].paths.contains(c.path);
                assert(by_size[b] == s[b]);
            } else {
                assert(mine[i - before.len()] == c);
                assert(by_size[n].paths.contains(c.path));
            }
        }
        if !done.contains(c.path.parts) && exists|b: int|
            0 <= b < by_size.len() && (#[trigger] by_size[b]).size == c.size && by_size[b].paths.len() >= 2
                && by_size[b].paths.contains(c.path) {
            let b = choose|b: int|
                0 <= b < by_size.len() && (#[trigger] by_size[b]).size == c.size && by_size[b].paths.len() >= 2
                    && by_size[b].paths.contains(c.path);
            if b < n {
                assert(s[b] == by_size[b]);
                let i = choose|i: int| 0 <= i < before.len() && before[i] == c;
                assert(all[i] == c);
            } else {
                let i = choose|i: int| 0 <= i < mine.len() && mine[i] == c;
                assert(all[before.len() + i] == c);
            }
        }
    }
}

/// A file that was hashed is listed under its size and its hash, and saved so; one that
/// could not be read is skipped. What was listed before stays.
pub proof fn law_what_hashing_gives(t: TableV, batch: Seq<CandidateV>, results: Seq<Option<Seq<char>>>, i: int)
    requires
        keys_unique(t),
        batch.len() == results.len(),
        0 <= i < batch.len(),
    ensures
        ({
            let h = hashed(t, batch, results);
            &&& keys_unique(h.by_partial)
            &&& results[i] matches Some(digest) ==> {
                let key = decimal(batch[i].size as nat) + ":"@ + digest;
                &&& paths_under(h.by_partial, key).contains(batch[i].path)
                &&& h.entries.contains(EntryV { key, path: batch[i].path })
            }
            &&& results[i] is None ==> h.skipped.contains(batch[i].path)
            &&& h.entries.len() + h.skipped.len() == batch.len()
        }),
    decreases batch.len(),
{
    let (s, r) = (batch.drop_last(), results.drop_last());
    let n = batch.len() - 1;
    if s.len() > 0 {
        law_what_hashing_gives(t, s, r, if i < n {
            i
        } else {
            0
        });
    }
    let (b, h) = (hashed(t, s, r), hashed(t, batch, results));
    let c = batch[n];
    assert(keys_unique(b.by_partial));
    if results[n] is Some {
        let last = decimal(c.size as nat) + ":"@ + results[n].unwrap();
        lemma_added_unique(b.by_partial, last, c.size, c.path);
        law_paths_are_added(b.by_partial, last, c.size, c.path, last);
        let under = paths_under(b.by_partial, last);
        assert(under.push(c.path)[under.len() as int] == c.path);
        assert(h.entries[b.entries.len() as int] == EntryV { key: last, path: c.path });
        if i < n && results[i] is Some {
            let key = decimal(batch[i].size as nat) + ":"@ + results[i].unwrap();
            law_paths_are_added(b.by_partial, last, c.size, c.path, key);
            assert(r[i] == results[i] && s[i] == batch[i]);
            let k = choose|k: int| 0 <= k < under.len() && under[k] == batch[i].path;
            if key == last {
                assert(under.contains(batch[i].path));
                assert(under.push(c.path)[k] == batch[i].path);
            }
            let e = choose|e: int| 0 <= e < b.entries.len() && b.entries[e] == EntryV { key, path: batch[i].path };
            assert(h.entries[e] == EntryV { key, path: batch[i].path });
        }
    } else {
        assert(h.skipped[b.skipped.len() as int] == c.path);
    }
    if i < n && results[i] is None {
        assert(r[i] == results[i] && s[i] == batch[i]);
        let k = choose|k: int| 0 <= k < b.skipped.len() && b.skipped[k] == batch[i].path;
        assert(h.skipped[k] == batch[i].path);
    }
}

// ----------------------------------------------------------------- what is compared

/// The files of one size and partial hash that need a further look: two or more, not all
/// of them done.
pub proof fn law_what_needs_a_further_look(by_partial: TableV, done: Set<PathId>)
    ensures
        open_buckets(by_partial, done) == by_partial.filter(|b: BucketV| b.paths.len() >= 2 && some_open(b.paths, done)),
    decreases by_partial.len(),
{
    reveal(Seq::filter);
    if by_partial.len() > 0 {
        law_what_needs_a_further_look(by_partial.drop_last(), done);
        let b = by_partial.last();
        if some_open(b.paths, done) {
            let i = choose|i: int| 0 <= i < b.paths.len() && !done.contains((#[trigger] b.paths[i]).parts);
            assert(!all_resolved(b.paths, done));
        }
        assert(unconfirmed(b, done) <==> b.paths.len() >= 2 && some_open(b.paths, done));
    }
}

/// Whether one of these files is not done.
pub open spec fn some_open(paths: Seq<PathV>, done: Set<PathId>) -> bool {
    exists|i: int| 0 <= i < paths.len() && !done.contains((#[trigger] paths[i]).parts)
}

/// Files from a threshold on, where there is one, are not compared: they make groups that
/// are not confirmed, of the same size and paths.
pub proof fn law_large_files_are_left_unsure(buckets: Seq<BucketV>, threshold: u64)
    ensures
        deferred_of(buckets, threshold) == buckets.filter(|b: BucketV| threshold > 0 && b.size >= threshold).map_values(
            |b: BucketV| GroupV { file_hash: b.key, size: b.size, paths: b.paths, confirmed: false },
        ),
    decreases buckets.len(),
{
    reveal(Seq::filter);
    let f = |b: BucketV| GroupV { file_hash: b.key, size: b.size, paths: b.paths, confirmed: false };
    let keep = |b: BucketV| threshold > 0 && b.size >= threshold;
    if buckets.len() > 0 {
        law_large_files_are_left_unsure(buckets.drop_last(), threshold);
        let before = buckets.drop_last().filter(keep);
        assert(before.push(buckets.last()).map_values(f) =~= before.map_values(f).push(f(buckets.last())));
    }
}

/// All other files are compared: together where they are not too many, else one by one, but
/// for those that are done.
pub proof fn law_other_files_are_compared(buckets: Seq<BucketV>, threshold: u64, done: Set<PathId>, b: int, i: int)
    requires
        0 <= b < buckets.len(),
        threshold == 0 || buckets[b].size < threshold,
        0 <= i < buckets[b].paths.len(),
    ensures
        buckets[b].paths.len() <= 1000 ==> to_confirm(buckets, threshold, done).contains(buckets[b].paths),
        buckets[b].paths.len() > 1000 && !done.contains(buckets[b].paths[i].parts) ==> to_confirm(
            buckets,
            threshold,
            done,
        ).contains(seq![buckets[b].paths[i]]),
    decreases buckets.len(),
{
    let s = buckets.drop_last();
    let n = buckets.len() - 1;
    let (before, all) = (to_confirm(s, threshold, done), to_confirm(buckets, threshold, done));
    let paths = buckets[b].paths;
    if b < n {
        law_other_files_are_compared(s, threshold, done, b, i);
        assert(s[b] == buckets[b]);
        if paths.len() <= 1000 {
            let k = choose|k: int| 0 <= k < before.len() && before[k] == paths;
            assert(all[k] == paths);
        } else if !done.contains(paths[i].parts) {
            let k = choose|k: int| 0 <= k < before.len() && before[k] == seq![paths[i]];
            assert(all[k] == seq![paths[i]]);
        }
    } else {
        let mine = pieces(paths, done);
        assert(all == before + mine);
        if paths.len() <= 1000 {
            assert(mine[0] == paths);
            assert(all[before.len() as int] == paths);
        } else if !done.contains(paths[i].parts) {
            lemma_singles(paths, done, i);
            let k = choose|k: int| 0 <= k < mine.len() && mine[k] == seq![paths[i]];
            assert(all[before.len() + k] == seq![paths[i]]);
        }
    }
}

proof fn lemma_singles(paths: Seq<PathV>, done: Set<PathId>, i: int)
    requires
        0 <= i < paths.len(),
        !done.contains(paths[i].parts),
    ensures
        singles(paths, done).contains(seq![paths[i]]),
    decreases paths.len(),
{
    let s = paths.drop_last();
    let n = paths.len() - 1;
    let (before, all) = (singles(s, done), singles(paths, done));
    if i < n {
        lemma_singles(s, done, i);
        assert(s[i] == paths[i]);
        let k = choose|k: int| 0 <= k < before.len() && before[k] == seq![paths[i]];
        assert(all[k] == seq![paths[i]]);
    } else {
        assert(all[before.len() as int] == seq![paths[i]]);
    }
}

proof fn lemma_packed(buckets: Seq<Seq<PathV>>)
    ensures
        ({
            let p = packed(buckets);
            &&& flat_batches(p.done) + flat(p.current) == flat(buckets)
            &&& p.count == files_in(p.current)
            &&& p.count < 1000
            &&& forall|i: int| 0 <= i < p.done.len() ==> well_filled(#[trigger] p.done[i])
        }),
    decreases buckets.len(),
{
    if buckets.len() > 0 {
        let s = buckets.drop_last();
        let b = buckets.last();
        lemma_packed(s);
        let (p, q) = (packed(s), packed(buckets));
        let full = p.current.push(b);
        assert(full.drop_last() =~= p.current);
        assert(flat(full) == flat(p.current) + b);
        assert(files_in(full) == files_in(p.current) + b.len());
        if p.count + b.len() >= 1000 {
            assert(q.done.drop_last() =~= p.done);
            assert(flat_batches(q.done) + Seq::<PathV>::empty() =~= flat_batches(p.done) + flat(p.current) + b);
            assert(flat(q.current) =~= Seq::<PathV>::empty());
            assert(flat_batches(q.done) =~= flat(buckets));
            assert forall|i: int| 0 <= i < q.done.len() implies well_filled(#[trigger] q.done[i]) by {
                if i < p.done.len() {
                    assert(q.done[i] == p.done[i]);
                }
            }
        } else {
            assert(flat_batches(p.done) + (flat(p.current) + b) =~= flat_batches(p.done) + flat(p.current) + b);
        }
    }
}

/// Whether a batch has enough files, and would not have without its last piece.
pub open spec fn well_filled(batch: Seq<Seq<PathV>>) -> bool {
    batch.len() > 0 && files_in(batch) >= 1000 && files_in(batch.drop_last()) < 1000
}

/// The work is cut into batches in its order, with nothing lost and nothing added; each but
/// the last has a thousand files or just over.
pub proof fn law_work_comes_in_batches(buckets: Seq<Seq<PathV>>)
    ensures
        flat_batches(batches_of(buckets)) == flat(buckets),
        forall|i: int| 0 <= i < batches_of(buckets).len() - 1 ==> well_filled(#[trigger] batches_of(buckets)[i]),
{
    lemma_packed(buckets);
    let p = packed(buckets);
    let all = batches_of(buckets);
    if p.current.len() > 0 {
        assert(all.drop_last() =~= p.done);
        assert forall|i: int| 0 <= i < all.len() - 1 implies well_filled(#[trigger] all[i]) by {
            assert(all[i] == p.done[i]);
        }
    } else {
        assert(flat(p.current) =~= Seq::<PathV>::empty());
        assert(flat_batches(p.done) + flat(p.current) =~= flat_batches(p.done));
    }
}

proof fn lemma_files_in(buckets: Seq<Seq<PathV>>)
    ensures
        files_in(buckets) == flat(buckets).len(),
    decreases buckets.len(),
{
    if buckets.len() > 0 {
        lemma_files_in(buckets.drop_last());
    }
}

/// How much there is to compare is told as the number of files in all batches.
pub proof fn law_the_work_is_counted(s: ScanV)
    ensures
        s.confirming().confirm_total == flat_batches(s.confirming().batches).len() % 0x1_0000_0000_0000_0000,
{
    lemma_files_in(s.work());
    law_work_comes_in_batches(s.work());
}

// -------------------------------------------------------------------- what is saved

/// The names under which the stages are saved name those stages, and nothing else does.
pub proof fn law_stage_names(stage: ScanStage, name: Seq<char>)
    ensures
        stage_text(ScanStage::Scanning) == "scanning"@,
        stage_text(ScanStage::QuickHash) == "quick_hash"@,
        stage_text(ScanStage::FullHash) == "full_hash"@,
        stage_named(stage_text(stage)) == Some(stage),
        stage_named(name) matches Some(s) ==> stage_text(s) == name,
{
    reveal_strlit("scanning");
    reveal_strlit("quick_hash");
    reveal_strlit("full_hash");
    assert("scanning"@.len() != "quick_hash"@.len());
    assert("quick_hash"@.len() != "full_hash"@.len());
    assert("scanning"@.len() != "full_hash"@.len());
}

/// While it walks, a scan saves what it found when two thousand entries are unsaved, all of
/// them, and then none is.
pub proof fn law_when_a_walk_is_saved(s: ScanV)
    ensures
        s.due_delta() is Some <==> s.pending_entries.len() + s.pending_skipped.len() + s.pending_completed.len() >= 2000,
        s.due_delta() matches Some(d) ==> d.new_entries == s.pending_entries && d.new_skipped == s.pending_skipped
            && d.new_completed_dirs == s.pending_completed && d.new_processed.len() == 0 && d.stage == "scanning"@
            && s.checkpointed().pending() == 0,
        s.due_delta() is None ==> s.checkpointed() == s,
        s.checkpointed().by_size == s.by_size && s.checkpointed().skipped == s.skipped,
{
}

/// A file that is found is listed under its size, or skipped where it has none, and is to be
/// saved so.
pub proof fn law_found_files_are_listed(s: ScanV, path: PathV, size: u64)
    requires
        keys_unique(s.by_size),
    ensures
        paths_under(s.after_file(path, Some(size)).by_size, decimal(size as nat)) == paths_under(
            s.by_size,
            decimal(size as nat),
        ).push(path),
        s.after_file(path, Some(size)).skipped == s.skipped,
        s.after_file(path, Some(size)).pending_entries == s.pending_entries.push(
            EntryV { key: decimal(size as nat), path },
        ),
        s.after_file(path, None).by_size == s.by_size,
        s.after_file(path, None).skipped == s.skipped.push(path),
        s.after_file(path, None).pending_skipped == s.pending_skipped.push(path),
{
    law_paths_are_added(s.by_size, decimal(size as nat), size, path, decimal(size as nat));
}

/// What a stage found is saved with all of it, under the name of the stage; the
/// directories, their keys and the files by size go with it where they were not saved yet.
/// Nothing is saved where nothing was found.
pub proof fn law_what_a_stage_saves(
    s: ScanV,
    stage: ScanStage,
    entries: Seq<EntryV>,
    skipped: Seq<PathV>,
    processed: Seq<PathV>,
)
    ensures
        ({
            let delta = s.stage_delta(stage, entries, skipped, processed);
            let n = s.stage_saved(entries, skipped, processed);
            &&& delta is None <==> entries.len() == 0 && skipped.len() == 0 && processed.len() == 0
            &&& delta is None ==> n == s
            &&& delta matches Some(d) ==> {
                &&& d.stage == stage_text(stage)
                &&& d.new_entries == entries && d.new_skipped == skipped && d.new_processed == processed
                &&& d.new_completed_dirs.len() == 0
                &&& s.by_size_sent ==> d.by_size is None
                &&& !s.by_size_sent ==> d.by_size == Some(lists_of(s.by_size))
                &&& s.directories_sent ==> d.directories is None
                &&& !s.directories_sent ==> d.directories == Some(s.directories)
                &&& s.root_keys_sent ==> d.root_keys is None
                &&& !s.root_keys_sent ==> d.root_keys == Some(s.root_keys)
                &&& n.by_size_sent && n.directories_sent && n.root_keys_sent
            }
        }),
{
}

/// A walk that ends, or is cancelled, saves all that is unsaved.
pub proof fn law_the_end_of_a_walk_is_saved(s: ScanV, cancel: bool)
    ensures
        ({
            let unsaved = s.pending_entries.len() + s.pending_skipped.len() + s.pending_completed.len();
            &&& s.walk_delta() is Some <==> unsaved > 0
            &&& s.walk_delta() matches Some(d) ==> d.new_entries == s.pending_entries && d.new_skipped
                == s.pending_skipped && d.new_completed_dirs == s.pending_completed && d.stage == "scanning"@ && (
            d.directories is None <==> s.directories_sent) && (d.root_keys is None <==> s.root_keys_sent) && (
            !s.directories_sent ==> d.directories == Some(s.directories)) && (!s.root_keys_sent ==> d.root_keys == Some(
                s.root_keys,
            ))
            &&& s.after_walk(cancel).pending_entries.len() == 0 && s.after_walk(cancel).pending_skipped.len() == 0
                && s.after_walk(cancel).pending_completed.len() == 0
            &&& s.after_walk(cancel).by_size == s.by_size && s.after_walk(cancel).skipped == s.skipped
            &&& s.after_walk(cancel).cancelled is Some <==> cancel || s.cancelled is Some
        }),
{
}

/// Files are hashed in their order, a thousand at a time, and the rest at the end.
pub proof fn law_files_are_hashed_in_turn(s: ScanV, results: Seq<Option<Seq<char>>>)
    requires
        s.at <= s.candidates.len(),
    ensures
        ({
            let end = if s.at + 1000 < s.candidates.len() {
                s.at as int + 1000
            } else {
                s.candidates.len() as int
            };
            &&& s.hash_batch() == s.candidates.subrange(s.at as int, end)
            &&& s.after_hashes(results).at == end
            &&& s.after_hashes(results).candidates == s.candidates
        }),
{
}

/// What comparing gives is kept: the files of a group under its digest, what was skipped,
/// and how many files were gone through.
pub proof fn law_compared_groups_are_kept(t: TableV, results: Seq<BucketResultV>, r: int)
    requires
        keys_unique(t),
        0 <= r < results.len(),
    ensures
        ({
            let c = confirmed(t, results);
            &&& keys_unique(c.by_full)
            &&& c.processed == total(results, |x: BucketResultV| x.processed_count as int)
            &&& forall|k: int|
                0 <= k < results[r].skipped.len() ==> c.skipped.contains(#[trigger] results[r].skipped[k])
            &&& forall|g: int, k: int|
                0 <= g < results[r].groups.len() && 0 <= k < results[r].groups[g].paths.len() ==> paths_under(
                    c.by_full,
                    results[r].groups[g].digest,
                ).contains(#[trigger] results[r].groups[g].paths[k]) && c.entries.contains(
                    EntryV { key: results[r].groups[g].digest, path: results[r].groups[g].paths[k] },
                )
        }),
    decreases results.len(),
{
    let s = results.drop_last();
    let n = results.len() - 1;
    let last = results[n];
    if s.len() > 0 {
        law_compared_groups_are_kept(t, s, if r < n {
            r
        } else {
            0
        });
    }
    let (b, c) = (confirmed(t, s), confirmed(t, results));
    assert(keys_unique(b.by_full));
    assert(b.processed == total(s, |x: BucketResultV| x.processed_count as int));
    lemma_groups_taken(b.by_full, b.entries, last.groups);
    assert forall|k: int| 0 <= k < results[r].skipped.len() implies c.skipped.contains(
        #[trigger] results[r].skipped[k],
    ) by {
        let p = results[r].skipped[k];
        if r < n {
            assert(s[r].skipped[k] == p);
            assert(b.skipped.contains(p));
            let i = choose|i: int| 0 <= i < b.skipped.len() && b.skipped[i] == p;
            assert(c.skipped[i] == p);
        } else {
            assert(c.skipped[b.skipped.len() + k] == p);
        }
    }
    assert forall|g: int, k: int|
        0 <= g < results[r].groups.len() && 0 <= k < results[r].groups[g].paths.len() implies paths_under(
        c.by_full,
        results[r].groups[g].digest,
    ).contains(#[trigger] results[r].groups[g].paths[k]) && c.entries.contains(
        EntryV { key: results[r].groups[g].digest, path: results[r].groups[g].paths[k] },
    ) by {
        let (d, p) = (results[r].groups[g].digest, results[r].groups[g].paths[k]);
        if r < n {
            assert(s[r].groups[g].paths[k] == p);
            assert(paths_under(b.by_full, d).contains(p));
            assert(b.entries.contains(EntryV { key: d, path: p }));
        } else {
            assert(last.groups[g].paths[k] == p);
        }
    }
}

proof fn lemma_groups_taken(t: TableV, entries: Seq<EntryV>, groups: Seq<MatchV>)
    requires
        keys_unique(t),
    ensures
        ({
            let (u, e) = groups_taken(t, entries, groups);
            &&& keys_unique(u)
            &&& forall|d: Seq<char>, p: PathV|
                paths_under(t, d).contains(p) ==> #[trigger] paths_under(u, d).contains(p)
            &&& forall|x: EntryV| entries.contains(x) ==> #[trigger] e.contains(x)
            &&& forall|g: int, k: int|
                0 <= g < groups.len() && 0 <= k < groups[g].paths.len() ==> paths_under(u, groups[g].digest).contains(
                    #[trigger] groups[g].paths[k],
                ) && e.contains(EntryV { key: groups[g].digest, path: groups[g].paths[k] })
        }),
    decreases groups.len(),
{
    if groups.len() > 0 {
        let s = groups.drop_last();
        let n = groups.len() - 1;
        let last = groups[n];
        lemma_groups_taken(t, entries, s);
        let (v, f) = groups_taken(t, entries, s);
        let (u, e) = groups_taken(t, entries, groups);
        lemma_extended_unique(v, last.digest, last.paths);
        let more = crate::scan::entries_under(last.digest, last.paths);
        assert forall|d: Seq<char>, p: PathV| paths_under(v, d).contains(p) implies #[trigger] paths_under(u, d).contains(
            p,
        ) by {
            law_paths_are_appended(v, last.digest, last.paths, d);
            let i = choose|i: int| 0 <= i < paths_under(v, d).len() && paths_under(v, d)[i] == p;
            assert(paths_under(u, d)[i] == p);
        }
        assert forall|x: EntryV| f.contains(x) implies #[trigger] e.contains(x) by {
            let i = choose|i: int| 0 <= i < f.len() && f[i] == x;
            assert(e[i] == x);
        }
        assert forall|g: int, k: int|
            0 <= g < groups.len() && 0 <= k < groups[g].paths.len() implies paths_under(u, groups[g].digest).contains(
            #[trigger] groups[g].paths[k],
        ) && e.contains(EntryV { key: groups[g].digest, path: groups[g].paths[k] }) by {
            let p = groups[g].paths[k];
            if g < n {
                assert(s[g].paths[k] == p);
                assert(paths_under(v, s[g].digest).contains(p));
                assert(f.contains(EntryV { key: s[g].digest, path: p }));
            } else {
                law_paths_are_appended(v, last.digest, last.paths, last.digest);
                let under = paths_under(v, last.digest);
                assert(paths_under(u, last.digest)[under.len() + k] == p);
                assert(more[k] == EntryV { key: last.digest, path: p });
                assert(e[f.len() + k] == more[k]);
            }
        }
    }
}

/// Saved progress is left aside if and only if one of the directories to scan was saved
/// with another key; the scan is a new one then, but for saying so.
pub proof fn law_when_saved_progress_is_left_aside(roots: Seq<RootKeyV>, threshold: u64, saved: ResumeV)
    ensures
        ({
            let s = scan_begun(roots, threshold, Some(saved));
            &&& s.resume_ignored <==> exists|i: int| 0 <= i < roots.len() && key_changed(saved, #[trigger] roots[i])
            &&& s.resume_ignored ==> s == (ScanV { resume_ignored: true, ..scan_begun(roots, threshold, None) })
            &&& s.resumed is Some <==> !s.resume_ignored && stage_named(saved.stage) is Some
            &&& s.resumed is Some ==> s.resumed == stage_named(saved.stage) && s.skipped == saved.skipped
            &&& s.directories == scan_begun(roots, threshold, None).directories && s.threshold == threshold
        }),
{
    if exists|i: int| 0 <= i < roots.len() && key_changed(saved, #[trigger] roots[i]) {
        let i = choose|i: int| 0 <= i < roots.len() && key_changed(saved, #[trigger] roots[i]);
        assert(!roots_match(saved.root_keys, roots)) by {
            assert(root_key_of(saved.root_keys, roots[i].directory) is Some);
        }
    }
    if !roots_match(saved.root_keys, roots) {
        let i = choose|i: int|
            0 <= i < roots.len() && !(match root_key_of(saved.root_keys, (#[trigger] roots[i]).directory) {
                Some(key) => key == roots[i].key,
                None => true,
            });
        assert(key_changed(saved, roots[i]));
    }
}

/// Whether a directory was saved with another key.
pub open spec fn key_changed(saved: ResumeV, root: RootKeyV) -> bool {
    root_key_of(saved.root_keys, root.directory) is Some && root_key_of(saved.root_keys, root.directory) != Some(root.key)
}

// ------------------------------------------------------------------------ the result

proof fn lemma_confirmed(by_full: TableV, sizes: Map<PathId, u64>, g: GroupV)
    ensures
        confirmed_groups(by_full, sizes).contains(g) <==> exists|b: int|
            0 <= b < by_full.len() && (#[trigger] by_full[b]).paths.len() >= 2 && g == (GroupV {
                file_hash: by_full[b].key,
                size: group_size(by_full[b].paths, sizes),
                paths: by_full[b].paths,
                confirmed: true,
            }),
    decreases by_full.len(),
{
    if by_full.len() > 0 {
        let s = by_full.drop_last();
        let n = by_full.len() - 1;
        lemma_confirmed(s, sizes, g);
        let (before, all) = (confirmed_groups(s, sizes), confirmed_groups(by_full, sizes));
        if all.contains(g) {
            let i = choose|i: int| 0 <= i < all.len() && all[i] == g;
            if i < before.len() {
                assert(before[i] == g);
                let b = choose|b: int|
                    0 <= b < s.len() && (#[trigger] s[b]).paths.len() >= 2 && g == (GroupV {
                        file_hash: s[b].key,
                        size: group_size(s[b].paths, sizes),
                        paths: s[b].paths,
                        confirmed: true,
                    });
                assert(by_full[b] == s[b]);
            } else {
                assert(by_full[n].paths.len() >= 2);
            }
        }
        if exists|b: int|
            0 <= b < by_full.len() && (#[trigger] by_full[b]).paths.len() >= 2 && g == (GroupV {
                file_hash: by_full[b].key,
                size: group_size(by_full[b].paths, sizes),
                paths: by_full[b].paths,
                confirmed: true,
            }) {
            let b = choose|b: int|
                0 <= b < by_full.len() && (#[trigger] by_full[b]).paths.len() >= 2 && g == (GroupV {
                    file_hash: by_full[b].key,
                    size: group_size(by_full[b].paths, sizes),
                    paths: by_full[b].paths,
                    confirmed: true,
                });
            if b < n {
                assert(s[b] == by_full[b]);
                let i = choose|i: int| 0 <= i < before.len() && before[i] == g;
                assert(all[i] == g);
            } else {
                assert(all[before.len() as int] == g);
            }
        }
    }
}

/// The groups of a result are the files of one digest, two or more, which are confirmed,
/// and those that were left unsure. What could not be read is told; a scan that was
/// cancelled says so, gives no folders, and gives what is needed to take it up again.
pub proof fn law_what_a_scan_gives(s: ScanV, scanned: Seq<PathV>, roots: Seq<RootKeyV>, g: GroupV)
    requires
        confirmed_groups(s.by_full, file_sizes(s.by_partial)).len() + s.deferred.len() <= usize::MAX,
    ensures
        ({
            let r = s.result(scanned, roots);
            &&& r.groups.contains(g) <==> s.deferred.contains(g) || exists|b: int|
                0 <= b < s.by_full.len() && (#[trigger] s.by_full[b]).paths.len() >= 2 && g == (GroupV {
                    file_hash: s.by_full[b].key,
                    size: group_size(s.by_full[b].paths, file_sizes(s.by_partial)),
                    paths: s.by_full[b].paths,
                    confirmed: true,
                })
            &&& r.skipped == s.skipped
            &&& r.cancelled <==> s.cancelled is Some
            &&& r.resume_state is Some <==> s.cancelled is Some
            &&& r.cancelled ==> r.folder_groups.len() == 0
            &&& !r.cancelled ==> r.folder_groups == tree_of(
                all_paths(s.by_size),
                s.skipped,
                r.groups,
                ids_of(scanned),
            ).duplicate_folders()
            &&& r.reused_run_id is None
        }),
{
    let sure = confirmed_groups(s.by_full, file_sizes(s.by_partial));
    let both = sure + s.deferred;
    lemma_confirmed(s.by_full, file_sizes(s.by_partial), g);
    law_ranking(both);
    assert(ranked(both).contains(g) <==> both.contains(g));
    if sure.contains(g) {
        let i = choose|i: int| 0 <= i < sure.len() && sure[i] == g;
        assert(both[i] == g);
    }
    if s.deferred.contains(g) {
        let i = choose|i: int| 0 <= i < s.deferred.len() && s.deferred[i] == g;
        assert(both[sure.len() + i] == g);
    }
    if both.contains(g) {
        let i = choose|i: int| 0 <= i < both.len() && both[i] == g;
        if i < sure.len() {
            assert(sure[i] == g);
        } else {
            assert(s.deferred[i - sure.len()] == g);
        }
    }
}

/// Whether a path stands under a key.
pub open spec fn stands_in(b: BucketV, id: PathId) -> bool {
    exists|j: int| 0 <= j < b.paths.len() && (#[trigger] b.paths[j]).parts == id
}

proof fn lemma_file_sizes(t: TableV, b: int, id: PathId)
    requires
        0 <= b < t.len(),
        stands_in(t[b], id),
        forall|c: int| 0 <= c < t.len() && c != b ==> !stands_in(#[trigger] t[c], id),
    ensures
        file_sizes(t).contains_key(id),
        file_sizes(t)[id] == t[b].size,
    decreases t.len(),
{
    let s = t.drop_last();
    let n = t.len() - 1;
    let ids = t[n].paths.map_values(|q: PathV| q.parts);
    lemma_marked(file_sizes(s), t[n].paths, t[n].size, id);
    if b < n {
        assert forall|c: int| 0 <= c < s.len() && c != b implies !stands_in(#[trigger] s[c], id) by {
            assert(s[c] == t[c]);
        }
        assert(s[b] == t[b]);
        lemma_file_sizes(s, b, id);
        assert(!stands_in(t[n], id));
        if ids.contains(id) {
            let j = choose|j: int| 0 <= j < ids.len() && ids[j] == id;
            assert(t[n].paths[j].parts == id);
        }
    } else {
        let j = choose|j: int| 0 <= j < t[n].paths.len() && (#[trigger] t[n].paths[j]).parts == id;
        assert(ids[j] == id);
    }
}

/// A confirmed group has the size under which its first file was hashed.
pub proof fn law_groups_have_the_size_of_their_files(by_partial: TableV, paths: Seq<PathV>, b: int)
    requires
        paths.len() > 0,
        0 <= b < by_partial.len(),
        stands_in(by_partial[b], paths[0].parts),
        forall|c: int| 0 <= c < by_partial.len() && c != b ==> !stands_in(#[trigger] by_partial[c], paths[0].parts),
    ensures
        group_size(paths, file_sizes(by_partial)) == by_partial[b].size,
{
    lemma_file_sizes(by_partial, b, paths[0].parts);
}

/// The groups of a result come with those first that take up most, all copies counted.
pub proof fn law_result_is_ranked(s: ScanV, scanned: Seq<PathV>, roots: Seq<RootKeyV>, i: int, j: int)
    requires
        confirmed_groups(s.by_full, file_sizes(s.by_partial)).len() + s.deferred.len() <= usize::MAX,
        0 <= i < j < s.result(scanned, roots).groups.len(),
    ensures
        ({
            let (a, b) = (s.result(scanned, roots).groups[i], s.result(scanned, roots).groups[j]);
            a.size * a.paths.len() >= b.size * b.paths.len() || a.size * a.paths.len() >= u64::MAX
        }),
{
    let both = confirmed_groups(s.by_full, file_sizes(s.by_partial)) + s.deferred;
    law_ranking(both);
    law_groups_are_ranked(both, i, j);
}

} // verus!
