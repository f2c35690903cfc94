//! A scan that was cancelled and is taken up again goes on where it stopped: it
//! reads only what was left, and it comes to the same groups.

use vstd::prelude::*;

use crate::guarantees::{confirmed_all, hashed_all, walked_all, DiskV, FoundV};
use crate::paths::{PathId, PathV};
use crate::order::{lemma_arranged, text_key};
use crate::resume::{
    distinct_paths, law_saved_state_reads_back, lemma_all_paths_lists, lists_paths, load_rows, nothing_loaded,
    root_keys_from, snapshot_valid, sorted_by_text, state_of, state_rows, ResumeV, RootKeyV,
};
use crate::scan::{
    all_resolved, batches_of, candidate_paths, candidates_of, deferred_of, deferred_size, flat, flat_batches,
    keys_touched, lemma_stage_names, list_positions, open_buckets, oversized, packed, pieces, roots_match,
    scan_begun, singles, sizes_loaded, stage_named, stage_text, stale_keys, to_confirm, unconfirmed, unprocessed,
    CandidateV, ScanPhase, ScanStage, ScanV, BATCH_SIZE, CHECKPOINT_INTERVAL,
};
use crate::scan_laws::{
    canonical, law_fulls_read_back, law_partials_read_back, law_resume_restores, law_sizes_read_back,
    law_tables_stay_in_order, lemma_push_set,
};
use crate::tables::{all_paths, distinct, lemma_marked, lists_of, without, BucketV, ListV, TableV};
use crate::walk::{ids_of, lemma_ids_concat, lemma_ids_has, lemma_ids_push};

verus! {

// ---------------------------------------------------------------------- batches

proof fn lemma_pack_count(buckets: Seq<Seq<PathV>>)
    ensures
        packed(buckets).count == flat(packed(buckets).current).len(),
        packed(buckets).count < BATCH_SIZE,
        packed(buckets).current.len() == 0 ==> packed(buckets).count == 0,
    decreases buckets.len(),
{
    if buckets.len() > 0 {
        let p = packed(buckets.drop_last());
        lemma_pack_count(buckets.drop_last());
        assert(p.current.push(buckets.last()).drop_last() =~= p.current);
    }
}

/// What is packed after a batch was closed does not depend on what came before.
proof fn lemma_pack_concat(a: Seq<Seq<PathV>>, b: Seq<Seq<PathV>>)
    requires
        packed(a).current.len() == 0,
    ensures
        packed(a + b).done == packed(a).done + packed(b).done,
        packed(a + b).current == packed(b).current,
        packed(a + b).count == packed(b).count,
    decreases b.len(),
{
    lemma_pack_count(a);
    if b.len() > 0 {
        lemma_pack_concat(a, b.drop_last());
        assert((a + b).drop_last() =~= a + b.drop_last());
        assert((a + b).last() == b.last());
        assert(packed(a + b).done =~= packed(a).done + packed(b).done);
    } else {
        assert(a + b =~= a);
        assert(packed(a).done + packed(b).done =~= packed(a).done);
        assert(packed(a).current =~= packed(b).current);
    }
}

/// Where the first `k` closed batches end.
proof fn lemma_pack_cut(w: Seq<Seq<PathV>>, k: nat) -> (m: int)
    requires
        k <= packed(w).done.len(),
    ensures
        0 <= m <= w.len(),
        packed(w.take(m)).done == packed(w).done.take(k as int),
        packed(w.take(m)).current.len() == 0,
    decreases w.len(),
{
    if w.len() == 0 {
        assert(w.take(0) =~= w);
        assert(packed(w).done.take(k as int) =~= packed(w).done);
        0
    } else {
        let s = w.drop_last();
        if k <= packed(s).done.len() {
            let m = lemma_pack_cut(s, k);
            assert(w.take(m) =~= s.take(m));
            assert(packed(w).done.take(k as int) =~= packed(s).done.take(k as int));
            m
        } else {
            assert(w.take(w.len() as int) =~= w);
            assert(packed(w).done.take(k as int) =~= packed(w).done);
            w.len() as int
        }
    }
}

proof fn lemma_flat_concat(a: Seq<Seq<PathV>>, b: Seq<Seq<PathV>>)
    ensures
        flat(a + b) == flat(a) + flat(b),
    decreases b.len(),
{
    if b.len() > 0 {
        lemma_flat_concat(a, b.drop_last());
        assert((a + b).drop_last() =~= a + b.drop_last());
        assert(flat(a + b) =~= flat(a) + flat(b));
    } else {
        assert(a + b =~= a);
        assert(flat(a) + flat(b) =~= flat(a));
    }
}

proof fn lemma_pack_flat(w: Seq<Seq<PathV>>)
    ensures
        flat_batches(packed(w).done) + flat(packed(w).current) == flat(w),
    decreases w.len(),
{
    if w.len() > 0 {
        let p = packed(w.drop_last());
        let n = packed(w);
        let last = w.last();
        lemma_pack_flat(w.drop_last());
        let full = p.current.push(last);
        assert(full.drop_last() =~= p.current);
        assert(flat(full) == flat(p.current) + last);
        if p.count + last.len() >= BATCH_SIZE {
            assert(n.done.drop_last() =~= p.done);
            assert(flat_batches(n.done) == flat_batches(p.done) + flat(full));
            assert(flat(n.current) =~= Seq::<PathV>::empty());
        }
        assert(flat_batches(n.done) + flat(n.current) =~= flat(w));
    } else {
        assert(flat_batches(packed(w).done) + flat(packed(w).current) =~= flat(w));
    }
}

/// The first batches are made of the first pieces, and the others of the rest.
proof fn lemma_batch_cut(w: Seq<Seq<PathV>>, k: nat) -> (m: int)
    requires
        k <= batches_of(w).len(),
    ensures
        0 <= m <= w.len(),
        flat_batches(batches_of(w).take(k as int)) == flat(w.take(m)),
        batches_of(w.skip(m)) == batches_of(w).skip(k as int),
{
    let p = packed(w);
    let all = batches_of(w);
    if k <= p.done.len() {
        let m = lemma_pack_cut(w, k);
        assert(w.take(m) + w.skip(m) =~= w);
        lemma_pack_concat(w.take(m), w.skip(m));
        lemma_pack_flat(w.take(m));
        assert(flat(packed(w.take(m)).current) =~= Seq::<PathV>::empty());
        assert(flat(w.take(m)) =~= flat_batches(p.done.take(k as int)));
        assert(all.take(k as int) =~= p.done.take(k as int));
        let q = packed(w.skip(m));
        assert(p.done == p.done.take(k as int) + q.done);
        assert(batches_of(w.skip(m)) =~= all.skip(k as int));
        m
    } else {
        let m = w.len() as int;
        assert(w.take(m) =~= w);
        assert(w.skip(m) =~= Seq::<Seq<PathV>>::empty());
        assert(all.take(k as int) =~= all);
        lemma_pack_flat(w);
        assert(all.drop_last() =~= p.done);
        assert(flat_batches(all) == flat_batches(p.done) + flat(p.current));
        assert(batches_of(w.skip(m)) =~= all.skip(k as int));
        m
    }
}

/// Whether no piece is larger than a batch.
spec fn pieces_fit(w: Seq<Seq<PathV>>) -> bool {
    forall|i: int| 0 <= i < w.len() ==> (#[trigger] w[i]).len() <= BATCH_SIZE
}

proof fn lemma_pack_fits(w: Seq<Seq<PathV>>, b: int)
    requires
        pieces_fit(w),
        0 <= b < packed(w).done.len(),
    ensures
        flat(packed(w).done[b]).len() <= CHECKPOINT_INTERVAL,
        packed(w).done[b].len() > 0,
    decreases w.len(),
{
    if w.len() > 0 {
        let s = w.drop_last();
        assert(pieces_fit(s)) by {
            assert forall|i: int| 0 <= i < s.len() implies (#[trigger] s[i]).len() <= BATCH_SIZE by {
                assert(w[i].len() <= BATCH_SIZE);
            }
        }
        let p = packed(s);
        if b < p.done.len() {
            lemma_pack_fits(s, b);
        } else {
            lemma_pack_count(s);
            let full = p.current.push(w.last());
            assert(full.drop_last() =~= p.current);
            assert(w[w.len() - 1].len() <= BATCH_SIZE);
        }
    }
}

proof fn lemma_singles_fit(paths: Seq<PathV>, done: Set<PathId>)
    ensures
        pieces_fit(singles(paths, done)),
        forall|i: int| 0 <= i < singles(paths, done).len() ==> (#[trigger] singles(paths, done)[i]).len() == 1,
    decreases paths.len(),
{
    if paths.len() > 0 {
        lemma_singles_fit(paths.drop_last(), done);
    }
}

proof fn lemma_work_fits(buckets: Seq<BucketV>, threshold: u64, done: Set<PathId>)
    requires
        forall|i: int| 0 <= i < buckets.len() ==> (#[trigger] buckets[i]).paths.len() >= 2,
    ensures
        pieces_fit(to_confirm(buckets, threshold, done)),
        forall|i: int|
            0 <= i < to_confirm(buckets, threshold, done).len() ==> (#[trigger] to_confirm(buckets, threshold, done)[i]).len()
                > 0,
    decreases buckets.len(),
{
    if buckets.len() > 0 {
        let s = buckets.drop_last();
        assert forall|i: int| 0 <= i < s.len() implies (#[trigger] s[i]).paths.len() >= 2 by {
            assert(buckets[i].paths.len() >= 2);
        }
        lemma_work_fits(s, threshold, done);
        lemma_singles_fit(buckets.last().paths, done);
        assert(buckets[buckets.len() - 1].paths.len() >= 2);
        let a = to_confirm(s, threshold, done);
        let b = pieces(buckets.last().paths, done);
        let all = to_confirm(buckets, threshold, done);
        assert forall|i: int| 0 <= i < all.len() implies 0 < (#[trigger] all[i]).len() <= BATCH_SIZE by {
            if i < a.len() {
                assert(all[i] == a[i]);
            } else {
                assert(all[i] == b[i - a.len()]);
            }
        }
    }
}

proof fn lemma_open_large(t: TableV, done: Set<PathId>)
    ensures
        forall|i: int| 0 <= i < open_buckets(t, done).len() ==> (#[trigger] open_buckets(t, done)[i]).paths.len() >= 2,
    decreases t.len(),
{
    if t.len() > 0 {
        lemma_open_large(t.drop_last(), done);
        let before = open_buckets(t.drop_last(), done);
        let all = open_buckets(t, done);
        assert forall|i: int| 0 <= i < all.len() implies (#[trigger] all[i]).paths.len() >= 2 by {
            if i < before.len() {
                assert(all[i] == before[i]);
            }
        }
    }
}

/// In every stage a checkpoint is due before more than an interval's worth of
/// files was worked on since the last one: after each batch of files hashed and
/// after each batch of files compared, none of which is larger. While directories
/// are walked, see [`crate::scan::Scan::law_little_is_unsaved`].
pub proof fn law_checkpoint_after_each_batch(
    s: ScanV,
    results: Seq<Option<Seq<char>>>,
    outcomes: Seq<crate::bucket::BucketResultV>,
    b: int,
)
    ensures
        s.hash_batch().len() <= CHECKPOINT_INTERVAL || s.at > s.candidates.len(),
        s.at < s.candidates.len() && results.len() == s.hash_batch().len() ==> ({
            let h = crate::scan::hashed(s.by_partial, s.hash_batch(), results);
            s.stage_delta(ScanStage::QuickHash, h.entries, h.skipped, Seq::empty()) is Some
        }),
        s.batches == batches_of(s.work()) && 0 <= b < s.batches.len() ==> flat(s.batches[b]).len()
            <= CHECKPOINT_INTERVAL && flat(s.batches[b]).len() > 0,
        s.batches == batches_of(s.work()) && s.at_batch < s.batches.len() ==> ({
            let c = crate::scan::confirmed(s.by_full, outcomes);
            s.stage_delta(ScanStage::FullHash, c.entries, c.skipped, s.batch_files()) is Some
        }),
{
    if s.at < s.candidates.len() && results.len() == s.hash_batch().len() {
        lemma_hash_counts(s.by_partial, s.hash_batch(), results);
    }
    if s.batches == batches_of(s.work()) {
        if 0 <= b < s.batches.len() {
            lemma_batch_size(s, b);
        }
        if s.at_batch < s.batches.len() {
            lemma_batch_size(s, s.at_batch as int);
        }
    }
}

proof fn lemma_hash_counts(t: TableV, batch: Seq<CandidateV>, results: Seq<Option<Seq<char>>>)
    requires
        batch.len() == results.len(),
    ensures
        crate::scan::hashed(t, batch, results).entries.len() + crate::scan::hashed(t, batch, results).skipped.len()
            == batch.len(),
    decreases batch.len(),
{
    if batch.len() > 0 {
        lemma_hash_counts(t, batch.drop_last(), results.drop_last());
    }
}

proof fn lemma_flat_some(w: Seq<Seq<PathV>>)
    requires
        w.len() > 0,
        w[0].len() > 0,
    ensures
        flat(w).len() > 0,
    decreases w.len(),
{
    if w.len() > 1 {
        lemma_flat_some(w.drop_last());
    }
}

proof fn lemma_packed_from(w: Seq<Seq<PathV>>, k: int, c: int)
    requires
        forall|i: int| 0 <= i < w.len() ==> (#[trigger] w[i]).len() > 0,
    ensures
        0 <= k < packed(w).done.len() && 0 <= c < packed(w).done[k].len() ==> packed(w).done[k][c].len() > 0,
        0 <= c < packed(w).current.len() ==> packed(w).current[c].len() > 0,
    decreases w.len(),
{
    if w.len() > 0 {
        let s = w.drop_last();
        assert forall|i: int| 0 <= i < s.len() implies (#[trigger] s[i]).len() > 0 by {
            assert(w[i].len() > 0);
        }
        lemma_packed_from(s, k, c);
        assert(w[w.len() - 1].len() > 0);
        let p = packed(s);
        let full = p.current.push(w.last());
        if 0 <= c < full.len() && c < p.current.len() {
            assert(full[c] == p.current[c]);
        }
    }
}

proof fn lemma_batch_size(s: ScanV, b: int)
    requires
        s.batches == batches_of(s.work()),
        0 <= b < s.batches.len(),
    ensures
        0 < flat(s.batches[b]).len() <= CHECKPOINT_INTERVAL,
{
    let w = s.work();
    lemma_open_large(s.by_partial, s.settled());
    lemma_work_fits(s.open_at_start(), s.threshold, s.settled());
    lemma_pack_count(w);
    lemma_packed_from(w, b, 0);
    if b < packed(w).done.len() {
        lemma_pack_fits(w, b);
        lemma_flat_some(s.batches[b]);
    } else {
        assert(s.batches[b] == packed(w).current);
        lemma_flat_some(packed(w).current);
    }
}

// ------------------------------------------------------------------ what is left

/// Whether no path occurs twice.
pub open spec fn distinct_ids(paths: Seq<PathV>) -> bool {
    forall|i: int, j: int| 0 <= i < j < paths.len() ==> (#[trigger] paths[i]).parts != (#[trigger] paths[j]).parts
}

proof fn lemma_distinct_parts(a: Seq<PathV>, b: Seq<PathV>)
    requires
        distinct_ids(a + b),
    ensures
        distinct_ids(a),
        distinct_ids(b),
        forall|id: PathId| #[trigger] ids_of(a).contains(id) ==> !ids_of(b).contains(id),
{
    let c = a + b;
    assert forall|i: int, j: int| 0 <= i < j < a.len() implies (#[trigger] a[i]).parts != (#[trigger] a[j]).parts by {
        assert(c[i].parts != c[j].parts);
    }
    assert forall|i: int, j: int| 0 <= i < j < b.len() implies (#[trigger] b[i]).parts != (#[trigger] b[j]).parts by {
        assert(c[a.len() + i].parts != c[a.len() + j].parts);
    }
    assert forall|id: PathId| #[trigger] ids_of(a).contains(id) implies !ids_of(b).contains(id) by {
        lemma_ids_has(a, id);
        lemma_ids_has(b, id);
        if ids_of(b).contains(id) {
            let i = choose|i: int| 0 <= i < a.len() && (#[trigger] a[i]).parts == id;
            let j = choose|j: int| 0 <= j < b.len() && (#[trigger] b[j]).parts == id;
            assert(c[i].parts != c[a.len() + j].parts);
        }
    }
}

/// Whether two sets have the same of some paths.
spec fn agree(a: Set<PathId>, b: Set<PathId>, on: Seq<PathV>) -> bool {
    forall|i: int| 0 <= i < on.len() ==> a.contains((#[trigger] on[i]).parts) == b.contains(on[i].parts)
}

proof fn lemma_agree_ids(a: Set<PathId>, b: Set<PathId>, on: Seq<PathV>)
    requires
        forall|id: PathId| #[trigger] ids_of(on).contains(id) ==> a.contains(id) == b.contains(id),
    ensures
        agree(a, b, on),
{
    assert forall|i: int| 0 <= i < on.len() implies a.contains((#[trigger] on[i]).parts) == b.contains(on[i].parts) by {
        lemma_ids_has(on, on[i].parts);
        assert(ids_of(on).contains(on[i].parts));
    }
}

proof fn lemma_singles_agree(paths: Seq<PathV>, a: Set<PathId>, b: Set<PathId>)
    requires
        agree(a, b, paths),
    ensures
        singles(paths, a) == singles(paths, b),
    decreases paths.len(),
{
    if paths.len() > 0 {
        let s = paths.drop_last();
        assert(agree(a, b, s)) by {
            assert forall|i: int| 0 <= i < s.len() implies a.contains((#[trigger] s[i]).parts) == b.contains(s[i].parts) by {
                assert(paths[i] == s[i]);
            }
        }
        lemma_singles_agree(s, a, b);
        assert(paths[paths.len() - 1] == paths.last());
    }
}

proof fn lemma_resolved_agree(paths: Seq<PathV>, a: Set<PathId>, b: Set<PathId>)
    requires
        agree(a, b, paths),
    ensures
        all_resolved(paths, a) == all_resolved(paths, b),
{
    if all_resolved(paths, a) {
        assert forall|i: int| 0 <= i < paths.len() implies b.contains((#[trigger] paths[i]).parts) by {
            assert(a.contains(paths[i].parts));
        }
    }
    if all_resolved(paths, b) {
        assert forall|i: int| 0 <= i < paths.len() implies a.contains((#[trigger] paths[i]).parts) by {
            assert(b.contains(paths[i].parts));
        }
    }
}

/// The files handed out one by one are files of the bucket.
proof fn lemma_singles_ids(paths: Seq<PathV>, done: Set<PathId>)
    ensures
        ids_of(flat(singles(paths, done))).subset_of(ids_of(paths)),
        forall|id: PathId| #[trigger] ids_of(flat(singles(paths, done))).contains(id) <==> ids_of(paths).contains(id)
            && !done.contains(id),
    decreases paths.len(),
{
    if paths.len() > 0 {
        let s = paths.drop_last();
        lemma_singles_ids(s, done);
        lemma_ids_push(s, paths.last());
        assert(s.push(paths.last()) =~= paths);
        let f = singles(s, done);
        if !done.contains(paths.last().parts) {
            assert(f.push(seq![paths.last()]).drop_last() =~= f);
            lemma_ids_push(flat(f), paths.last());
            assert(flat(f) + seq![paths.last()] =~= flat(f).push(paths.last()));
        }
    } else {
        lemma_ids_none();
        assert(flat(singles(paths, done)) =~= Seq::<PathV>::empty());
        assert(paths =~= Seq::<PathV>::empty());
    }
}

proof fn lemma_ids_none()
    ensures
        ids_of(Seq::<PathV>::empty()) == Set::<PathId>::empty(),
{
    assert forall|id: PathId| !ids_of(Seq::<PathV>::empty()).contains(id) by {
        lemma_ids_has(Seq::<PathV>::empty(), id);
    }
    assert(ids_of(Seq::<PathV>::empty()) =~= Set::<PathId>::empty());
}

/// Whether a set has what another has, and what some files add, of the paths that
/// count.
spec fn has_added(after: Set<PathId>, before: Set<PathId>, more: Seq<PathV>, on: Seq<PathV>) -> bool {
    forall|id: PathId| #[trigger]
        ids_of(on).contains(id) ==> (after.contains(id) <==> before.contains(id) || ids_of(more).contains(id))
}

proof fn lemma_singles_left(paths: Seq<PathV>, d: Set<PathId>, e: Set<PathId>, j: int)
    requires
        distinct_ids(paths),
        0 <= j <= singles(paths, d).len(),
        has_added(e, d, flat(singles(paths, d).take(j)), paths),
    ensures
        singles(paths, e) == singles(paths, d).skip(j),
    decreases paths.len(),
{
    let all = singles(paths, d);
    if paths.len() > 0 {
        let s = paths.drop_last();
        let x = paths.last();
        let before = singles(s, d);
        assert(s + seq![x] =~= paths);
        lemma_distinct_parts(s, seq![x]);
        lemma_ids_push(s, x);
        assert(s.push(x) =~= paths);
        lemma_singles_ids(s, d);
        lemma_ids_push(Seq::empty(), x);
        lemma_ids_none();
        assert(Seq::<PathV>::empty().push(x) =~= seq![x]);
        assert(ids_of(paths).contains(x.parts));
        assert(ids_of(seq![x]).contains(x.parts));
        assert(!ids_of(s).contains(x.parts));
        if j <= before.len() {
            assert(all.take(j) =~= before.take(j));
            lemma_flat_take(before, j);
            assert(has_added(e, d, flat(before.take(j)), s)) by {
                assert forall|id: PathId| #[trigger] ids_of(s).contains(id) implies (e.contains(id) <==> d.contains(id)
                    || ids_of(flat(before.take(j))).contains(id)) by {
                    assert(ids_of(paths).contains(id));
                }
            }
            lemma_singles_left(s, d, e, j);
            assert(!ids_of(flat(before.take(j))).contains(x.parts));
            assert(e.contains(x.parts) == d.contains(x.parts));
            if !d.contains(x.parts) {
                assert(all.skip(j) =~= before.skip(j).push(seq![x]));
            }
        } else {
            assert(!d.contains(x.parts));
            assert(j == all.len());
            assert(all.take(j) =~= all);
            assert(before.take(before.len() as int) =~= before);
            assert(all.drop_last() =~= before);
            assert(flat(all) =~= flat(before).push(x));
            lemma_ids_push(flat(before), x);
            assert(has_added(e, d, flat(before.take(before.len() as int)), s)) by {
                assert forall|id: PathId| #[trigger] ids_of(s).contains(id) implies (e.contains(id) <==> d.contains(id)
                    || ids_of(flat(before.take(before.len() as int))).contains(id)) by {
                    assert(ids_of(paths).contains(id));
                }
            }
            lemma_singles_left(s, d, e, before.len() as int);
            assert(e.contains(x.parts));
            assert(before.skip(before.len() as int) =~= Seq::<Seq<PathV>>::empty());
            assert(all.skip(j) =~= Seq::<Seq<PathV>>::empty());
        }
    } else {
        assert(all.skip(j) =~= singles(paths, e));
    }
}

/// The files of the first pieces are among those of all.
proof fn lemma_flat_take(w: Seq<Seq<PathV>>, j: int)
    requires
        0 <= j <= w.len(),
    ensures
        ids_of(flat(w.take(j))).subset_of(ids_of(flat(w))),
{
    assert(w.take(j) + w.skip(j) =~= w);
    lemma_flat_concat(w.take(j), w.skip(j));
    lemma_ids_concat(flat(w.take(j)), flat(w.skip(j)));
}

/// What there is to compare of a table.
spec fn work_of(t: TableV, threshold: u64, done: Set<PathId>) -> Seq<Seq<PathV>> {
    to_confirm(open_buckets(t, done), threshold, done)
}

/// What there is to compare of one bucket.
spec fn part_of(b: BucketV, threshold: u64, done: Set<PathId>) -> Seq<Seq<PathV>> {
    if unconfirmed(b, done) && !deferred_size(b.size, threshold) {
        pieces(b.paths, done)
    } else {
        Seq::empty()
    }
}

proof fn lemma_work_step(t: TableV, threshold: u64, done: Set<PathId>)
    requires
        t.len() > 0,
    ensures
        work_of(t, threshold, done) == work_of(t.drop_last(), threshold, done) + part_of(t.last(), threshold, done),
{
    let before = open_buckets(t.drop_last(), done);
    if unconfirmed(t.last(), done) {
        assert(before.push(t.last()).drop_last() =~= before);
    }
    assert(work_of(t, threshold, done) =~= work_of(t.drop_last(), threshold, done) + part_of(
        t.last(),
        threshold,
        done,
    ));
}

proof fn lemma_part_ids(b: BucketV, threshold: u64, done: Set<PathId>)
    ensures
        ids_of(flat(part_of(b, threshold, done))).subset_of(ids_of(b.paths)),
{
    lemma_singles_ids(b.paths, done);
    lemma_ids_none();
    let p = part_of(b, threshold, done);
    if p.len() == 0 {
        assert(flat(p) =~= Seq::<PathV>::empty());
    } else if !oversized(b.paths) {
        lemma_flat_one(b.paths);
    }
}

proof fn lemma_flat_one(paths: Seq<PathV>)
    ensures
        flat(seq![paths]) == paths,
{
    let w = seq![paths];
    assert(w.drop_last() =~= Seq::<Seq<PathV>>::empty());
    assert(w.last() == paths);
    assert(flat(w.drop_last()) =~= Seq::<PathV>::empty());
    assert(flat(w) == flat(w.drop_last()) + w.last());
    assert(flat(w) =~= paths);
}

proof fn lemma_work_ids(t: TableV, threshold: u64, done: Set<PathId>)
    ensures
        ids_of(flat(work_of(t, threshold, done))).subset_of(ids_of(all_paths(t))),
    decreases t.len(),
{
    if t.len() > 0 {
        lemma_work_step(t, threshold, done);
        lemma_work_ids(t.drop_last(), threshold, done);
        lemma_part_ids(t.last(), threshold, done);
        let a = work_of(t.drop_last(), threshold, done);
        let b = part_of(t.last(), threshold, done);
        lemma_flat_concat(a, b);
        lemma_ids_concat(flat(a), flat(b));
        lemma_ids_concat(all_paths(t.drop_last()), t.last().paths);
    } else {
        lemma_ids_none();
        assert(flat(work_of(t, threshold, done)) =~= Seq::<PathV>::empty());
    }
}

proof fn lemma_part_left(b: BucketV, threshold: u64, d: Set<PathId>, e: Set<PathId>, j: int)
    requires
        distinct_ids(b.paths),
        0 <= j <= part_of(b, threshold, d).len(),
        has_added(e, d, flat(part_of(b, threshold, d).take(j)), b.paths),
    ensures
        part_of(b, threshold, e) == part_of(b, threshold, d).skip(j),
        deferred_size(b.size, threshold) ==> unconfirmed(b, e) == unconfirmed(b, d),
{
    let part = part_of(b, threshold, d);
    lemma_ids_none();
    if j == 0 {
        assert(flat(part.take(0)) =~= Seq::<PathV>::empty());
        lemma_agree_ids(e, d, b.paths);
        lemma_resolved_agree(b.paths, e, d);
        lemma_singles_agree(b.paths, e, d);
        assert(part.skip(0) =~= part);
    } else {
        assert(unconfirmed(b, d) && !deferred_size(b.size, threshold));
        if oversized(b.paths) {
            lemma_singles_left(b.paths, d, e, j);
            if all_resolved(b.paths, e) {
                lemma_none_left(b.paths, e);
                assert(part.skip(j) =~= Seq::<Seq<PathV>>::empty());
                assert(part_of(b, threshold, e) =~= part.skip(j));
            }
        } else {
            assert(part.take(j) =~= seq![b.paths]);
            lemma_flat_one(b.paths);
            assert(all_resolved(b.paths, e)) by {
                assert forall|i: int| 0 <= i < b.paths.len() implies e.contains((#[trigger] b.paths[i]).parts) by {
                    lemma_ids_has(b.paths, b.paths[i].parts);
                    assert(ids_of(b.paths).contains(b.paths[i].parts));
                }
            }
            assert(part.skip(j) =~= Seq::<Seq<PathV>>::empty());
            assert(part_of(b, threshold, e) =~= part.skip(j));
        }
    }
}

proof fn lemma_none_left(paths: Seq<PathV>, done: Set<PathId>)
    requires
        all_resolved(paths, done),
    ensures
        singles(paths, done).len() == 0,
    decreases paths.len(),
{
    if paths.len() > 0 {
        let s = paths.drop_last();
        assert forall|i: int| 0 <= i < s.len() implies done.contains((#[trigger] s[i]).parts) by {
            assert(done.contains(paths[i].parts));
        }
        lemma_none_left(s, done);
        assert(done.contains(paths[paths.len() - 1].parts));
    }
}

/// When the files of the first pieces are done, the other pieces are what is left
/// to compare, and what is put off stays so.
proof fn lemma_work_left(t: TableV, threshold: u64, d: Set<PathId>, e: Set<PathId>, m: int)
    requires
        distinct_ids(all_paths(t)),
        0 <= m <= work_of(t, threshold, d).len(),
        has_added(e, d, flat(work_of(t, threshold, d).take(m)), all_paths(t)),
    ensures
        work_of(t, threshold, e) == work_of(t, threshold, d).skip(m),
        deferred_of(open_buckets(t, e), threshold) == deferred_of(open_buckets(t, d), threshold),
    decreases t.len(),
{
    let w = work_of(t, threshold, d);
    if t.len() > 0 {
        let s = t.drop_last();
        let last = t.last();
        let a = work_of(s, threshold, d);
        let b = part_of(last, threshold, d);
        lemma_work_step(t, threshold, d);
        lemma_work_step(t, threshold, e);
        lemma_distinct_parts(all_paths(s), last.paths);
        lemma_ids_concat(all_paths(s), last.paths);
        lemma_work_ids(s, threshold, d);
        lemma_part_ids(last, threshold, d);
        let (i, j) = if m <= a.len() {
            (m, 0int)
        } else {
            (a.len() as int, m - a.len())
        };
        assert(w.take(m) =~= a.take(i) + b.take(j));
        lemma_flat_concat(a.take(i), b.take(j));
        lemma_ids_concat(flat(a.take(i)), flat(b.take(j)));
        lemma_flat_take(a, i);
        lemma_flat_take(b, j);
        assert(has_added(e, d, flat(a.take(i)), all_paths(s))) by {
            assert forall|id: PathId| #[trigger] ids_of(all_paths(s)).contains(id) implies (e.contains(id) <==> d.contains(
                id,
            ) || ids_of(flat(a.take(i))).contains(id)) by {
                assert(ids_of(all_paths(t)).contains(id));
                assert(!ids_of(last.paths).contains(id));
            }
        }
        assert(has_added(e, d, flat(b.take(j)), last.paths)) by {
            assert forall|id: PathId| #[trigger] ids_of(last.paths).contains(id) implies (e.contains(id) <==> d.contains(id)
                || ids_of(flat(b.take(j))).contains(id)) by {
                assert(ids_of(all_paths(t)).contains(id));
                if ids_of(all_paths(s)).contains(id) {
                    assert(false);
                }
            }
        }
        lemma_work_left(s, threshold, d, e, i);
        lemma_part_left(last, threshold, d, e, j);
        assert(w.skip(m) =~= a.skip(i) + b.skip(j));
        lemma_deferred_step(t, threshold, d);
        lemma_deferred_step(t, threshold, e);
    } else {
        assert(w.skip(m) =~= work_of(t, threshold, e));
    }
}

proof fn lemma_deferred_step(t: TableV, threshold: u64, done: Set<PathId>)
    requires
        t.len() > 0,
    ensures
        deferred_of(open_buckets(t, done), threshold) == (if unconfirmed(t.last(), done) && deferred_size(
            t.last().size,
            threshold,
        ) {
            deferred_of(open_buckets(t.drop_last(), done), threshold).push(
                crate::groups::GroupV {
                    file_hash: t.last().key,
                    size: t.last().size,
                    paths: t.last().paths,
                    confirmed: false,
                },
            )
        } else {
            deferred_of(open_buckets(t.drop_last(), done), threshold)
        }),
{
    let before = open_buckets(t.drop_last(), done);
    if unconfirmed(t.last(), done) {
        assert(before.push(t.last()).drop_last() =~= before);
    }
}

// ------------------------------------------------------- the candidates that are left

proof fn lemma_unprocessed_left(size: u64, paths: Seq<PathV>, d: Set<PathId>, e: Set<PathId>, j: int)
    requires
        distinct_ids(paths),
        0 <= j <= unprocessed(size, paths, d).len(),
        has_added(e, d, candidate_paths(unprocessed(size, paths, d).take(j)), paths),
    ensures
        unprocessed(size, paths, e) == unprocessed(size, paths, d).skip(j),
    decreases paths.len(),
{
    let all = unprocessed(size, paths, d);
    if paths.len() > 0 {
        let s = paths.drop_last();
        let x = paths.last();
        let c = CandidateV { size, path: x };
        let before = unprocessed(size, s, d);
        assert(s + seq![x] =~= paths);
        lemma_distinct_parts(s, seq![x]);
        lemma_ids_push(s, x);
        assert(s.push(x) =~= paths);
        lemma_unprocessed_ids(size, s, d);
        lemma_ids_push(Seq::empty(), x);
        lemma_ids_none();
        assert(Seq::<PathV>::empty().push(x) =~= seq![x]);
        assert(ids_of(paths).contains(x.parts));
        assert(ids_of(seq![x]).contains(x.parts));
        assert(!ids_of(s).contains(x.parts));
        let i = if j <= before.len() {
            j
        } else {
            before.len() as int
        };
        lemma_paths_take(before, i);
        assert(has_added(e, d, candidate_paths(before.take(i)), s)) by {
            assert forall|id: PathId| #[trigger] ids_of(s).contains(id) implies (e.contains(id) <==> d.contains(id)
                || ids_of(candidate_paths(before.take(i))).contains(id)) by {
                assert(ids_of(paths).contains(id));
                if j <= before.len() {
                    assert(all.take(j) =~= before.take(i));
                } else {
                    assert(all.take(j) =~= before.push(c));
                    assert(before.take(i) =~= before);
                    assert(candidate_paths(before.push(c)) =~= candidate_paths(before).push(x));
                    lemma_ids_push(candidate_paths(before), x);
                }
            }
        }
        lemma_unprocessed_left(size, s, d, e, i);
        if j <= before.len() {
            assert(all.take(j) =~= before.take(i));
            assert(!ids_of(candidate_paths(before.take(j))).contains(x.parts));
            assert(e.contains(x.parts) == d.contains(x.parts));
            if !d.contains(x.parts) {
                assert(all.skip(j) =~= before.skip(j).push(c));
            } else {
                assert(all.skip(j) =~= before.skip(j));
            }
        } else {
            assert(all.take(j) =~= before.push(c));
            assert(candidate_paths(before.push(c)) =~= candidate_paths(before).push(x));
            lemma_ids_push(candidate_paths(before), x);
            assert(e.contains(x.parts));
            assert(before.skip(i) =~= Seq::<CandidateV>::empty());
            assert(all.skip(j) =~= Seq::<CandidateV>::empty());
        }
    } else {
        assert(all.skip(j) =~= unprocessed(size, paths, e));
    }
}

proof fn lemma_unprocessed_ids(size: u64, paths: Seq<PathV>, done: Set<PathId>)
    ensures
        ids_of(candidate_paths(unprocessed(size, paths, done))).subset_of(ids_of(paths)),
    decreases paths.len(),
{
    if paths.len() > 0 {
        let s = paths.drop_last();
        lemma_unprocessed_ids(size, s, done);
        lemma_ids_push(s, paths.last());
        assert(s.push(paths.last()) =~= paths);
        let u = unprocessed(size, s, done);
        let c = CandidateV { size, path: paths.last() };
        assert(candidate_paths(u.push(c)) =~= candidate_paths(u).push(paths.last()));
        lemma_ids_push(candidate_paths(u), paths.last());
    } else {
        lemma_ids_none();
        assert(candidate_paths(unprocessed(size, paths, done)) =~= Seq::<PathV>::empty());
    }
}

proof fn lemma_paths_take(list: Seq<CandidateV>, j: int)
    requires
        0 <= j <= list.len(),
    ensures
        ids_of(candidate_paths(list.take(j))).subset_of(ids_of(candidate_paths(list))),
{
    assert(candidate_paths(list) =~= candidate_paths(list.take(j)) + candidate_paths(list.skip(j)));
    lemma_ids_concat(candidate_paths(list.take(j)), candidate_paths(list.skip(j)));
}

/// The files of a bucket that are to be hashed.
spec fn hash_part(b: BucketV, done: Set<PathId>) -> Seq<CandidateV> {
    if b.paths.len() < 2 {
        Seq::empty()
    } else {
        unprocessed(b.size, b.paths, done)
    }
}

proof fn lemma_candidates_ids(t: TableV, done: Set<PathId>)
    ensures
        ids_of(candidate_paths(candidates_of(t, done))).subset_of(ids_of(all_paths(t))),
    decreases t.len(),
{
    if t.len() > 0 {
        let a = candidates_of(t.drop_last(), done);
        let b = hash_part(t.last(), done);
        lemma_candidates_ids(t.drop_last(), done);
        lemma_unprocessed_ids(t.last().size, t.last().paths, done);
        assert(candidates_of(t, done) =~= a + b);
        assert(candidate_paths(a + b) =~= candidate_paths(a) + candidate_paths(b));
        lemma_ids_concat(candidate_paths(a), candidate_paths(b));
        lemma_ids_concat(all_paths(t.drop_last()), t.last().paths);
        lemma_ids_none();
        if t.last().paths.len() < 2 {
            assert(candidate_paths(b) =~= Seq::<PathV>::empty());
        }
    } else {
        lemma_ids_none();
        assert(candidate_paths(candidates_of(t, done)) =~= Seq::<PathV>::empty());
    }
}

/// When the first files were hashed, the others are what is left to hash.
proof fn lemma_candidates_left(t: TableV, d: Set<PathId>, e: Set<PathId>, n: int)
    requires
        distinct_ids(all_paths(t)),
        0 <= n <= candidates_of(t, d).len(),
        has_added(e, d, candidate_paths(candidates_of(t, d).take(n)), all_paths(t)),
    ensures
        candidates_of(t, e) == candidates_of(t, d).skip(n),
    decreases t.len(),
{
    let all = candidates_of(t, d);
    if t.len() > 0 {
        let s = t.drop_last();
        let last = t.last();
        let a = candidates_of(s, d);
        let b = hash_part(last, d);
        assert(all =~= a + b);
        lemma_distinct_parts(all_paths(s), last.paths);
        lemma_ids_concat(all_paths(s), last.paths);
        lemma_candidates_ids(s, d);
        lemma_unprocessed_ids(last.size, last.paths, d);
        lemma_ids_none();
        if last.paths.len() < 2 {
            assert(candidate_paths(b) =~= Seq::<PathV>::empty());
        }
        let (i, j) = if n <= a.len() {
            (n, 0int)
        } else {
            (a.len() as int, n - a.len())
        };
        assert(all.take(n) =~= a.take(i) + b.take(j));
        assert(candidate_paths(a.take(i) + b.take(j)) =~= candidate_paths(a.take(i)) + candidate_paths(b.take(j)));
        lemma_ids_concat(candidate_paths(a.take(i)), candidate_paths(b.take(j)));
        lemma_paths_take(a, i);
        lemma_paths_take(b, j);
        assert(has_added(e, d, candidate_paths(a.take(i)), all_paths(s))) by {
            assert forall|id: PathId| #[trigger] ids_of(all_paths(s)).contains(id) implies (e.contains(id) <==> d.contains(
                id,
            ) || ids_of(candidate_paths(a.take(i))).contains(id)) by {
                assert(ids_of(all_paths(t)).contains(id));
                assert(!ids_of(last.paths).contains(id));
            }
        }
        assert(has_added(e, d, candidate_paths(b.take(j)), last.paths)) by {
            assert forall|id: PathId| #[trigger] ids_of(last.paths).contains(id) implies (e.contains(id) <==> d.contains(id)
                || ids_of(candidate_paths(b.take(j))).contains(id)) by {
                assert(ids_of(all_paths(t)).contains(id));
                if ids_of(all_paths(s)).contains(id) {
                    assert(false);
                }
            }
        }
        lemma_candidates_left(s, d, e, i);
        if last.paths.len() >= 2 {
            lemma_unprocessed_left(last.size, last.paths, d, e, j);
        }
        assert(all.skip(n) =~= a.skip(i) + b.skip(j));
        assert(hash_part(last, e) =~= b.skip(j));
        assert(candidates_of(t, e) =~= candidates_of(s, e) + hash_part(last, e));
    } else {
        assert(all.skip(n) =~= candidates_of(t, e));
    }
}

// -------------------------------------------------------------- the scan goes on

/// Whether one scan goes on as another does: it has found the same, and has the
/// same left to do.
pub open spec fn goes_on_like(u: ScanV, s: ScanV) -> bool {
    &&& u.threshold == s.threshold
    &&& u.phase == s.phase
    &&& u.by_size == s.by_size
    &&& u.skipped == s.skipped
    &&& match s.phase {
        ScanPhase::Walking => {
            &&& in_first_stage(u)
            &&& in_first_stage(s)
            &&& u.completed_dirs.to_set() == s.completed_dirs.to_set()
        },
        ScanPhase::Hashing => {
            &&& before_comparing(u)
            &&& before_comparing(s)
            &&& u.by_partial == s.by_partial
            &&& u.at <= u.candidates.len()
            &&& s.at <= s.candidates.len()
            &&& u.candidates.skip(u.at as int) == s.candidates.skip(s.at as int)
        },
        ScanPhase::Confirming => {
            &&& u.by_partial == s.by_partial
            &&& u.by_full == s.by_full
            &&& u.deferred == s.deferred
            &&& u.at_batch <= u.batches.len()
            &&& s.at_batch <= s.batches.len()
            &&& u.batches.skip(u.at_batch as int) == s.batches.skip(s.at_batch as int)
        },
        ScanPhase::Ended => {
            &&& u.by_partial == s.by_partial
            &&& u.by_full == s.by_full
            &&& u.deferred == s.deferred
        },
    }
}

/// Whether a scan has nothing of the later stages.
pub open spec fn in_first_stage(s: ScanV) -> bool {
    &&& before_comparing(s)
    &&& s.saved_partial.len() == 0
    &&& s.processed.len() == 0
}

/// Whether a scan has nothing that was compared before.
pub open spec fn before_comparing(s: ScanV) -> bool {
    s.saved_full.len() == 0 && s.resumed != Some(ScanStage::FullHash)
}

/// A scan that is run to its end from where it stands, with the files as they are.
pub open spec fn run_on(s: ScanV, found: Seq<FoundV>, disk: DiskV) -> ScanV {
    let walked = if s.phase == ScanPhase::Walking {
        walked_all(s, found, disk).after_walk(false)
    } else {
        s
    };
    let hashed = if walked.phase == ScanPhase::Hashing {
        hashed_all(walked, disk, (walked.candidates.len() - walked.at) as nat).confirming()
    } else {
        walked
    };
    ScanV {
        phase: ScanPhase::Ended,
        ..confirmed_all(hashed, disk, (hashed.batches.len() - hashed.at_batch) as nat)
    }
}

pub proof fn lemma_walk_alike(u: ScanV, s: ScanV, found: Seq<FoundV>, disk: DiskV)
    requires
        goes_on_like(u, s),
        s.phase == ScanPhase::Walking,
    ensures
        goes_on_like(walked_all(u, found, disk), walked_all(s, found, disk)),
        walked_all(s, found, disk).phase == ScanPhase::Walking,
    decreases found.len(),
{
    if found.len() > 0 {
        lemma_walk_alike(u, s, found.drop_last(), disk);
        let a = walked_all(u, found.drop_last(), disk);
        let b = walked_all(s, found.drop_last(), disk);
        match found.last() {
            FoundV::Dir(key) => {
                lemma_push_set(a.completed_dirs, key);
                lemma_push_set(b.completed_dirs, key);
            },
            FoundV::File(p) => {},
        }
    }
}

proof fn lemma_hash_alike(u: ScanV, s: ScanV, disk: DiskV, n: nat)
    requires
        goes_on_like(u, s),
        s.phase == ScanPhase::Hashing,
    ensures
        goes_on_like(hashed_all(u, disk, n), hashed_all(s, disk, n)),
        hashed_all(s, disk, n).phase == ScanPhase::Hashing,
        hashed_all(s, disk, n).candidates == s.candidates,
        hashed_all(s, disk, n).at >= s.at + n || hashed_all(s, disk, n).at == s.candidates.len(),
    decreases n,
{
    if n > 0 {
        lemma_hash_alike(u, s, disk, (n - 1) as nat);
        let a = hashed_all(u, disk, (n - 1) as nat);
        let b = hashed_all(s, disk, (n - 1) as nat);
        let (la, lb) = (a.candidates.skip(a.at as int), b.candidates.skip(b.at as int));
        assert(la.len() == lb.len());
        assert(a.hash_end() - a.at == b.hash_end() - b.at);
        assert(a.hash_batch() =~= la.take(a.hash_end() - a.at));
        assert(b.hash_batch() =~= lb.take(b.hash_end() - b.at));
        let na = hashed_all(u, disk, n);
        let nb = hashed_all(s, disk, n);
        assert(na.candidates.skip(na.at as int) =~= la.skip(a.hash_end() - a.at));
        assert(nb.candidates.skip(nb.at as int) =~= lb.skip(b.hash_end() - b.at));
    }
}

proof fn lemma_confirm_alike(u: ScanV, s: ScanV, disk: DiskV, n: nat)
    requires
        goes_on_like(u, s),
        s.phase == ScanPhase::Confirming,
        s.at_batch + n <= s.batches.len(),
    ensures
        goes_on_like(confirmed_all(u, disk, n), confirmed_all(s, disk, n)),
        confirmed_all(s, disk, n).phase == ScanPhase::Confirming,
        confirmed_all(s, disk, n).at_batch == s.at_batch + n,
        confirmed_all(s, disk, n).batches == s.batches,
        confirmed_all(u, disk, n).batches == u.batches,
        confirmed_all(u, disk, n).at_batch == u.at_batch + n,
    decreases n,
{
    if n > 0 {
        lemma_confirm_alike(u, s, disk, (n - 1) as nat);
        let a = confirmed_all(u, disk, (n - 1) as nat);
        let b = confirmed_all(s, disk, (n - 1) as nat);
        let (la, lb) = (a.batches.skip(a.at_batch as int), b.batches.skip(b.at_batch as int));
        assert(la.len() == lb.len());
        assert(la[0] == a.batches[a.at_batch as int]);
        assert(lb[0] == b.batches[b.at_batch as int]);
        let na = confirmed_all(u, disk, n);
        let nb = confirmed_all(s, disk, n);
        assert(na.batches.skip(na.at_batch as int) =~= la.skip(1));
        assert(nb.batches.skip(nb.at_batch as int) =~= lb.skip(1));
    }
}

/// Two scans that go on alike come to the same groups, and skip the same files.
pub proof fn law_alike_ends_alike(u: ScanV, s: ScanV, found: Seq<FoundV>, disk: DiskV)
    requires
        goes_on_like(u, s),
        s.phase != ScanPhase::Ended,
    ensures
        run_on(u, found, disk).groups_found() == run_on(s, found, disk).groups_found(),
        run_on(u, found, disk).skipped == run_on(s, found, disk).skipped,
        run_on(u, found, disk).by_size == run_on(s, found, disk).by_size,
{
    let (wu, ws) = if s.phase == ScanPhase::Walking {
        lemma_walk_alike(u, s, found, disk);
        (walked_all(u, found, disk).after_walk(false), walked_all(s, found, disk).after_walk(false))
    } else {
        (u, s)
    };
    if s.phase == ScanPhase::Walking {
        let a = walked_all(u, found, disk);
        let b = walked_all(s, found, disk);
        assert(a.saved_partial =~= b.saved_partial);
        assert(a.processed =~= b.processed);
        assert(wu.candidates == ws.candidates);
        assert(goes_on_like(wu, ws));
    }
    let (hu, hs) = if ws.phase == ScanPhase::Hashing {
        let n = (ws.candidates.len() - ws.at) as nat;
        lemma_hash_alike(wu, ws, disk, n);
        assert(wu.candidates.skip(wu.at as int).len() == ws.candidates.skip(ws.at as int).len());
        let a = hashed_all(wu, disk, n);
        let b = hashed_all(ws, disk, n);
        assert(a.saved_full =~= b.saved_full);
        assert(a.compared_before() =~= b.compared_before());
        assert(goes_on_like(a.confirming(), b.confirming()));
        (a.confirming(), b.confirming())
    } else {
        (wu, ws)
    };
    assert(hu.batches.skip(hu.at_batch as int).len() == hs.batches.skip(hs.at_batch as int).len());
    lemma_confirm_alike(hu, hs, disk, (hs.batches.len() - hs.at_batch) as nat);
}

// ------------------------------------------------------------- taken up again

/// What holds of a scan between two batches of files to hash: which files are
/// candidates, and that those hashed or skipped are none of those that are left.
pub open spec fn steady_hashing(s: ScanV) -> bool {
    &&& s.phase == ScanPhase::Hashing
    &&& canonical(s)
    &&& before_comparing(s)
    &&& s.by_full.len() == 0
    &&& distinct_ids(all_paths(s.by_size))
    &&& s.at <= s.candidates.len()
    &&& s.candidates == candidates_of(s.by_size, ids_of(s.processed))
    &&& distinct_ids(all_paths(s.by_partial))
    &&& forall|id: PathId| #[trigger]
        worked_on(s).contains(id) && ids_of(all_paths(s.by_size)).contains(id) ==> ids_of(
            s.done_in(ScanStage::QuickHash),
        ).contains(id)
    &&& forall|id: PathId| #[trigger]
        ids_of(all_paths(s.by_partial)).contains(id) ==> ids_of(all_paths(s.by_size)).contains(id) && !ids_of(
            s.skipped,
        ).contains(id)
}

/// The files that were hashed or skipped.
pub open spec fn worked_on(s: ScanV) -> Set<PathId> {
    ids_of(all_paths(s.by_partial)).union(ids_of(s.skipped))
}

/// The files that are compared, or that needed no comparing.
pub open spec fn compared_now(s: ScanV) -> Set<PathId> {
    s.settled().union(ids_of(flat_batches(s.batches.take(s.at_batch as int))))
}

/// What holds of a scan between two batches of files to compare: what the batches
/// are, and that digests are known of files that were compared only.
pub open spec fn steady_confirming(s: ScanV) -> bool {
    &&& s.phase == ScanPhase::Confirming
    &&& canonical(s)
    &&& distinct_ids(all_paths(s.by_partial))
    &&& s.batches == batches_of(s.work())
    &&& s.deferred == deferred_of(s.open_at_start(), s.threshold)
    &&& s.at_batch <= s.batches.len()
    &&& forall|id: PathId| #[trigger] ids_of(all_paths(s.by_full)).contains(id) ==> compared_now(s).contains(id)
    &&& forall|id: PathId| #[trigger]
        ids_of(s.skipped).contains(id) && ids_of(all_paths(s.by_partial)).contains(id) ==> compared_now(s).contains(id)
    &&& forall|id: PathId| #[trigger]
        s.settled().contains(id) && ids_of(all_paths(s.by_partial)).contains(id) ==> ids_of(
            all_paths(s.by_full),
        ).contains(id) || ids_of(s.compared_before()).contains(id)
    &&& nothing_stale(s.by_partial, s.by_full, s.settled(), flat_batches(s.batches.take(s.at_batch as int)))
}

/// Whether no digest is known of a file in a bucket that is to be compared as a
/// whole, unless it was compared since.
pub open spec fn nothing_stale(t: TableV, by_full: TableV, done: Set<PathId>, compared: Seq<PathV>) -> bool {
    forall|b: int, id: PathId|
        #![trigger t[b], ids_of(all_paths(by_full)).contains(id)]
        0 <= b < t.len() && unconfirmed(t[b], done) && !oversized(t[b].paths) && ids_of(t[b].paths).contains(id)
            && done.contains(id) && !ids_of(compared).contains(id) ==> !ids_of(all_paths(by_full)).contains(id)
}

/// Whether saved progress is that of a snapshot, in what a scan takes up of it. The
/// directories that are done may stand in another order, and have no part once the walk
/// is over; there may be more files as processed: those that the lists show to be done.
pub open spec fn is_saved_as(rs: ResumeV, snapshot: ResumeV) -> bool {
    &&& rs.stage == snapshot.stage
    &&& rs.by_size == snapshot.by_size
    &&& rs.by_partial == snapshot.by_partial
    &&& rs.by_full == snapshot.by_full
    &&& rs.skipped == snapshot.skipped
    &&& rs.root_keys == snapshot.root_keys
    &&& snapshot.stage == "scanning"@ ==> rs.completed_dirs.to_set() == snapshot.completed_dirs.to_set()
    &&& ids_of(snapshot.processed).subset_of(ids_of(rs.processed))
    &&& forall|id: PathId| #[trigger]
        ids_of(rs.processed).contains(id) ==> ids_of(snapshot.processed).contains(id) || ids_of(
            snapshot.skipped,
        ).contains(id) || ids_of(lists_paths(snapshot.by_full)).contains(id) || (snapshot.stage != "full_hash"@
            && ids_of(lists_paths(snapshot.by_partial)).contains(id))
}

pub proof fn lemma_distinct_ids(list: Seq<PathV>)
    ensures
        ids_of(distinct_paths(list)) == ids_of(list),
        distinct_paths(list).len() <= list.len(),
    decreases list.len(),
{
    if list.len() > 0 {
        let s = list.drop_last();
        lemma_distinct_ids(s);
        lemma_ids_push(s, list.last());
        assert(s.push(list.last()) =~= list);
        lemma_ids_push(distinct_paths(s), list.last());
        assert(ids_of(distinct_paths(list)) =~= ids_of(list));
    }
}

proof fn lemma_sorted_ids(list: Seq<PathV>)
    requires
        list.len() <= usize::MAX,
    ensures
        ids_of(sorted_by_text(list)) == ids_of(list),
{
    let sorted = sorted_by_text(list);
    lemma_arranged(list, list.map_values(|p: PathV| text_key(p.text)));
    assert forall|id: PathId| ids_of(sorted).contains(id) <==> ids_of(list).contains(id) by {
        lemma_ids_has(sorted, id);
        lemma_ids_has(list, id);
        if ids_of(sorted).contains(id) {
            let i = choose|i: int| 0 <= i < sorted.len() && (#[trigger] sorted[i]).parts == id;
            assert(sorted.contains(sorted[i]));
            assert(list.contains(sorted[i]));
            let j = choose|j: int| 0 <= j < list.len() && list[j] == sorted[i];
            assert(list[j].parts == id);
        }
        if ids_of(list).contains(id) {
            let i = choose|i: int| 0 <= i < list.len() && (#[trigger] list[i]).parts == id;
            assert(list.contains(list[i]));
            assert(sorted.contains(list[i]));
            let j = choose|j: int| 0 <= j < sorted.len() && sorted[j] == list[i];
            assert(sorted[j].parts == id);
        }
    }
    assert(ids_of(sorted) =~= ids_of(list));
}

/// A snapshot is saved as itself, and what is read back of its rows is saved as it.
pub proof fn law_store_keeps_snapshot(snapshot: ResumeV)
    requires
        snapshot_valid(snapshot),
        lists_paths(snapshot.by_partial).len() + lists_paths(snapshot.by_full).len() + snapshot.skipped.len()
            + snapshot.processed.len() <= usize::MAX,
    ensures
        is_saved_as(snapshot, snapshot),
        is_saved_as(state_of(snapshot.directories, snapshot.stage, state_rows(snapshot)), snapshot),
{
    law_saved_state_reads_back(snapshot);
    let l = load_rows(nothing_loaded(), state_rows(snapshot));
    let rs = state_of(snapshot.directories, snapshot.stage, state_rows(snapshot));
    assert(l.skipped == rs.skipped);
    let hashed = if snapshot.stage == "full_hash"@ {
        Seq::empty()
    } else {
        all_paths(l.by_partial)
    };
    let all = hashed + all_paths(l.by_full) + l.skipped + l.processed;
    lemma_distinct_ids(all);
    lemma_sorted_ids(distinct_paths(all));
    lemma_ids_concat(hashed, all_paths(l.by_full));
    lemma_ids_concat(hashed + all_paths(l.by_full), l.skipped);
    lemma_ids_concat(hashed + all_paths(l.by_full) + l.skipped, l.processed);
    lemma_ids_none();
    assert(rs.processed == sorted_by_text(distinct_paths(all)));
}

/// A scan that was cancelled between two batches of quick hashes and is taken up
/// again hashes the files that were left, and no others.
pub proof fn law_hashing_goes_on(s: ScanV, roots: Seq<RootKeyV>, rs: ResumeV)
    requires
        steady_hashing(s),
        roots_match(root_keys_from(roots), roots),
        is_saved_as(rs, s.cancelled_in(ScanStage::QuickHash).snapshot(roots).unwrap()),
    ensures
        ({
            let again = scan_begun(roots, s.threshold, Some(rs));
            &&& again.candidates == s.candidates.skip(s.at as int)
            &&& goes_on_like(again, s)
            &&& steady_hashing(again)
        }),
{
    let c = s.cancelled_in(ScanStage::QuickHash);
    let snap = c.snapshot(roots).unwrap();
    let again = scan_begun(roots, s.threshold, Some(rs));
    lemma_stage_names();
    assert(stage_named(stage_text(ScanStage::QuickHash)) == Some(ScanStage::QuickHash));
    law_sizes_read_back(s.by_size);
    law_partials_read_back(s.by_partial);
    lemma_all_paths_lists(s.by_partial);
    lemma_all_paths_lists(s.by_full);
    lemma_ids_none();
    assert(all_paths(s.by_full) =~= Seq::<PathV>::empty());
    let taken = candidate_paths(s.candidates.take(s.at as int));
    lemma_ids_concat(s.processed, taken);
    assert(snap.processed == s.processed + taken);
    assert(has_added(ids_of(rs.processed), ids_of(s.processed), taken, all_paths(s.by_size))) by {
        assert forall|id: PathId| #[trigger] ids_of(all_paths(s.by_size)).contains(id) implies (ids_of(
            rs.processed,
        ).contains(id) <==> ids_of(s.processed).contains(id) || ids_of(taken).contains(id)) by {
            if ids_of(rs.processed).contains(id) && !ids_of(snap.processed).contains(id) {
                assert(worked_on(s).contains(id));
            }
        }
    }
    lemma_candidates_left(s.by_size, ids_of(s.processed), ids_of(rs.processed), s.at as int);
    assert(again.by_size == s.by_size);
    assert(again.by_partial == s.by_partial);
    assert(again.candidates.skip(0) =~= again.candidates);
    law_tables_stay_in_order(
        roots,
        s.threshold,
        Some(rs),
        s,
        Seq::empty(),
        PathV { text: Seq::empty(), parts: Seq::empty() },
        None,
        false,
        ScanStage::QuickHash,
        Seq::empty(),
        Seq::empty(),
    );
    assert(again.done_in(ScanStage::QuickHash) =~= rs.processed);
    assert forall|id: PathId| #[trigger]
        worked_on(again).contains(id) && ids_of(all_paths(again.by_size)).contains(id) implies ids_of(
        again.done_in(ScanStage::QuickHash),
    ).contains(id) by {
        assert(worked_on(s).contains(id));
    }
}

proof fn lemma_positions_dom(lists: Seq<ListV>)
    ensures
        list_positions(lists).dom() == ids_of(lists_paths(lists)),
    decreases lists.len(),
{
    if lists.len() > 0 {
        lemma_positions_dom(lists.drop_last());
        lemma_ids_concat(lists_paths(lists.drop_last()), lists.last().paths);
        assert forall|id: PathId| list_positions(lists).dom().contains(id) <==> ids_of(lists_paths(lists)).contains(id) by {
            lemma_marked(list_positions(lists.drop_last()), lists.last().paths, (lists.len() - 1) as usize, id);
        }
    } else {
        lemma_ids_none();
    }
    assert(list_positions(lists).dom() =~= ids_of(lists_paths(lists)));
}

/// A file among the first pieces that stands in a bucket compared as a whole has
/// the whole bucket there with it.
proof fn lemma_whole(t: TableV, threshold: u64, d: Set<PathId>, m: int, b: int, id: PathId)
    requires
        distinct_ids(all_paths(t)),
        0 <= m <= work_of(t, threshold, d).len(),
        0 <= b < t.len(),
        !oversized(t[b].paths),
        ids_of(t[b].paths).contains(id),
        ids_of(flat(work_of(t, threshold, d).take(m))).contains(id),
    ensures
        ids_of(t[b].paths).subset_of(ids_of(flat(work_of(t, threshold, d).take(m)))),
    decreases t.len(),
{
    let s = t.drop_last();
    let last = t.last();
    let a = work_of(s, threshold, d);
    let p = part_of(last, threshold, d);
    let w = work_of(t, threshold, d);
    lemma_work_step(t, threshold, d);
    lemma_distinct_parts(all_paths(s), last.paths);
    lemma_work_ids(s, threshold, d);
    lemma_part_ids(last, threshold, d);
    let (i, j) = if m <= a.len() {
        (m, 0int)
    } else {
        (a.len() as int, m - a.len())
    };
    assert(w.take(m) =~= a.take(i) + p.take(j));
    lemma_flat_concat(a.take(i), p.take(j));
    lemma_ids_concat(flat(a.take(i)), flat(p.take(j)));
    lemma_flat_take(a, i);
    lemma_flat_take(p, j);
    if b < s.len() {
        lemma_bucket_ids(s, b);
        assert(s[b] == t[b]);
        assert(ids_of(all_paths(s)).contains(id));
        assert(!ids_of(last.paths).contains(id));
        lemma_whole(s, threshold, d, i, b, id);
    } else {
        assert(t[b] == last);
        if ids_of(flat(a.take(i))).contains(id) {
            assert(ids_of(all_paths(s)).contains(id));
            assert(false);
        }
        lemma_ids_none();
        if j == 0 {
            assert(flat(p.take(0)) =~= Seq::<PathV>::empty());
        }
        assert(p.take(j) =~= seq![last.paths]);
        lemma_flat_one(last.paths);
    }
}

pub proof fn lemma_bucket_ids(t: TableV, b: int)
    requires
        0 <= b < t.len(),
    ensures
        ids_of(t[b].paths).subset_of(ids_of(all_paths(t))),
    decreases t.len(),
{
    lemma_ids_concat(all_paths(t.drop_last()), t.last().paths);
    if b < t.len() - 1 {
        lemma_bucket_ids(t.drop_last(), b);
        assert(t.drop_last()[b] == t[b]);
    }
}

proof fn lemma_open_from_table(t: TableV, done: Set<PathId>, i: int)
    requires
        0 <= i < open_buckets(t, done).len(),
    ensures
        unconfirmed(open_buckets(t, done)[i], done),
        exists|b: int| 0 <= b < t.len() && #[trigger] t[b] == open_buckets(t, done)[i],
    decreases t.len(),
{
    let s = t.drop_last();
    let before = open_buckets(s, done);
    if i < before.len() {
        lemma_open_from_table(s, done, i);
        assert(open_buckets(t, done)[i] == before[i]);
        let b = choose|b: int| 0 <= b < s.len() && #[trigger] s[b] == before[i];
        assert(t[b] == before[i]);
    } else {
        assert(t[t.len() - 1] == open_buckets(t, done)[i]);
    }
}

proof fn lemma_touches_none(paths: Seq<PathV>, lists: Seq<ListV>, at: Map<PathId, usize>)
    requires
        forall|i: int| 0 <= i < paths.len() ==> !at.contains_key((#[trigger] paths[i]).parts),
    ensures
        keys_touched(paths, lists, at) == Set::<Seq<char>>::empty(),
    decreases paths.len(),
{
    if paths.len() > 0 {
        let s = paths.drop_last();
        assert forall|i: int| 0 <= i < s.len() implies !at.contains_key((#[trigger] s[i]).parts) by {
            assert(paths[i] == s[i]);
        }
        lemma_touches_none(s, lists, at);
        assert(!at.contains_key(paths[paths.len() - 1].parts));
    }
}

/// Whether no file of the buckets compared as a whole is in a list.
spec fn untouched(buckets: Seq<BucketV>, at: Map<PathId, usize>) -> bool {
    forall|b: int, i: int|
        #![trigger buckets[b].paths[i]]
        0 <= b < buckets.len() && !oversized(buckets[b].paths) && 0 <= i < buckets[b].paths.len() ==> !at.contains_key(
            buckets[b].paths[i].parts,
        )
}

proof fn lemma_nothing_stale(buckets: Seq<BucketV>, lists: Seq<ListV>, at: Map<PathId, usize>)
    requires
        untouched(buckets, at),
    ensures
        stale_keys(buckets, lists, at) == Set::<Seq<char>>::empty(),
    decreases buckets.len(),
{
    if buckets.len() > 0 {
        let s = buckets.drop_last();
        assert forall|b: int, i: int|
            #![trigger s[b].paths[i]]
            0 <= b < s.len() && !oversized(s[b].paths) && 0 <= i < s[b].paths.len() implies !at.contains_key(
            s[b].paths[i].parts,
        ) by {
            assert(buckets[b].paths[i] == s[b].paths[i]);
        }
        lemma_nothing_stale(s, lists, at);
        let last = buckets[buckets.len() - 1];
        if !oversized(last.paths) {
            assert forall|i: int| 0 <= i < last.paths.len() implies !at.contains_key((#[trigger] last.paths[i]).parts) by {
                assert(buckets[buckets.len() - 1].paths[i] == last.paths[i]);
            }
            lemma_touches_none(last.paths, lists, at);
            assert(Set::<Seq<char>>::empty().union(Set::empty()) =~= Set::<Seq<char>>::empty());
        }
    }
}

proof fn lemma_without_none(t: TableV)
    ensures
        without(t, Set::empty()) == t,
    decreases t.len(),
{
    if t.len() > 0 {
        lemma_without_none(t.drop_last());
        assert(t.drop_last().push(t.last()) =~= t);
    }
}

/// A scan that was cancelled between two batches of comparing and is taken up again
/// compares the batches that were left, and no others.
pub proof fn law_confirming_goes_on(s: ScanV, roots: Seq<RootKeyV>, rs: ResumeV)
    requires
        steady_confirming(s),
        roots_match(root_keys_from(roots), roots),
        is_saved_as(rs, s.cancelled_in(ScanStage::FullHash).snapshot(roots).unwrap()),
    ensures
        ({
            let again = scan_begun(roots, s.threshold, Some(rs));
            &&& again.phase == ScanPhase::Hashing
            &&& !before_comparing(again)
            &&& again.candidates.len() == 0
            &&& again.at == 0
            &&& again.confirming().batches == s.batches.skip(s.at_batch as int)
            &&& goes_on_like(again.confirming(), s)
            &&& steady_confirming(again.confirming())
        }),
{
    let snap = s.cancelled_in(ScanStage::FullHash).snapshot(roots).unwrap();
    let again = scan_begun(roots, s.threshold, Some(rs));
    let n = again.confirming();
    lemma_stage_names();
    assert(stage_named(stage_text(ScanStage::FullHash)) == Some(ScanStage::FullHash));
    law_sizes_read_back(s.by_size);
    law_partials_read_back(s.by_partial);
    law_fulls_read_back(s.by_full);
    lemma_all_paths_lists(s.by_full);
    let (t, thr) = (s.by_partial, s.threshold);
    let d = s.settled();
    let e = again.settled();
    let x = flat_batches(s.batches.take(s.at_batch as int));
    let m = lemma_batch_cut(s.work(), s.at_batch);
    assert(s.work() == work_of(t, thr, d));
    assert(snap.processed == s.compared_before() + x);
    lemma_ids_concat(s.compared_before(), x);
    lemma_positions_dom(again.saved_full);
    lemma_positions_dom(s.saved_full);
    assert(again.saved_full == lists_of(s.by_full));
    assert(again.compared_before() == rs.processed);
    assert(has_added(e, d, x, all_paths(t))) by {
        assert forall|id: PathId| #[trigger] ids_of(all_paths(t)).contains(id) implies (e.contains(id) <==> d.contains(id)
            || ids_of(x).contains(id)) by {
            if d.contains(id) {
                assert(s.settled().contains(id) && ids_of(all_paths(s.by_partial)).contains(id));
            }
            if e.contains(id) {
                if ids_of(all_paths(s.by_full)).contains(id) {
                    assert(compared_now(s).contains(id));
                } else if ids_of(snap.processed).contains(id) {
                } else {
                    assert(ids_of(s.skipped).contains(id));
                    assert(compared_now(s).contains(id));
                }
            }
        }
    }
    lemma_work_left(t, thr, d, e, m);
    assert(again.by_partial == t);
    assert(n.batches == batches_of(work_of(t, thr, e)));
    assert(n.batches.skip(0) =~= n.batches);
    let at = list_positions(again.saved_full);
    let open = open_buckets(t, e);
    assert(untouched(open, at)) by {
        assert forall|b: int, i: int|
            #![trigger open[b].paths[i]]
            0 <= b < open.len() && !oversized(open[b].paths) && 0 <= i < open[b].paths.len() implies !at.contains_key(
            open[b].paths[i].parts,
        ) by {
            let id = open[b].paths[i].parts;
            lemma_ids_has(open[b].paths, id);
            if at.contains_key(id) {
                assert(at.dom().contains(id));
                lemma_open_from_table(t, e, b);
                let c = choose|c: int| 0 <= c < t.len() && #[trigger] t[c] == open[b];
                lemma_stale_none(s, e, m, c, id);
            }
        }
    }
    lemma_nothing_stale(open, again.saved_full, at);
    lemma_without_none(s.by_full);
    assert(n.by_full == s.by_full);
    law_tables_stay_in_order(
        roots,
        s.threshold,
        Some(rs),
        again,
        Seq::empty(),
        PathV { text: Seq::empty(), parts: Seq::empty() },
        None,
        false,
        ScanStage::QuickHash,
        Seq::empty(),
        Seq::empty(),
    );
    assert(canonical(again)) by {
        law_tables_stay_in_order(
            roots,
            s.threshold,
            Some(rs),
            s,
            Seq::empty(),
            PathV { text: Seq::empty(), parts: Seq::empty() },
            None,
            false,
            ScanStage::QuickHash,
            Seq::empty(),
            Seq::empty(),
        );
    }
    assert(n.settled() == e);
    assert forall|id: PathId| #[trigger] ids_of(all_paths(n.by_full)).contains(id) implies compared_now(n).contains(id) by {
        assert(at.dom().contains(id));
    }
    assert forall|id: PathId| #[trigger]
        ids_of(n.skipped).contains(id) && ids_of(all_paths(n.by_partial)).contains(id) implies compared_now(n).contains(
        id,
    ) by {
        assert(ids_of(s.skipped).contains(id));
        assert(compared_now(s).contains(id));
        assert(ids_of(all_paths(t)).contains(id));
        assert(e.contains(id));
    }
    let none = flat_batches(n.batches.take(0));
    assert(nothing_stale(n.by_partial, n.by_full, e, none)) by {
        assert forall|b: int, id: PathId|
            #![trigger n.by_partial[b], ids_of(all_paths(n.by_full)).contains(id)]
            0 <= b < n.by_partial.len() && unconfirmed(n.by_partial[b], e) && !oversized(n.by_partial[b].paths) && ids_of(
                n.by_partial[b].paths,
            ).contains(id) && e.contains(id) && !ids_of(none).contains(id) implies !ids_of(
            all_paths(n.by_full),
        ).contains(id) by {
            if ids_of(all_paths(s.by_full)).contains(id) {
                lemma_stale_none(s, e, m, b, id);
            }
        }
    }
}

/// Nothing is known of a file in a bucket that is left to be compared as a whole.
proof fn lemma_stale_none(s: ScanV, e: Set<PathId>, m: int, c: int, id: PathId)
    requires
        steady_confirming(s),
        0 <= m <= s.work().len(),
        flat_batches(s.batches.take(s.at_batch as int)) == flat(s.work().take(m)),
        has_added(e, s.settled(), flat(s.work().take(m)), all_paths(s.by_partial)),
        0 <= c < s.by_partial.len(),
        unconfirmed(s.by_partial[c], e),
        !oversized(s.by_partial[c].paths),
        ids_of(s.by_partial[c].paths).contains(id),
    ensures
        !ids_of(all_paths(s.by_full)).contains(id),
{
    let t = s.by_partial;
    let d = s.settled();
    let b = t[c];
    assert(s.work() == work_of(t, s.threshold, d));
    lemma_bucket_ids(t, c);
    let x = flat(s.work().take(m));
    if !ids_of(all_paths(s.by_full)).contains(id) {
    } else if !ids_of(x).contains(id) {
        assert(compared_now(s).contains(id));
        assert(d.contains(id));
        if all_resolved(b.paths, d) {
            assert(all_resolved(b.paths, e)) by {
                assert forall|i: int| 0 <= i < b.paths.len() implies e.contains((#[trigger] b.paths[i]).parts) by {
                    assert(d.contains(b.paths[i].parts));
                    lemma_ids_has(b.paths, b.paths[i].parts);
                    assert(ids_of(all_paths(t)).contains(b.paths[i].parts));
                }
            }
        }
        assert(unconfirmed(t[c], d));
        assert(!ids_of(all_paths(s.by_full)).contains(id));
    } else {
        lemma_whole(t, s.threshold, d, m, c, id);
        assert(all_resolved(b.paths, e)) by {
            assert forall|i: int| 0 <= i < b.paths.len() implies e.contains((#[trigger] b.paths[i]).parts) by {
                lemma_ids_has(b.paths, b.paths[i].parts);
                assert(ids_of(b.paths).contains(b.paths[i].parts));
                assert(ids_of(all_paths(t)).contains(b.paths[i].parts));
            }
        }
    }
}

/// A scan that was cancelled while directories were walked and is taken up again
/// has what was found, and walks on.
pub proof fn law_walking_goes_on(s: ScanV, roots: Seq<RootKeyV>, rs: ResumeV)
    requires
        s.phase == ScanPhase::Walking,
        canonical(s),
        in_first_stage(s),
        roots_match(root_keys_from(roots), roots),
        is_saved_as(rs, s.cancelled_in(ScanStage::Scanning).snapshot(roots).unwrap()),
    ensures
        goes_on_like(scan_begun(roots, s.threshold, Some(rs)), s),
        in_first_stage(scan_begun(roots, s.threshold, Some(rs))),
{
    let c = s.cancelled_in(ScanStage::Scanning);
    law_resume_restores(c, roots, ScanStage::Scanning);
    lemma_stage_names();
    assert(stage_named(stage_text(ScanStage::Scanning)) == Some(ScanStage::Scanning));
    let again = scan_begun(roots, s.threshold, Some(rs));
    assert(again.by_size == sizes_loaded(lists_of(s.by_size)));
    law_sizes_read_back(s.by_size);
    lemma_distinct_set(rs.completed_dirs);
}

proof fn lemma_distinct_set(list: Seq<Seq<char>>)
    ensures
        distinct(list).to_set() == list.to_set(),
    decreases list.len(),
{
    if list.len() > 0 {
        let rest = list.drop_last();
        lemma_distinct_set(rest);
        lemma_push_set(distinct(rest), list.last());
        lemma_push_set(rest, list.last());
        assert(rest.push(list.last()) =~= list);
    } else {
        assert(distinct(list) =~= list);
    }
}

/// Whether a scan is between two steps of its work, with something left to do.
pub open spec fn steady(s: ScanV) -> bool {
    match s.phase {
        ScanPhase::Walking => canonical(s) && in_first_stage(s),
        ScanPhase::Hashing => steady_hashing(s),
        ScanPhase::Confirming => steady_confirming(s),
        ScanPhase::Ended => false,
    }
}

/// The stage that a scan is cancelled in.
pub open spec fn stage_of(s: ScanV) -> ScanStage {
    match s.phase {
        ScanPhase::Walking => ScanStage::Scanning,
        ScanPhase::Hashing => ScanStage::QuickHash,
        _ => ScanStage::FullHash,
    }
}

/// A scan that is cancelled, saved and taken up again comes to the groups that it
/// would have come to without that, at whatever point it was cancelled, for files
/// that stay as they are. `found` is what the walk still reports.
pub proof fn law_resumed_scan_finds_the_same(s: ScanV, roots: Seq<RootKeyV>, rs: ResumeV, found: Seq<FoundV>, disk: DiskV)
    requires
        steady(s),
        roots_match(root_keys_from(roots), roots),
        is_saved_as(rs, s.cancelled_in(stage_of(s)).snapshot(roots).unwrap()),
    ensures
        run_on(scan_begun(roots, s.threshold, Some(rs)), found, disk).groups_found() == run_on(
            s,
            found,
            disk,
        ).groups_found(),
        run_on(scan_begun(roots, s.threshold, Some(rs)), found, disk).skipped == run_on(s, found, disk).skipped,
        run_on(scan_begun(roots, s.threshold, Some(rs)), found, disk).by_size == run_on(s, found, disk).by_size,
{
    let again = scan_begun(roots, s.threshold, Some(rs));
    match s.phase {
        ScanPhase::Walking => {
            law_walking_goes_on(s, roots, rs);
            law_alike_ends_alike(again, s, found, disk);
        },
        ScanPhase::Hashing => {
            law_hashing_goes_on(s, roots, rs);
            law_alike_ends_alike(again, s, found, disk);
        },
        _ => {
            law_confirming_goes_on(s, roots, rs);
            law_alike_ends_alike(again.confirming(), s, found, disk);
            assert(hashed_all(again, disk, 0) == again);
        },
    }
}

} // verus!
