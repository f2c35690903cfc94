//! What a whole scan comes to when the files stay as they are: files with the
//! same content are found together, and nothing else is.

use vstd::prelude::*;

use crate::bucket::{
    answered, files_left, piece_start, resolved, steps_left, BucketResultV, Compared, MatchV, ResolverPhase,
    ResolverV, World,
};
use crate::digest::{content_digest, DIGEST_LIMIT, PARTIAL_CHUNK_SIZE};
use crate::folder_copies::{groups_apart, law_removed_folders_leave_a_copy, searchable};
use crate::folder_laws::no_collisions;
use crate::folders::{dirs_of, has_dir, top_roots, tree_of};
use crate::groups::{
    group_weight, groups_of_size, heaviest_first, law_partial_key_splits, law_ranking, partial_key_text, FolderV,
    GroupV,
};
use crate::order::{is_stable_order, lemma_order_exists, lemma_order_no_duplicates, stable_order_of};
use crate::paths::{PathId, PathV};
use crate::removal::{law_plan_leaves_a_copy, law_smaller_plan_leaves_more, leaves, paths_once, removal_plan};
use crate::resume::{EntryV, RootKeyV};
use crate::resuming::{
    compared_now, distinct_ids, in_first_stage, lemma_bucket_ids, nothing_stale, run_on, steady, steady_confirming,
    steady_hashing, worked_on,
};
use crate::scan::{
    batches_of, candidate_paths, candidates_of, confirmed, confirmed_groups, deferred_of, deferred_size, file_sizes,
    flat, group_size, flat_batches, fulls_loaded, groups_taken, hashed, list_positions, open_buckets, oversized,
    packed, partials_loaded, pieces, scan_begun, singles, stale_keys, to_confirm, unconfirmed,
    unprocessed, CandidateV, PackV, ScanPhase, ScanStage, ScanV, BATCH_SIZE,
};
use crate::scan_laws::{
    canonical, is_partial_key, law_only_shared_sizes_hashed, law_tables_stay_in_order, partials_canonical,
};
use crate::tables::{
    added, all_paths, extended, keys_unique, lemma_added_unique, lemma_extended_unique, lemma_marked, lemma_pos,
    lemma_pos_is, pos, without, BucketV, TableV,
};
use crate::text::{decimal, law_decimal_injective};
use crate::walk::{ids_of, lemma_ids_concat, lemma_ids_has};

verus! {

// ---------------------------------------------------------------- files at rest

/// Files that do not change: the size that each is listed with, and its content
/// where it can be read.
pub struct DiskV {
    pub size: spec_fn(PathId) -> Option<u64>,
    pub content: spec_fn(PathId) -> Option<Seq<u8>>,
}

impl DiskV {
    /// A file that can be read is listed with the length of its content.
    pub open spec fn wf(self) -> bool {
        forall|p: PathId|
            (#[trigger] (self.content)(p)) is Some ==> (self.content)(p).unwrap().len() <= u64::MAX && (self.size)(p)
                == Some((self.content)(p).unwrap().len() as u64)
    }

    /// The quick hash of a file.
    pub open spec fn quick(self, p: PathV) -> Option<Seq<char>> {
        match (self.content)(p.parts) {
            Some(c) => Some(
                content_digest(
                    if c.len() <= PARTIAL_CHUNK_SIZE {
                        c
                    } else {
                        c.take(PARTIAL_CHUNK_SIZE as int)
                    },
                ),
            ),
            None => None,
        }
    }

    /// Whether files with the same digest have the same content.
    pub open spec fn collides_nowhere(self) -> bool {
        forall|p: PathV, q: PathV|
            (#[trigger] self.digest(p)) is Some && self.digest(p) == (#[trigger] self.digest(q)) ==> (self.content)(
                p.parts,
            ) == (self.content)(q.parts)
    }

    /// The digest of a file, unless it is longer than the hash can take.
    pub open spec fn digest(self, p: PathV) -> Option<Seq<char>> {
        match (self.content)(p.parts) {
            Some(c) => if c.len() < DIGEST_LIMIT {
                Some(content_digest(c))
            } else {
                None
            },
            None => None,
        }
    }

    /// How two files compare.
    pub open spec fn compare(self, p: PathV, q: PathV) -> Compared {
        match ((self.content)(p.parts), (self.content)(q.parts)) {
            (Some(c), Some(d)) => if c == d {
                Compared::Same
            } else {
                Compared::Different
            },
            _ => Compared::Unreadable,
        }
    }

    /// How the files answer.
    pub open spec fn world(self) -> World {
        World {
            opens: |p: PathV| (self.content)(p.parts) is Some,
            compare: |p: PathV, q: PathV| self.compare(p, q),
            hash: |p: PathV| self.digest(p),
        }
    }

    /// What a bucket comes to.
    pub open spec fn resolve(self, paths: Seq<PathV>) -> BucketResultV {
        let w = self.world();
        let n = choose|n: nat| (#[trigger] resolved(piece_start(paths), w, n)).phase == ResolverPhase::Done;
        let r = resolved(piece_start(paths), w, n);
        BucketResultV { groups: r.groups, skipped: r.skipped, processed_count: r.processed }
    }
}

/// What a walk reports.
pub enum FoundV {
    Dir(Seq<char>),
    File(PathV),
}

/// The files among what a walk reports.
pub open spec fn files_found(found: Seq<FoundV>) -> Seq<PathV>
    decreases found.len(),
{
    if found.len() == 0 {
        Seq::empty()
    } else {
        match found.last() {
            FoundV::Dir(_) => files_found(found.drop_last()),
            FoundV::File(p) => files_found(found.drop_last()).push(p),
        }
    }
}

/// A scan after all that a walk reports.
pub open spec fn walked_all(s: ScanV, found: Seq<FoundV>, disk: DiskV) -> ScanV
    decreases found.len(),
{
    if found.len() == 0 {
        s
    } else {
        let before = walked_all(s, found.drop_last(), disk);
        match found.last() {
            FoundV::Dir(key) => before.after_dir(key).checkpointed(),
            FoundV::File(p) => before.after_file(p, (disk.size)(p.parts)).checkpointed(),
        }
    }
}

/// A scan after the next `n` batches of quick hashes.
pub open spec fn hashed_all(s: ScanV, disk: DiskV, n: nat) -> ScanV
    decreases n,
{
    if n == 0 {
        s
    } else {
        let before = hashed_all(s, disk, (n - 1) as nat);
        before.after_hashes(before.hash_batch().map_values(|c: CandidateV| disk.quick(c.path)))
    }
}

/// A scan after the next `n` batches of buckets.
pub open spec fn confirmed_all(s: ScanV, disk: DiskV, n: nat) -> ScanV
    decreases n,
{
    if n == 0 {
        s
    } else {
        let before = confirmed_all(s, disk, (n - 1) as nat);
        before.after_confirm(before.batches[before.at_batch as int].map_values(|b: Seq<PathV>| disk.resolve(b)))
    }
}

/// Whether `s` is what a new scan comes to that meets these files and runs to its
/// end: `h` batches are hashed and `k` confirmed, until none is left.
pub open spec fn scanned(
    s: ScanV,
    roots: Seq<RootKeyV>,
    threshold: u64,
    found: Seq<FoundV>,
    disk: DiskV,
    h: nat,
    k: nat,
) -> bool {
    let walked = walked_all(scan_begun(roots, threshold, None), found, disk).after_walk(false);
    let hashes = hashed_all(walked, disk, h);
    let sure = confirmed_all(hashes.confirming(), disk, k);
    &&& hashes.at == hashes.candidates.len()
    &&& sure.at_batch == sure.batches.len()
    &&& s == ScanV { phase: ScanPhase::Ended, ..sure }
}

// ----------------------------------------------------------------------- tables

/// Whether a table has a path under a key.
pub open spec fn holds(t: TableV, key: Seq<char>, p: PathV) -> bool {
    exists|i: int| 0 <= i < t.len() && (#[trigger] t[i]).key == key && t[i].paths.contains(p)
}

proof fn lemma_added_holds(t: TableV, key: Seq<char>, size: u64, p: PathV)
    ensures
        holds(added(t, key, size, p), key, p),
        forall|k: Seq<char>, q: PathV| holds(t, k, q) ==> #[trigger] holds(added(t, key, size, p), k, q),
{
    lemma_pos(t, key);
    let n = added(t, key, size, p);
    let at = pos(t, key);
    assert(n[at].key == key && n[at].paths.last() == p);
    assert(n[at].paths.contains(p));
    assert forall|k: Seq<char>, q: PathV| holds(t, k, q) implies #[trigger] holds(n, k, q) by {
        let i = choose|i: int| 0 <= i < t.len() && (#[trigger] t[i]).key == k && t[i].paths.contains(q);
        let j = choose|j: int| 0 <= j < t[i].paths.len() && t[i].paths[j] == q;
        assert(n[i].key == k && n[i].paths[j] == q);
    }
}

proof fn lemma_extended_holds(t: TableV, key: Seq<char>, paths: Seq<PathV>)
    ensures
        forall|q: PathV| paths.contains(q) ==> #[trigger] holds(extended(t, key, paths), key, q),
        forall|k: Seq<char>, q: PathV| holds(t, k, q) ==> #[trigger] holds(extended(t, key, paths), k, q),
{
    lemma_pos(t, key);
    let n = extended(t, key, paths);
    let at = pos(t, key);
    assert forall|q: PathV| paths.contains(q) implies #[trigger] holds(n, key, q) by {
        let j = choose|j: int| 0 <= j < paths.len() && paths[j] == q;
        if at < t.len() {
            assert(n[at].paths[t[at].paths.len() + j] == q);
        } else {
            assert(n[at].paths[j] == q);
        }
        assert(n[at].key == key && n[at].paths.contains(q));
    }
    assert forall|k: Seq<char>, q: PathV| holds(t, k, q) implies #[trigger] holds(n, k, q) by {
        let i = choose|i: int| 0 <= i < t.len() && (#[trigger] t[i]).key == k && t[i].paths.contains(q);
        let j = choose|j: int| 0 <= j < t[i].paths.len() && t[i].paths[j] == q;
        assert(n[i].key == k && n[i].paths[j] == q);
    }
}

/// Two paths under one key are in one bucket.
proof fn lemma_one_bucket(t: TableV, key: Seq<char>, x: PathV, y: PathV)
    requires
        keys_unique(t),
        holds(t, key, x),
        holds(t, key, y),
    ensures
        exists|i: int|
            0 <= i < t.len() && (#[trigger] t[i]).key == key && t[i].paths.contains(x) && t[i].paths.contains(y),
{
    let i = choose|i: int| 0 <= i < t.len() && (#[trigger] t[i]).key == key && t[i].paths.contains(x);
    let j = choose|j: int| 0 <= j < t.len() && (#[trigger] t[j]).key == key && t[j].paths.contains(y);
    lemma_pos_is(t, i);
    lemma_pos_is(t, j);
    assert(t[i].paths.contains(y));
}

proof fn lemma_two(paths: Seq<PathV>, x: PathV, y: PathV)
    requires
        paths.contains(x),
        paths.contains(y),
        x != y,
    ensures
        paths.len() >= 2,
{
    let i = choose|i: int| 0 <= i < paths.len() && paths[i] == x;
    let j = choose|j: int| 0 <= j < paths.len() && paths[j] == y;
    assert(i != j);
}

// ------------------------------------------------------------------------- walk

/// What holds of the files by size: each is under the size it is listed with.
spec fn sizes_true(t: TableV, disk: DiskV) -> bool {
    &&& forall|i: int| 0 <= i < t.len() ==> (#[trigger] t[i]).key == decimal(t[i].size as nat)
    &&& forall|i: int, j: int|
        #![trigger t[i].paths[j]]
        0 <= i < t.len() && 0 <= j < t[i].paths.len() ==> (disk.size)(t[i].paths[j].parts) == Some(t[i].size)
}

/// What a new scan keeps of its beginning.
spec fn is_new(s: ScanV, threshold: u64) -> bool {
    &&& s.threshold == threshold
    &&& s.resumed is None
    &&& s.processed.len() == 0
    &&& s.saved_partial.len() == 0
    &&& s.saved_full.len() == 0
}

proof fn lemma_walk(s: ScanV, found: Seq<FoundV>, disk: DiskV)
    requires
        is_new(s, s.threshold),
        s.by_size.len() == 0,
    ensures
        is_new(walked_all(s, found, disk), s.threshold),
        keys_unique(walked_all(s, found, disk).by_size),
        sizes_true(walked_all(s, found, disk).by_size, disk),
        forall|p: PathV|
            #![trigger files_found(found).contains(p)]
            files_found(found).contains(p) && (disk.size)(p.parts) is Some ==> holds(
                walked_all(s, found, disk).by_size,
                decimal((disk.size)(p.parts).unwrap() as nat),
                p,
            ),
    decreases found.len(),
{
    if found.len() > 0 {
        let rest = found.drop_last();
        lemma_walk(s, rest, disk);
        let before = walked_all(s, rest, disk);
        let t = before.by_size;
        match found.last() {
            FoundV::Dir(_) => {
                assert(files_found(found) == files_found(rest));
                assert(walked_all(s, found, disk).by_size == t);
            },
            FoundV::File(p) => {
                match (disk.size)(p.parts) {
                    Some(n) => {
                        let key = decimal(n as nat);
                        let u = added(t, key, n, p);
                        lemma_pos(t, key);
                        lemma_added_unique(t, key, n, p);
                        lemma_added_holds(t, key, n, p);
                        assert(sizes_true(u, disk)) by {
                            lemma_added_true(t, n, p, disk);
                        }
                    },
                    None => {},
                }
                let files = files_found(found);
                assert forall|q: PathV|
                    #![trigger files.contains(q)]
                    files.contains(q) && (disk.size)(q.parts) is Some implies holds(
                    walked_all(s, found, disk).by_size,
                    decimal((disk.size)(q.parts).unwrap() as nat),
                    q,
                ) by {
                    let i = choose|i: int| 0 <= i < files.len() && files[i] == q;
                    if i < files.len() - 1 {
                        assert(files_found(rest)[i] == q);
                        assert(files_found(rest).contains(q));
                        assert(holds(t, decimal((disk.size)(q.parts).unwrap() as nat), q));
                    } else {
                        assert(q == p);
                    }
                }
            },
        }
    }
}

proof fn lemma_added_true(t: TableV, n: u64, p: PathV, disk: DiskV)
    requires
        sizes_true(t, disk),
        (disk.size)(p.parts) == Some(n),
    ensures
        sizes_true(added(t, decimal(n as nat), n, p), disk),
{
    let key = decimal(n as nat);
    lemma_pos(t, key);
    let at = pos(t, key);
    if at < t.len() {
        law_decimal_injective(t[at].size as nat, n as nat);
    }
    let u = added(t, key, n, p);
    assert forall|i: int, j: int|
        #![trigger u[i].paths[j]]
        0 <= i < u.len() && 0 <= j < u[i].paths.len() implies (disk.size)(u[i].paths[j].parts) == Some(u[i].size) by {
        if i < t.len() && j < t[i].paths.len() {
            assert(u[i].paths[j] == t[i].paths[j]);
        }
    }
}

// ------------------------------------------------------------------ quick hashes

proof fn lemma_unprocessed_has(size: u64, paths: Seq<PathV>, done: Set<PathId>, p: PathV)
    requires
        paths.contains(p),
        !done.contains(p.parts),
    ensures
        unprocessed(size, paths, done).contains(CandidateV { size, path: p }),
    decreases paths.len(),
{
    let c = CandidateV { size, path: p };
    let rest = paths.drop_last();
    let before = unprocessed(size, rest, done);
    let all = unprocessed(size, paths, done);
    if paths.last() == p {
        assert(all.last() == c);
    } else {
        let i = choose|i: int| 0 <= i < paths.len() && paths[i] == p;
        assert(rest[i] == p);
        lemma_unprocessed_has(size, rest, done, p);
        let k = choose|k: int| 0 <= k < before.len() && before[k] == c;
        assert(all[k] == c);
    }
}

proof fn lemma_candidates_has(by_size: TableV, done: Set<PathId>, i: int, p: PathV)
    requires
        0 <= i < by_size.len(),
        by_size[i].paths.len() >= 2,
        by_size[i].paths.contains(p),
        !done.contains(p.parts),
    ensures
        candidates_of(by_size, done).contains(CandidateV { size: by_size[i].size, path: p }),
    decreases by_size.len(),
{
    let c = CandidateV { size: by_size[i].size, path: p };
    let rest = by_size.drop_last();
    let before = candidates_of(rest, done);
    let all = candidates_of(by_size, done);
    if i == by_size.len() - 1 {
        lemma_unprocessed_has(by_size[i].size, by_size[i].paths, done, p);
        let new = unprocessed(by_size[i].size, by_size[i].paths, done);
        let k = choose|k: int| 0 <= k < new.len() && new[k] == c;
        assert(all[before.len() + k] == c);
    } else {
        lemma_candidates_has(rest, done, i, p);
        let k = choose|k: int| 0 <= k < before.len() && before[k] == c;
        assert(all[k] == c);
    }
}

/// What holds of the files by quick hash: each is under its size and hash.
spec fn partials_true(t: TableV, disk: DiskV) -> bool {
    &&& partials_canonical(t)
    &&& forall|i: int, j: int|
        #![trigger t[i].paths[j]]
        0 <= i < t.len() && 0 <= j < t[i].paths.len() ==> (disk.size)(t[i].paths[j].parts) == Some(t[i].size)
            && disk.quick(t[i].paths[j]) is Some && t[i].key == partial_key_text(
            t[i].size,
            disk.quick(t[i].paths[j]).unwrap(),
        )
}

proof fn lemma_partial_added_true(t: TableV, c: CandidateV, disk: DiskV)
    requires
        partials_true(t, disk),
        (disk.size)(c.path.parts) == Some(c.size),
        disk.quick(c.path) is Some,
    ensures
        partials_true(added(t, partial_key_text(c.size, disk.quick(c.path).unwrap()), c.size, c.path), disk),
{
    let hash = disk.quick(c.path).unwrap();
    let key = partial_key_text(c.size, hash);
    lemma_pos(t, key);
    lemma_added_unique(t, key, c.size, c.path);
    let at = pos(t, key);
    if at < t.len() {
        let h = choose|h: Seq<char>| t[at].key == #[trigger] partial_key_text(t[at].size, h);
        law_partial_key_splits(c.size, hash);
        law_partial_key_splits(t[at].size, h);
        law_decimal_injective(t[at].size as nat, c.size as nat);
    }
    let u = added(t, key, c.size, c.path);
    assert forall|i: int| 0 <= i < u.len() implies is_partial_key((#[trigger] u[i]).key, u[i].size) by {
        if i < t.len() {
            assert(is_partial_key(t[i].key, t[i].size));
        }
    }
    assert forall|i: int, j: int|
        #![trigger u[i].paths[j]]
        0 <= i < u.len() && 0 <= j < u[i].paths.len() implies (disk.size)(u[i].paths[j].parts) == Some(u[i].size)
        && disk.quick(u[i].paths[j]) is Some && u[i].key == partial_key_text(
        u[i].size,
        disk.quick(u[i].paths[j]).unwrap(),
    ) by {
        if i < t.len() && j < t[i].paths.len() {
            assert(u[i].paths[j] == t[i].paths[j]);
        }
    }
}

/// Whether the files of a batch are listed with the sizes they are hashed under.
spec fn listed(batch: Seq<CandidateV>, disk: DiskV) -> bool {
    forall|i: int| 0 <= i < batch.len() ==> (disk.size)((#[trigger] batch[i]).path.parts) == Some(batch[i].size)
}

/// Whether a table has a file under its size and quick hash, if it has one.
spec fn hash_noted(t: TableV, c: CandidateV, disk: DiskV) -> bool {
    disk.quick(c.path) is Some ==> holds(t, partial_key_text(c.size, disk.quick(c.path).unwrap()), c.path)
}

spec fn quick_results(batch: Seq<CandidateV>, disk: DiskV) -> Seq<Option<Seq<char>>> {
    batch.map_values(|c: CandidateV| disk.quick(c.path))
}

proof fn lemma_hash_batch(t: TableV, batch: Seq<CandidateV>, disk: DiskV)
    requires
        partials_true(t, disk),
        listed(batch, disk),
    ensures
        partials_true(hashed(t, batch, quick_results(batch, disk)).by_partial, disk),
        forall|k: Seq<char>, q: PathV|
            holds(t, k, q) ==> #[trigger] holds(hashed(t, batch, quick_results(batch, disk)).by_partial, k, q),
        forall|i: int|
            0 <= i < batch.len() ==> hash_noted(
                hashed(t, batch, quick_results(batch, disk)).by_partial,
                #[trigger] batch[i],
                disk,
            ),
    decreases batch.len(),
{
    if batch.len() > 0 {
        let rest = batch.drop_last();
        let results = quick_results(batch, disk);
        assert(results.drop_last() =~= quick_results(rest, disk));
        assert(listed(rest, disk)) by {
            assert forall|i: int| 0 <= i < rest.len() implies (disk.size)((#[trigger] rest[i]).path.parts) == Some(
                rest[i].size,
            ) by {
                assert(rest[i] == batch[i]);
            }
        }
        lemma_hash_batch(t, rest, disk);
        let before = hashed(t, rest, quick_results(rest, disk)).by_partial;
        let after = hashed(t, batch, results).by_partial;
        let c = batch.last();
        assert(batch[batch.len() - 1] == c);
        assert(results.last() == disk.quick(c.path));
        match disk.quick(c.path) {
            Some(d) => {
                lemma_added_holds(before, partial_key_text(c.size, d), c.size, c.path);
                lemma_partial_added_true(before, c, disk);
            },
            None => {},
        }
        assert forall|i: int| 0 <= i < batch.len() implies hash_noted(after, #[trigger] batch[i], disk) by {
            if i < rest.len() {
                assert(hash_noted(before, rest[i], disk));
            }
        }
    }
}

/// What holds while files are hashed: those gone through are noted.
spec fn hashing_true(s: ScanV, start: ScanV, disk: DiskV) -> bool {
    &&& is_new(s, start.threshold)
    &&& s.candidates == start.candidates
    &&& s.at <= s.candidates.len()
    &&& partials_true(s.by_partial, disk)
    &&& forall|i: int| 0 <= i < s.at ==> hash_noted(s.by_partial, #[trigger] s.candidates[i], disk)
}

proof fn lemma_hash_all(start: ScanV, disk: DiskV, n: nat)
    requires
        hashing_true(start, start, disk),
        listed(start.candidates, disk),
    ensures
        hashing_true(hashed_all(start, disk, n), start, disk),
    decreases n,
{
    if n > 0 {
        lemma_hash_all(start, disk, (n - 1) as nat);
        let s = hashed_all(start, disk, (n - 1) as nat);
        let batch = s.hash_batch();
        assert(listed(batch, disk)) by {
            assert forall|i: int| 0 <= i < batch.len() implies (disk.size)((#[trigger] batch[i]).path.parts) == Some(
                batch[i].size,
            ) by {
                assert(batch[i] == s.candidates[s.at + i]);
            }
        }
        lemma_hash_batch(s.by_partial, batch, disk);
        let after = hashed_all(start, disk, n);
        assert(after.by_partial == hashed(s.by_partial, batch, quick_results(batch, disk)).by_partial);
        assert forall|i: int| 0 <= i < after.at implies hash_noted(after.by_partial, #[trigger] after.candidates[i], disk) by {
            if i < s.at {
                assert(hash_noted(s.by_partial, s.candidates[i], disk));
            } else {
                assert(batch[i - s.at] == s.candidates[i]);
            }
        }
    }
}

/// After the walk, the files to hash are those that share their size.
proof fn lemma_hash_start(s: ScanV, disk: DiskV)
    requires
        is_new(s, s.threshold),
        sizes_true(s.by_size, disk),
    ensures
        hashing_true(s.after_walk(false), s.after_walk(false), disk),
        s.after_walk(false).threshold == s.threshold,
        s.after_walk(false).candidates == candidates_of(s.by_size, Set::empty()),
        listed(s.after_walk(false).candidates, disk),
{
    let w = s.after_walk(false);
    assert(s.processed.map_values(|p: PathV| p.parts) =~= Seq::<PathId>::empty());
    assert(ids_of(s.processed) =~= Set::<PathId>::empty());
    assert(w.by_partial == partials_loaded(s.saved_partial));
    assert(w.by_partial.len() == 0);
    assert forall|i: int| 0 <= i < w.candidates.len() implies (disk.size)((#[trigger] w.candidates[i]).path.parts)
        == Some(w.candidates[i].size) by {
        let c = w.candidates[i];
        assert(w.candidates.contains(c));
        law_only_shared_sizes_hashed(s.by_size, Set::empty(), c);
        let b = choose|b: int|
            0 <= b < s.by_size.len() && (#[trigger] s.by_size[b]).size == c.size && s.by_size[b].paths.len() >= 2
                && s.by_size[b].paths.contains(c.path);
        let j = choose|j: int| 0 <= j < s.by_size[b].paths.len() && s.by_size[b].paths[j] == c.path;
        assert(s.by_size[b].paths[j] == c.path);
    }
}

// --------------------------------------------------------------------- buckets

/// Whether a file of a bucket is not settled yet.
spec fn in_pool(s: ResolverV, x: PathV) -> bool {
    s.phase != ResolverPhase::Done && (x == s.representative || s.rest.contains(x) || s.matched.contains(x)
        || s.leftover.contains(x))
}

/// Whether two files are in one group.
spec fn grouped(groups: Seq<MatchV>, x: PathV, y: PathV) -> bool {
    exists|g: int| 0 <= g < groups.len() && (#[trigger] groups[g]).paths.contains(x) && groups[g].paths.contains(y)
}

/// Whether all groups are made of files of a list that have the digest of the
/// group.
spec fn groups_true(groups: Seq<MatchV>, all: Seq<PathV>, disk: DiskV) -> bool {
    forall|g: int, j: int|
        #![trigger groups[g].paths[j]]
        0 <= g < groups.len() && 0 <= j < groups[g].paths.len() ==> all.contains(groups[g].paths[j]) && disk.digest(
            groups[g].paths[j],
        ) == Some(groups[g].digest)
}

/// Whether the files skipped are files of a list.
spec fn skipped_true(skipped: Seq<PathV>, all: Seq<PathV>) -> bool {
    forall|i: int| 0 <= i < skipped.len() ==> all.contains(#[trigger] skipped[i])
}

/// What holds while a bucket of files is resolved.
spec fn resolving(s: ResolverV, all: Seq<PathV>, disk: DiskV) -> bool {
    &&& forall|x: PathV| #[trigger] in_pool(s, x) ==> all.contains(x)
    &&& groups_true(s.groups, all, disk)
    &&& skipped_true(s.skipped, all)
    &&& s.phase == ResolverPhase::Opening ==> s.rest.len() > 0 && s.matched.len() == 0 && s.leftover.len() == 0
    &&& s.phase == ResolverPhase::Comparing ==> s.rest.len() > 0
    &&& s.phase == ResolverPhase::Hashing ==> s.rest.len() == 0
    &&& s.phase == ResolverPhase::Comparing ==> (disk.content)(s.representative.parts) is Some
    &&& s.phase == ResolverPhase::Comparing || s.phase == ResolverPhase::Hashing ==> {
        &&& forall|i: int|
            0 <= i < s.matched.len() ==> (disk.content)((#[trigger] s.matched[i]).parts) == (disk.content)(
                s.representative.parts,
            )
        &&& forall|i: int|
            0 <= i < s.leftover.len() ==> (disk.content)((#[trigger] s.leftover[i]).parts) != (disk.content)(
                s.representative.parts,
            )
    }
}

/// Whether two files are still together, or in one group already.
spec fn together(s: ResolverV, x: PathV, y: PathV) -> bool {
    (in_pool(s, x) && in_pool(s, y)) || grouped(s.groups, x, y)
}

proof fn lemma_round(s: ResolverV, remaining: Seq<PathV>, all: Seq<PathV>, disk: DiskV)
    requires
        groups_true(s.groups, all, disk),
        skipped_true(s.skipped, all),
        forall|i: int| 0 <= i < remaining.len() ==> all.contains(#[trigger] remaining[i]),
    ensures
        resolving(s.round(remaining), all, disk),
        s.round(remaining).groups == s.groups,
        remaining.len() >= 2 ==> forall|x: PathV| remaining.contains(x) ==> #[trigger] in_pool(s.round(remaining), x),
{
    let n = s.round(remaining);
    if remaining.len() >= 2 {
        assert forall|x: PathV| #[trigger] in_pool(n, x) implies all.contains(x) by {
            if x == n.representative {
                assert(remaining[0] == x);
            } else {
                let i = choose|i: int| 0 <= i < n.rest.len() && n.rest[i] == x;
                assert(remaining[i + 1] == x);
            }
        }
        assert forall|x: PathV| remaining.contains(x) implies #[trigger] in_pool(n, x) by {
            let i = choose|i: int| 0 <= i < remaining.len() && remaining[i] == x;
            if i > 0 {
                assert(n.rest[i - 1] == x);
            }
        }
    }
}

proof fn lemma_pool_list(s: ResolverV, list: Seq<PathV>, all: Seq<PathV>, disk: DiskV)
    requires
        resolving(s, all, disk),
        s.phase != ResolverPhase::Done,
        list == s.rest || list == s.leftover || list == s.matched,
    ensures
        forall|i: int| 0 <= i < list.len() ==> all.contains(#[trigger] list[i]),
{
    assert forall|i: int| 0 <= i < list.len() implies all.contains(#[trigger] list[i]) by {
        assert(list.contains(list[i]));
        assert(in_pool(s, list[i]));
    }
}

/// Whether two files belong in one group: they have one size and one quick hash,
/// and one content too, unless confirming that is put off for their size.
pub open spec fn belong_together(x: PathV, y: PathV, disk: DiskV, threshold: u64) -> bool {
    &&& x != y
    &&& (disk.size)(x.parts) is Some
    &&& (disk.size)(x.parts) == (disk.size)(y.parts)
    &&& disk.quick(x) is Some
    &&& disk.quick(x) == disk.quick(y)
    &&& !deferred_size((disk.size)(x.parts).unwrap(), threshold) ==> twins(x, y, disk)
}

/// Whether two files are different and have one content, which can be hashed.
pub open spec fn twins(x: PathV, y: PathV, disk: DiskV) -> bool {
    &&& x != y
    &&& (disk.content)(x.parts) is Some
    &&& (disk.content)(x.parts) == (disk.content)(y.parts)
    &&& (disk.content)(x.parts).unwrap().len() < DIGEST_LIMIT
}

proof fn lemma_opened(s: ResolverV, all: Seq<PathV>, disk: DiskV, x: PathV, y: PathV)
    requires
        resolving(s, all, disk),
        s.phase == ResolverPhase::Opening,
    ensures
        resolving(answered(s, disk.world()), all, disk),
        twins(x, y, disk) && together(s, x, y) ==> together(answered(s, disk.world()), x, y),
{
    let n = answered(s, disk.world());
    if (disk.content)(s.representative.parts) is Some {
        assert forall|z: PathV| #[trigger] in_pool(n, z) implies all.contains(z) by {
            assert(in_pool(s, z));
        }
        assert(twins(x, y, disk) && together(s, x, y) ==> together(n, x, y));
    } else {
        lemma_pool_list(s, s.rest, all, disk);
        let u = ResolverV {
            skipped: s.skipped.push(s.representative),
            processed: s.processed + 1,
            ..s
        };
        assert(in_pool(s, s.representative));
        assert(skipped_true(u.skipped, all));
        lemma_round(u, s.rest, all, disk);
        if twins(x, y, disk) && in_pool(s, x) && in_pool(s, y) {
            assert(s.rest.contains(x) && s.rest.contains(y));
            lemma_two(s.rest, x, y);
            assert(in_pool(n, x) && in_pool(n, y));
        }
    }
}

proof fn lemma_skip_contains(list: Seq<PathV>, z: PathV)
    requires
        list.len() > 0,
    ensures
        list.contains(z) <==> list[0] == z || list.skip(1).contains(z),
{
    if list.contains(z) && list[0] != z {
        let i = choose|i: int| 0 <= i < list.len() && list[i] == z;
        assert(list.skip(1)[i - 1] == z);
    }
    if list.skip(1).contains(z) {
        let i = choose|i: int| 0 <= i < list.skip(1).len() && list.skip(1)[i] == z;
        assert(list[i + 1] == z);
    }
}

proof fn lemma_push_contains(list: Seq<PathV>, p: PathV, z: PathV)
    ensures
        list.push(p).contains(z) <==> list.contains(z) || z == p,
{
    if list.contains(z) {
        let i = choose|i: int| 0 <= i < list.len() && list[i] == z;
        assert(list.push(p)[i] == z);
    }
    if z == p {
        assert(list.push(p)[list.len() as int] == z);
    }
    if list.push(p).contains(z) && z != p {
        let i = choose|i: int| 0 <= i < list.push(p).len() && list.push(p)[i] == z;
        assert(list[i] == z);
    }
}

proof fn lemma_compared(s: ResolverV, all: Seq<PathV>, disk: DiskV, x: PathV, y: PathV)
    requires
        resolving(s, all, disk),
        s.phase == ResolverPhase::Comparing,
    ensures
        resolving(answered(s, disk.world()), all, disk),
        twins(x, y, disk) && together(s, x, y) ==> together(answered(s, disk.world()), x, y),
{
    let n = answered(s, disk.world());
    let other = s.rest[0];
    let outcome = disk.compare(s.representative, other);
    let next = ResolverV { rest: s.rest.skip(1), ..s };
    let u = match outcome {
        Compared::Same => ResolverV { matched: s.matched.push(other), processed: s.processed + 1, ..next },
        Compared::Different => ResolverV { leftover: s.leftover.push(other), ..next },
        Compared::Unreadable => ResolverV { skipped: s.skipped.push(other), processed: s.processed + 1, ..next },
    };
    assert(n == u.settled());
    assert(s.rest.contains(other));
    assert(in_pool(s, other));
    assert(skipped_true(u.skipped, all));
    assert forall|z: PathV| #[trigger] in_pool(u, z) implies all.contains(z) by {
        lemma_skip_contains(s.rest, z);
        lemma_push_contains(s.matched, other, z);
        lemma_push_contains(s.leftover, other, z);
        assert(in_pool(s, z));
    }
    assert forall|z: PathV| in_pool(s, z) && (disk.content)(z.parts) is Some implies #[trigger] in_pool(u, z) by {
        lemma_skip_contains(s.rest, z);
        lemma_push_contains(s.matched, other, z);
        lemma_push_contains(s.leftover, other, z);
    }
    if u.rest.len() > 0 {
        assert(resolving(n, all, disk));
    } else if u.matched.len() > 0 {
        assert forall|z: PathV| #[trigger] in_pool(n, z) implies all.contains(z) by {
            assert(in_pool(u, z));
        }
        assert(in_pool(u, x) ==> in_pool(n, x));
        assert(in_pool(u, y) ==> in_pool(n, y));
    } else {
        assert forall|i: int| 0 <= i < u.leftover.len() implies all.contains(#[trigger] u.leftover[i]) by {
            assert(u.leftover.contains(u.leftover[i]));
            assert(in_pool(u, u.leftover[i]));
        }
        lemma_round(u, u.leftover, all, disk);
        if twins(x, y, disk) && in_pool(s, x) && in_pool(s, y) {
            assert(in_pool(u, x) && in_pool(u, y));
            lemma_left(u, disk, x, y);
            lemma_left(u, disk, y, x);
            lemma_two(u.leftover, x, y);
            assert(in_pool(n, x) && in_pool(n, y));
        }
    }
}

/// A file that stands with an equal one is not the representative of a round in
/// which nothing matched.
proof fn lemma_left(u: ResolverV, disk: DiskV, x: PathV, y: PathV)
    requires
        u.rest.len() == 0,
        u.matched.len() == 0,
        in_pool(u, x),
        in_pool(u, y),
        twins(x, y, disk) || twins(y, x, disk),
        forall|i: int|
            0 <= i < u.leftover.len() ==> (disk.content)((#[trigger] u.leftover[i]).parts) != (disk.content)(
                u.representative.parts,
            ),
    ensures
        u.leftover.contains(x),
{
    if x == u.representative {
        assert(u.leftover.contains(y));
        let i = choose|i: int| 0 <= i < u.leftover.len() && u.leftover[i] == y;
        assert((disk.content)(u.leftover[i].parts) != (disk.content)(u.representative.parts));
    }
}

proof fn lemma_digested(s: ResolverV, all: Seq<PathV>, disk: DiskV, x: PathV, y: PathV)
    requires
        resolving(s, all, disk),
        s.phase == ResolverPhase::Hashing,
    ensures
        resolving(answered(s, disk.world()), all, disk),
        twins(x, y, disk) && together(s, x, y) ==> together(answered(s, disk.world()), x, y),
{
    let n = answered(s, disk.world());
    let rep = s.representative;
    let class = seq![rep] + s.matched;
    lemma_pool_list(s, s.leftover, all, disk);
    lemma_pool_list(s, s.matched, all, disk);
    assert(in_pool(s, rep));
    let u = match disk.digest(rep) {
        Some(d) => ResolverV { groups: s.groups.push(MatchV { digest: d, paths: class }), ..s },
        None => ResolverV { skipped: s.skipped.push(rep) + s.matched, ..s },
    };
    assert(n == u.round(s.leftover));
    assert(groups_true(u.groups, all, disk)) by {
        assert forall|g: int, j: int|
            #![trigger u.groups[g].paths[j]]
            0 <= g < u.groups.len() && 0 <= j < u.groups[g].paths.len() implies all.contains(u.groups[g].paths[j])
            && disk.digest(u.groups[g].paths[j]) == Some(u.groups[g].digest) by {
            if g < s.groups.len() {
                assert(u.groups[g].paths[j] == s.groups[g].paths[j]);
            } else if j > 0 {
                assert(class[j] == s.matched[j - 1]);
            }
        }
    }
    lemma_round(u, s.leftover, all, disk);
    if grouped(s.groups, x, y) {
        let g = choose|g: int|
            0 <= g < s.groups.len() && (#[trigger] s.groups[g]).paths.contains(x) && s.groups[g].paths.contains(y);
        assert(u.groups[g].paths.contains(x) && u.groups[g].paths.contains(y));
        assert(n.groups[g] == u.groups[g]);
    } else if twins(x, y, disk) && in_pool(s, x) && in_pool(s, y) {
        if s.leftover.contains(x) && s.leftover.contains(y) {
            lemma_two(s.leftover, x, y);
            assert(in_pool(n, x) && in_pool(n, y));
        } else {
            lemma_class(s, disk, x, y);
            let g = s.groups.len() as int;
            assert(u.groups[g].paths == class);
            assert(n.groups[g] == u.groups[g]);
            assert(n.groups[g].paths.contains(x) && n.groups[g].paths.contains(y));
        }
    }
}

/// Of two equal files, both match the representative if one is not left over.
proof fn lemma_class(s: ResolverV, disk: DiskV, x: PathV, y: PathV)
    requires
        s.phase == ResolverPhase::Hashing,
        s.rest.len() == 0,
        twins(x, y, disk),
        in_pool(s, x),
        in_pool(s, y),
        !(s.leftover.contains(x) && s.leftover.contains(y)),
        forall|i: int|
            0 <= i < s.matched.len() ==> (disk.content)((#[trigger] s.matched[i]).parts) == (disk.content)(
                s.representative.parts,
            ),
        forall|i: int|
            0 <= i < s.leftover.len() ==> (disk.content)((#[trigger] s.leftover[i]).parts) != (disk.content)(
                s.representative.parts,
            ),
    ensures
        (seq![s.representative] + s.matched).contains(x),
        (seq![s.representative] + s.matched).contains(y),
        disk.digest(s.representative) is Some,
{
    let class = seq![s.representative] + s.matched;
    let z = if s.leftover.contains(x) {
        y
    } else {
        x
    };
    assert(z == s.representative || s.matched.contains(z));
    if s.matched.contains(z) {
        let i = choose|i: int| 0 <= i < s.matched.len() && s.matched[i] == z;
        assert((disk.content)(s.matched[i].parts) == (disk.content)(s.representative.parts));
    }
    assert((disk.content)(z.parts) == (disk.content)(s.representative.parts));
    assert forall|v: PathV| v == x || v == y implies class.contains(v) by {
        if s.leftover.contains(v) {
            let i = choose|i: int| 0 <= i < s.leftover.len() && s.leftover[i] == v;
            assert((disk.content)(s.leftover[i].parts) != (disk.content)(s.representative.parts));
        }
        if v == s.representative {
            assert(class[0] == v);
        } else {
            let i = choose|i: int| 0 <= i < s.matched.len() && s.matched[i] == v;
            assert(class[i + 1] == v);
        }
    }
}

proof fn lemma_resolved(s: ResolverV, all: Seq<PathV>, disk: DiskV, steps: nat, x: PathV, y: PathV)
    requires
        resolving(s, all, disk),
    ensures
        resolving(resolved(s, disk.world(), steps), all, disk),
        twins(x, y, disk) && together(s, x, y) ==> together(resolved(s, disk.world(), steps), x, y),
    decreases steps,
{
    if steps > 0 {
        match s.phase {
            ResolverPhase::Opening => lemma_opened(s, all, disk, x, y),
            ResolverPhase::Comparing => lemma_compared(s, all, disk, x, y),
            ResolverPhase::Hashing => lemma_digested(s, all, disk, x, y),
            ResolverPhase::Done => {},
        }
        lemma_resolved(answered(s, disk.world()), all, disk, (steps - 1) as nat, x, y);
    }
}

proof fn lemma_ends(s: ResolverV, all: Seq<PathV>, disk: DiskV) -> (steps: nat)
    requires
        resolving(s, all, disk),
    ensures
        resolved(s, disk.world(), steps).phase == ResolverPhase::Done,
    decreases files_left(s), steps_left(s),
{
    if s.phase == ResolverPhase::Done {
        0
    } else {
        let n = answered(s, disk.world());
        match s.phase {
            ResolverPhase::Opening => lemma_opened(s, all, disk, s.representative, s.representative),
            ResolverPhase::Comparing => lemma_compared(s, all, disk, s.representative, s.representative),
            ResolverPhase::Hashing => lemma_digested(s, all, disk, s.representative, s.representative),
            ResolverPhase::Done => {},
        }
        let more = lemma_ends(n, all, disk);
        more + 1
    }
}

/// What a bucket comes to: its groups are made of its files, with their digests,
/// and equal files are in one group.
proof fn lemma_bucket(paths: Seq<PathV>, disk: DiskV, x: PathV, y: PathV)
    ensures
        groups_true(disk.resolve(paths).groups, paths, disk),
        skipped_true(disk.resolve(paths).skipped, paths),
        twins(x, y, disk) && paths.contains(x) && paths.contains(y) ==> grouped(disk.resolve(paths).groups, x, y),
{
    let w = disk.world();
    let s = piece_start(paths);
    let blank = ResolverV {
        phase: ResolverPhase::Done,
        representative: PathV { text: Seq::empty(), parts: Seq::empty() },
        rest: Seq::empty(),
        matched: Seq::empty(),
        leftover: Seq::empty(),
        groups: Seq::empty(),
        skipped: Seq::empty(),
        processed: 0,
    };
    assert forall|i: int| 0 <= i < paths.len() implies paths.contains(#[trigger] paths[i]) by {}
    if paths.len() != 1 {
        lemma_round(blank, paths, paths, disk);
        assert(s == blank.round(paths));
    }
    assert(resolving(s, paths, disk));
    let m = lemma_ends(s, paths, disk);
    let n = choose|n: nat| (#[trigger] resolved(s, w, n)).phase == ResolverPhase::Done;
    assert(resolved(s, w, m).phase == ResolverPhase::Done);
    lemma_resolved(s, paths, disk, n, x, y);
    if twins(x, y, disk) && paths.contains(x) && paths.contains(y) {
        lemma_two(paths, x, y);
        assert(in_pool(s, x) && in_pool(s, y));
    }
}

// ------------------------------------------------------------------- confirming

/// What holds of the files by digest: each is under its own.
spec fn fulls_true(t: TableV, disk: DiskV) -> bool {
    &&& keys_unique(t)
    &&& forall|i: int, j: int|
        #![trigger t[i].paths[j]]
        0 <= i < t.len() && 0 <= j < t[i].paths.len() ==> disk.digest(t[i].paths[j]) == Some(t[i].key)
}

proof fn lemma_extended_true(t: TableV, g: MatchV, disk: DiskV)
    requires
        fulls_true(t, disk),
        forall|j: int| 0 <= j < g.paths.len() ==> disk.digest(#[trigger] g.paths[j]) == Some(g.digest),
    ensures
        fulls_true(extended(t, g.digest, g.paths), disk),
{
    lemma_pos(t, g.digest);
    lemma_extended_unique(t, g.digest, g.paths);
    let u = extended(t, g.digest, g.paths);
    assert forall|i: int, j: int|
        #![trigger u[i].paths[j]]
        0 <= i < u.len() && 0 <= j < u[i].paths.len() implies disk.digest(u[i].paths[j]) == Some(u[i].key) by {
        if i < t.len() {
            if j < t[i].paths.len() {
                assert(u[i].paths[j] == t[i].paths[j]);
            } else {
                assert(u[i].paths[j] == g.paths[j - t[i].paths.len()]);
            }
        } else {
            assert(u[i].paths[j] == g.paths[j]);
        }
    }
}

/// Whether a table has all files of a group under their digest.
spec fn group_noted(t: TableV, g: MatchV) -> bool {
    forall|q: PathV| g.paths.contains(q) ==> #[trigger] holds(t, g.digest, q)
}

proof fn lemma_groups_taken(t: TableV, entries: Seq<EntryV>, groups: Seq<MatchV>, all: Seq<PathV>, disk: DiskV)
    requires
        fulls_true(t, disk),
        groups_true(groups, all, disk),
    ensures
        fulls_true(groups_taken(t, entries, groups).0, disk),
        forall|k: Seq<char>, q: PathV| holds(t, k, q) ==> #[trigger] holds(groups_taken(t, entries, groups).0, k, q),
        forall|g: int| 0 <= g < groups.len() ==> group_noted(groups_taken(t, entries, groups).0, #[trigger] groups[g]),
    decreases groups.len(),
{
    if groups.len() > 0 {
        let rest = groups.drop_last();
        assert(groups_true(rest, all, disk)) by {
            assert forall|g: int, j: int|
                #![trigger rest[g].paths[j]]
                0 <= g < rest.len() && 0 <= j < rest[g].paths.len() implies all.contains(rest[g].paths[j])
                && disk.digest(rest[g].paths[j]) == Some(rest[g].digest) by {
                assert(rest[g].paths[j] == groups[g].paths[j]);
            }
        }
        lemma_groups_taken(t, entries, rest, all, disk);
        let before = groups_taken(t, entries, rest).0;
        let last = groups.last();
        assert forall|j: int| 0 <= j < last.paths.len() implies disk.digest(#[trigger] last.paths[j]) == Some(
            last.digest,
        ) by {
            assert(groups[groups.len() - 1].paths[j] == last.paths[j]);
        }
        lemma_extended_true(before, last, disk);
        lemma_extended_holds(before, last.digest, last.paths);
        let after = groups_taken(t, entries, groups).0;
        assert forall|g: int| 0 <= g < groups.len() implies group_noted(after, #[trigger] groups[g]) by {
            if g < rest.len() {
                assert(group_noted(before, rest[g]));
                assert forall|q: PathV| groups[g].paths.contains(q) implies #[trigger] holds(after, groups[g].digest, q) by {
                    assert(holds(before, groups[g].digest, q));
                }
            }
        }
    }
}

/// Whether a table has all groups of a bucket.
spec fn bucket_noted(t: TableV, bucket: Seq<PathV>, disk: DiskV) -> bool {
    forall|g: int|
        0 <= g < disk.resolve(bucket).groups.len() ==> group_noted(t, #[trigger] disk.resolve(bucket).groups[g])
}

spec fn bucket_results(batch: Seq<Seq<PathV>>, disk: DiskV) -> Seq<BucketResultV> {
    batch.map_values(|b: Seq<PathV>| disk.resolve(b))
}

proof fn lemma_noted_stays(t: TableV, u: TableV, bucket: Seq<PathV>, disk: DiskV)
    requires
        bucket_noted(t, bucket, disk),
        forall|k: Seq<char>, q: PathV| holds(t, k, q) ==> #[trigger] holds(u, k, q),
    ensures
        bucket_noted(u, bucket, disk),
{
    let groups = disk.resolve(bucket).groups;
    assert forall|g: int| 0 <= g < groups.len() implies group_noted(u, #[trigger] groups[g]) by {
        assert(group_noted(t, groups[g]));
        assert forall|q: PathV| groups[g].paths.contains(q) implies #[trigger] holds(u, groups[g].digest, q) by {
            assert(holds(t, groups[g].digest, q));
        }
    }
}

proof fn lemma_confirm_batch(t: TableV, batch: Seq<Seq<PathV>>, disk: DiskV)
    requires
        fulls_true(t, disk),
    ensures
        fulls_true(confirmed(t, bucket_results(batch, disk)).by_full, disk),
        forall|k: Seq<char>, q: PathV|
            holds(t, k, q) ==> #[trigger] holds(confirmed(t, bucket_results(batch, disk)).by_full, k, q),
        forall|b: int|
            0 <= b < batch.len() ==> bucket_noted(
                confirmed(t, bucket_results(batch, disk)).by_full,
                #[trigger] batch[b],
                disk,
            ),
    decreases batch.len(),
{
    if batch.len() > 0 {
        let rest = batch.drop_last();
        let results = bucket_results(batch, disk);
        assert(results.drop_last() =~= bucket_results(rest, disk));
        lemma_confirm_batch(t, rest, disk);
        let c = confirmed(t, bucket_results(rest, disk));
        let last = batch.last();
        let r = disk.resolve(last);
        assert(results.last() == r);
        lemma_bucket(last, disk, last[0], last[0]);
        lemma_groups_taken(c.by_full, c.entries, r.groups, last, disk);
        let after = confirmed(t, results).by_full;
        assert(after == groups_taken(c.by_full, c.entries, r.groups).0);
        assert forall|b: int| 0 <= b < batch.len() implies bucket_noted(after, #[trigger] batch[b], disk) by {
            if b < rest.len() {
                assert(bucket_noted(c.by_full, rest[b], disk));
                lemma_noted_stays(c.by_full, after, rest[b], disk);
            }
        }
    }
}

/// What holds while buckets are confirmed: those gone through are noted.
spec fn confirming_true(s: ScanV, start: ScanV, disk: DiskV) -> bool {
    &&& s.batches == start.batches
    &&& s.deferred == start.deferred
    &&& s.by_partial == start.by_partial
    &&& s.at_batch <= s.batches.len()
    &&& fulls_true(s.by_full, disk)
    &&& forall|k: int, b: int|
        #![trigger s.batches[k][b]]
        0 <= k < s.at_batch && 0 <= b < s.batches[k].len() ==> bucket_noted(s.by_full, s.batches[k][b], disk)
}

proof fn lemma_confirm_all(start: ScanV, disk: DiskV, n: nat)
    requires
        confirming_true(start, start, disk),
        start.at_batch + n <= start.batches.len(),
    ensures
        confirming_true(confirmed_all(start, disk, n), start, disk),
        confirmed_all(start, disk, n).at_batch == start.at_batch + n,
    decreases n,
{
    if n > 0 {
        lemma_confirm_all(start, disk, (n - 1) as nat);
        let s = confirmed_all(start, disk, (n - 1) as nat);
        let batch = s.batches[s.at_batch as int];
        lemma_confirm_batch(s.by_full, batch, disk);
        let after = confirmed_all(start, disk, n);
        assert(after.by_full == confirmed(s.by_full, bucket_results(batch, disk)).by_full);
        assert forall|k: int, b: int|
            #![trigger after.batches[k][b]]
            0 <= k < after.at_batch && 0 <= b < after.batches[k].len() implies bucket_noted(
            after.by_full,
            after.batches[k][b],
            disk,
        ) by {
            if k < s.at_batch {
                assert(bucket_noted(s.by_full, s.batches[k][b], disk));
                lemma_noted_stays(s.by_full, after.by_full, s.batches[k][b], disk);
            } else {
                assert(batch[b] == after.batches[k][b]);
            }
        }
    }
}

pub proof fn lemma_confirm_count(start: ScanV, disk: DiskV, n: nat)
    ensures
        confirmed_all(start, disk, n).at_batch == start.at_batch + n,
        confirmed_all(start, disk, n).batches == start.batches,
    decreases n,
{
    if n > 0 {
        lemma_confirm_count(start, disk, (n - 1) as nat);
    }
}

/// Whether a bucket is in one of some batches.
spec fn batched(batches: Seq<Seq<Seq<PathV>>>, bucket: Seq<PathV>) -> bool {
    exists|k: int, b: int|
        #![trigger batches[k][b]]
        0 <= k < batches.len() && 0 <= b < batches[k].len() && batches[k][b] == bucket
}

/// Whether a bucket is packed, in a batch that is done or in the current one.
spec fn is_packed(p: PackV, bucket: Seq<PathV>) -> bool {
    batched(p.done, bucket) || p.current.contains(bucket)
}

proof fn lemma_packed(buckets: Seq<Seq<PathV>>, b: int)
    requires
        0 <= b < buckets.len(),
    ensures
        is_packed(packed(buckets), buckets[b]),
    decreases buckets.len(),
{
    let rest = buckets.drop_last();
    let p = packed(rest);
    let n = packed(buckets);
    let last = buckets.last();
    let bucket = buckets[b];
    let full = p.current.push(last);
    if b == buckets.len() - 1 {
        assert(full[p.current.len() as int] == bucket);
        if p.count + last.len() >= BATCH_SIZE {
            assert(n.done[p.done.len() as int] == full);
            assert(n.done[p.done.len() as int][p.current.len() as int] == bucket);
        } else {
            assert(n.current.contains(bucket));
        }
    } else {
        lemma_packed(rest, b);
        assert(rest[b] == bucket);
        if batched(p.done, bucket) {
            let (k, c) = choose|k: int, c: int|
                #![trigger p.done[k][c]]
                0 <= k < p.done.len() && 0 <= c < p.done[k].len() && p.done[k][c] == bucket;
            assert(n.done[k][c] == bucket);
        } else {
            let c = choose|c: int| 0 <= c < p.current.len() && p.current[c] == bucket;
            assert(full[c] == bucket);
            if p.count + last.len() >= BATCH_SIZE {
                assert(n.done[p.done.len() as int] == full);
                assert(n.done[p.done.len() as int][c] == bucket);
            } else {
                assert(n.current.contains(bucket));
            }
        }
    }
}

proof fn lemma_batched(buckets: Seq<Seq<PathV>>, b: int)
    requires
        0 <= b < buckets.len(),
    ensures
        batched(batches_of(buckets), buckets[b]),
{
    lemma_packed(buckets, b);
    let p = packed(buckets);
    let all = batches_of(buckets);
    let bucket = buckets[b];
    if batched(p.done, bucket) {
        let (k, c) = choose|k: int, c: int|
            #![trigger p.done[k][c]]
            0 <= k < p.done.len() && 0 <= c < p.done[k].len() && p.done[k][c] == bucket;
        assert(all[k][c] == bucket);
    } else {
        let c = choose|c: int| 0 <= c < p.current.len() && p.current[c] == bucket;
        assert(all[p.done.len() as int] == p.current);
        assert(all[p.done.len() as int][c] == bucket);
    }
}

proof fn lemma_open_has(t: TableV, i: int)
    requires
        0 <= i < t.len(),
        t[i].paths.len() >= 2,
    ensures
        open_buckets(t, Set::empty()).contains(t[i]),
    decreases t.len(),
{
    let rest = t.drop_last();
    let before = open_buckets(rest, Set::empty());
    let all = open_buckets(t, Set::empty());
    if i == t.len() - 1 {
        assert(unconfirmed(t[i], Set::empty())) by {
            assert(!Set::<PathId>::empty().contains(t[i].paths[0].parts));
        }
        assert(all.last() == t[i]);
    } else {
        lemma_open_has(rest, i);
        let k = choose|k: int| 0 <= k < before.len() && before[k] == t[i];
        assert(all[k] == t[i]);
    }
}

/// What a file of a bucket is handed out in.
spec fn piece_of(paths: Seq<PathV>, x: PathV) -> Seq<PathV> {
    if oversized(paths) {
        seq![x]
    } else {
        paths
    }
}

proof fn lemma_singles_has(paths: Seq<PathV>, x: PathV)
    requires
        paths.contains(x),
    ensures
        singles(paths, Set::empty()).contains(seq![x]),
    decreases paths.len(),
{
    let rest = paths.drop_last();
    let all = singles(paths, Set::empty());
    if x == paths.last() {
        assert(all.last() == seq![x]);
    } else {
        let i = choose|i: int| 0 <= i < paths.len() && paths[i] == x;
        assert(rest[i] == x);
        lemma_singles_has(rest, x);
        let before = singles(rest, Set::empty());
        let k = choose|k: int| 0 <= k < before.len() && before[k] == seq![x];
        assert(all[k] == seq![x]);
    }
}

proof fn lemma_split_has(buckets: Seq<BucketV>, threshold: u64, i: int, x: PathV)
    requires
        0 <= i < buckets.len(),
        buckets[i].paths.contains(x),
    ensures
        deferred_size(buckets[i].size, threshold) ==> deferred_of(buckets, threshold).contains(
            GroupV { file_hash: buckets[i].key, size: buckets[i].size, paths: buckets[i].paths, confirmed: false },
        ),
        !deferred_size(buckets[i].size, threshold) ==> to_confirm(buckets, threshold, Set::empty()).contains(
            piece_of(buckets[i].paths, x),
        ),
    decreases buckets.len(),
{
    let rest = buckets.drop_last();
    let b = buckets[i];
    let g = GroupV { file_hash: b.key, size: b.size, paths: b.paths, confirmed: false };
    let (d, c) = (deferred_of(buckets, threshold), to_confirm(buckets, threshold, Set::empty()));
    let before = to_confirm(rest, threshold, Set::empty());
    let piece = piece_of(b.paths, x);
    if i == buckets.len() - 1 {
        if deferred_size(b.size, threshold) {
            assert(d.last() == g);
        } else {
            let new = pieces(b.paths, Set::empty());
            if oversized(b.paths) {
                lemma_singles_has(b.paths, x);
            } else {
                assert(new[0] == piece);
            }
            let k = choose|k: int| 0 <= k < new.len() && new[k] == piece;
            assert(c[before.len() + k] == piece);
        }
    } else {
        lemma_split_has(rest, threshold, i, x);
        if deferred_size(b.size, threshold) {
            let k = choose|k: int| 0 <= k < deferred_of(rest, threshold).len() && deferred_of(rest, threshold)[k] == g;
            assert(d[k] == g);
        } else {
            let k = choose|k: int| 0 <= k < before.len() && before[k] == piece;
            assert(c[k] == piece);
        }
    }
}

proof fn lemma_done_stays(s: ResolverV, w: World, n: nat)
    requires
        s.phase == ResolverPhase::Done,
    ensures
        resolved(s, w, n) == s,
    decreases n,
{
    if n > 0 {
        lemma_done_stays(s, w, (n - 1) as nat);
    }
}

/// A file that comes alone ends under its digest.
proof fn lemma_single(disk: DiskV, x: PathV)
    requires
        disk.digest(x) is Some,
    ensures
        disk.resolve(seq![x]).groups == seq![MatchV { digest: disk.digest(x).unwrap(), paths: seq![x] }],
{
    let w = disk.world();
    let s = piece_start(seq![x]);
    let n1 = answered(s, w);
    assert(resolved(s, w, 1) == n1) by {
        reveal_with_fuel(resolved, 2);
    }
    assert(seq![x] + Seq::<PathV>::empty() =~= seq![x]);
    assert(n1.phase == ResolverPhase::Done);
    let n = choose|n: nat| (#[trigger] resolved(s, w, n)).phase == ResolverPhase::Done;
    assert(n > 0);
    lemma_done_stays(n1, w, (n - 1) as nat);
    assert(n1.groups =~= seq![MatchV { digest: disk.digest(x).unwrap(), paths: seq![x] }]);
}

proof fn lemma_confirmed_has(t: TableV, sizes: Map<PathId, u64>, i: int)
    requires
        0 <= i < t.len(),
        t[i].paths.len() > 1,
    ensures
        exists|g: int|
            0 <= g < confirmed_groups(t, sizes).len() && (#[trigger] confirmed_groups(t, sizes)[g]).paths == t[i].paths
                && confirmed_groups(t, sizes)[g].confirmed,
    decreases t.len(),
{
    let rest = t.drop_last();
    let before = confirmed_groups(rest, sizes);
    let all = confirmed_groups(t, sizes);
    if i == t.len() - 1 {
        assert(all[before.len() as int].paths == t[i].paths);
    } else {
        lemma_confirmed_has(rest, sizes, i);
        let g = choose|g: int|
            0 <= g < before.len() && (#[trigger] before[g]).paths == rest[i].paths && before[g].confirmed;
        assert(all[g] == before[g]);
    }
}

/// When confirming begins, nothing is confirmed, and every bucket of two or more
/// files is to be looked at.
proof fn lemma_confirm_start(s: ScanV, disk: DiskV)
    requires
        is_new(s, s.threshold),
    ensures
        s.confirming().at_batch == 0,
        s.confirming().by_full.len() == 0,
        s.confirming().by_partial == s.by_partial,
        s.confirming().deferred == deferred_of(open_buckets(s.by_partial, Set::empty()), s.threshold),
        s.confirming().batches == batches_of(to_confirm(open_buckets(s.by_partial, Set::empty()), s.threshold, Set::empty())),
        confirming_true(s.confirming(), s.confirming(), disk),
{
    let at = list_positions(s.saved_full);
    assert(at == Map::<PathId, usize>::empty());
    assert(fulls_loaded(s.saved_full).len() == 0);
    assert(s.settled() =~= Set::<PathId>::empty()) by {
        assert(ids_of(s.compared_before()) =~= Set::<PathId>::empty());
    }
    let open = s.open_at_start();
    assert(without(fulls_loaded(s.saved_full), stale_keys(open, s.saved_full, at)).len() == 0);
}

/// What a scan has come to before its groups are made.
proof fn lemma_scanned(
    s: ScanV,
    roots: Seq<RootKeyV>,
    threshold: u64,
    found: Seq<FoundV>,
    disk: DiskV,
    h: nat,
    k: nat,
)
    requires
        scanned(s, roots, threshold, found, disk, h, k),
    ensures
        ({
            let begun = scan_begun(roots, threshold, None);
            let w = walked_all(begun, found, disk);
            let hashes = hashed_all(w.after_walk(false), disk, h);
            &&& keys_unique(w.by_size)
            &&& sizes_true(w.by_size, disk)
            &&& forall|p: PathV|
                #![trigger files_found(found).contains(p)]
                files_found(found).contains(p) && (disk.size)(p.parts) is Some ==> holds(
                    w.by_size,
                    decimal((disk.size)(p.parts).unwrap() as nat),
                    p,
                )
            &&& hashes.candidates == candidates_of(w.by_size, Set::empty())
            &&& hashing_true(hashes, w.after_walk(false), disk)
            &&& hashes.threshold == threshold
            &&& s.by_partial == hashes.by_partial
            &&& s.deferred == deferred_of(open_buckets(s.by_partial, Set::empty()), threshold)
            &&& s.batches == batches_of(to_confirm(open_buckets(s.by_partial, Set::empty()), threshold, Set::empty()))
            &&& confirming_true(s, s, disk)
        }),
{
    let begun = scan_begun(roots, threshold, None);
    let w = walked_all(begun, found, disk);
    let start = w.after_walk(false);
    let hashes = hashed_all(start, disk, h);
    let c = hashes.confirming();
    lemma_walk(begun, found, disk);
    lemma_hash_start(w, disk);
    lemma_hash_all(start, disk, h);
    lemma_confirm_start(hashes, disk);
    lemma_confirm_count(c, disk, k);
    lemma_confirm_all(c, disk, k);
}

pub proof fn lemma_hash_advances(start: ScanV, disk: DiskV, n: nat)
    requires
        start.at <= start.candidates.len(),
    ensures
        hashed_all(start, disk, n).candidates == start.candidates,
        hashed_all(start, disk, n).at <= start.candidates.len(),
        hashed_all(start, disk, n).at >= start.at + n || hashed_all(start, disk, n).at == start.candidates.len(),
    decreases n,
{
    if n > 0 {
        lemma_hash_advances(start, disk, (n - 1) as nat);
    }
}

/// A new scan comes to its end: after enough batches none is left to hash, and
/// then none to confirm.
pub proof fn law_scan_ends(roots: Seq<RootKeyV>, threshold: u64, found: Seq<FoundV>, disk: DiskV) -> (r: (ScanV, nat, nat))
    ensures
        scanned(r.0, roots, threshold, found, disk, r.1, r.2),
{
    let walked = walked_all(scan_begun(roots, threshold, None), found, disk).after_walk(false);
    let h = walked.candidates.len();
    lemma_hash_advances(walked, disk, h);
    let hashes = hashed_all(walked, disk, h);
    let c = hashes.confirming();
    let k = c.batches.len();
    lemma_confirm_count(c, disk, k);
    (ScanV { phase: ScanPhase::Ended, ..confirmed_all(c, disk, k) }, h, k)
}

/// Two equal files of a bucket whose pieces were all compared are noted under their
/// digest.
proof fn lemma_piece_noted(s: ScanV, disk: DiskV, paths: Seq<PathV>, x: PathV, y: PathV)
    requires
        confirming_true(s, s, disk),
        s.at_batch == s.batches.len(),
        twins(x, y, disk),
        paths.contains(x),
        paths.contains(y),
        exists|b: Seq<Seq<PathV>>|
            #![trigger batches_of(b)]
            s.batches == batches_of(b) && b.contains(piece_of(paths, x)) && b.contains(piece_of(paths, y)),
    ensures
        disk.digest(x) is Some,
        disk.digest(x) == disk.digest(y),
        holds(s.by_full, disk.digest(x).unwrap(), x),
        holds(s.by_full, disk.digest(x).unwrap(), y),
{
    let buckets = choose|b: Seq<Seq<PathV>>|
        #![trigger batches_of(b)]
        s.batches == batches_of(b) && b.contains(piece_of(paths, x)) && b.contains(piece_of(paths, y));
    let digest = disk.digest(x).unwrap();
    lemma_bucket_done(s, disk, buckets, piece_of(paths, x));
    lemma_bucket_done(s, disk, buckets, piece_of(paths, y));
    if oversized(paths) {
        lemma_single(disk, x);
        lemma_single(disk, y);
        let gx = disk.resolve(seq![x]).groups[0];
        let gy = disk.resolve(seq![y]).groups[0];
        assert(group_noted(s.by_full, gx));
        assert(group_noted(s.by_full, gy));
        assert(gx.paths[0] == x && gy.paths[0] == y);
        assert(gx.paths.contains(x) && gy.paths.contains(y));
        assert(holds(s.by_full, gx.digest, x));
        assert(holds(s.by_full, gy.digest, y));
        assert(gx.digest == digest && gy.digest == digest);
    } else {
        lemma_bucket(paths, disk, x, y);
        let groups = disk.resolve(paths).groups;
        let r = choose|r: int|
            0 <= r < groups.len() && (#[trigger] groups[r]).paths.contains(x) && groups[r].paths.contains(y);
        assert(group_noted(s.by_full, groups[r]));
        let j = choose|j: int| 0 <= j < groups[r].paths.len() && groups[r].paths[j] == x;
        assert(disk.digest(groups[r].paths[j]) == Some(groups[r].digest));
        assert(groups[r].digest == digest);
        assert(holds(s.by_full, groups[r].digest, x) && holds(s.by_full, groups[r].digest, y));
    }
}

proof fn lemma_bucket_done(s: ScanV, disk: DiskV, buckets: Seq<Seq<PathV>>, bucket: Seq<PathV>)
    requires
        confirming_true(s, s, disk),
        s.at_batch == s.batches.len(),
        s.batches == batches_of(buckets),
        buckets.contains(bucket),
    ensures
        bucket_noted(s.by_full, bucket, disk),
{
    let t = choose|t: int| 0 <= t < buckets.len() && buckets[t] == bucket;
    lemma_batched(buckets, t);
    let (n, m) = choose|n: int, m: int|
        #![trigger s.batches[n][m]]
        0 <= n < s.batches.len() && 0 <= m < s.batches[n].len() && s.batches[n][m] == bucket;
    assert(bucket_noted(s.by_full, s.batches[n][m], disk));
}

/// Where two files of one size and one quick hash end up.
spec fn shares_bucket(s: ScanV, disk: DiskV, x: PathV, y: PathV, p: int) -> bool {
    &&& 0 <= p < s.by_partial.len()
    &&& s.by_partial[p].key == partial_key_text((disk.size)(x.parts).unwrap(), disk.quick(x).unwrap())
    &&& s.by_partial[p].size == (disk.size)(x.parts).unwrap()
    &&& s.by_partial[p].paths.contains(x)
    &&& s.by_partial[p].paths.contains(y)
}

/// Two files with one size and one quick hash are in one bucket.
proof fn lemma_share_bucket(
    s: ScanV,
    roots: Seq<RootKeyV>,
    threshold: u64,
    found: Seq<FoundV>,
    disk: DiskV,
    h: nat,
    k: nat,
    x: PathV,
    y: PathV,
) -> (p: int)
    requires
        scanned(s, roots, threshold, found, disk, h, k),
        files_found(found).contains(x),
        files_found(found).contains(y),
        x != y,
        (disk.size)(x.parts) is Some,
        (disk.size)(x.parts) == (disk.size)(y.parts),
        disk.quick(x) is Some,
        disk.quick(x) == disk.quick(y),
    ensures
        shares_bucket(s, disk, x, y, p),
{
    let begun = scan_begun(roots, threshold, None);
    let w = walked_all(begun, found, disk);
    let hashes = hashed_all(w.after_walk(false), disk, h);
    let size = (disk.size)(x.parts).unwrap();
    lemma_scanned(s, roots, threshold, found, disk, h, k);
    // Both are under one size, so both are hashed.
    lemma_one_bucket(w.by_size, decimal(size as nat), x, y);
    let b = choose|b: int|
        0 <= b < w.by_size.len() && (#[trigger] w.by_size[b]).key == decimal(size as nat) && w.by_size[b].paths.contains(
            x,
        ) && w.by_size[b].paths.contains(y);
    law_decimal_injective(w.by_size[b].size as nat, size as nat);
    lemma_two(w.by_size[b].paths, x, y);
    lemma_candidates_has(w.by_size, Set::empty(), b, x);
    lemma_candidates_has(w.by_size, Set::empty(), b, y);
    let cx = CandidateV { size, path: x };
    let cy = CandidateV { size, path: y };
    let ix = choose|i: int| 0 <= i < hashes.candidates.len() && hashes.candidates[i] == cx;
    let iy = choose|i: int| 0 <= i < hashes.candidates.len() && hashes.candidates[i] == cy;
    assert(hash_noted(hashes.by_partial, hashes.candidates[ix], disk));
    assert(hash_noted(hashes.by_partial, hashes.candidates[iy], disk));
    // Both hash alike, so both are in one bucket.
    let key = partial_key_text(size, disk.quick(x).unwrap());
    lemma_one_bucket(s.by_partial, key, x, y);
    let p = choose|p: int|
        0 <= p < s.by_partial.len() && (#[trigger] s.by_partial[p]).key == key && s.by_partial[p].paths.contains(x)
            && s.by_partial[p].paths.contains(y);
    let jx = choose|j: int| 0 <= j < s.by_partial[p].paths.len() && s.by_partial[p].paths[j] == x;
    assert(s.by_partial[p].paths[jx] == x);
    p
}

/// What follows of a file of a bucket that is not put off.
proof fn lemma_handed_out(s: ScanV, threshold: u64, p: int, x: PathV)
    requires
        0 <= p < s.by_partial.len(),
        s.by_partial[p].paths.len() >= 2,
        s.by_partial[p].paths.contains(x),
    ensures
        deferred_size(s.by_partial[p].size, threshold) ==> deferred_of(
            open_buckets(s.by_partial, Set::empty()),
            threshold,
        ).contains(
            GroupV {
                file_hash: s.by_partial[p].key,
                size: s.by_partial[p].size,
                paths: s.by_partial[p].paths,
                confirmed: false,
            },
        ),
        !deferred_size(s.by_partial[p].size, threshold) ==> to_confirm(
            open_buckets(s.by_partial, Set::empty()),
            threshold,
            Set::empty(),
        ).contains(piece_of(s.by_partial[p].paths, x)),
{
    let open = open_buckets(s.by_partial, Set::empty());
    lemma_open_has(s.by_partial, p);
    let o = choose|o: int| 0 <= o < open.len() && open[o] == s.by_partial[p];
    lemma_split_has(open, threshold, o, x);
}

/// A file that has a twin is noted under its digest, unless it is too large to be
/// confirmed.
proof fn lemma_twins_noted(
    s: ScanV,
    roots: Seq<RootKeyV>,
    threshold: u64,
    found: Seq<FoundV>,
    disk: DiskV,
    h: nat,
    k: nat,
    x: PathV,
    y: PathV,
)
    requires
        disk.wf(),
        scanned(s, roots, threshold, found, disk, h, k),
        files_found(found).contains(x),
        files_found(found).contains(y),
        belong_together(x, y, disk, threshold),
        !deferred_size((disk.size)(x.parts).unwrap(), threshold),
    ensures
        disk.digest(x) is Some,
        disk.digest(x) == disk.digest(y),
        holds(s.by_full, disk.digest(x).unwrap(), x),
        holds(s.by_full, disk.digest(x).unwrap(), y),
{
    lemma_scanned(s, roots, threshold, found, disk, h, k);
    let p = lemma_share_bucket(s, roots, threshold, found, disk, h, k, x, y);
    let paths = s.by_partial[p].paths;
    lemma_two(paths, x, y);
    lemma_handed_out(s, threshold, p, x);
    lemma_handed_out(s, threshold, p, y);
    lemma_piece_noted(s, disk, paths, x, y);
}

/// Two paths that are noted under one digest are in one group.
proof fn lemma_noted_grouped(s: ScanV, disk: DiskV, digest: Seq<char>, x: PathV, y: PathV)
    requires
        fulls_true(s.by_full, disk),
        confirmed_groups(s.by_full, file_sizes(s.by_partial)).len() + s.deferred.len() <= usize::MAX,
        holds(s.by_full, digest, x),
        holds(s.by_full, digest, y),
        x != y,
    ensures
        exists|g: int|
            0 <= g < s.groups_found().len() && (#[trigger] s.groups_found()[g]).paths.contains(x)
                && s.groups_found()[g].paths.contains(y) && s.groups_found()[g].confirmed,
{
    let sure = confirmed_groups(s.by_full, file_sizes(s.by_partial));
    let all = sure + s.deferred;
    law_ranking(all);
    lemma_one_bucket(s.by_full, digest, x, y);
    let f = choose|f: int|
        0 <= f < s.by_full.len() && (#[trigger] s.by_full[f]).key == digest && s.by_full[f].paths.contains(x)
            && s.by_full[f].paths.contains(y);
    lemma_two(s.by_full[f].paths, x, y);
    lemma_confirmed_has(s.by_full, file_sizes(s.by_partial), f);
    let q = choose|q: int| 0 <= q < sure.len() && (#[trigger] sure[q]).paths == s.by_full[f].paths && sure[q].confirmed;
    assert(all[q] == sure[q]);
    assert(all.contains(sure[q]));
    let g = choose|g: int| 0 <= g < s.groups_found().len() && s.groups_found()[g] == sure[q];
    assert(s.groups_found()[g].paths.contains(x));
}

/// Two files that belong together, and that the walk reports, are in one group.
pub proof fn law_alike_files_are_grouped(
    s: ScanV,
    roots: Seq<RootKeyV>,
    threshold: u64,
    found: Seq<FoundV>,
    disk: DiskV,
    h: nat,
    k: nat,
    x: PathV,
    y: PathV,
)
    requires
        disk.wf(),
        scanned(s, roots, threshold, found, disk, h, k),
        confirmed_groups(s.by_full, file_sizes(s.by_partial)).len() + s.deferred.len() <= usize::MAX,
        files_found(found).contains(x),
        files_found(found).contains(y),
        belong_together(x, y, disk, threshold),
    ensures
        exists|g: int|
            0 <= g < s.groups_found().len() && (#[trigger] s.groups_found()[g]).paths.contains(x)
                && s.groups_found()[g].paths.contains(y) && s.groups_found()[g].confirmed == !deferred_size(
                (disk.size)(x.parts).unwrap(),
                threshold,
            ),
{
    let size = (disk.size)(x.parts).unwrap();
    lemma_scanned(s, roots, threshold, found, disk, h, k);
    if deferred_size(size, threshold) {
        let p = lemma_share_bucket(s, roots, threshold, found, disk, h, k, x, y);
        let bucket = s.by_partial[p];
        lemma_two(bucket.paths, x, y);
        lemma_handed_out(s, threshold, p, x);
        let all = confirmed_groups(s.by_full, file_sizes(s.by_partial)) + s.deferred;
        law_ranking(all);
        let group = GroupV { file_hash: bucket.key, size: bucket.size, paths: bucket.paths, confirmed: false };
        let d = choose|d: int| 0 <= d < s.deferred.len() && s.deferred[d] == group;
        assert(all[all.len() - s.deferred.len() + d] == group);
        assert(all.contains(group));
        let g = choose|g: int| 0 <= g < s.groups_found().len() && s.groups_found()[g] == group;
        assert(s.groups_found()[g].paths.contains(x));
    } else {
        lemma_twins_noted(s, roots, threshold, found, disk, h, k, x, y);
        lemma_noted_grouped(s, disk, disk.digest(x).unwrap(), x, y);
    }
}

/// Files with the same content are found: two files that a walk reports, and that
/// can be read, are in one group if they hold the same. The group is confirmed
/// unless they are so large that confirming is put off.
pub proof fn law_duplicates_are_found(
    s: ScanV,
    roots: Seq<RootKeyV>,
    threshold: u64,
    found: Seq<FoundV>,
    disk: DiskV,
    h: nat,
    k: nat,
    x: PathV,
    y: PathV,
)
    requires
        disk.wf(),
        scanned(s, roots, threshold, found, disk, h, k),
        confirmed_groups(s.by_full, file_sizes(s.by_partial)).len() + s.deferred.len() <= usize::MAX,
        files_found(found).contains(x),
        files_found(found).contains(y),
        twins(x, y, disk),
    ensures
        exists|g: int|
            0 <= g < s.groups_found().len() && (#[trigger] s.groups_found()[g]).paths.contains(x)
                && s.groups_found()[g].paths.contains(y) && s.groups_found()[g].confirmed == !deferred_size(
                (disk.content)(x.parts).unwrap().len() as u64,
                threshold,
            ),
{
    law_alike_files_are_grouped(s, roots, threshold, found, disk, h, k, x, y);
}

/// What a group says of its files. Those of a confirmed group have its digest, and
/// its size unless digests collide; those of another have its size, which is one
/// from which confirming is put off, and the quick hash that it stands under.
pub open spec fn group_true(g: GroupV, threshold: u64, disk: DiskV) -> bool {
    &&& digests_true(g, threshold, disk)
    &&& g.confirmed && disk.wf() && disk.collides_nowhere() ==> forall|j: int|
        0 <= j < g.paths.len() ==> (disk.size)((#[trigger] g.paths[j]).parts) == Some(g.size)
}

/// What a group says of the digests of its files.
pub open spec fn digests_true(g: GroupV, threshold: u64, disk: DiskV) -> bool {
    &&& g.paths.len() >= 2
    &&& g.confirmed ==> forall|j: int| 0 <= j < g.paths.len() ==> disk.digest(#[trigger] g.paths[j]) == Some(g.file_hash)
    &&& !g.confirmed ==> deferred_size(g.size, threshold) && forall|j: int|
        0 <= j < g.paths.len() ==> (disk.size)((#[trigger] g.paths[j]).parts) == Some(g.size) && disk.quick(g.paths[j])
            is Some && g.file_hash == partial_key_text(g.size, disk.quick(g.paths[j]).unwrap())
}

proof fn lemma_sure_true(t: TableV, sizes: Map<PathId, u64>, threshold: u64, disk: DiskV)
    requires
        fulls_true(t, disk),
    ensures
        forall|g: int|
            0 <= g < confirmed_groups(t, sizes).len() ==> digests_true(
                #[trigger] confirmed_groups(t, sizes)[g],
                threshold,
                disk,
            ),
    decreases t.len(),
{
    if t.len() > 0 {
        let rest = t.drop_last();
        assert(fulls_true(rest, disk)) by {
            assert forall|i: int, j: int|
                #![trigger rest[i].paths[j]]
                0 <= i < rest.len() && 0 <= j < rest[i].paths.len() implies disk.digest(rest[i].paths[j]) == Some(
                rest[i].key,
            ) by {
                assert(rest[i].paths[j] == t[i].paths[j]);
            }
        }
        lemma_sure_true(rest, sizes, threshold, disk);
        let before = confirmed_groups(rest, sizes);
        let all = confirmed_groups(t, sizes);
        assert forall|g: int| 0 <= g < all.len() implies digests_true(#[trigger] all[g], threshold, disk) by {
            if g < before.len() {
                assert(all[g] == before[g]);
            } else {
                let n = t.len() - 1;
                assert forall|j: int| 0 <= j < all[g].paths.len() implies disk.digest(#[trigger] all[g].paths[j]) == Some(
                    all[g].file_hash,
                ) by {
                    assert(t[n].paths[j] == all[g].paths[j]);
                }
            }
        }
    }
}

proof fn lemma_open_from(t: TableV, at: Set<PathId>)
    ensures
        forall|i: int|
            0 <= i < open_buckets(t, at).len() ==> t.contains(#[trigger] open_buckets(t, at)[i]) && open_buckets(
                t,
                at,
            )[i].paths.len() >= 2,
    decreases t.len(),
{
    if t.len() > 0 {
        let rest = t.drop_last();
        lemma_open_from(rest, at);
        let before = open_buckets(rest, at);
        let all = open_buckets(t, at);
        assert forall|i: int| 0 <= i < all.len() implies t.contains(#[trigger] all[i]) && all[i].paths.len() >= 2 by {
            if i < before.len() {
                assert(all[i] == before[i]);
                let k = choose|k: int| 0 <= k < rest.len() && rest[k] == before[i];
                assert(t[k] == all[i]);
            } else {
                assert(t[t.len() - 1] == all[i]);
            }
        }
    }
}

/// Whether a bucket is what a group that is not confirmed is made of.
spec fn from_bucket(g: GroupV, b: BucketV) -> bool {
    g == GroupV { file_hash: b.key, size: b.size, paths: b.paths, confirmed: false }
}

proof fn lemma_deferred_from(buckets: Seq<BucketV>, threshold: u64)
    ensures
        forall|g: int|
            0 <= g < deferred_of(buckets, threshold).len() ==> deferred_size(
                (#[trigger] deferred_of(buckets, threshold)[g]).size,
                threshold,
            ) && exists|i: int|
                0 <= i < buckets.len() && from_bucket(deferred_of(buckets, threshold)[g], #[trigger] buckets[i]),
    decreases buckets.len(),
{
    if buckets.len() > 0 {
        let rest = buckets.drop_last();
        lemma_deferred_from(rest, threshold);
        let before = deferred_of(rest, threshold);
        let all = deferred_of(buckets, threshold);
        assert forall|g: int| 0 <= g < all.len() implies deferred_size((#[trigger] all[g]).size, threshold) && exists|
            i: int,
        |
            0 <= i < buckets.len() && from_bucket(all[g], #[trigger] buckets[i]) by {
            if g < before.len() {
                assert(all[g] == before[g]);
                let i = choose|i: int| 0 <= i < rest.len() && from_bucket(before[g], #[trigger] rest[i]);
                assert(from_bucket(all[g], buckets[i]));
            } else {
                assert(from_bucket(all[g], buckets[buckets.len() - 1]));
            }
        }
    }
}

// -------------------------------------------------------------- every file once

/// How often a path occurs in a list.
pub open spec fn times(paths: Seq<PathV>, id: PathId) -> nat
    decreases paths.len(),
{
    if paths.len() == 0 {
        0
    } else {
        times(paths.drop_last(), id) + (if paths.last().parts == id {
            1nat
        } else {
            0nat
        })
    }
}

proof fn lemma_times_concat(a: Seq<PathV>, b: Seq<PathV>, id: PathId)
    ensures
        times(a + b, id) == times(a, id) + times(b, id),
    decreases b.len(),
{
    if b.len() == 0 {
        assert(a + b =~= a);
    } else {
        lemma_times_concat(a, b.drop_last(), id);
        assert((a + b).drop_last() =~= a + b.drop_last());
    }
}

proof fn lemma_times_first(paths: Seq<PathV>, id: PathId)
    requires
        paths.len() > 0,
    ensures
        times(paths, id) == times(seq![paths[0]], id) + times(paths.skip(1), id),
{
    assert(paths =~= seq![paths[0]] + paths.skip(1));
    lemma_times_concat(seq![paths[0]], paths.skip(1), id);
}

proof fn lemma_times_one(p: PathV, id: PathId)
    ensures
        times(seq![p], id) == (if p.parts == id {
            1nat
        } else {
            0nat
        }),
{
    assert(seq![p].drop_last() =~= Seq::<PathV>::empty());
    assert(times(Seq::<PathV>::empty(), id) == 0);
}

proof fn lemma_times_push(paths: Seq<PathV>, p: PathV, id: PathId)
    ensures
        times(paths.push(p), id) == times(paths, id) + times(seq![p], id),
{
    lemma_times_one(p, id);
    assert(paths.push(p).drop_last() =~= paths);
}

/// A path that is in a list occurs in it.
proof fn lemma_times_member(paths: Seq<PathV>, j: int)
    requires
        0 <= j < paths.len(),
    ensures
        times(paths, paths[j].parts) >= 1,
    decreases paths.len(),
{
    if j < paths.len() - 1 {
        lemma_times_member(paths.drop_last(), j);
    }
}

/// A path that stands at two places of a list occurs twice.
proof fn lemma_times_two(paths: Seq<PathV>, i: int, j: int)
    requires
        0 <= i < j < paths.len(),
        paths[i].parts == paths[j].parts,
    ensures
        times(paths, paths[i].parts) >= 2,
    decreases paths.len(),
{
    if j < paths.len() - 1 {
        lemma_times_two(paths.drop_last(), i, j);
    } else {
        lemma_times_member(paths.drop_last(), i);
    }
}

proof fn lemma_times_found(paths: Seq<PathV>, id: PathId)
    requires
        times(paths, id) >= 1,
    ensures
        exists|j: int| 0 <= j < paths.len() && (#[trigger] paths[j]).parts == id,
    decreases paths.len(),
{
    if paths.last().parts == id {
        assert(paths[paths.len() - 1].parts == id);
    } else {
        lemma_times_found(paths.drop_last(), id);
        let j = choose|j: int| 0 <= j < paths.len() - 1 && (#[trigger] paths.drop_last()[j]).parts == id;
        assert(paths[j].parts == id);
    }
}

/// How often a path occurs in a table.
spec fn times_in(t: TableV, id: PathId) -> nat
    decreases t.len(),
{
    if t.len() == 0 {
        0
    } else {
        times_in(t.drop_last(), id) + times(t.last().paths, id)
    }
}

proof fn lemma_times_update(t: TableV, i: int, b: BucketV, id: PathId)
    requires
        0 <= i < t.len(),
    ensures
        times_in(t.update(i, b), id) + times(t[i].paths, id) == times_in(t, id) + times(b.paths, id),
    decreases t.len(),
{
    let u = t.update(i, b);
    if i == t.len() - 1 {
        assert(u.drop_last() =~= t.drop_last());
    } else {
        lemma_times_update(t.drop_last(), i, b, id);
        assert(u.drop_last() =~= t.drop_last().update(i, b));
    }
}

proof fn lemma_times_added(t: TableV, key: Seq<char>, size: u64, p: PathV, id: PathId)
    ensures
        times_in(added(t, key, size, p), id) == times_in(t, id) + times(seq![p], id),
{
    lemma_pos(t, key);
    let at = pos(t, key);
    if at < t.len() {
        lemma_times_update(t, at, BucketV { paths: t[at].paths.push(p), ..t[at] }, id);
        lemma_times_push(t[at].paths, p, id);
    } else {
        let u = added(t, key, size, p);
        assert(u.drop_last() =~= t);
    }
}

proof fn lemma_times_extended(t: TableV, key: Seq<char>, paths: Seq<PathV>, id: PathId)
    ensures
        times_in(extended(t, key, paths), id) == times_in(t, id) + times(paths, id),
{
    lemma_pos(t, key);
    let at = pos(t, key);
    if at < t.len() {
        lemma_times_update(t, at, BucketV { paths: t[at].paths + paths, ..t[at] }, id);
        lemma_times_concat(t[at].paths, paths, id);
    } else {
        let u = extended(t, key, paths);
        assert(u.drop_last() =~= t);
    }
}

proof fn lemma_walk_times(s: ScanV, found: Seq<FoundV>, disk: DiskV, id: PathId)
    requires
        s.by_size.len() == 0,
    ensures
        times_in(walked_all(s, found, disk).by_size, id) <= times(files_found(found), id),
    decreases found.len(),
{
    if found.len() > 0 {
        let rest = found.drop_last();
        lemma_walk_times(s, rest, disk, id);
        let before = walked_all(s, rest, disk);
        match found.last() {
            FoundV::Dir(_) => {},
            FoundV::File(p) => {
                lemma_times_push(files_found(rest), p, id);
                match (disk.size)(p.parts) {
                    Some(n) => lemma_times_added(before.by_size, decimal(n as nat), n, p, id),
                    None => {},
                }
            },
        }
    }
}

/// The paths of files to hash.
spec fn paths_of(list: Seq<CandidateV>) -> Seq<PathV> {
    list.map_values(|c: CandidateV| c.path)
}

proof fn lemma_unprocessed_times(size: u64, paths: Seq<PathV>, done: Set<PathId>, id: PathId)
    ensures
        times(paths_of(unprocessed(size, paths, done)), id) <= times(paths, id),
    decreases paths.len(),
{
    if paths.len() > 0 {
        let rest = paths.drop_last();
        lemma_unprocessed_times(size, rest, done, id);
        if !done.contains(paths.last().parts) {
            let before = paths_of(unprocessed(size, rest, done));
            assert(paths_of(unprocessed(size, paths, done)) =~= before.push(paths.last()));
            lemma_times_push(before, paths.last(), id);
            lemma_times_one(paths.last(), id);
        }
    }
}

proof fn lemma_candidate_times(by_size: TableV, done: Set<PathId>, id: PathId)
    ensures
        times(paths_of(candidates_of(by_size, done)), id) <= times_in(by_size, id),
    decreases by_size.len(),
{
    if by_size.len() > 0 {
        let rest = by_size.drop_last();
        let b = by_size.last();
        lemma_candidate_times(rest, done, id);
        if b.paths.len() >= 2 {
            let before = candidates_of(rest, done);
            let new = unprocessed(b.size, b.paths, done);
            assert(paths_of(before + new) =~= paths_of(before) + paths_of(new));
            lemma_times_concat(paths_of(before), paths_of(new), id);
            lemma_unprocessed_times(b.size, b.paths, done, id);
        }
    }
}

proof fn lemma_hash_times(t: TableV, batch: Seq<CandidateV>, disk: DiskV, id: PathId)
    ensures
        times_in(hashed(t, batch, quick_results(batch, disk)).by_partial, id) <= times_in(t, id) + times(
            paths_of(batch),
            id,
        ),
    decreases batch.len(),
{
    if batch.len() > 0 {
        let rest = batch.drop_last();
        let c = batch.last();
        assert(quick_results(batch, disk).drop_last() =~= quick_results(rest, disk));
        assert(paths_of(batch) =~= paths_of(rest).push(c.path));
        lemma_hash_times(t, rest, disk, id);
        lemma_times_push(paths_of(rest), c.path, id);
        let before = hashed(t, rest, quick_results(rest, disk)).by_partial;
        match disk.quick(c.path) {
            Some(d) => lemma_times_added(before, partial_key_text(c.size, d), c.size, c.path, id),
            None => {},
        }
    }
}

proof fn lemma_hash_all_times(start: ScanV, disk: DiskV, n: nat, id: PathId)
    requires
        start.at == 0,
        start.by_partial.len() == 0,
    ensures
        hashed_all(start, disk, n).candidates == start.candidates,
        hashed_all(start, disk, n).at <= start.candidates.len(),
        times_in(hashed_all(start, disk, n).by_partial, id) <= times(
            paths_of(start.candidates.take(hashed_all(start, disk, n).at as int)),
            id,
        ),
    decreases n,
{
    if n == 0 {
    } else {
        lemma_hash_all_times(start, disk, (n - 1) as nat, id);
        let s = hashed_all(start, disk, (n - 1) as nat);
        let batch = s.hash_batch();
        let end = s.hash_end();
        lemma_hash_times(s.by_partial, batch, disk, id);
        let (a, b) = (start.candidates.take(s.at as int), start.candidates.take(end));
        assert(b =~= a + batch);
        assert(paths_of(b) =~= paths_of(a) + paths_of(batch));
        lemma_times_concat(paths_of(a), paths_of(batch), id);
        assert(hashed_all(start, disk, n).by_partial == hashed(s.by_partial, batch, quick_results(batch, disk)).by_partial);
    }
}

/// How often a path occurs in buckets.
spec fn times_over(buckets: Seq<Seq<PathV>>, id: PathId) -> nat
    decreases buckets.len(),
{
    if buckets.len() == 0 {
        0
    } else {
        times_over(buckets.drop_last(), id) + times(buckets.last(), id)
    }
}

/// How often a path occurs in groups.
spec fn times_grouped(groups: Seq<GroupV>, id: PathId) -> nat
    decreases groups.len(),
{
    if groups.len() == 0 {
        0
    } else {
        times_grouped(groups.drop_last(), id) + times(groups.last().paths, id)
    }
}

proof fn lemma_open_times(t: TableV, at: Set<PathId>, id: PathId)
    ensures
        times_in(open_buckets(t, at), id) <= times_in(t, id),
    decreases t.len(),
{
    if t.len() > 0 {
        lemma_open_times(t.drop_last(), at, id);
        if unconfirmed(t.last(), at) {
            assert(open_buckets(t, at).drop_last() =~= open_buckets(t.drop_last(), at));
        }
    }
}

proof fn lemma_over_concat(a: Seq<Seq<PathV>>, b: Seq<Seq<PathV>>, id: PathId)
    ensures
        times_over(a + b, id) == times_over(a, id) + times_over(b, id),
    decreases b.len(),
{
    if b.len() > 0 {
        lemma_over_concat(a, b.drop_last(), id);
        assert((a + b).drop_last() =~= a + b.drop_last());
    } else {
        assert(a + b =~= a);
    }
}

proof fn lemma_pieces_times(paths: Seq<PathV>, id: PathId)
    ensures
        times_over(pieces(paths, Set::empty()), id) == times(paths, id),
{
    if oversized(paths) {
        lemma_singles_times(paths, id);
    } else {
        let p = seq![paths];
        assert(p.drop_last() =~= Seq::<Seq<PathV>>::empty());
        assert(p.last() == paths);
        assert(times_over(p.drop_last(), id) == 0);
        assert(times_over(p, id) == times(paths, id));
    }
}

proof fn lemma_singles_times(paths: Seq<PathV>, id: PathId)
    ensures
        times_over(singles(paths, Set::empty()), id) == times(paths, id),
    decreases paths.len(),
{
    if paths.len() > 0 {
        lemma_singles_times(paths.drop_last(), id);
        let p = paths.last();
        assert(singles(paths, Set::empty()).drop_last() =~= singles(paths.drop_last(), Set::empty()));
        lemma_times_push(paths.drop_last(), p, id);
        lemma_times_push(Seq::empty(), p, id);
        assert(paths.drop_last().push(p) =~= paths);
        assert(Seq::<PathV>::empty().push(p) =~= seq![p]);
        lemma_times_concat(paths.drop_last(), seq![p], id);
        assert(paths.drop_last() + seq![p] =~= paths);
    }
}

proof fn lemma_split_times(buckets: Seq<BucketV>, threshold: u64, id: PathId)
    ensures
        times_grouped(deferred_of(buckets, threshold), id) + times_over(
            to_confirm(buckets, threshold, Set::empty()),
            id,
        ) == times_in(buckets, id),
    decreases buckets.len(),
{
    if buckets.len() > 0 {
        let rest = buckets.drop_last();
        lemma_split_times(rest, threshold, id);
        if deferred_size(buckets.last().size, threshold) {
            assert(deferred_of(buckets, threshold).drop_last() =~= deferred_of(rest, threshold));
        } else {
            lemma_over_concat(
                to_confirm(rest, threshold, Set::empty()),
                pieces(buckets.last().paths, Set::empty()),
                id,
            );
            lemma_pieces_times(buckets.last().paths, id);
        }
    }
}

/// How often a path occurs in the first `n` batches.
spec fn times_batched(batches: Seq<Seq<Seq<PathV>>>, n: nat, id: PathId) -> nat
    decreases n,
{
    if n == 0 {
        0
    } else {
        times_batched(batches, (n - 1) as nat, id) + times_over(batches[n - 1], id)
    }
}

proof fn lemma_batched_same(a: Seq<Seq<Seq<PathV>>>, b: Seq<Seq<Seq<PathV>>>, n: nat, id: PathId)
    requires
        n <= a.len(),
        n <= b.len(),
        forall|i: int| 0 <= i < n ==> a[i] == b[i],
    ensures
        times_batched(a, n, id) == times_batched(b, n, id),
    decreases n,
{
    if n > 0 {
        lemma_batched_same(a, b, (n - 1) as nat, id);
    }
}

proof fn lemma_pack_times(buckets: Seq<Seq<PathV>>, id: PathId)
    ensures
        times_batched(packed(buckets).done, packed(buckets).done.len(), id) + times_over(packed(buckets).current, id)
            == times_over(buckets, id),
    decreases buckets.len(),
{
    if buckets.len() > 0 {
        let rest = buckets.drop_last();
        lemma_pack_times(rest, id);
        let p = packed(rest);
        let n = packed(buckets);
        let full = p.current.push(buckets.last());
        assert(full.drop_last() =~= p.current);
        if p.count + buckets.last().len() >= BATCH_SIZE {
            lemma_batched_same(p.done, n.done, p.done.len(), id);
            assert(n.done[p.done.len() as int] == full);
        }
    }
}

proof fn lemma_batches_times(buckets: Seq<Seq<PathV>>, id: PathId)
    ensures
        times_batched(batches_of(buckets), batches_of(buckets).len(), id) == times_over(buckets, id),
{
    lemma_pack_times(buckets, id);
    let p = packed(buckets);
    let all = batches_of(buckets);
    if p.current.len() > 0 {
        lemma_batched_same(p.done, all, p.done.len(), id);
        assert(all[p.done.len() as int] == p.current);
    }
}

/// How often a path occurs in groups of equal files.
spec fn times_matched(groups: Seq<MatchV>, id: PathId) -> nat
    decreases groups.len(),
{
    if groups.len() == 0 {
        0
    } else {
        times_matched(groups.drop_last(), id) + times(groups.last().paths, id)
    }
}

/// How often a path occurs in a bucket that is being resolved.
spec fn times_resolving(s: ResolverV, id: PathId) -> nat {
    times_matched(s.groups, id) + (if s.phase == ResolverPhase::Done {
        0nat
    } else {
        times(seq![s.representative], id) + times(s.rest, id) + times(s.matched, id) + times(s.leftover, id)
    })
}

proof fn lemma_round_times(s: ResolverV, remaining: Seq<PathV>, id: PathId)
    ensures
        times_resolving(s.round(remaining), id) <= times_matched(s.groups, id) + times(remaining, id),
{
    if remaining.len() >= 2 {
        lemma_times_first(remaining, id);
    }
}

proof fn lemma_answer_times(s: ResolverV, disk: DiskV, id: PathId)
    requires
        s.phase == ResolverPhase::Comparing ==> s.rest.len() > 0,
    ensures
        times_resolving(answered(s, disk.world()), id) <= times_resolving(s, id),
{
    match s.phase {
        ResolverPhase::Opening => {
            let u = ResolverV { skipped: s.skipped.push(s.representative), processed: s.processed + 1, ..s };
            lemma_round_times(u, s.rest, id);
        },
        ResolverPhase::Comparing => {
            let other = s.rest[0];
            lemma_times_first(s.rest, id);
            lemma_times_push(s.matched, other, id);
            lemma_times_push(s.leftover, other, id);
            let next = ResolverV { rest: s.rest.skip(1), ..s };
            let u = match disk.compare(s.representative, other) {
                Compared::Same => ResolverV { matched: s.matched.push(other), processed: s.processed + 1, ..next },
                Compared::Different => ResolverV { leftover: s.leftover.push(other), ..next },
                Compared::Unreadable => ResolverV {
                    skipped: s.skipped.push(other),
                    processed: s.processed + 1,
                    ..next
                },
            };
            assert(answered(s, disk.world()) == u.settled());
            lemma_round_times(u, u.leftover, id);
        },
        ResolverPhase::Hashing => {
            let class = seq![s.representative] + s.matched;
            lemma_times_concat(seq![s.representative], s.matched, id);
            match disk.digest(s.representative) {
                Some(d) => {
                    let g = MatchV { digest: d, paths: class };
                    assert(s.groups.push(g).drop_last() =~= s.groups);
                    lemma_round_times(ResolverV { groups: s.groups.push(g), ..s }, s.leftover, id);
                },
                None => {
                    lemma_round_times(
                        ResolverV { skipped: s.skipped.push(s.representative) + s.matched, ..s },
                        s.leftover,
                        id,
                    );
                },
            }
        },
        ResolverPhase::Done => {},
    }
}

proof fn lemma_resolved_times(s: ResolverV, all: Seq<PathV>, disk: DiskV, steps: nat, id: PathId)
    requires
        resolving(s, all, disk),
    ensures
        times_resolving(resolved(s, disk.world(), steps), id) <= times_resolving(s, id),
    decreases steps,
{
    if steps > 0 {
        let x = s.representative;
        lemma_answer_times(s, disk, id);
        match s.phase {
            ResolverPhase::Opening => lemma_opened(s, all, disk, x, x),
            ResolverPhase::Comparing => lemma_compared(s, all, disk, x, x),
            ResolverPhase::Hashing => lemma_digested(s, all, disk, x, x),
            ResolverPhase::Done => {},
        }
        lemma_resolved_times(answered(s, disk.world()), all, disk, (steps - 1) as nat, id);
    }
}

proof fn lemma_bucket_times(paths: Seq<PathV>, disk: DiskV, id: PathId)
    ensures
        times_matched(disk.resolve(paths).groups, id) <= times(paths, id),
{
    let w = disk.world();
    let s = piece_start(paths);
    let blank = ResolverV {
        phase: ResolverPhase::Done,
        representative: PathV { text: Seq::empty(), parts: Seq::empty() },
        rest: Seq::empty(),
        matched: Seq::empty(),
        leftover: Seq::empty(),
        groups: Seq::empty(),
        skipped: Seq::empty(),
        processed: 0,
    };
    assert forall|i: int| 0 <= i < paths.len() implies paths.contains(#[trigger] paths[i]) by {}
    if paths.len() != 1 {
        lemma_round(blank, paths, paths, disk);
        lemma_round_times(blank, paths, id);
        assert(s == blank.round(paths));
    } else {
        assert(seq![paths[0]] =~= paths);
    }
    assert(resolving(s, paths, disk));
    let n = choose|n: nat| (#[trigger] resolved(s, w, n)).phase == ResolverPhase::Done;
    lemma_resolved_times(s, paths, disk, n, id);
}

proof fn lemma_taken_times(t: TableV, entries: Seq<EntryV>, groups: Seq<MatchV>, id: PathId)
    ensures
        times_in(groups_taken(t, entries, groups).0, id) == times_in(t, id) + times_matched(groups, id),
    decreases groups.len(),
{
    if groups.len() > 0 {
        lemma_taken_times(t, entries, groups.drop_last(), id);
        let before = groups_taken(t, entries, groups.drop_last()).0;
        lemma_times_extended(before, groups.last().digest, groups.last().paths, id);
    }
}

proof fn lemma_confirm_times(t: TableV, batch: Seq<Seq<PathV>>, disk: DiskV, id: PathId)
    ensures
        times_in(confirmed(t, bucket_results(batch, disk)).by_full, id) <= times_in(t, id) + times_over(batch, id),
    decreases batch.len(),
{
    if batch.len() > 0 {
        let rest = batch.drop_last();
        assert(bucket_results(batch, disk).drop_last() =~= bucket_results(rest, disk));
        lemma_confirm_times(t, rest, disk, id);
        let c = confirmed(t, bucket_results(rest, disk));
        let groups = disk.resolve(batch.last()).groups;
        lemma_taken_times(c.by_full, c.entries, groups, id);
        lemma_bucket_times(batch.last(), disk, id);
    }
}

proof fn lemma_confirm_all_times(start: ScanV, disk: DiskV, n: nat, id: PathId)
    requires
        start.at_batch == 0,
        start.by_full.len() == 0,
    ensures
        times_in(confirmed_all(start, disk, n).by_full, id) <= times_batched(start.batches, n, id),
    decreases n,
{
    if n > 0 {
        lemma_confirm_all_times(start, disk, (n - 1) as nat, id);
        lemma_confirm_count(start, disk, (n - 1) as nat);
        let s = confirmed_all(start, disk, (n - 1) as nat);
        let batch = s.batches[s.at_batch as int];
        lemma_confirm_times(s.by_full, batch, disk, id);
        assert(confirmed_all(start, disk, n).by_full == confirmed(s.by_full, bucket_results(batch, disk)).by_full);
    }
}

proof fn lemma_sure_times(t: TableV, sizes: Map<PathId, u64>, id: PathId)
    ensures
        times_grouped(confirmed_groups(t, sizes), id) <= times_in(t, id),
    decreases t.len(),
{
    if t.len() > 0 {
        lemma_sure_times(t.drop_last(), sizes, id);
        if t.last().paths.len() > 1 {
            assert(confirmed_groups(t, sizes).drop_last() =~= confirmed_groups(t.drop_last(), sizes));
        }
    }
}

proof fn lemma_grouped_concat(a: Seq<GroupV>, b: Seq<GroupV>, id: PathId)
    ensures
        times_grouped(a + b, id) == times_grouped(a, id) + times_grouped(b, id),
    decreases b.len(),
{
    if b.len() == 0 {
        assert(a + b =~= a);
    } else {
        lemma_grouped_concat(a, b.drop_last(), id);
        assert((a + b).drop_last() =~= a + b.drop_last());
    }
}

proof fn lemma_grouped_member(groups: Seq<GroupV>, g: int, j: int)
    requires
        0 <= g < groups.len(),
        0 <= j < groups[g].paths.len(),
    ensures
        times_grouped(groups, groups[g].paths[j].parts) >= 1,
    decreases groups.len(),
{
    if g == groups.len() - 1 {
        lemma_times_member(groups[g].paths, j);
    } else {
        lemma_grouped_member(groups.drop_last(), g, j);
    }
}

proof fn lemma_grouped_two(groups: Seq<GroupV>, a: int, i: int, b: int, j: int)
    requires
        0 <= a <= b < groups.len(),
        0 <= i < groups[a].paths.len(),
        0 <= j < groups[b].paths.len(),
        a == b ==> i != j,
        groups[a].paths[i].parts == groups[b].paths[j].parts,
    ensures
        times_grouped(groups, groups[a].paths[i].parts) >= 2,
    decreases groups.len(),
{
    let id = groups[a].paths[i].parts;
    if b < groups.len() - 1 {
        lemma_grouped_two(groups.drop_last(), a, i, b, j);
    } else if a == b {
        if i < j {
            lemma_times_two(groups[b].paths, i, j);
        } else {
            lemma_times_two(groups[b].paths, j, i);
        }
    } else {
        lemma_grouped_member(groups.drop_last(), a, i);
        lemma_times_member(groups[b].paths, j);
    }
}

proof fn lemma_sizes_kept(start: ScanV, disk: DiskV, n: nat)
    ensures
        hashed_all(start, disk, n).by_size == start.by_size,
    decreases n,
{
    if n > 0 {
        lemma_sizes_kept(start, disk, (n - 1) as nat);
    }
}

proof fn lemma_sizes_kept_on(start: ScanV, disk: DiskV, n: nat)
    ensures
        confirmed_all(start, disk, n).by_size == start.by_size,
    decreases n,
{
    if n > 0 {
        lemma_sizes_kept_on(start, disk, (n - 1) as nat);
    }
}

/// No path occurs in the groups of a scan more often than the walk reports it.
proof fn lemma_scan_times(
    s: ScanV,
    roots: Seq<RootKeyV>,
    threshold: u64,
    found: Seq<FoundV>,
    disk: DiskV,
    h: nat,
    k: nat,
    id: PathId,
)
    requires
        scanned(s, roots, threshold, found, disk, h, k),
    ensures
        times_grouped(confirmed_groups(s.by_full, file_sizes(s.by_partial)) + s.deferred, id) <= times_in(
            s.by_partial,
            id,
        ),
        times_in(s.by_partial, id) <= times_in(s.by_size, id),
        times_in(s.by_size, id) <= times(files_found(found), id),
{
    let begun = scan_begun(roots, threshold, None);
    let w = walked_all(begun, found, disk);
    let start = w.after_walk(false);
    let hashes = hashed_all(start, disk, h);
    let c = hashes.confirming();
    lemma_scanned(s, roots, threshold, found, disk, h, k);
    lemma_sizes_kept(start, disk, h);
    lemma_sizes_kept_on(c, disk, k);
    lemma_walk(begun, found, disk);
    lemma_hash_start(w, disk);
    assert(start.by_partial == partials_loaded(w.saved_partial));
    lemma_walk_times(begun, found, disk, id);
    lemma_candidate_times(w.by_size, Set::empty(), id);
    lemma_hash_all_times(start, disk, h, id);
    assert(start.candidates.take(hashes.at as int) =~= start.candidates);
    lemma_hash_all(start, disk, h);
    lemma_confirm_start(hashes, disk);
    lemma_confirm_count(c, disk, k);
    lemma_confirm_all_times(c, disk, k, id);
    let open = open_buckets(s.by_partial, Set::empty());
    lemma_open_times(s.by_partial, Set::empty(), id);
    lemma_split_times(open, threshold, id);
    lemma_batches_times(to_confirm(open, threshold, Set::empty()), id);
    lemma_sure_times(s.by_full, file_sizes(s.by_partial), id);
    lemma_grouped_concat(confirmed_groups(s.by_full, file_sizes(s.by_partial)), s.deferred, id);
}

/// Every file of a group is one that the walk reports, and if the walk reports it
/// once, it is in no other group, and in its own once.
pub proof fn law_every_file_once(
    s: ScanV,
    roots: Seq<RootKeyV>,
    threshold: u64,
    found: Seq<FoundV>,
    disk: DiskV,
    h: nat,
    k: nat,
    a: int,
    i: int,
    b: int,
    j: int,
)
    requires
        scanned(s, roots, threshold, found, disk, h, k),
        confirmed_groups(s.by_full, file_sizes(s.by_partial)).len() + s.deferred.len() <= usize::MAX,
        0 <= a < s.groups_found().len(),
        0 <= i < s.groups_found()[a].paths.len(),
        0 <= b < s.groups_found().len(),
        0 <= j < s.groups_found()[b].paths.len(),
    ensures
        exists|f: int|
            0 <= f < files_found(found).len() && (#[trigger] files_found(found)[f]).parts
                == s.groups_found()[a].paths[i].parts,
        s.groups_found()[a].paths[i].parts == s.groups_found()[b].paths[j].parts && times(
            files_found(found),
            s.groups_found()[a].paths[i].parts,
        ) == 1 ==> a == b && i == j,
{
    let all = confirmed_groups(s.by_full, file_sizes(s.by_partial)) + s.deferred;
    let id = s.groups_found()[a].paths[i].parts;
    lemma_scan_times(s, roots, threshold, found, disk, h, k, id);
    let keys = all.map_values(|g: GroupV| heaviest_first(group_weight(g)));
    lemma_order_exists(keys);
    let perm = stable_order_of(keys);
    assert(is_stable_order(keys, perm));
    assert(s.groups_found()[a] == all[perm[a] as int]);
    assert(s.groups_found()[b] == all[perm[b] as int]);
    lemma_grouped_member(all, perm[a] as int, i);
    lemma_times_found(files_found(found), id);
    if id == s.groups_found()[b].paths[j].parts && times(files_found(found), id) == 1 {
        let (x, y) = (perm[a] as int, perm[b] as int);
        if x < y {
            lemma_grouped_two(all, x, i, y, j);
        } else if y < x {
            lemma_grouped_two(all, y, j, x, i);
        } else {
            if i != j {
                lemma_grouped_two(all, x, i, y, j);
            }
            lemma_order_no_duplicates(keys, perm);
            assert(perm[a] == perm[b]);
        }
    }
}

proof fn lemma_sizes_listed(t: TableV, disk: DiskV, id: PathId)
    requires
        forall|i: int, j: int|
            #![trigger t[i].paths[j]]
            0 <= i < t.len() && 0 <= j < t[i].paths.len() ==> (disk.size)(t[i].paths[j].parts) == Some(t[i].size),
        times_in(t, id) >= 1,
    ensures
        file_sizes(t).contains_key(id),
        (disk.size)(id) == Some(file_sizes(t)[id]),
    decreases t.len(),
{
    let (s, b) = (t.drop_last(), t.last());
    lemma_marked(file_sizes(s), b.paths, b.size, id);
    let ids = b.paths.map_values(|q: PathV| q.parts);
    if times(b.paths, id) >= 1 {
        lemma_times_found(b.paths, id);
        let j = choose|j: int| 0 <= j < b.paths.len() && (#[trigger] b.paths[j]).parts == id;
        assert(ids[j] == id);
        assert(t[t.len() - 1].paths[j].parts == id);
    } else {
        if ids.contains(id) {
            let j = choose|j: int| 0 <= j < ids.len() && ids[j] == id;
            lemma_times_member(b.paths, j);
        }
        assert forall|i: int, j: int|
            #![trigger s[i].paths[j]]
            0 <= i < s.len() && 0 <= j < s[i].paths.len() implies (disk.size)(s[i].paths[j].parts) == Some(s[i].size) by {
            assert(t[i].paths[j] == s[i].paths[j]);
        }
        lemma_sizes_listed(s, disk, id);
    }
}

proof fn lemma_sure_size(t: TableV, sizes: Map<PathId, u64>, g: int)
    requires
        0 <= g < confirmed_groups(t, sizes).len(),
    ensures
        confirmed_groups(t, sizes)[g].size == group_size(confirmed_groups(t, sizes)[g].paths, sizes),
    decreases t.len(),
{
    let s = t.drop_last();
    if g < confirmed_groups(s, sizes).len() {
        lemma_sure_size(s, sizes, g);
    }
}

/// The files of a confirmed group have its size, unless digests collide.
proof fn lemma_group_sizes(
    s: ScanV,
    roots: Seq<RootKeyV>,
    threshold: u64,
    found: Seq<FoundV>,
    disk: DiskV,
    h: nat,
    k: nat,
    g: int,
)
    requires
        scanned(s, roots, threshold, found, disk, h, k),
        confirmed_groups(s.by_full, file_sizes(s.by_partial)).len() + s.deferred.len() <= usize::MAX,
        0 <= g < s.groups_found().len(),
    ensures
        s.groups_found()[g].confirmed && disk.wf() && disk.collides_nowhere() ==> forall|j: int|
            0 <= j < s.groups_found()[g].paths.len() ==> (disk.size)((#[trigger] s.groups_found()[g].paths[j]).parts)
                == Some(s.groups_found()[g].size),
{
    lemma_scanned(s, roots, threshold, found, disk, h, k);
    let sizes = file_sizes(s.by_partial);
    let sure = confirmed_groups(s.by_full, sizes);
    let all = sure + s.deferred;
    law_ranking(all);
    let group = s.groups_found()[g];
    assert(s.groups_found().contains(group));
    assert(all.contains(group));
    let a = choose|a: int| 0 <= a < all.len() && all[a] == group;
    if group.confirmed && disk.wf() && disk.collides_nowhere() {
        if a >= sure.len() {
            lemma_deferred_from(open_buckets(s.by_partial, Set::empty()), threshold);
            assert(s.deferred[a - sure.len()] == group);
        }
        assert(sure[a] == group);
        lemma_sure_true(s.by_full, sizes, threshold, disk);
        lemma_sure_size(s.by_full, sizes, a);
        let first = group.paths[0];
        lemma_grouped_member(all, a, 0);
        lemma_scan_times(s, roots, threshold, found, disk, h, k, first.parts);
        lemma_sizes_listed(s.by_partial, disk, first.parts);
        assert forall|j: int| 0 <= j < group.paths.len() implies (disk.size)((#[trigger] group.paths[j]).parts) == Some(
            group.size,
        ) by {
            assert(disk.digest(group.paths[j]) == Some(group.file_hash));
            assert(disk.digest(group.paths[0]) == Some(group.file_hash));
            assert((disk.content)(group.paths[j].parts) == (disk.content)(first.parts));
        }
    }
}

/// Only duplicates are found: what a group says of its files is so.
pub proof fn law_only_duplicates_are_found(
    s: ScanV,
    roots: Seq<RootKeyV>,
    threshold: u64,
    found: Seq<FoundV>,
    disk: DiskV,
    h: nat,
    k: nat,
    g: int,
)
    requires
        scanned(s, roots, threshold, found, disk, h, k),
        confirmed_groups(s.by_full, file_sizes(s.by_partial)).len() + s.deferred.len() <= usize::MAX,
        0 <= g < s.groups_found().len(),
    ensures
        group_true(s.groups_found()[g], threshold, disk),
{
    lemma_scanned(s, roots, threshold, found, disk, h, k);
    lemma_group_sizes(s, roots, threshold, found, disk, h, k, g);
    let sure = confirmed_groups(s.by_full, file_sizes(s.by_partial));
    let all = sure + s.deferred;
    law_ranking(all);
    let group = s.groups_found()[g];
    assert(s.groups_found().contains(group));
    assert(all.contains(group));
    let a = choose|a: int| 0 <= a < all.len() && all[a] == group;
    if a < sure.len() {
        lemma_sure_true(s.by_full, file_sizes(s.by_partial), threshold, disk);
        assert(sure[a] == group);
    } else {
        let d = a - sure.len();
        assert(s.deferred[d] == group);
        let open = open_buckets(s.by_partial, Set::empty());
        lemma_open_from(s.by_partial, Set::empty());
        lemma_deferred_from(open, threshold);
        let i = choose|i: int| 0 <= i < open.len() && from_bucket(s.deferred[d], #[trigger] open[i]);
        assert(s.by_partial.contains(open[i]));
        let p = choose|p: int| 0 <= p < s.by_partial.len() && s.by_partial[p] == open[i];
        assert forall|j: int| 0 <= j < group.paths.len() implies (disk.size)((#[trigger] group.paths[j]).parts) == Some(
            group.size,
        ) && disk.quick(group.paths[j]) is Some && group.file_hash == partial_key_text(
            group.size,
            disk.quick(group.paths[j]).unwrap(),
        ) by {
            assert(s.by_partial[p].paths[j] == group.paths[j]);
        }
    }
}

/// Whether two paths stand in one of some groups.
pub open spec fn together_in(groups: Seq<GroupV>, x: PathV, y: PathV) -> bool {
    exists|g: int| 0 <= g < groups.len() && (#[trigger] groups[g]).paths.contains(x) && groups[g].paths.contains(y)
}

/// Whether two files are grouped rests on these two files alone, unless digests
/// collide.
pub proof fn law_grouping_rests_on_the_two(
    s: ScanV,
    roots: Seq<RootKeyV>,
    threshold: u64,
    found: Seq<FoundV>,
    disk: DiskV,
    h: nat,
    k: nat,
    x: PathV,
    y: PathV,
)
    requires
        disk.wf(),
        disk.collides_nowhere(),
        scanned(s, roots, threshold, found, disk, h, k),
        confirmed_groups(s.by_full, file_sizes(s.by_partial)).len() + s.deferred.len() <= usize::MAX,
        files_found(found).contains(x),
        files_found(found).contains(y),
        x != y,
    ensures
        together_in(s.groups_found(), x, y) <==> belong_together(x, y, disk, threshold),
{
    if belong_together(x, y, disk, threshold) {
        law_alike_files_are_grouped(s, roots, threshold, found, disk, h, k, x, y);
    }
    if together_in(s.groups_found(), x, y) {
        let g = choose|g: int|
            0 <= g < s.groups_found().len() && (#[trigger] s.groups_found()[g]).paths.contains(x)
                && s.groups_found()[g].paths.contains(y);
        law_only_duplicates_are_found(s, roots, threshold, found, disk, h, k, g);
        let group = s.groups_found()[g];
        let i = choose|i: int| 0 <= i < group.paths.len() && group.paths[i] == x;
        let j = choose|j: int| 0 <= j < group.paths.len() && group.paths[j] == y;
        assert(group.paths[i] == x && group.paths[j] == y);
        if group.confirmed {
            assert(disk.digest(x) == Some(group.file_hash) && disk.digest(y) == Some(group.file_hash));
            assert((disk.content)(x.parts) == (disk.content)(y.parts));
        } else {
            assert(disk.quick(group.paths[i]) is Some && disk.quick(group.paths[j]) is Some);
            law_partial_key_splits(group.size, disk.quick(x).unwrap());
            law_partial_key_splits(group.size, disk.quick(y).unwrap());
        }
    }
}

proof fn lemma_batch_skips(t: TableV, batch: Seq<CandidateV>, disk: DiskV, i: int)
    requires
        0 <= i < batch.len(),
        disk.quick(batch[i].path) is None,
    ensures
        hashed(t, batch, quick_results(batch, disk)).skipped.contains(batch[i].path),
    decreases batch.len(),
{
    let rest = batch.drop_last();
    assert(quick_results(batch, disk).drop_last() =~= quick_results(rest, disk));
    let before = hashed(t, rest, quick_results(rest, disk)).skipped;
    let all = hashed(t, batch, quick_results(batch, disk)).skipped;
    assert(quick_results(batch, disk).last() == disk.quick(batch.last().path));
    if i == batch.len() - 1 {
        assert(all.last() == batch[i].path);
    } else {
        lemma_batch_skips(t, rest, disk, i);
        let k = choose|k: int| 0 <= k < before.len() && before[k] == batch[i].path;
        assert(all[k] == batch[i].path);
    }
}

proof fn lemma_hash_skips(start: ScanV, disk: DiskV, n: nat, i: int)
    requires
        start.at == 0,
        0 <= i < hashed_all(start, disk, n).at <= start.candidates.len(),
        disk.quick(start.candidates[i].path) is None,
    ensures
        hashed_all(start, disk, n).skipped.contains(start.candidates[i].path),
    decreases n,
{
    if n > 0 {
        let s = hashed_all(start, disk, (n - 1) as nat);
        let path = start.candidates[i].path;
        lemma_hash_advances(start, disk, (n - 1) as nat);
        let batch = s.hash_batch();
        let h = hashed(s.by_partial, batch, quick_results(batch, disk));
        assert(batch.map_values(|c: CandidateV| disk.quick(c.path)) =~= quick_results(batch, disk));
        let all = hashed_all(start, disk, n).skipped;
        assert(all == s.skipped + h.skipped);
        if i < s.at {
            lemma_hash_skips(start, disk, (n - 1) as nat, i);
            let k = choose|k: int| 0 <= k < s.skipped.len() && s.skipped[k] == path;
            assert(all[k] == path);
        } else {
            assert(batch[i - s.at] == start.candidates[i]);
            lemma_batch_skips(s.by_partial, batch, disk, i - s.at);
            let k = choose|k: int| 0 <= k < h.skipped.len() && h.skipped[k] == path;
            assert(all[s.skipped.len() + k] == path);
        }
    }
}

proof fn lemma_skipped_kept(start: ScanV, disk: DiskV, n: nat, path: PathV)
    requires
        start.skipped.contains(path),
    ensures
        confirmed_all(start, disk, n).skipped.contains(path),
    decreases n,
{
    if n > 0 {
        lemma_skipped_kept(start, disk, (n - 1) as nat, path);
        let before = confirmed_all(start, disk, (n - 1) as nat).skipped;
        let k = choose|k: int| 0 <= k < before.len() && before[k] == path;
        assert(confirmed_all(start, disk, n).skipped[k] == path);
    }
}

/// A file that cannot be read is skipped, where another has its size, so that it would
/// have to be read.
pub proof fn law_unreadable_file_is_skipped(
    s: ScanV,
    roots: Seq<RootKeyV>,
    threshold: u64,
    found: Seq<FoundV>,
    disk: DiskV,
    h: nat,
    k: nat,
    unreadable: PathV,
    other: PathV,
)
    requires
        scanned(s, roots, threshold, found, disk, h, k),
        files_found(found).contains(unreadable),
        files_found(found).contains(other),
        unreadable != other,
        (disk.content)(unreadable.parts) is None,
        (disk.size)(unreadable.parts) is Some,
        (disk.size)(unreadable.parts) == (disk.size)(other.parts),
    ensures
        s.skipped.contains(unreadable),
{
    let begun = scan_begun(roots, threshold, None);
    let w = walked_all(begun, found, disk);
    let start = w.after_walk(false);
    let hashes = hashed_all(start, disk, h);
    let size = (disk.size)(unreadable.parts).unwrap();
    lemma_scanned(s, roots, threshold, found, disk, h, k);
    lemma_walk(begun, found, disk);
    lemma_hash_start(w, disk);
    lemma_one_bucket(w.by_size, decimal(size as nat), unreadable, other);
    let b = choose|b: int|
        0 <= b < w.by_size.len() && (#[trigger] w.by_size[b]).key == decimal(size as nat) && w.by_size[b].paths.contains(
            unreadable,
        ) && w.by_size[b].paths.contains(other);
    lemma_two(w.by_size[b].paths, unreadable, other);
    lemma_candidates_has(w.by_size, Set::empty(), b, unreadable);
    let c = CandidateV { size: w.by_size[b].size, path: unreadable };
    let i = choose|i: int| 0 <= i < hashes.candidates.len() && hashes.candidates[i] == c;
    lemma_hash_advances(start, disk, h);
    lemma_hash_skips(start, disk, h, i);
    lemma_skipped_kept(hashes.confirming(), disk, k, unreadable);
}

// ------------------------------------------------------ where confirmed files come from

/// Whether a file has a twin in a list.
spec fn has_twin(list: Seq<PathV>, x: PathV, disk: DiskV) -> bool {
    exists|i: int| 0 <= i < list.len() && twins(x, #[trigger] list[i], disk)
}

/// Whether every file of a group has a twin in it.
spec fn groups_twinned(groups: Seq<MatchV>, disk: DiskV) -> bool {
    forall|g: int, j: int|
        #![trigger groups[g].paths[j]]
        0 <= g < groups.len() && 0 <= j < groups[g].paths.len() ==> has_twin(
            groups[g].paths,
            groups[g].paths[j],
            disk,
        )
}

proof fn lemma_class_twinned(s: ResolverV, all: Seq<PathV>, disk: DiskV)
    requires
        resolving(s, all, disk),
        s.phase == ResolverPhase::Hashing,
        s.matched.len() > 0,
        times_resolving(s, s.representative.parts) <= 1,
        disk.digest(s.representative) is Some,
    ensures
        forall|j: int|
            0 <= j < (seq![s.representative] + s.matched).len() ==> has_twin(
                seq![s.representative] + s.matched,
                #[trigger] (seq![s.representative] + s.matched)[j],
                disk,
            ),
{
    let rep = s.representative;
    let class = seq![rep] + s.matched;
    lemma_times_one(rep, rep.parts);
    assert forall|i: int| 0 <= i < s.matched.len() implies (#[trigger] s.matched[i]).parts != rep.parts by {
        if s.matched[i].parts == rep.parts {
            lemma_times_member(s.matched, i);
        }
    }
    assert forall|j: int| 0 <= j < class.len() implies has_twin(class, #[trigger] class[j], disk) by {
        if j == 0 {
            assert(class[1] == s.matched[0]);
            assert(twins(class[0], class[1], disk));
        } else {
            assert(class[j] == s.matched[j - 1]);
            assert(class[0] == rep);
            assert(twins(class[j], class[0], disk));
        }
    }
}

proof fn lemma_resolved_twinned(s: ResolverV, all: Seq<PathV>, disk: DiskV, steps: nat)
    requires
        resolving(s, all, disk),
        groups_twinned(s.groups, disk),
        s.phase == ResolverPhase::Hashing ==> s.matched.len() > 0,
        forall|id: PathId| #[trigger] times_resolving(s, id) <= 1,
    ensures
        groups_twinned(resolved(s, disk.world(), steps).groups, disk),
    decreases steps,
{
    if steps > 0 {
        let x = s.representative;
        let n = answered(s, disk.world());
        match s.phase {
            ResolverPhase::Opening => lemma_opened(s, all, disk, x, x),
            ResolverPhase::Comparing => lemma_compared(s, all, disk, x, x),
            ResolverPhase::Hashing => {
                lemma_digested(s, all, disk, x, x);
                assert(times_resolving(s, x.parts) <= 1);
                let class = seq![x] + s.matched;
                if disk.digest(x) is Some {
                    lemma_class_twinned(s, all, disk);
                    let added = s.groups.push(MatchV { digest: disk.digest(x).unwrap(), paths: class });
                    assert(n.groups == added);
                    assert forall|g: int, j: int|
                        #![trigger added[g].paths[j]]
                        0 <= g < added.len() && 0 <= j < added[g].paths.len() implies has_twin(
                        added[g].paths,
                        added[g].paths[j],
                        disk,
                    ) by {
                        if g < s.groups.len() {
                            assert(has_twin(s.groups[g].paths, s.groups[g].paths[j], disk));
                        } else {
                            assert(has_twin(class, class[j], disk));
                        }
                    }
                }
            },
            ResolverPhase::Done => {},
        }
        assert forall|id: PathId| #[trigger] times_resolving(n, id) <= 1 by {
            lemma_answer_times(s, disk, id);
            assert(times_resolving(s, id) <= 1);
        }
        lemma_resolved_twinned(n, all, disk, (steps - 1) as nat);
    }
}

/// Of a bucket that is compared as a whole, every file that ends in a group has a twin
/// in the bucket.
proof fn lemma_bucket_twinned(paths: Seq<PathV>, disk: DiskV, g: int, x: PathV)
    requires
        paths.len() != 1,
        forall|id: PathId| #[trigger] times(paths, id) <= 1,
        0 <= g < disk.resolve(paths).groups.len(),
        disk.resolve(paths).groups[g].paths.contains(x),
    ensures
        paths.contains(x),
        has_twin(paths, x, disk),
{
    let w = disk.world();
    let s = piece_start(paths);
    let blank = ResolverV {
        phase: ResolverPhase::Done,
        representative: PathV { text: Seq::empty(), parts: Seq::empty() },
        rest: Seq::empty(),
        matched: Seq::empty(),
        leftover: Seq::empty(),
        groups: Seq::empty(),
        skipped: Seq::empty(),
        processed: 0,
    };
    assert forall|i: int| 0 <= i < paths.len() implies paths.contains(#[trigger] paths[i]) by {}
    lemma_round(blank, paths, paths, disk);
    assert(s == blank.round(paths));
    assert forall|id: PathId| #[trigger] times_resolving(s, id) <= 1 by {
        lemma_round_times(blank, paths, id);
        assert(times(paths, id) <= 1);
    }
    let n = choose|n: nat| (#[trigger] resolved(s, w, n)).phase == ResolverPhase::Done;
    lemma_resolved_twinned(s, paths, disk, n);
    lemma_bucket(paths, disk, x, x);
    let group = disk.resolve(paths).groups[g];
    let j = choose|j: int| 0 <= j < group.paths.len() && group.paths[j] == x;
    assert(disk.resolve(paths).groups[g].paths[j] == x);
    assert(has_twin(group.paths, x, disk));
    let i = choose|i: int| 0 <= i < group.paths.len() && twins(x, #[trigger] group.paths[i], disk);
    assert(paths.contains(disk.resolve(paths).groups[g].paths[i]));
    let e = choose|e: int| 0 <= e < paths.len() && paths[e] == group.paths[i];
    assert(twins(x, paths[e], disk));
}

/// Whether a file is in a group that a bucket comes to.
spec fn in_result(bucket: Seq<PathV>, q: PathV, disk: DiskV) -> bool {
    exists|g: int| 0 <= g < disk.resolve(bucket).groups.len() && (#[trigger] disk.resolve(bucket).groups[g]).paths.contains(q)
}

proof fn lemma_extended_from(t: TableV, key: Seq<char>, paths: Seq<PathV>, k: Seq<char>, q: PathV)
    requires
        holds(extended(t, key, paths), k, q),
    ensures
        holds(t, k, q) || paths.contains(q),
{
    lemma_pos(t, key);
    let n = extended(t, key, paths);
    let i = choose|i: int| 0 <= i < n.len() && (#[trigger] n[i]).key == k && n[i].paths.contains(q);
    let j = choose|j: int| 0 <= j < n[i].paths.len() && n[i].paths[j] == q;
    if i < t.len() && j < t[i].paths.len() {
        assert(t[i].paths[j] == q);
        assert(t[i].key == k && t[i].paths.contains(q));
    } else if i < t.len() {
        assert(paths[j - t[i].paths.len()] == q);
    } else {
        assert(paths[j] == q);
    }
}

proof fn lemma_taken_from(t: TableV, entries: Seq<EntryV>, groups: Seq<MatchV>, k: Seq<char>, q: PathV)
    requires
        holds(groups_taken(t, entries, groups).0, k, q),
    ensures
        holds(t, k, q) || exists|g: int| 0 <= g < groups.len() && (#[trigger] groups[g]).paths.contains(q),
    decreases groups.len(),
{
    if groups.len() > 0 {
        let rest = groups.drop_last();
        let last = groups.last();
        let before = groups_taken(t, entries, rest).0;
        lemma_extended_from(before, last.digest, last.paths, k, q);
        if last.paths.contains(q) {
            assert(groups[groups.len() - 1].paths.contains(q));
        } else {
            lemma_taken_from(t, entries, rest, k, q);
            if !holds(t, k, q) {
                let g = choose|g: int| 0 <= g < rest.len() && (#[trigger] rest[g]).paths.contains(q);
                assert(groups[g].paths.contains(q));
            }
        }
    }
}

proof fn lemma_batch_from(t: TableV, batch: Seq<Seq<PathV>>, disk: DiskV, k: Seq<char>, q: PathV)
    requires
        holds(confirmed(t, bucket_results(batch, disk)).by_full, k, q),
    ensures
        holds(t, k, q) || exists|b: int| 0 <= b < batch.len() && in_result(#[trigger] batch[b], q, disk),
    decreases batch.len(),
{
    if batch.len() > 0 {
        let rest = batch.drop_last();
        let results = bucket_results(batch, disk);
        assert(results.drop_last() =~= bucket_results(rest, disk));
        let c = confirmed(t, bucket_results(rest, disk));
        let r = disk.resolve(batch.last());
        assert(results.last() == r);
        lemma_taken_from(c.by_full, c.entries, r.groups, k, q);
        if holds(c.by_full, k, q) {
            lemma_batch_from(t, rest, disk, k, q);
            if !holds(t, k, q) {
                let b = choose|b: int| 0 <= b < rest.len() && in_result(#[trigger] rest[b], q, disk);
                assert(batch[b] == rest[b]);
            }
        } else {
            assert(in_result(batch[batch.len() - 1], q, disk));
        }
    } else {
        assert(bucket_results(batch, disk).len() == 0);
    }
}

proof fn lemma_all_from(start: ScanV, disk: DiskV, n: nat, k: Seq<char>, q: PathV)
    requires
        start.at_batch + n <= start.batches.len(),
        holds(confirmed_all(start, disk, n).by_full, k, q),
    ensures
        holds(start.by_full, k, q) || exists|a: int, b: int|
            #![trigger start.batches[a][b]]
            0 <= a < start.batches.len() && 0 <= b < start.batches[a].len() && in_result(start.batches[a][b], q, disk),
    decreases n,
{
    if n > 0 {
        let s = confirmed_all(start, disk, (n - 1) as nat);
        lemma_confirm_count(start, disk, (n - 1) as nat);
        let at = s.at_batch as int;
        let batch = s.batches[at];
        assert(confirmed_all(start, disk, n).by_full == confirmed(s.by_full, bucket_results(batch, disk)).by_full);
        lemma_batch_from(s.by_full, batch, disk, k, q);
        if holds(s.by_full, k, q) {
            lemma_all_from(start, disk, (n - 1) as nat, k, q);
        } else {
            let b = choose|b: int| 0 <= b < batch.len() && in_result(#[trigger] batch[b], q, disk);
            assert(start.batches[at][b] == batch[b]);
        }
    }
}

proof fn lemma_packed_from(buckets: Seq<Seq<PathV>>)
    ensures
        forall|a: int, b: int|
            #![trigger packed(buckets).done[a][b]]
            0 <= a < packed(buckets).done.len() && 0 <= b < packed(buckets).done[a].len() ==> buckets.contains(
                packed(buckets).done[a][b],
            ),
        forall|b: int| 0 <= b < packed(buckets).current.len() ==> buckets.contains(#[trigger] packed(buckets).current[b]),
    decreases buckets.len(),
{
    if buckets.len() > 0 {
        let rest = buckets.drop_last();
        lemma_packed_from(rest);
        let (p, n) = (packed(rest), packed(buckets));
        let last = buckets.last();
        let full = p.current.push(last);
        assert forall|x: Seq<PathV>| #[trigger] rest.contains(x) implies buckets.contains(x) by {
            let i = choose|i: int| 0 <= i < rest.len() && rest[i] == x;
            assert(buckets[i] == x);
        }
        assert(buckets[buckets.len() - 1] == last);
        assert forall|b: int| 0 <= b < full.len() implies buckets.contains(#[trigger] full[b]) by {
            if b < p.current.len() {
                assert(rest.contains(p.current[b]));
            }
        }
        assert forall|a: int, b: int|
            #![trigger n.done[a][b]]
            0 <= a < n.done.len() && 0 <= b < n.done[a].len() implies buckets.contains(n.done[a][b]) by {
            if a < p.done.len() {
                assert(n.done[a] == p.done[a]);
                assert(rest.contains(p.done[a][b]));
            } else {
                assert(n.done[a] == full);
                assert(buckets.contains(full[b]));
            }
        }
        assert forall|b: int| 0 <= b < n.current.len() implies buckets.contains(#[trigger] n.current[b]) by {
            assert(n.current[b] == full[b]);
        }
    }
}

/// Whether a piece is handed out of a bucket that is not put off.
spec fn is_piece(piece: Seq<PathV>, b: BucketV, threshold: u64) -> bool {
    &&& !deferred_size(b.size, threshold)
    &&& if oversized(b.paths) {
        exists|x: PathV| #[trigger] b.paths.contains(x) && piece == seq![x]
    } else {
        piece == b.paths
    }
}

proof fn lemma_singles_from(paths: Seq<PathV>, done: Set<PathId>, i: int)
    requires
        0 <= i < singles(paths, done).len(),
    ensures
        exists|x: PathV| #[trigger] paths.contains(x) && singles(paths, done)[i] == seq![x],
    decreases paths.len(),
{
    if paths.len() > 0 {
        let rest = paths.drop_last();
        if i < singles(rest, done).len() {
            lemma_singles_from(rest, done, i);
            let x = choose|x: PathV| #[trigger] rest.contains(x) && singles(rest, done)[i] == seq![x];
            let j = choose|j: int| 0 <= j < rest.len() && rest[j] == x;
            assert(paths[j] == x);
            assert(paths.contains(x));
        } else {
            assert(paths[paths.len() - 1] == paths.last());
            assert(paths.contains(paths.last()));
        }
    }
}

proof fn lemma_pieces_from(buckets: Seq<BucketV>, threshold: u64, i: int)
    requires
        0 <= i < to_confirm(buckets, threshold, Set::empty()).len(),
    ensures
        exists|b: int|
            0 <= b < buckets.len() && is_piece(
                to_confirm(buckets, threshold, Set::empty())[i],
                #[trigger] buckets[b],
                threshold,
            ),
    decreases buckets.len(),
{
    if buckets.len() > 0 {
        let rest = buckets.drop_last();
        let before = to_confirm(rest, threshold, Set::empty());
        let all = to_confirm(buckets, threshold, Set::empty());
        if i < before.len() {
            lemma_pieces_from(rest, threshold, i);
            let b = choose|b: int| 0 <= b < rest.len() && is_piece(before[i], #[trigger] rest[b], threshold);
            assert(all[i] == before[i]);
            assert(is_piece(all[i], buckets[b], threshold));
        } else {
            let last = buckets.last();
            let j = i - before.len();
            assert(all[i] == pieces(last.paths, Set::empty())[j]);
            if oversized(last.paths) {
                lemma_singles_from(last.paths, Set::empty(), j);
            }
            assert(is_piece(all[i], buckets[buckets.len() - 1], threshold));
        }
    }
}

/// What makes that a file is noted under its digest: its bucket is too large to be
/// compared at once, or it has a twin there.
spec fn noted_for(s: ScanV, threshold: u64, disk: DiskV, x: PathV, p: int) -> bool {
    &&& 0 <= p < s.by_partial.len()
    &&& s.by_partial[p].paths.len() >= 2
    &&& s.by_partial[p].paths.contains(x)
    &&& !deferred_size(s.by_partial[p].size, threshold)
    &&& oversized(s.by_partial[p].paths) || has_twin(s.by_partial[p].paths, x, disk)
}

proof fn lemma_bucket_once(t: TableV, p: int, id: PathId)
    requires
        0 <= p < t.len(),
    ensures
        times(t[p].paths, id) <= times_in(t, id),
    decreases t.len(),
{
    if p < t.len() - 1 {
        lemma_bucket_once(t.drop_last(), p, id);
    }
}

proof fn lemma_noted_for(
    s: ScanV,
    roots: Seq<RootKeyV>,
    threshold: u64,
    found: Seq<FoundV>,
    disk: DiskV,
    h: nat,
    k: nat,
    key: Seq<char>,
    x: PathV,
) -> (p: int)
    requires
        scanned(s, roots, threshold, found, disk, h, k),
        distinct_ids(files_found(found)),
        holds(s.by_full, key, x),
    ensures
        noted_for(s, threshold, disk, x, p),
{
    let walked = walked_all(scan_begun(roots, threshold, None), found, disk).after_walk(false);
    let hashes = hashed_all(walked, disk, h);
    let c = hashes.confirming();
    let open = open_buckets(s.by_partial, Set::empty());
    let buckets = to_confirm(open, threshold, Set::empty());
    lemma_scanned(s, roots, threshold, found, disk, h, k);
    lemma_walk(scan_begun(roots, threshold, None), found, disk);
    lemma_hash_start(walked_all(scan_begun(roots, threshold, None), found, disk), disk);
    lemma_hash_all(walked, disk, h);
    lemma_confirm_start(hashes, disk);
    lemma_confirm_count(c, disk, k);
    lemma_all_from(c, disk, k, key, x);
    let (a, b) = choose|a: int, b: int|
        #![trigger c.batches[a][b]]
        0 <= a < c.batches.len() && 0 <= b < c.batches[a].len() && in_result(c.batches[a][b], x, disk);
    let piece = c.batches[a][b];
    lemma_packed_from(buckets);
    let pack = packed(buckets);
    assert(c.batches == batches_of(buckets));
    if a < pack.done.len() {
        assert(c.batches[a] == pack.done[a]);
        assert(buckets.contains(pack.done[a][b]));
    } else {
        assert(c.batches[a] == pack.current);
        assert(buckets.contains(pack.current[b]));
    }
    let i = choose|i: int| 0 <= i < buckets.len() && buckets[i] == piece;
    lemma_pieces_from(open, threshold, i);
    let o = choose|o: int| 0 <= o < open.len() && is_piece(buckets[i], #[trigger] open[o], threshold);
    lemma_open_from(s.by_partial, Set::empty());
    assert(s.by_partial.contains(open[o]) && open[o].paths.len() >= 2);
    let p = choose|p: int| 0 <= p < s.by_partial.len() && s.by_partial[p] == open[o];
    let paths = s.by_partial[p].paths;
    let g = choose|g: int|
        0 <= g < disk.resolve(piece).groups.len() && (#[trigger] disk.resolve(piece).groups[g]).paths.contains(x);
    if oversized(paths) {
        let y = choose|y: PathV| #[trigger] paths.contains(y) && piece == seq![y];
        lemma_bucket(piece, disk, x, x);
        let group = disk.resolve(piece).groups[g];
        let j = choose|j: int| 0 <= j < group.paths.len() && group.paths[j] == x;
        assert(piece.contains(disk.resolve(piece).groups[g].paths[j]));
        assert(x == y);
    } else {
        assert forall|id: PathId| #[trigger] times(piece, id) <= 1 by {
            lemma_bucket_once(s.by_partial, p, id);
            lemma_scan_times(s, roots, threshold, found, disk, h, k, id);
            lemma_distinct_once(files_found(found), id);
        }
        lemma_bucket_twinned(piece, disk, g, x);
    }
    p
}

// ----------------------------------------------------- the same files that can be read

/// Whether two walks report the same of the files that can be read.
spec fn same_readable(a: Seq<FoundV>, b: Seq<FoundV>, disk: DiskV) -> bool {
    forall|p: PathV|
        (disk.content)(p.parts) is Some ==> (#[trigger] files_found(a).contains(p) <==> #[trigger] files_found(b).contains(
            p,
        ))
}

/// A file of a bucket is one of those that the walk reports, with the size and the quick
/// hash of the bucket.
proof fn lemma_bucket_file(
    s: ScanV,
    roots: Seq<RootKeyV>,
    threshold: u64,
    found: Seq<FoundV>,
    disk: DiskV,
    h: nat,
    k: nat,
    p: int,
    j: int,
) -> (f: PathV)
    requires
        scanned(s, roots, threshold, found, disk, h, k),
        0 <= p < s.by_partial.len(),
        0 <= j < s.by_partial[p].paths.len(),
    ensures
        files_found(found).contains(f),
        f.parts == s.by_partial[p].paths[j].parts,
        (disk.size)(f.parts) == Some(s.by_partial[p].size),
        disk.quick(f) is Some,
        s.by_partial[p].key == partial_key_text(s.by_partial[p].size, disk.quick(f).unwrap()),
{
    let q = s.by_partial[p].paths[j];
    lemma_scanned(s, roots, threshold, found, disk, h, k);
    lemma_times_member(s.by_partial[p].paths, j);
    lemma_bucket_once(s.by_partial, p, q.parts);
    lemma_scan_times(s, roots, threshold, found, disk, h, k, q.parts);
    lemma_times_found(files_found(found), q.parts);
    let f = choose|f: int| 0 <= f < files_found(found).len() && (#[trigger] files_found(found)[f]).parts == q.parts;
    assert(disk.quick(s.by_partial[p].paths[j]) is Some);
    files_found(found)[f]
}

spec fn part_list(paths: Seq<PathV>) -> Seq<PathId> {
    paths.map_values(|p: PathV| p.parts)
}

proof fn lemma_part_list_once(paths: Seq<PathV>)
    requires
        forall|id: PathId| #[trigger] times(paths, id) <= 1,
    ensures
        part_list(paths).no_duplicates(),
{
    let ids = part_list(paths);
    assert forall|i: int, j: int| 0 <= i < ids.len() && 0 <= j < ids.len() && i != j implies ids[i] != ids[j] by {
        if ids[i] == ids[j] {
            assert(times(paths, ids[i]) <= 1);
            if i < j {
                lemma_times_two(paths, i, j);
            } else {
                lemma_times_two(paths, j, i);
            }
        }
    }
}

/// A file that is in a bucket with others, in one scan, is so in another scan that meets
/// the same files that can be read, and no file of the bucket is missing there.
proof fn lemma_bucket_again(
    s: ScanV,
    t: ScanV,
    roots: Seq<RootKeyV>,
    threshold: u64,
    found: Seq<FoundV>,
    other: Seq<FoundV>,
    disk: DiskV,
    hs: nat,
    ks: nat,
    ht: nat,
    kt: nat,
    p: int,
    x: PathV,
) -> (q: int)
    requires
        scanned(s, roots, threshold, found, disk, hs, ks),
        scanned(t, roots, threshold, other, disk, ht, kt),
        distinct_ids(files_found(found)),
        same_readable(found, other, disk),
        files_found(other).contains(x),
        0 <= p < s.by_partial.len(),
        s.by_partial[p].paths.len() >= 2,
        s.by_partial[p].paths.contains(x),
    ensures
        0 <= q < t.by_partial.len(),
        t.by_partial[q].size == s.by_partial[p].size,
        t.by_partial[q].paths.contains(x),
        t.by_partial[q].paths.len() >= s.by_partial[p].paths.len(),
{
    lemma_scanned(s, roots, threshold, found, disk, hs, ks);
    lemma_scanned(t, roots, threshold, other, disk, ht, kt);
    let bucket = s.by_partial[p];
    let at = choose|i: int| 0 <= i < bucket.paths.len() && bucket.paths[i] == x;
    assert(s.by_partial[p].paths[at] == x);
    assert forall|id: PathId| #[trigger] times(bucket.paths, id) <= 1 by {
        lemma_bucket_once(s.by_partial, p, id);
        lemma_scan_times(s, roots, threshold, found, disk, hs, ks, id);
        lemma_distinct_once(files_found(found), id);
    }
    lemma_part_list_once(bucket.paths);
    let ids = part_list(bucket.paths);
    // Another file of the bucket brings this one into a bucket of the other scan.
    let second: int = if at == 0 {
        1
    } else {
        0
    };
    let y = lemma_bucket_file(s, roots, threshold, found, disk, hs, ks, p, second);
    assert(ids[at] != ids[second]);
    assert(files_found(other).contains(y));
    law_partial_key_splits(bucket.size, disk.quick(x).unwrap());
    law_partial_key_splits(bucket.size, disk.quick(y).unwrap());
    let q = lemma_share_bucket(t, roots, threshold, other, disk, ht, kt, x, y);
    let more = part_list(t.by_partial[q].paths);
    assert forall|id: PathId| #[trigger] ids.to_set().contains(id) implies more.to_set().contains(id) by {
        let j = choose|j: int| 0 <= j < ids.len() && ids[j] == id;
        let f = lemma_bucket_file(s, roots, threshold, found, disk, hs, ks, p, j);
        assert(files_found(other).contains(f));
        law_partial_key_splits(bucket.size, disk.quick(f).unwrap());
        if f == x {
            let i = choose|i: int| 0 <= i < t.by_partial[q].paths.len() && t.by_partial[q].paths[i] == x;
            assert(more[i] == id);
        } else {
            let r = lemma_share_bucket(t, roots, threshold, other, disk, ht, kt, x, f);
            lemma_pos_is(t.by_partial, q);
            lemma_pos_is(t.by_partial, r);
            assert(q == r);
            let i = choose|i: int| 0 <= i < t.by_partial[q].paths.len() && t.by_partial[q].paths[i] == f;
            assert(more[i] == id);
        }
    }
    ids.unique_seq_to_set();
    more.lemma_cardinality_of_set();
    vstd::set_lib::lemma_len_subset(ids.to_set(), more.to_set());
    q
}

/// A file that is noted under its digest in one scan is so in another that meets the same
/// files that can be read.
proof fn lemma_noted_again(
    s: ScanV,
    t: ScanV,
    roots: Seq<RootKeyV>,
    threshold: u64,
    found: Seq<FoundV>,
    other: Seq<FoundV>,
    disk: DiskV,
    hs: nat,
    ks: nat,
    ht: nat,
    kt: nat,
    key: Seq<char>,
    x: PathV,
)
    requires
        disk.wf(),
        scanned(s, roots, threshold, found, disk, hs, ks),
        scanned(t, roots, threshold, other, disk, ht, kt),
        distinct_ids(files_found(found)),
        same_readable(found, other, disk),
        files_found(other).contains(x),
        holds(s.by_full, key, x),
    ensures
        holds(t.by_full, key, x),
{
    lemma_scanned(s, roots, threshold, found, disk, hs, ks);
    lemma_scanned(t, roots, threshold, other, disk, ht, kt);
    let f = choose|f: int| 0 <= f < s.by_full.len() && (#[trigger] s.by_full[f]).key == key && s.by_full[f].paths.contains(x);
    let e = choose|e: int| 0 <= e < s.by_full[f].paths.len() && s.by_full[f].paths[e] == x;
    assert(disk.digest(s.by_full[f].paths[e]) == Some(key));
    let p = lemma_noted_for(s, roots, threshold, found, disk, hs, ks, key, x);
    let paths = s.by_partial[p].paths;
    let at = choose|i: int| 0 <= i < paths.len() && paths[i] == x;
    assert(s.by_partial[p].paths[at] == x);
    if oversized(paths) {
        let q = lemma_bucket_again(s, t, roots, threshold, found, other, disk, hs, ks, ht, kt, p, x);
        lemma_handed_out(t, threshold, q, x);
        lemma_bucket_done(
            t,
            disk,
            to_confirm(open_buckets(t.by_partial, Set::empty()), threshold, Set::empty()),
            seq![x],
        );
        lemma_single(disk, x);
        let g = disk.resolve(seq![x]).groups[0];
        assert(group_noted(t.by_full, g));
        assert(g.paths[0] == x);
        assert(g.paths.contains(x));
        assert(holds(t.by_full, g.digest, x));
    } else {
        let i = choose|i: int| 0 <= i < paths.len() && twins(x, #[trigger] paths[i], disk);
        let y = lemma_bucket_file(s, roots, threshold, found, disk, hs, ks, p, i);
        assert(at != i);
        lemma_bucket_once(s.by_partial, p, x.parts);
        lemma_scan_times(s, roots, threshold, found, disk, hs, ks, x.parts);
        lemma_distinct_once(files_found(found), x.parts);
        if paths[i].parts == x.parts {
            if at < i {
                lemma_times_two(paths, at, i);
            } else {
                lemma_times_two(paths, i, at);
            }
        }
        assert(files_found(other).contains(y));
        lemma_twins_noted(t, roots, threshold, other, disk, ht, kt, x, y);
    }
}

proof fn lemma_together_again(
    s: ScanV,
    t: ScanV,
    roots: Seq<RootKeyV>,
    threshold: u64,
    found: Seq<FoundV>,
    other: Seq<FoundV>,
    disk: DiskV,
    hs: nat,
    ks: nat,
    ht: nat,
    kt: nat,
    x: PathV,
    y: PathV,
)
    requires
        disk.wf(),
        scanned(s, roots, threshold, found, disk, hs, ks),
        scanned(t, roots, threshold, other, disk, ht, kt),
        confirmed_groups(s.by_full, file_sizes(s.by_partial)).len() + s.deferred.len() <= usize::MAX,
        confirmed_groups(t.by_full, file_sizes(t.by_partial)).len() + t.deferred.len() <= usize::MAX,
        distinct_ids(files_found(found)),
        same_readable(found, other, disk),
        files_found(other).contains(x),
        files_found(other).contains(y),
        x != y,
        together_in(s.groups_found(), x, y),
    ensures
        together_in(t.groups_found(), x, y),
{
    lemma_scanned(s, roots, threshold, found, disk, hs, ks);
    lemma_scanned(t, roots, threshold, other, disk, ht, kt);
    let g = choose|g: int|
        0 <= g < s.groups_found().len() && (#[trigger] s.groups_found()[g]).paths.contains(x)
            && s.groups_found()[g].paths.contains(y);
    let group = s.groups_found()[g];
    let sure = confirmed_groups(s.by_full, file_sizes(s.by_partial));
    let all = sure + s.deferred;
    law_ranking(all);
    assert(s.groups_found().contains(group));
    assert(all.contains(group));
    let a = choose|a: int| 0 <= a < all.len() && all[a] == group;
    let i = choose|i: int| 0 <= i < group.paths.len() && group.paths[i] == x;
    let j = choose|j: int| 0 <= j < group.paths.len() && group.paths[j] == y;
    if a < sure.len() {
        assert(sure[a] == group);
        let f = lemma_sure_from(s.by_full, file_sizes(s.by_partial), a);
        let key = s.by_full[f].key;
        assert(s.by_full[f].paths.contains(x) && s.by_full[f].paths.contains(y));
        lemma_noted_again(s, t, roots, threshold, found, other, disk, hs, ks, ht, kt, key, x);
        lemma_noted_again(s, t, roots, threshold, found, other, disk, hs, ks, ht, kt, key, y);
        lemma_noted_grouped(t, disk, key, x, y);
        let r = choose|r: int|
            0 <= r < t.groups_found().len() && (#[trigger] t.groups_found()[r]).paths.contains(x)
                && t.groups_found()[r].paths.contains(y) && t.groups_found()[r].confirmed;
        assert(t.groups_found()[r].paths.contains(x));
    } else {
        law_only_duplicates_are_found(s, roots, threshold, found, disk, hs, ks, g);
        lemma_deferred_from(open_buckets(s.by_partial, Set::empty()), threshold);
        assert(s.deferred[a - sure.len()] == group);
        assert(disk.quick(group.paths[i]) is Some && disk.quick(group.paths[j]) is Some);
        law_partial_key_splits(group.size, disk.quick(x).unwrap());
        law_partial_key_splits(group.size, disk.quick(y).unwrap());
        assert(belong_together(x, y, disk, threshold));
        law_alike_files_are_grouped(t, roots, threshold, other, disk, ht, kt, x, y);
        let r = choose|r: int|
            0 <= r < t.groups_found().len() && (#[trigger] t.groups_found()[r]).paths.contains(x)
                && t.groups_found()[r].paths.contains(y) && t.groups_found()[r].confirmed == !deferred_size(
                (disk.size)(x.parts).unwrap(),
                threshold,
            );
        assert(t.groups_found()[r].paths.contains(x));
    }
}

proof fn lemma_sure_from(t: TableV, sizes: Map<PathId, u64>, g: int) -> (i: int)
    requires
        0 <= g < confirmed_groups(t, sizes).len(),
    ensures
        0 <= i < t.len(),
        t[i].paths == confirmed_groups(t, sizes)[g].paths,
    decreases t.len(),
{
    let rest = t.drop_last();
    if g < confirmed_groups(rest, sizes).len() {
        let i = lemma_sure_from(rest, sizes, g);
        assert(confirmed_groups(t, sizes)[g] == confirmed_groups(rest, sizes)[g]);
        i
    } else {
        t.len() - 1
    }
}

/// A file that cannot be read is in no group, and leaves the others grouped as they
/// are where there is no such file, whatever their digests. Each file is reported once.
pub proof fn law_unreadable_file_changes_no_group(
    s: ScanV,
    t: ScanV,
    roots: Seq<RootKeyV>,
    threshold: u64,
    found: Seq<FoundV>,
    rest: Seq<FoundV>,
    disk: DiskV,
    hs: nat,
    ks: nat,
    ht: nat,
    kt: nat,
    unreadable: PathV,
    x: PathV,
    y: PathV,
)
    requires
        disk.wf(),
        (disk.content)(unreadable.parts) is None,
        scanned(s, roots, threshold, found, disk, hs, ks),
        scanned(t, roots, threshold, rest, disk, ht, kt),
        confirmed_groups(s.by_full, file_sizes(s.by_partial)).len() + s.deferred.len() <= usize::MAX,
        confirmed_groups(t.by_full, file_sizes(t.by_partial)).len() + t.deferred.len() <= usize::MAX,
        distinct_ids(files_found(found)),
        distinct_ids(files_found(rest)),
        forall|p: PathV| #[trigger]
            files_found(found).contains(p) <==> files_found(rest).contains(p) || p == unreadable,
        files_found(rest).contains(x),
        files_found(rest).contains(y),
        x != y,
    ensures
        together_in(s.groups_found(), x, y) <==> together_in(t.groups_found(), x, y),
        forall|g: int| 0 <= g < s.groups_found().len() ==> !(#[trigger] s.groups_found()[g]).paths.contains(unreadable),
{
    assert(files_found(found).contains(x) && files_found(found).contains(y));
    assert(same_readable(found, rest, disk));
    assert(same_readable(rest, found, disk));
    if together_in(s.groups_found(), x, y) {
        lemma_together_again(s, t, roots, threshold, found, rest, disk, hs, ks, ht, kt, x, y);
    }
    if together_in(t.groups_found(), x, y) {
        lemma_together_again(t, s, roots, threshold, rest, found, disk, ht, kt, hs, ks, x, y);
    }
    assert forall|g: int| 0 <= g < s.groups_found().len() implies !(#[trigger] s.groups_found()[g]).paths.contains(
        unreadable,
    ) by {
        law_only_duplicates_are_found(s, roots, threshold, found, disk, hs, ks, g);
        let group = s.groups_found()[g];
        if group.paths.contains(unreadable) {
            let i = choose|i: int| 0 <= i < group.paths.len() && group.paths[i] == unreadable;
            assert(disk.digest(group.paths[i]) is None && disk.quick(group.paths[i]) is None);
        }
    }
}

// ------------------------------------------------------- no content is lost

proof fn lemma_sure_keys(t: TableV, sizes: Map<PathId, u64>)
    requires
        keys_unique(t),
    ensures
        forall|g: int|
            0 <= g < confirmed_groups(t, sizes).len() ==> has_key(
                t,
                (#[trigger] confirmed_groups(t, sizes)[g]).file_hash,
            ),
        forall|a: int, b: int|
            0 <= a < b < confirmed_groups(t, sizes).len() ==> (#[trigger] confirmed_groups(t, sizes)[a]).file_hash != (
            #[trigger] confirmed_groups(t, sizes)[b]).file_hash,
    decreases t.len(),
{
    if t.len() > 0 {
        let s = t.drop_last();
        assert(keys_unique(s)) by {
            assert forall|i: int, j: int| 0 <= i < j < s.len() implies (#[trigger] s[i]).key != (#[trigger] s[j]).key by {
                assert(s[i] == t[i] && s[j] == t[j]);
            }
        }
        lemma_sure_keys(s, sizes);
        let (before, all) = (confirmed_groups(s, sizes), confirmed_groups(t, sizes));
        assert forall|g: int| 0 <= g < all.len() implies has_key(t, (#[trigger] all[g]).file_hash) by {
            if g < before.len() {
                assert(all[g] == before[g]);
                let i = choose|i: int| 0 <= i < s.len() && (#[trigger] s[i]).key == before[g].file_hash;
                assert(t[i].key == all[g].file_hash);
            } else {
                assert(t[t.len() - 1].key == all[g].file_hash);
            }
        }
        assert forall|a: int, b: int| 0 <= a < b < all.len() implies (#[trigger] all[a]).file_hash != (
        #[trigger] all[b]).file_hash by {
            assert(all[a] == before[a]);
            if b < before.len() {
                assert(all[b] == before[b]);
            } else {
                assert(has_key(s, before[a].file_hash));
                let i = choose|i: int| 0 <= i < s.len() && (#[trigger] s[i]).key == before[a].file_hash;
                assert(t[i].key != t[t.len() - 1].key);
            }
        }
    }
}

spec fn has_key(t: TableV, key: Seq<char>) -> bool {
    exists|i: int| 0 <= i < t.len() && (#[trigger] t[i]).key == key
}

/// The groups that a scan finds share no path, the confirmed ones no digest, and all
/// their paths are of files whose size is known.
pub proof fn lemma_scan_apart(
    s: ScanV,
    roots: Seq<RootKeyV>,
    threshold: u64,
    found: Seq<FoundV>,
    disk: DiskV,
    h: nat,
    k: nat,
)
    requires
        scanned(s, roots, threshold, found, disk, h, k),
        distinct_ids(files_found(found)),
        confirmed_groups(s.by_full, file_sizes(s.by_partial)).len() + s.deferred.len() <= usize::MAX,
    ensures
        s.groups_found().len() <= usize::MAX,
        groups_apart(s.groups_found()),
        forall|a: int, i: int|
            #![trigger s.groups_found()[a].paths[i]]
            0 <= a < s.groups_found().len() && 0 <= i < s.groups_found()[a].paths.len() ==> ids_of(
                all_paths(s.by_size),
            ).contains(s.groups_found()[a].paths[i].parts),
        paths_once(s.groups_found()),
{
    lemma_scanned(s, roots, threshold, found, disk, h, k);
    let sizes = file_sizes(s.by_partial);
    let sure = confirmed_groups(s.by_full, sizes);
    let all = sure + s.deferred;
    let groups = s.groups_found();
    let keys = all.map_values(|g: GroupV| heaviest_first(group_weight(g)));
    lemma_order_exists(keys);
    let perm = stable_order_of(keys);
    assert(is_stable_order(keys, perm));
    lemma_order_no_duplicates(keys, perm);
    lemma_sure_keys(s.by_full, sizes);
    lemma_deferred_from(open_buckets(s.by_partial, Set::empty()), threshold);
    assert forall|a: int, i: int, b: int, j: int|
        #![trigger groups[a].paths[i], groups[b].paths[j]]
        0 <= a < groups.len() && 0 <= i < groups[a].paths.len() && 0 <= b < groups.len() && 0 <= j
            < groups[b].paths.len() && groups[a].paths[i].parts == groups[b].paths[j].parts implies a == b && i == j by {
        let id = groups[a].paths[i].parts;
        lemma_distinct_once(files_found(found), id);
        law_every_file_once(s, roots, threshold, found, disk, h, k, a, i, b, j);
        let f = choose|f: int| 0 <= f < files_found(found).len() && (#[trigger] files_found(found)[f]).parts == id;
        lemma_times_member(files_found(found), f);
    }
    assert forall|a: int, b: int|
        0 <= a < groups.len() && 0 <= b < groups.len() && (#[trigger] groups[a]).confirmed && (
        #[trigger] groups[b]).confirmed && groups[a].file_hash == groups[b].file_hash implies a == b by {
        let (x, y) = (perm[a] as int, perm[b] as int);
        assert(groups[a] == all[x] && groups[b] == all[y]);
        if x >= sure.len() {
            assert(s.deferred[x - sure.len()] == groups[a]);
        }
        if y >= sure.len() {
            assert(s.deferred[y - sure.len()] == groups[b]);
        }
        assert(sure[x] == groups[a] && sure[y] == groups[b]);
        if x < y {
            assert(sure[x].file_hash != sure[y].file_hash);
        } else if y < x {
            assert(sure[y].file_hash != sure[x].file_hash);
        }
    }
    assert forall|a: int, i: int|
        #![trigger groups[a].paths[i]]
        0 <= a < groups.len() && 0 <= i < groups[a].paths.len() implies ids_of(all_paths(s.by_size)).contains(
        groups[a].paths[i].parts,
    ) by {
        let id = groups[a].paths[i].parts;
        assert(groups[a] == all[perm[a] as int]);
        lemma_grouped_member(all, perm[a] as int, i);
        lemma_scan_times(s, roots, threshold, found, disk, h, k, id);
        lemma_times_table(s.by_size, id);
        lemma_times_ids(all_paths(s.by_size), id);
    }
}

/// Removing what a scan found loses no content: of every group one copy stays where
/// it is, whichever of the duplicate folders are removed too and whichever groups are
/// passed over as too small, for files that do not change and digests that do not
/// collide. The files are reported once each, none is
/// a directory as well, each is absolute or lies in a root, and no root is an empty path
/// or a bare drive.
pub proof fn law_removal_loses_no_content(
    s: ScanV,
    roots: Seq<RootKeyV>,
    threshold: u64,
    found: Seq<FoundV>,
    disk: DiskV,
    h: nat,
    k: nat,
    scanned_roots: Seq<PathV>,
    chosen: Seq<FolderV>,
    min_size: u64,
    a: int,
) -> (m: int)
    requires
        scanned(s, roots, threshold, found, disk, h, k),
        distinct_ids(files_found(found)),
        confirmed_groups(s.by_full, file_sizes(s.by_partial)).len() + s.deferred.len() <= usize::MAX,
        searchable(all_paths(s.by_size), s.skipped, ids_of(scanned_roots)),
        no_collisions(tree_of(all_paths(s.by_size), s.skipped, s.groups_found(), ids_of(scanned_roots))),
        forall|i: int|
            0 <= i < all_paths(s.by_size).len() ==> !has_dir(
                dirs_of(all_paths(s.by_size) + s.skipped, top_roots(ids_of(scanned_roots))),
                (#[trigger] all_paths(s.by_size)[i]).parts,
            ),
        forall|c: int|
            0 <= c < chosen.len() ==> s.result(scanned_roots, roots).folder_groups.contains(#[trigger] chosen[c]),
        0 <= a < s.groups_found().len(),
    ensures
        0 <= m < s.groups_found()[a].paths.len(),
        leaves(removal_plan(s.groups_found(), chosen), s.groups_found()[a].paths[m].parts),
        leaves(
            removal_plan(groups_of_size(s.groups_found(), min_size), chosen),
            s.groups_found()[a].paths[m].parts,
        ),
{
    let groups = s.groups_found();
    let files = all_paths(s.by_size);
    let tree = tree_of(files, s.skipped, groups, ids_of(scanned_roots));
    lemma_scan_apart(s, roots, threshold, found, disk, h, k);
    law_only_duplicates_are_found(s, roots, threshold, found, disk, h, k, a);
    assert forall|b: int, i: int|
        #![trigger tree.groups[b].paths[i]]
        0 <= b < tree.groups.len() && 0 <= i < tree.groups[b].paths.len() implies ids_of(tree.files).contains(
        tree.groups[b].paths[i].parts,
    ) && !has_dir(tree.dirs, tree.groups[b].paths[i].parts) by {
        let id = groups[b].paths[i].parts;
        lemma_ids_concat(files, s.skipped);
        lemma_ids_has(files, id);
        let x = choose|x: int| 0 <= x < files.len() && (#[trigger] files[x]).parts == id;
        assert(!has_dir(tree.dirs, files[x].parts));
    }
    assert forall|c: int| 0 <= c < chosen.len() implies tree.duplicate_folders().contains(#[trigger] chosen[c]) by {
        assert(s.result(scanned_roots, roots).folder_groups.contains(chosen[c]));
    }
    law_removed_folders_leave_a_copy(files, s.skipped, groups, ids_of(scanned_roots), chosen, a);
    let m = law_plan_leaves_a_copy(groups, chosen, a);
    law_smaller_plan_leaves_more(groups, chosen, |g: GroupV| g.size >= min_size, groups[a].paths[m].parts);
    m
}

// ------------------------------------------------------------- steady all along

proof fn lemma_times_ids(paths: Seq<PathV>, id: PathId)
    ensures
        ids_of(paths).contains(id) <==> times(paths, id) > 0,
{
    lemma_ids_has(paths, id);
    if ids_of(paths).contains(id) {
        let i = choose|i: int| 0 <= i < paths.len() && (#[trigger] paths[i]).parts == id;
        lemma_times_member(paths, i);
    }
    if times(paths, id) > 0 {
        lemma_times_found(paths, id);
    }
}

proof fn lemma_times_table(t: TableV, id: PathId)
    ensures
        times_in(t, id) == times(all_paths(t), id),
    decreases t.len(),
{
    if t.len() > 0 {
        lemma_times_table(t.drop_last(), id);
        lemma_times_concat(all_paths(t.drop_last()), t.last().paths, id);
    }
}

proof fn lemma_once_distinct(paths: Seq<PathV>)
    requires
        forall|id: PathId| #[trigger] times(paths, id) <= 1,
    ensures
        distinct_ids(paths),
{
    assert forall|i: int, j: int| 0 <= i < j < paths.len() implies (#[trigger] paths[i]).parts != (#[trigger] paths[j]).parts by {
        if paths[i].parts == paths[j].parts {
            lemma_times_two(paths, i, j);
            assert(times(paths, paths[i].parts) <= 1);
        }
    }
}

proof fn lemma_distinct_once(paths: Seq<PathV>, id: PathId)
    requires
        distinct_ids(paths),
    ensures
        times(paths, id) <= 1,
    decreases paths.len(),
{
    if paths.len() > 0 {
        let s = paths.drop_last();
        assert(distinct_ids(s)) by {
            assert forall|i: int, j: int| 0 <= i < j < s.len() implies (#[trigger] s[i]).parts != (#[trigger] s[j]).parts by {
                assert(paths[i].parts != paths[j].parts);
            }
        }
        lemma_distinct_once(s, id);
        if paths.last().parts == id && times(s, id) > 0 {
            lemma_times_ids(s, id);
            lemma_ids_has(s, id);
            let i = choose|i: int| 0 <= i < s.len() && (#[trigger] s[i]).parts == id;
            assert(paths[i].parts != paths[paths.len() - 1].parts);
        }
    }
}

/// A walk adds the files that it reports to what a scan has, each as often as it is
/// reported.
proof fn lemma_walk_once(s: ScanV, found: Seq<FoundV>, disk: DiskV, id: PathId)
    ensures
        times_in(walked_all(s, found, disk).by_size, id) + times(walked_all(s, found, disk).skipped, id) == times_in(
            s.by_size,
            id,
        ) + times(s.skipped, id) + times(files_found(found), id),
    decreases found.len(),
{
    if found.len() > 0 {
        let rest = found.drop_last();
        lemma_walk_once(s, rest, disk, id);
        let before = walked_all(s, rest, disk);
        match found.last() {
            FoundV::Dir(_) => {},
            FoundV::File(p) => {
                lemma_times_push(files_found(rest), p, id);
                match (disk.size)(p.parts) {
                    Some(n) => lemma_times_added(before.by_size, decimal(n as nat), n, p, id),
                    None => lemma_times_push(before.skipped, p, id),
                }
            },
        }
    }
}

/// The files that a scan has after a walk are those that it had and those reported.
pub proof fn lemma_walk_files(s: ScanV, found: Seq<FoundV>, disk: DiskV)
    ensures
        ids_of(all_paths(walked_all(s, found, disk).by_size) + walked_all(s, found, disk).skipped) == ids_of(
            all_paths(s.by_size) + s.skipped + files_found(found),
        ),
        distinct_ids(all_paths(s.by_size) + s.skipped + files_found(found)) ==> distinct_ids(
            all_paths(walked_all(s, found, disk).by_size) + walked_all(s, found, disk).skipped,
        ),
{
    let w = walked_all(s, found, disk);
    let a = all_paths(w.by_size) + w.skipped;
    let b = all_paths(s.by_size) + s.skipped + files_found(found);
    assert forall|id: PathId| #[trigger] times(a, id) == times(b, id) by {
        lemma_walk_once(s, found, disk, id);
        lemma_times_table(w.by_size, id);
        lemma_times_table(s.by_size, id);
        lemma_times_concat(all_paths(w.by_size), w.skipped, id);
        lemma_times_concat(all_paths(s.by_size), s.skipped, id);
        lemma_times_concat(all_paths(s.by_size) + s.skipped, files_found(found), id);
    }
    assert forall|id: PathId| ids_of(a).contains(id) <==> ids_of(b).contains(id) by {
        lemma_times_ids(a, id);
        lemma_times_ids(b, id);
        assert(times(a, id) == times(b, id));
    }
    assert(ids_of(a) =~= ids_of(b));
    if distinct_ids(b) {
        assert forall|id: PathId| #[trigger] times(a, id) <= 1 by {
            lemma_distinct_once(b, id);
        }
        lemma_once_distinct(a);
    }
}

proof fn lemma_hash_once(t: TableV, batch: Seq<CandidateV>, disk: DiskV, id: PathId)
    ensures
        times_in(hashed(t, batch, quick_results(batch, disk)).by_partial, id) + times(
            hashed(t, batch, quick_results(batch, disk)).skipped,
            id,
        ) == times_in(t, id) + times(candidate_paths(batch), id),
    decreases batch.len(),
{
    let results = quick_results(batch, disk);
    if batch.len() > 0 {
        let rest = batch.drop_last();
        assert(results.drop_last() =~= quick_results(rest, disk));
        lemma_hash_once(t, rest, disk, id);
        let h = hashed(t, rest, quick_results(rest, disk));
        let c = batch.last();
        assert(candidate_paths(batch) =~= candidate_paths(rest).push(c.path));
        lemma_times_push(candidate_paths(rest), c.path, id);
        match results.last() {
            Some(digest) => lemma_times_added(h.by_partial, partial_key_text(c.size, digest), c.size, c.path, id),
            None => lemma_times_push(h.skipped, c.path, id),
        }
    } else {
        assert(candidate_paths(batch) =~= Seq::<PathV>::empty());
    }
}

/// A walk that reports each file once, and none that the scan has already, leaves a
/// scan that is steady, whether the scan is new or taken up again.
pub proof fn law_walk_leaves_steady(s: ScanV, found: Seq<FoundV>, disk: DiskV)
    requires
        s.phase == ScanPhase::Walking,
        canonical(s),
        in_first_stage(s),
        s.by_partial.len() == 0,
        s.by_full.len() == 0,
        distinct_ids(all_paths(s.by_size) + s.skipped + files_found(found)),
    ensures
        steady(walked_all(s, found, disk)),
        steady(walked_all(s, found, disk).after_walk(false)),
        walked_all(s, found, disk).after_walk(false).phase == ScanPhase::Hashing,
{
    lemma_walk_canonical(s, found, disk);
    let w = walked_all(s, found, disk);
    let n = w.after_walk(false);
    let none = PathV { text: Seq::empty(), parts: Seq::empty() };
    law_tables_stay_in_order(
        Seq::empty(),
        0,
        None,
        w,
        Seq::empty(),
        none,
        None,
        false,
        ScanStage::Scanning,
        Seq::empty(),
        Seq::empty(),
    );
    lemma_walk_files(s, found, disk);
    let all = all_paths(w.by_size) + w.skipped;
    assert forall|id: PathId| #[trigger] times(all_paths(w.by_size), id) <= 1 by {
        lemma_distinct_once(all, id);
        lemma_times_concat(all_paths(w.by_size), w.skipped, id);
    }
    lemma_once_distinct(all_paths(w.by_size));
    assert(w.saved_partial =~= Seq::empty());
    assert(n.by_partial.len() == 0);
    assert(all_paths(n.by_partial) =~= Seq::<PathV>::empty());
    assert(n.done_in(ScanStage::QuickHash) =~= Seq::<PathV>::empty());
    assert forall|id: PathId| !ids_of(Seq::<PathV>::empty()).contains(id) by {
        lemma_ids_has(Seq::<PathV>::empty(), id);
    }
    assert forall|id: PathId| #[trigger]
        worked_on(n).contains(id) && ids_of(all_paths(n.by_size)).contains(id) implies ids_of(
        n.done_in(ScanStage::QuickHash),
    ).contains(id) by {
        lemma_distinct_once(all, id);
        lemma_times_concat(all_paths(w.by_size), w.skipped, id);
        lemma_times_ids(all_paths(w.by_size), id);
        lemma_times_ids(w.skipped, id);
    }
}

pub proof fn lemma_walk_canonical(s: ScanV, found: Seq<FoundV>, disk: DiskV)
    requires
        s.phase == ScanPhase::Walking,
        canonical(s),
        in_first_stage(s),
        s.by_partial.len() == 0,
        s.by_full.len() == 0,
    ensures
        steady(walked_all(s, found, disk)),
        walked_all(s, found, disk).phase == ScanPhase::Walking,
        walked_all(s, found, disk).by_partial.len() == 0,
        walked_all(s, found, disk).by_full.len() == 0,
    decreases found.len(),
{
    if found.len() > 0 {
        lemma_walk_canonical(s, found.drop_last(), disk);
        let before = walked_all(s, found.drop_last(), disk);
        let (key, path) = match found.last() {
            FoundV::Dir(key) => (key, PathV { text: Seq::empty(), parts: Seq::empty() }),
            FoundV::File(p) => (Seq::empty(), p),
        };
        law_tables_stay_in_order(
            Seq::empty(),
            0,
            None,
            before,
            key,
            path,
            (disk.size)(path.parts),
            false,
            ScanStage::Scanning,
            Seq::empty(),
            Seq::empty(),
        );
    }
}

/// A scan stays steady through every batch of files hashed.
pub proof fn law_hashing_stays_steady(s: ScanV, disk: DiskV, n: nat)
    requires
        steady_hashing(s),
    ensures
        steady_hashing(hashed_all(s, disk, n)),
    decreases n,
{
    if n > 0 {
        law_hashing_stays_steady(s, disk, (n - 1) as nat);
        lemma_hash_steady(hashed_all(s, disk, (n - 1) as nat), disk);
    }
}

proof fn lemma_hash_steady(s: ScanV, disk: DiskV)
    requires
        steady_hashing(s),
    ensures
        steady_hashing(s.after_hashes(s.hash_batch().map_values(|c: CandidateV| disk.quick(c.path)))),
{
    let batch = s.hash_batch();
    let results = batch.map_values(|c: CandidateV| disk.quick(c.path));
    assert(results =~= quick_results(batch, disk));
    let n = s.after_hashes(results);
    let h = hashed(s.by_partial, batch, results);
    let none = PathV { text: Seq::empty(), parts: Seq::empty() };
    law_tables_stay_in_order(
        Seq::empty(),
        0,
        None,
        s,
        Seq::empty(),
        none,
        None,
        false,
        ScanStage::Scanning,
        results,
        Seq::empty(),
    );
    let taken = candidate_paths(s.candidates.take(s.at as int));
    let more = candidate_paths(s.candidates.take(n.at as int));
    assert(more =~= taken + candidate_paths(batch));
    lemma_ids_concat(taken, candidate_paths(batch));
    lemma_ids_concat(s.processed, taken);
    lemma_ids_concat(s.processed, more);
    lemma_ids_concat(s.skipped, h.skipped);
    let cp = candidate_paths(s.candidates);
    assert forall|id: PathId| true implies #[trigger] times(cp, id) <= 1 by {
        lemma_candidate_times(s.by_size, ids_of(s.processed), id);
        lemma_times_table(s.by_size, id);
        lemma_distinct_once(all_paths(s.by_size), id);
        assert(paths_of(s.candidates) =~= cp);
    }
    // What is hashed now was not hashed or skipped before.
    assert forall|id: PathId| #[trigger] ids_of(candidate_paths(batch)).contains(id) implies ids_of(
        all_paths(s.by_size),
    ).contains(id) && !worked_on(s).contains(id) by {
        lemma_ids_has(candidate_paths(batch), id);
        let i = choose|i: int| 0 <= i < candidate_paths(batch).len() && (#[trigger] candidate_paths(batch)[i]).parts == id;
        let c = s.candidates[s.at + i];
        assert(batch[i] == c);
        assert(s.candidates.contains(c));
        law_only_shared_sizes_hashed(s.by_size, ids_of(s.processed), c);
        let b = choose|b: int|
            0 <= b < s.by_size.len() && (#[trigger] s.by_size[b]).size == c.size && s.by_size[b].paths.len() >= 2
                && s.by_size[b].paths.contains(c.path);
        let j = choose|j: int| 0 <= j < s.by_size[b].paths.len() && s.by_size[b].paths[j] == c.path;
        lemma_ids_has(s.by_size[b].paths, id);
        assert(s.by_size[b].paths[j].parts == id);
        lemma_bucket_ids(s.by_size, b);
        if worked_on(s).contains(id) {
            assert(ids_of(s.done_in(ScanStage::QuickHash)).contains(id));
            assert(ids_of(taken).contains(id));
            lemma_times_ids(taken, id);
            lemma_times_ids(candidate_paths(batch), id);
            lemma_times_concat(taken, candidate_paths(batch), id);
            let left = candidate_paths(s.candidates.skip(n.at as int));
            assert(cp =~= more + left);
            lemma_times_concat(more, left, id);
            assert(times(cp, id) <= 1);
        }
    }
    assert forall|id: PathId| #[trigger] times(all_paths(n.by_partial), id) <= 1 by {
        lemma_once_more(s, disk, id);
    }
    lemma_once_distinct(all_paths(n.by_partial));
    assert forall|id: PathId| #[trigger]
        worked_on(n).contains(id) && ids_of(all_paths(n.by_size)).contains(id) implies ids_of(
        n.done_in(ScanStage::QuickHash),
    ).contains(id) by {
        lemma_once_more(s, disk, id);
        lemma_times_ids(all_paths(n.by_partial), id);
        lemma_times_ids(all_paths(s.by_partial), id);
        lemma_times_ids(h.skipped, id);
        lemma_times_ids(candidate_paths(batch), id);
        if !ids_of(candidate_paths(batch)).contains(id) {
            assert(worked_on(s).contains(id));
        }
    }
    assert forall|id: PathId| #[trigger] ids_of(all_paths(n.by_partial)).contains(id) implies ids_of(
        all_paths(n.by_size),
    ).contains(id) && !ids_of(n.skipped).contains(id) by {
        lemma_once_more(s, disk, id);
        lemma_times_ids(all_paths(n.by_partial), id);
        lemma_times_ids(all_paths(s.by_partial), id);
        lemma_times_ids(h.skipped, id);
        lemma_times_ids(candidate_paths(batch), id);
        lemma_times_ids(s.skipped, id);
        if ids_of(candidate_paths(batch)).contains(id) {
            assert(!worked_on(s).contains(id));
        } else {
            assert(ids_of(all_paths(s.by_partial)).contains(id));
        }
    }
}

/// A file that is hashed now stands once among what is hashed and skipped.
proof fn lemma_once_more(s: ScanV, disk: DiskV, id: PathId)
    requires
        steady_hashing(s),
        ids_of(candidate_paths(s.hash_batch())).contains(id) ==> !worked_on(s).contains(id),
    ensures
        ({
            let h = hashed(s.by_partial, s.hash_batch(), quick_results(s.hash_batch(), disk));
            &&& times(all_paths(h.by_partial), id) + times(h.skipped, id) == times(all_paths(s.by_partial), id) + times(
                candidate_paths(s.hash_batch()),
                id,
            )
            &&& times(all_paths(h.by_partial), id) + times(h.skipped, id) <= 1
        }),
{
    let batch = s.hash_batch();
    let h = hashed(s.by_partial, batch, quick_results(batch, disk));
    lemma_hash_once(s.by_partial, batch, disk, id);
    lemma_times_table(h.by_partial, id);
    lemma_times_table(s.by_partial, id);
    lemma_distinct_once(all_paths(s.by_partial), id);
    let cp = candidate_paths(s.candidates);
    let a = candidate_paths(s.candidates.take(s.at as int));
    let c = candidate_paths(s.candidates.skip(s.hash_end()));
    assert(cp =~= a + candidate_paths(batch) + c);
    lemma_times_concat(a, candidate_paths(batch), id);
    lemma_times_concat(a + candidate_paths(batch), c, id);
    lemma_candidate_times(s.by_size, ids_of(s.processed), id);
    lemma_times_table(s.by_size, id);
    lemma_distinct_once(all_paths(s.by_size), id);
    assert(paths_of(s.candidates) =~= cp);
    lemma_times_ids(candidate_paths(batch), id);
    lemma_times_ids(all_paths(s.by_partial), id);
}

/// When all files are hashed, the scan is steady where it begins to compare.
pub proof fn law_comparing_begins_steady(s: ScanV)
    requires
        steady_hashing(s),
        s.at == s.candidates.len(),
    ensures
        steady_confirming(s.confirming()),
{
    let n = s.confirming();
    let none = PathV { text: Seq::empty(), parts: Seq::empty() };
    law_tables_stay_in_order(
        Seq::empty(),
        0,
        None,
        s,
        Seq::empty(),
        none,
        None,
        false,
        ScanStage::Scanning,
        Seq::empty(),
        Seq::empty(),
    );
    assert forall|id: PathId| !ids_of(Seq::<PathV>::empty()).contains(id) by {
        lemma_ids_has(Seq::<PathV>::empty(), id);
    }
    let at = list_positions(s.saved_full);
    assert(at == Map::<PathId, usize>::empty());
    assert(fulls_loaded(s.saved_full).len() == 0);
    assert(s.settled() =~= Set::<PathId>::empty());
    assert(without(fulls_loaded(s.saved_full), stale_keys(s.open_at_start(), s.saved_full, at)).len() == 0);
    assert(all_paths(n.by_full) =~= Seq::<PathV>::empty());
}

/// A scan stays steady through every batch of files compared.
pub proof fn law_comparing_stays_steady(s: ScanV, disk: DiskV, n: nat)
    requires
        steady_confirming(s),
        s.at_batch + n <= s.batches.len(),
    ensures
        steady_confirming(confirmed_all(s, disk, n)),
        confirmed_all(s, disk, n).at_batch == s.at_batch + n,
        confirmed_all(s, disk, n).batches == s.batches,
    decreases n,
{
    if n > 0 {
        law_comparing_stays_steady(s, disk, (n - 1) as nat);
        lemma_confirm_steady(confirmed_all(s, disk, (n - 1) as nat), disk);
    }
}

proof fn lemma_member_id(paths: Seq<PathV>, p: PathV)
    requires
        paths.contains(p),
    ensures
        ids_of(paths).contains(p.parts),
{
    let i = choose|i: int| 0 <= i < paths.len() && paths[i] == p;
    lemma_ids_has(paths, p.parts);
    assert(paths[i].parts == p.parts);
}

proof fn lemma_extended_ids(t: TableV, key: Seq<char>, paths: Seq<PathV>, id: PathId)
    ensures
        ids_of(all_paths(extended(t, key, paths))).contains(id) <==> ids_of(all_paths(t)).contains(id) || ids_of(
            paths,
        ).contains(id),
{
    lemma_times_extended(t, key, paths, id);
    lemma_times_table(t, id);
    lemma_times_table(extended(t, key, paths), id);
    lemma_times_ids(all_paths(t), id);
    lemma_times_ids(all_paths(extended(t, key, paths)), id);
    lemma_times_ids(paths, id);
}

proof fn lemma_taken_ids(t: TableV, entries: Seq<EntryV>, groups: Seq<MatchV>, all: Seq<PathV>, disk: DiskV, id: PathId)
    requires
        groups_true(groups, all, disk),
    ensures
        ids_of(all_paths(t)).contains(id) ==> ids_of(all_paths(groups_taken(t, entries, groups).0)).contains(id),
        ids_of(all_paths(groups_taken(t, entries, groups).0)).contains(id) ==> ids_of(all_paths(t)).contains(id)
            || ids_of(all).contains(id),
    decreases groups.len(),
{
    if groups.len() > 0 {
        let rest = groups.drop_last();
        assert(groups_true(rest, all, disk)) by {
            assert forall|g: int, j: int|
                #![trigger rest[g].paths[j]]
                0 <= g < rest.len() && 0 <= j < rest[g].paths.len() implies all.contains(rest[g].paths[j])
                && disk.digest(rest[g].paths[j]) == Some(rest[g].digest) by {
                assert(rest[g].paths[j] == groups[g].paths[j]);
            }
        }
        lemma_taken_ids(t, entries, rest, all, disk, id);
        let u = groups_taken(t, entries, rest).0;
        let g = groups.last();
        lemma_extended_ids(u, g.digest, g.paths, id);
        if ids_of(g.paths).contains(id) {
            lemma_ids_has(g.paths, id);
            let j = choose|j: int| 0 <= j < g.paths.len() && (#[trigger] g.paths[j]).parts == id;
            assert(groups[groups.len() - 1].paths[j] == g.paths[j]);
            lemma_member_id(all, g.paths[j]);
        }
    }
}

proof fn lemma_confirm_ids(t: TableV, batch: Seq<Seq<PathV>>, disk: DiskV, id: PathId)
    ensures
        ({
            let c = confirmed(t, bucket_results(batch, disk));
            &&& ids_of(all_paths(t)).contains(id) ==> ids_of(all_paths(c.by_full)).contains(id)
            &&& ids_of(all_paths(c.by_full)).contains(id) ==> ids_of(all_paths(t)).contains(id) || ids_of(
                flat(batch),
            ).contains(id)
            &&& ids_of(c.skipped).contains(id) ==> ids_of(flat(batch)).contains(id)
        }),
    decreases batch.len(),
{
    let results = bucket_results(batch, disk);
    if batch.len() > 0 {
        let rest = batch.drop_last();
        let last = batch.last();
        assert(results.drop_last() =~= bucket_results(rest, disk));
        lemma_confirm_ids(t, rest, disk, id);
        let c = confirmed(t, bucket_results(rest, disk));
        let r = disk.resolve(last);
        assert(results.last() == r);
        lemma_bucket(last, disk, last[0], last[0]);
        lemma_taken_ids(c.by_full, c.entries, r.groups, last, disk, id);
        lemma_ids_concat(flat(rest), last);
        lemma_ids_concat(c.skipped, r.skipped);
        if ids_of(r.skipped).contains(id) {
            lemma_ids_has(r.skipped, id);
            let j = choose|j: int| 0 <= j < r.skipped.len() && (#[trigger] r.skipped[j]).parts == id;
            lemma_member_id(last, r.skipped[j]);
        }
    } else {
        lemma_ids_has(Seq::<PathV>::empty(), id);
    }
}

proof fn lemma_confirm_steady(s: ScanV, disk: DiskV)
    requires
        steady_confirming(s),
        s.at_batch < s.batches.len(),
    ensures
        steady_confirming(
            s.after_confirm(s.batches[s.at_batch as int].map_values(|b: Seq<PathV>| disk.resolve(b))),
        ),
{
    let batch = s.batches[s.at_batch as int];
    let results = batch.map_values(|b: Seq<PathV>| disk.resolve(b));
    assert(results =~= bucket_results(batch, disk));
    let n = s.after_confirm(results);
    let c = confirmed(s.by_full, results);
    let none = PathV { text: Seq::empty(), parts: Seq::empty() };
    law_tables_stay_in_order(
        Seq::empty(),
        0,
        None,
        s,
        Seq::empty(),
        none,
        None,
        false,
        ScanStage::Scanning,
        Seq::empty(),
        results,
    );
    let old_files = flat_batches(s.batches.take(s.at_batch as int));
    let new_files = flat_batches(s.batches.take(n.at_batch as int));
    let t = s.batches.take(n.at_batch as int);
    assert(t.drop_last() =~= s.batches.take(s.at_batch as int));
    assert(t.last() == batch);
    lemma_ids_concat(old_files, flat(batch));
    assert(new_files == old_files + flat(batch));
    lemma_ids_concat(s.skipped, c.skipped);
    assert(n.settled() == s.settled());
    assert forall|id: PathId| #[trigger] ids_of(all_paths(n.by_full)).contains(id) implies compared_now(n).contains(id) by {
        lemma_confirm_ids(s.by_full, batch, disk, id);
        if ids_of(all_paths(s.by_full)).contains(id) {
            assert(compared_now(s).contains(id));
        }
    }
    assert forall|id: PathId| #[trigger]
        ids_of(n.skipped).contains(id) && ids_of(all_paths(n.by_partial)).contains(id) implies compared_now(n).contains(
        id,
    ) by {
        lemma_confirm_ids(s.by_full, batch, disk, id);
        if ids_of(s.skipped).contains(id) {
            assert(compared_now(s).contains(id));
        }
    }
    assert forall|id: PathId| #[trigger]
        n.settled().contains(id) && ids_of(all_paths(n.by_partial)).contains(id) implies ids_of(
        all_paths(n.by_full),
    ).contains(id) || ids_of(n.compared_before()).contains(id) by {
        lemma_confirm_ids(s.by_full, batch, disk, id);
        assert(s.settled().contains(id));
    }
    assert(nothing_stale(n.by_partial, n.by_full, n.settled(), new_files)) by {
        assert forall|b: int, id: PathId|
            #![trigger n.by_partial[b], ids_of(all_paths(n.by_full)).contains(id)]
            0 <= b < n.by_partial.len() && unconfirmed(n.by_partial[b], n.settled()) && !oversized(n.by_partial[b].paths)
                && ids_of(n.by_partial[b].paths).contains(id) && n.settled().contains(id) && !ids_of(new_files).contains(
                id,
            ) implies !ids_of(all_paths(n.by_full)).contains(id) by {
            lemma_confirm_ids(s.by_full, batch, disk, id);
            assert(s.by_partial[b] == n.by_partial[b]);
            assert(!ids_of(all_paths(s.by_full)).contains(id));
        }
    }
}

/// A new scan of files at rest, each of which its walk reports once, is steady at
/// every point at which it can be cancelled: during the walk, between two batches
/// of files hashed, and between two batches of files compared. So wherever it is
/// cancelled, [`crate::resuming::law_resumed_scan_finds_the_same`] applies.
pub proof fn law_new_scan_is_steady(
    roots: Seq<RootKeyV>,
    threshold: u64,
    found: Seq<FoundV>,
    disk: DiskV,
    h: nat,
    k: nat,
)
    requires
        distinct_ids(files_found(found)),
    ensures
        ({
            let walked = walked_all(scan_begun(roots, threshold, None), found, disk);
            let hashes = hashed_all(walked.after_walk(false), disk, h);
            &&& steady(walked)
            &&& steady(hashes)
            &&& hashes.at == hashes.candidates.len() && k <= hashes.confirming().batches.len() ==> steady(
                confirmed_all(hashes.confirming(), disk, k),
            )
        }),
{
    let begun = scan_begun(roots, threshold, None);
    assert(all_paths(begun.by_size) + begun.skipped + files_found(found) =~= files_found(found));
    law_walk_leaves_steady(begun, found, disk);
    let walked = walked_all(begun, found, disk);
    law_hashing_stays_steady(walked.after_walk(false), disk, h);
    let hashes = hashed_all(walked.after_walk(false), disk, h);
    if hashes.at == hashes.candidates.len() && k <= hashes.confirming().batches.len() {
        law_comparing_begins_steady(hashes);
        law_comparing_stays_steady(hashes.confirming(), disk, k);
    }
}

// ------------------------------------------------------------------- run in parts

pub proof fn lemma_walked_concat(s: ScanV, a: Seq<FoundV>, b: Seq<FoundV>, disk: DiskV)
    ensures
        walked_all(s, a + b, disk) == walked_all(walked_all(s, a, disk), b, disk),
    decreases b.len(),
{
    if b.len() > 0 {
        lemma_walked_concat(s, a, b.drop_last(), disk);
        assert((a + b).drop_last() =~= a + b.drop_last());
        assert((a + b).last() == b.last());
    } else {
        assert(a + b =~= a);
    }
}

pub proof fn lemma_hashed_plus(s: ScanV, disk: DiskV, a: nat, b: nat)
    ensures
        hashed_all(s, disk, a + b) == hashed_all(hashed_all(s, disk, a), disk, b),
    decreases b,
{
    if b > 0 {
        lemma_hashed_plus(s, disk, a, (b - 1) as nat);
    }
}

pub proof fn lemma_hashed_over(s: ScanV, disk: DiskV, n: nat)
    requires
        s.at == s.candidates.len(),
    ensures
        hashed_all(s, disk, n) == s,
    decreases n,
{
    if n > 0 {
        lemma_hashed_over(s, disk, (n - 1) as nat);
        let batch = s.hash_batch();
        assert(batch =~= Seq::<CandidateV>::empty());
        assert(s.skipped + Seq::<PathV>::empty() =~= s.skipped);
        assert(hashed_all(s, disk, n) =~= s);
    }
}

pub proof fn lemma_confirmed_plus(s: ScanV, disk: DiskV, a: nat, b: nat)
    ensures
        confirmed_all(s, disk, a + b) == confirmed_all(confirmed_all(s, disk, a), disk, b),
    decreases b,
{
    if b > 0 {
        lemma_confirmed_plus(s, disk, a, (b - 1) as nat);
    }
}

/// A new scan that runs to its end is one that meets all its files.
pub proof fn law_uninterrupted_scan(roots: Seq<RootKeyV>, threshold: u64, found: Seq<FoundV>, disk: DiskV) -> (r: (nat, nat))
    ensures
        scanned(run_on(scan_begun(roots, threshold, None), found, disk), roots, threshold, found, disk, r.0, r.1),
{
    let begun = scan_begun(roots, threshold, None);
    lemma_walk(begun, found, disk);
    let walked = walked_all(begun, found, disk).after_walk(false);
    let h = (walked.candidates.len() - walked.at) as nat;
    lemma_hash_advances(walked, disk, h);
    let c = hashed_all(walked, disk, h).confirming();
    let k = (c.batches.len() - c.at_batch) as nat;
    lemma_confirm_count(c, disk, k);
    (h, k)
}

pub proof fn lemma_end_is_one(s: ScanV, disk: DiskV, a: nat, b: nat)
    requires
        hashed_all(s, disk, a).at == hashed_all(s, disk, a).candidates.len(),
        hashed_all(s, disk, b).at == hashed_all(s, disk, b).candidates.len(),
    ensures
        hashed_all(s, disk, a) == hashed_all(s, disk, b),
{
    if a <= b {
        lemma_hashed_plus(s, disk, a, (b - a) as nat);
        lemma_hashed_over(hashed_all(s, disk, a), disk, (b - a) as nat);
    } else {
        lemma_hashed_plus(s, disk, b, (a - b) as nat);
        lemma_hashed_over(hashed_all(s, disk, b), disk, (a - b) as nat);
    }
}

pub proof fn lemma_threshold(s: ScanV, found: Seq<FoundV>, disk: DiskV, h: nat, k: nat)
    ensures
        walked_all(s, found, disk).threshold == s.threshold,
        hashed_all(walked_all(s, found, disk).after_walk(false), disk, h).threshold == s.threshold,
        hashed_all(walked_all(s, found, disk).after_walk(false), disk, h).phase == ScanPhase::Hashing,
        confirmed_all(
            hashed_all(walked_all(s, found, disk).after_walk(false), disk, h).confirming(),
            disk,
            k,
        ).threshold == s.threshold,
        confirmed_all(
            hashed_all(walked_all(s, found, disk).after_walk(false), disk, h).confirming(),
            disk,
            k,
        ).phase == ScanPhase::Confirming,
    decreases found.len() + h + k,
{
    if found.len() > 0 {
        lemma_threshold(s, found.drop_last(), disk, 0, 0);
    }
    if h > 0 {
        lemma_threshold(s, found, disk, (h - 1) as nat, 0);
    }
    if k > 0 {
        lemma_threshold(s, found, disk, h, (k - 1) as nat);
    }
}

} // verus!
