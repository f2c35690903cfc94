//! A scan of directories and files at rest may be cancelled and taken up again any number
//! of times, at whatever points: it comes to what it would have come to without that.

use vstd::prelude::*;

use crate::guarantees::{
    confirmed_all, files_found, hashed_all, law_comparing_begins_steady, law_comparing_stays_steady,
    law_hashing_stays_steady, law_walk_leaves_steady, lemma_confirm_count, lemma_confirmed_plus, lemma_end_is_one,
    lemma_hash_advances, lemma_hashed_over, lemma_hashed_plus, lemma_threshold, lemma_walk_canonical,
    lemma_walk_files, lemma_walked_concat, walked_all, DiskV, FoundV,
};
use crate::paths::PathV;
use crate::resume::{root_keys_from, ResumeV, RootKeyV};
use crate::resuming::{
    before_comparing, distinct_ids, goes_on_like, is_saved_as, law_confirming_goes_on, law_hashing_goes_on,
    law_resumed_scan_finds_the_same, law_walking_goes_on, lemma_walk_alike, run_on, stage_of, steady,
    steady_confirming, steady_hashing,
};
use crate::scan::{roots_match, scan_begun, ScanPhase, ScanStage, ScanV};
use crate::scan_laws::{canonical, law_tables_stay_in_order, lemma_push_set};
use crate::tables::all_paths;
use crate::walk::{ids_of, lemma_ids_has, WalkV};
use crate::walk_laws::{
    dirs_found, has_keys, is_new_walk, law_walk_goes_on, law_walk_reports_once, lemma_dirs_concat, walk_again,
    walk_found, ListingV,
};

verus! {

// --------------------------------------------------------------- where a scan stands

/// A scan after its walk, where it has one to do.
pub open spec fn walk_done(b: ScanV, found: Seq<FoundV>, disk: DiskV) -> ScanV {
    if b.phase == ScanPhase::Walking {
        walked_all(b, found, disk).after_walk(false)
    } else {
        b
    }
}

/// Whether a scan that began as `b`, and whose walk reports `found`, comes to stand at `s`
/// before it ends: during the walk after `n` reports, after `h` batches of files hashed,
/// or after that and `k` batches of files compared. A scan that is taken up where files
/// are compared has none to hash, and is not cancelled before it goes on to compare.
pub open spec fn stands_at(s: ScanV, b: ScanV, found: Seq<FoundV>, disk: DiskV, n: nat, h: nat, k: nat) -> bool {
    let hashes = hashed_all(walk_done(b, found, disk), disk, h);
    match s.phase {
        ScanPhase::Walking => b.phase == ScanPhase::Walking && n <= found.len() && s == walked_all(
            b,
            found.take(n as int),
            disk,
        ),
        ScanPhase::Hashing => s == hashes && (s.at < s.candidates.len() || before_comparing(b)),
        ScanPhase::Confirming => hashes.at == hashes.candidates.len() && k <= hashes.confirming().batches.len() && s
            == confirmed_all(hashes.confirming(), disk, k),
        ScanPhase::Ended => false,
    }
}

/// A scan that was cancelled: where it stood, with how much of the walk, of the hashing
/// and of the comparing done since it began, and what was saved of it.
pub struct StopV {
    pub state: ScanV,
    pub reported: nat,
    pub hashed: nat,
    pub compared: nat,
    pub saved: ResumeV,
}

/// A scan as it begins after it was cancelled so often.
pub open spec fn begun_after(stops: Seq<StopV>, roots: Seq<RootKeyV>, threshold: u64) -> ScanV {
    scan_begun(
        roots,
        threshold,
        if stops.len() == 0 {
            None
        } else {
            Some(stops.last().saved)
        },
    )
}

/// What the walk of a scan reports, where the walk of a new scan is `w`.
pub open spec fn reports(b: ScanV, w: WalkV, dirs: Seq<PathV>, tree: ListingV) -> Seq<FoundV> {
    walk_found(b.walk_of(w), dirs, tree)
}

/// Whether a scan was cancelled and taken up again in this way: each time it stood
/// somewhere on its way from where it had begun, and what was saved is its snapshot or
/// what the store reads back of it.
pub open spec fn cancelled_so(
    stops: Seq<StopV>,
    roots: Seq<RootKeyV>,
    threshold: u64,
    w: WalkV,
    dirs: Seq<PathV>,
    tree: ListingV,
    disk: DiskV,
) -> bool
    decreases stops.len(),
{
    stops.len() == 0 || {
        let b = begun_after(stops.drop_last(), roots, threshold);
        let stop = stops.last();
        &&& cancelled_so(stops.drop_last(), roots, threshold, w, dirs, tree, disk)
        &&& stands_at(
            stop.state,
            b,
            reports(b, w, dirs, tree),
            disk,
            stop.reported,
            stop.hashed,
            stop.compared,
        )
        &&& is_saved_as(stop.saved, stop.state.cancelled_in(stage_of(stop.state)).snapshot(roots).unwrap())
    }
}

// ---------------------------------------------------------------- what is walked again

proof fn lemma_dirs_noted(s: ScanV, found: Seq<FoundV>, disk: DiskV)
    requires
        s.completed_dirs.len() == 0,
    ensures
        walked_all(s, found, disk).completed_dirs.to_set() == dirs_found(found).to_set(),
    decreases found.len(),
{
    if found.len() > 0 {
        let rest = found.drop_last();
        lemma_dirs_noted(s, rest, disk);
        if let FoundV::Dir(key) = found.last() {
            lemma_push_set(walked_all(s, rest, disk).completed_dirs, key);
            lemma_push_set(dirs_found(rest), key);
        }
    } else {
        assert(s.completed_dirs.to_set() =~= dirs_found(found).to_set());
    }
}

/// A scan that has found what a walk reports leaves that out of its own walk.
proof fn lemma_walk_left(
    b: ScanV,
    past: Seq<FoundV>,
    roots: Seq<RootKeyV>,
    threshold: u64,
    w: WalkV,
    disk: DiskV,
)
    requires
        is_new_walk(w),
        goes_on_like(b, walked_all(scan_begun(roots, threshold, None), past, disk)),
        b.phase == ScanPhase::Walking,
    ensures
        b.walk_of(w) == walk_again(w, past),
{
    let new = scan_begun(roots, threshold, None);
    lemma_dirs_noted(new, past, disk);
    lemma_walk_files(new, past, disk);
    assert(all_paths(new.by_size) + new.skipped + files_found(past) =~= files_found(past));
}

// ------------------------------------------------------------------ it begins well

/// What holds of a scan as it begins, new or taken up again, where `found` is all that
/// the walk of a new scan reports and `c` of that was reported before.
spec fn begins_well(
    b: ScanV,
    roots: Seq<RootKeyV>,
    threshold: u64,
    found: Seq<FoundV>,
    disk: DiskV,
    c: nat,
) -> bool {
    let new = scan_begun(roots, threshold, None);
    &&& b.threshold == threshold
    &&& match b.phase {
        ScanPhase::Walking => {
            &&& c <= found.len()
            &&& canonical(b)
            &&& b.by_partial.len() == 0
            &&& b.by_full.len() == 0
            &&& goes_on_like(b, walked_all(new, found.take(c as int), disk))
        },
        ScanPhase::Hashing => {
            ||| steady_hashing(b)
            ||| b.candidates.len() == 0 && b.at == 0 && !before_comparing(b) && steady_confirming(b.confirming())
        },
        _ => false,
    }
    &&& run_on(b, found.skip(c as int), disk).groups_found() == run_on(new, found, disk).groups_found()
    &&& run_on(b, found.skip(c as int), disk).skipped == run_on(new, found, disk).skipped
    &&& run_on(b, found.skip(c as int), disk).by_size == run_on(new, found, disk).by_size
}

proof fn lemma_new_begins_well(roots: Seq<RootKeyV>, threshold: u64, found: Seq<FoundV>, disk: DiskV)
    ensures
        begins_well(scan_begun(roots, threshold, None), roots, threshold, found, disk, 0),
{
    let new = scan_begun(roots, threshold, None);
    let none = PathV { text: Seq::empty(), parts: Seq::empty() };
    assert(found.take(0) =~= Seq::<FoundV>::empty());
    assert(found.skip(0) =~= found);
    assert(canonical(new)) by {
        assert(new.by_size =~= Seq::empty());
        assert(new.by_partial =~= Seq::empty());
        assert(new.by_full =~= Seq::empty());
        assert(new.completed_dirs =~= Seq::empty());
    }
    law_tables_stay_in_order(
        roots,
        threshold,
        None,
        new,
        Seq::empty(),
        none,
        None,
        false,
        ScanStage::Scanning,
        Seq::empty(),
        Seq::empty(),
    );
}

/// What a walk had found and what it still reports are distinct.
proof fn lemma_parts_distinct(
    b: ScanV,
    roots: Seq<RootKeyV>,
    threshold: u64,
    found: Seq<FoundV>,
    disk: DiskV,
    c: nat,
)
    requires
        c <= found.len(),
        distinct_ids(files_found(found)),
        goes_on_like(b, walked_all(scan_begun(roots, threshold, None), found.take(c as int), disk)),
    ensures
        distinct_ids(all_paths(b.by_size) + b.skipped + files_found(found.skip(c as int))),
{
    let new = scan_begun(roots, threshold, None);
    let (a, z) = (found.take(c as int), found.skip(c as int));
    let had = all_paths(b.by_size) + b.skipped;
    assert(a + z =~= found);
    lemma_dirs_concat(a, z);
    lemma_walk_files(new, a, disk);
    assert(all_paths(new.by_size) + new.skipped + files_found(a) =~= files_found(a));
    let (f, g, all) = (files_found(a), files_found(z), files_found(found));
    assert(distinct_ids(f)) by {
        assert forall|i: int, j: int| 0 <= i < j < f.len() implies (#[trigger] f[i]).parts != (#[trigger] f[j]).parts by {
            assert(all[i] == f[i] && all[j] == f[j]);
        }
    }
    let both = had + g;
    assert forall|i: int, j: int| 0 <= i < j < both.len() implies (#[trigger] both[i]).parts != (
    #[trigger] both[j]).parts by {
        if j < had.len() {
            assert(had[i].parts != had[j].parts);
        } else if i >= had.len() {
            let (x, y) = (i - had.len() + f.len(), j - had.len() + f.len());
            assert(all[x] == both[i] && all[y] == both[j]);
            assert(all[x].parts != all[y].parts);
        } else {
            let id = had[i].parts;
            lemma_ids_has(had, id);
            lemma_ids_has(f, id);
            assert(ids_of(f).contains(id));
            let x = choose|x: int| 0 <= x < f.len() && (#[trigger] f[x]).parts == id;
            let y = j - had.len() + f.len();
            assert(all[x] == f[x] && all[y] == both[j]);
            assert(all[x].parts != all[y].parts);
        }
    }
}

/// Where a scan stands on its way it is steady, and going on from there comes to what it
/// would have come to.
proof fn lemma_stands_well(
    s: ScanV,
    b: ScanV,
    roots: Seq<RootKeyV>,
    threshold: u64,
    found: Seq<FoundV>,
    disk: DiskV,
    c: nat,
    n: nat,
    h: nat,
    k: nat,
)
    requires
        distinct_ids(files_found(found)),
        begins_well(b, roots, threshold, found, disk, c),
        stands_at(s, b, found.skip(c as int), disk, n, h, k),
    ensures
        steady(s),
        s.threshold == threshold,
        run_on(
            s,
            if s.phase == ScanPhase::Walking {
                found.skip((c + n) as int)
            } else {
                found.skip(c as int)
            },
            disk,
        ) == run_on(b, found.skip(c as int), disk),
{
    let left = found.skip(c as int);
    let start = walk_done(b, left, disk);
    if b.phase == ScanPhase::Walking {
        lemma_parts_distinct(b, roots, threshold, found, disk, c);
        lemma_walk_canonical(b, left.take(n as int), disk);
        law_walk_leaves_steady(b, left, disk);
        lemma_threshold(b, left.take(n as int), disk, 0, 0);
        lemma_threshold(b, left, disk, h, k);
    } else {
        lemma_later_threshold(b, disk, h, k);
    }
    if s.phase == ScanPhase::Walking {
        assert(left.take(n as int) + found.skip((c + n) as int) =~= left);
        lemma_walked_concat(b, left.take(n as int), found.skip((c + n) as int), disk);
    } else {
        let m = (start.candidates.len() - start.at) as nat;
        lemma_hash_advances(start, disk, m);
        lemma_hash_advances(start, disk, h);
        let hashes = hashed_all(start, disk, h);
        if steady_hashing(start) {
            law_hashing_stays_steady(start, disk, h);
        } else {
            lemma_hashed_over(start, disk, h);
        }
        if s.phase == ScanPhase::Hashing {
            let more = (s.candidates.len() - s.at) as nat;
            lemma_hashed_plus(start, disk, h, more);
            lemma_hash_advances(s, disk, more);
            lemma_end_is_one(start, disk, m, h + more);
        } else {
            lemma_end_is_one(start, disk, m, h);
            let d = hashes.confirming();
            if steady_hashing(start) {
                law_comparing_begins_steady(hashes);
            }
            law_comparing_stays_steady(d, disk, k);
            let more = (s.batches.len() - s.at_batch) as nat;
            lemma_confirmed_plus(d, disk, k, more);
            lemma_confirm_count(d, disk, k);
        }
    }
}

proof fn lemma_later_threshold(b: ScanV, disk: DiskV, h: nat, k: nat)
    ensures
        hashed_all(b, disk, h).threshold == b.threshold,
        confirmed_all(hashed_all(b, disk, h).confirming(), disk, k).threshold == b.threshold,
    decreases h + k,
{
    if h > 0 {
        lemma_later_threshold(b, disk, (h - 1) as nat, 0);
    }
    if k > 0 {
        lemma_later_threshold(b, disk, h, (k - 1) as nat);
    }
}

proof fn lemma_walk_begins_again(
    s: ScanV,
    b: ScanV,
    roots: Seq<RootKeyV>,
    threshold: u64,
    found: Seq<FoundV>,
    disk: DiskV,
    c: nat,
    n: nat,
    rs: ResumeV,
)
    requires
        distinct_ids(files_found(found)),
        begins_well(b, roots, threshold, found, disk, c),
        stands_at(s, b, found.skip(c as int), disk, n, 0, 0),
        s.phase == ScanPhase::Walking,
        roots_match(root_keys_from(roots), roots),
        is_saved_as(rs, s.cancelled_in(ScanStage::Scanning).snapshot(roots).unwrap()),
    ensures
        begins_well(scan_begun(roots, threshold, Some(rs)), roots, threshold, found, disk, c + n),
{
    let new = scan_begun(roots, threshold, None);
    let left = found.skip(c as int);
    let r = c + n;
    let none = PathV { text: Seq::empty(), parts: Seq::empty() };
    lemma_stands_well(s, b, roots, threshold, found, disk, c, n, 0, 0);
    law_resumed_scan_finds_the_same(s, roots, rs, found.skip(r as int), disk);
    law_walking_goes_on(s, roots, rs);
    lemma_walk_alike(b, walked_all(new, found.take(c as int), disk), left.take(n as int), disk);
    assert(found.take(c as int) + left.take(n as int) =~= found.take(r as int));
    lemma_walked_concat(new, found.take(c as int), left.take(n as int), disk);
    law_tables_stay_in_order(
        roots,
        threshold,
        Some(rs),
        s,
        Seq::empty(),
        none,
        None,
        false,
        ScanStage::Scanning,
        Seq::empty(),
        Seq::empty(),
    );
}

/// A scan that began well, and was cancelled on its way, begins well again.
proof fn lemma_begins_well_again(
    s: ScanV,
    b: ScanV,
    roots: Seq<RootKeyV>,
    threshold: u64,
    found: Seq<FoundV>,
    disk: DiskV,
    c: nat,
    n: nat,
    h: nat,
    k: nat,
    rs: ResumeV,
) -> (r: nat)
    requires
        distinct_ids(files_found(found)),
        begins_well(b, roots, threshold, found, disk, c),
        stands_at(s, b, found.skip(c as int), disk, n, h, k),
        roots_match(root_keys_from(roots), roots),
        is_saved_as(rs, s.cancelled_in(stage_of(s)).snapshot(roots).unwrap()),
    ensures
        begins_well(scan_begun(roots, threshold, Some(rs)), roots, threshold, found, disk, r),
{
    let left = found.skip(c as int);
    if s.phase == ScanPhase::Walking {
        lemma_walk_begins_again(s, b, roots, threshold, found, disk, c, n, rs);
        c + n
    } else {
        lemma_stands_well(s, b, roots, threshold, found, disk, c, n, h, k);
        law_resumed_scan_finds_the_same(s, roots, rs, left, disk);
        if s.phase == ScanPhase::Hashing {
            law_hashing_goes_on(s, roots, rs);
        } else {
            law_confirming_goes_on(s, roots, rs);
        }
        c
    }
}

/// What the walk of a scan that begins well reports.
proof fn lemma_reports(
    b: ScanV,
    roots: Seq<RootKeyV>,
    threshold: u64,
    w: WalkV,
    dirs: Seq<PathV>,
    tree: ListingV,
    keys: Set<Seq<char>>,
    disk: DiskV,
    c: nat,
)
    requires
        is_new_walk(w),
        has_keys(tree, keys),
        distinct_ids(files_found(walk_found(w, dirs, tree))),
        begins_well(b, roots, threshold, walk_found(w, dirs, tree), disk, c),
        b.phase == ScanPhase::Walking,
    ensures
        reports(b, w, dirs, tree) == walk_found(w, dirs, tree).skip(c as int),
{
    let found = walk_found(w, dirs, tree);
    lemma_walk_left(b, found.take(c as int), roots, threshold, w, disk);
    law_walk_goes_on(w, dirs, tree, keys, c);
}

proof fn lemma_always_begins_well(
    stops: Seq<StopV>,
    roots: Seq<RootKeyV>,
    threshold: u64,
    w: WalkV,
    dirs: Seq<PathV>,
    tree: ListingV,
    keys: Set<Seq<char>>,
    disk: DiskV,
) -> (c: nat)
    requires
        is_new_walk(w),
        has_keys(tree, keys),
        distinct_ids(files_found(walk_found(w, dirs, tree))),
        roots_match(root_keys_from(roots), roots),
        cancelled_so(stops, roots, threshold, w, dirs, tree, disk),
    ensures
        begins_well(begun_after(stops, roots, threshold), roots, threshold, walk_found(w, dirs, tree), disk, c),
    decreases stops.len(),
{
    let found = walk_found(w, dirs, tree);
    if stops.len() == 0 {
        lemma_new_begins_well(roots, threshold, found, disk);
        0
    } else {
        let stop = stops.last();
        let c = lemma_always_begins_well(stops.drop_last(), roots, threshold, w, dirs, tree, keys, disk);
        let b = begun_after(stops.drop_last(), roots, threshold);
        if b.phase == ScanPhase::Walking {
            lemma_reports(b, roots, threshold, w, dirs, tree, keys, disk, c);
        }
        lemma_begins_well_again(
            stop.state,
            b,
            roots,
            threshold,
            found,
            disk,
            c,
            stop.reported,
            stop.hashed,
            stop.compared,
            stop.saved,
        )
    }
}

proof fn lemma_never_cancelled(s: ScanV, found: Seq<FoundV>, disk: DiskV, h: nat, k: nat)
    ensures
        walked_all(s, found, disk).cancelled == s.cancelled,
        hashed_all(s, disk, h).cancelled == s.cancelled,
        confirmed_all(s, disk, k).cancelled == s.cancelled,
    decreases found.len() + h + k,
{
    if found.len() > 0 {
        lemma_never_cancelled(s, found.drop_last(), disk, 0, 0);
    }
    if h > 0 {
        lemma_never_cancelled(s, Seq::empty(), disk, (h - 1) as nat, 0);
    }
    if k > 0 {
        lemma_never_cancelled(s, Seq::empty(), disk, 0, (k - 1) as nat);
    }
}

/// A scan that is run to its end is not cancelled on the way.
proof fn lemma_runs_on(s: ScanV, found: Seq<FoundV>, disk: DiskV)
    ensures
        run_on(s, found, disk).cancelled == s.cancelled,
{
    let start = walk_done(s, found, disk);
    let h = (start.candidates.len() - start.at) as nat;
    let d = if start.phase == ScanPhase::Hashing {
        hashed_all(start, disk, h).confirming()
    } else {
        start
    };
    let k = (d.batches.len() - d.at_batch) as nat;
    lemma_never_cancelled(s, found, disk, 0, 0);
    lemma_never_cancelled(start, Seq::empty(), disk, h, 0);
    lemma_never_cancelled(d, Seq::empty(), disk, 0, k);
}

/// A scan of directories and files at rest that is cancelled, saved and taken up again
/// any number of times, each time at whatever point - while directories are walked, while
/// files are hashed or while they are compared - comes to the result of a scan that was
/// never cancelled: the same groups of files and of folders, and the same files skipped.
/// Each time the walk is the one that [`crate::scan::Scan::walker`] gives. That no
/// directory lists two files of one name is all that is asked of the tree.
pub proof fn law_cancelling_changes_nothing(
    stops: Seq<StopV>,
    roots: Seq<RootKeyV>,
    threshold: u64,
    w: WalkV,
    dirs: Seq<PathV>,
    tree: ListingV,
    keys: Set<Seq<char>>,
    disk: DiskV,
    scanned: Seq<PathV>,
)
    requires
        is_new_walk(w),
        has_keys(tree, keys),
        tree.names_once(),
        roots_match(root_keys_from(roots), roots),
        cancelled_so(stops, roots, threshold, w, dirs, tree, disk),
    ensures
        ({
            let b = begun_after(stops, roots, threshold);
            let new = scan_begun(roots, threshold, None);
            let end = run_on(b, reports(b, w, dirs, tree), disk);
            let unbroken = run_on(new, walk_found(w, dirs, tree), disk);
            &&& end.groups_found() == unbroken.groups_found()
            &&& end.skipped == unbroken.skipped
            &&& end.result(scanned, roots) == unbroken.result(scanned, roots)
        }),
{
    law_walk_reports_once(w, dirs, tree, keys);
    lemma_runs_on(begun_after(stops, roots, threshold), reports(begun_after(stops, roots, threshold), w, dirs, tree), disk);
    lemma_runs_on(scan_begun(roots, threshold, None), walk_found(w, dirs, tree), disk);
    let c = lemma_always_begins_well(stops, roots, threshold, w, dirs, tree, keys, disk);
    let b = begun_after(stops, roots, threshold);
    if b.phase == ScanPhase::Walking {
        lemma_reports(b, roots, threshold, w, dirs, tree, keys, disk, c);
    }
}

} // verus!
