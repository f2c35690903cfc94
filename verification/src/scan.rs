//! A scan for duplicate files, stage by stage: by size, by the hash of the
//! beginning, by content. Only buckets of two or more files go on from one stage
//! to the next.
//!
//! The scan decides what to read and takes note of what was read. Each of its
//! steps says what is to be saved, so that a scan that is cut short can be taken
//! up again.

use vstd::hash_set::StringHashSet;
use vstd::prelude::*;

use crate::bucket::{BucketResult, BucketResultV, MatchGroup, MatchV};
use crate::filetypes::ExtensionFilter;
use crate::folders::{count_folders, dirs_of, find_duplicate_folders, top_roots, tree_of};
use crate::groups::{
    partial_key, partial_key_text, plus_wrapping, rank_groups, ranked, wrapped, DuplicateGroup, FolderGroup, FolderV,
    GroupV,
};
use crate::paths::{FilePath, PathId, PathMap, PathSet, PathV};
use crate::resume::{
    collect_roots, recorded_root, root_key_of, root_keys_from, CheckpointDelta, DeltaV, Entry, EntryV, ResumeState,
    ResumeV, RootKey, RootKeyV,
};
use crate::tables::{
    added, all_paths, copy_paths, distinct, extended, lists_of, mark_paths, marked, noted, put, without, Bucket,
    BucketV, KeyList, ListV, PathList, Table, TableV,
};
use crate::text::{
    copy_texts, decimal, decimal_text, parse_u64, parsed_number, same_text, split_at_first, split_first,
};
use crate::walk::{ids_of, new_walk, path_set, WalkV, Walker};

verus! {

/// How many walked entries may be unsaved before a checkpoint is due.
pub const CHECKPOINT_INTERVAL: usize = 2000;

/// How many files are hashed between two looks at the cancel flag.
pub const BATCH_SIZE: usize = 1000;

// --------------------------------------------------------------------- stages

/// The stages of a scan.
#[derive(Clone, Copy, Debug, PartialEq, Eq, Structural)]
pub enum ScanStage {
    Scanning,
    QuickHash,
    FullHash,
}

/// The name of a stage, as it is saved.
pub open spec fn stage_text(stage: ScanStage) -> Seq<char> {
    match stage {
        ScanStage::Scanning => "scanning"@,
        ScanStage::QuickHash => "quick_hash"@,
        ScanStage::FullHash => "full_hash"@,
    }
}

pub fn stage_name(stage: ScanStage) -> (r: String)
    ensures
        r@ == stage_text(stage),
{
    (match stage {
        ScanStage::Scanning => "scanning",
        ScanStage::QuickHash => "quick_hash",
        ScanStage::FullHash => "full_hash",
    }).to_string()
}

/// The stage of a name. An unknown name stands for no stage: the scan begins
/// anew.
pub open spec fn stage_named(name: Seq<char>) -> Option<ScanStage> {
    if name == "scanning"@ {
        Some(ScanStage::Scanning)
    } else if name == "quick_hash"@ {
        Some(ScanStage::QuickHash)
    } else if name == "full_hash"@ {
        Some(ScanStage::FullHash)
    } else {
        None
    }
}

pub fn stage_from(name: &str) -> (r: Option<ScanStage>)
    ensures
        r == stage_named(name@),
{
    if same_text(name, "scanning") {
        Some(ScanStage::Scanning)
    } else if same_text(name, "quick_hash") {
        Some(ScanStage::QuickHash)
    } else if same_text(name, "full_hash") {
        Some(ScanStage::FullHash)
    } else {
        None
    }
}

/// Every stage has a name of its own.
pub proof fn lemma_stage_names()
    ensures
        forall|stage: ScanStage| stage_named(#[trigger] stage_text(stage)) == Some(stage),
{
    reveal_strlit("scanning");
    reveal_strlit("quick_hash");
    reveal_strlit("full_hash");
    assert("scanning"@[0] == 's' && "quick_hash"@[0] == 'q' && "full_hash"@[0] == 'f');
}

// -------------------------------------------------------------- taking up again

/// Whether every directory that a snapshot knows still leads where it did.
pub open spec fn roots_match(saved: Seq<RootKeyV>, roots: Seq<RootKeyV>) -> bool {
    forall|i: int|
        0 <= i < roots.len() ==> match root_key_of(saved, (#[trigger] roots[i]).directory) {
            Some(key) => key == roots[i].key,
            None => true,
        }
}

/// Whether a snapshot fits the directories as they are now.
pub fn resume_roots_match(resume_state: &ResumeState, roots: &Vec<RootKey>) -> (r: bool)
    ensures
        r == roots_match(resume_state@.root_keys, roots.deep_view()),
{
    let mut i: usize = 0;
    while i < roots.len()
        invariant
            i <= roots@.len(),
            forall|j: int|
                0 <= j < i ==> match root_key_of(resume_state@.root_keys, (#[trigger] roots.deep_view()[j]).directory) {
                    Some(key) => key == roots.deep_view()[j].key,
                    None => true,
                },
        decreases roots@.len() - i,
    {
        assert(roots.deep_view()[i as int] == roots@[i as int]@);
        match recorded_root(&resume_state.root_keys, roots[i].directory.as_str()) {
            Some(recorded) => {
                if !same_text(recorded.as_str(), roots[i].key.as_str()) {
                    return false;
                }
            },
            None => {},
        }
        i = i + 1;
    }
    true
}

/// Saved lists by size as a table. A key that is no number is passed over.
pub open spec fn sizes_loaded(lists: Seq<ListV>) -> TableV
    decreases lists.len(),
{
    if lists.len() == 0 {
        Seq::empty()
    } else {
        let before = sizes_loaded(lists.drop_last());
        match parsed_number(lists.last().key, u64::MAX as nat) {
            Some(n) => put(before, decimal(n), n as u64, lists.last().paths),
            None => before,
        }
    }
}

/// The size and the hash in a key of the quick stage.
pub open spec fn partial_parts(key: Seq<char>) -> Option<(nat, Seq<char>)> {
    match split_first(key, ':') {
        Some((a, b)) => match parsed_number(a, u64::MAX as nat) {
            Some(n) => Some((n, b)),
            None => None,
        },
        None => None,
    }
}

/// Saved lists by size and quick hash as a table. A key of another form is
/// passed over.
pub open spec fn partials_loaded(lists: Seq<ListV>) -> TableV
    decreases lists.len(),
{
    if lists.len() == 0 {
        Seq::empty()
    } else {
        let before = partials_loaded(lists.drop_last());
        match partial_parts(lists.last().key) {
            Some((n, hash)) => put(before, partial_key_text(n as u64, hash), n as u64, lists.last().paths),
            None => before,
        }
    }
}

/// Saved lists by digest as a table.
pub open spec fn fulls_loaded(lists: Seq<ListV>) -> TableV
    decreases lists.len(),
{
    if lists.len() == 0 {
        Seq::empty()
    } else {
        put(fulls_loaded(lists.drop_last()), lists.last().key, 0, lists.last().paths)
    }
}

fn load_sizes(lists: &Vec<PathList>) -> (r: Table)
    ensures
        r.wf(),
        r@ == sizes_loaded(lists.deep_view()),
{
    let mut r = Table::new();
    let mut i: usize = 0;
    assert(lists.deep_view().take(0) =~= Seq::<ListV>::empty());
    while i < lists.len()
        invariant
            i <= lists@.len(),
            r.wf(),
            r@ == sizes_loaded(lists.deep_view().take(i as int)),
        decreases lists@.len() - i,
    {
        let ghost t = lists.deep_view().take(i + 1);
        assert(t.drop_last() =~= lists.deep_view().take(i as int));
        assert(t.last() == lists@[i as int]@);
        match parse_u64(lists[i].key.as_str()) {
            Some(n) => {
                r.set(decimal_text(n), n, copy_paths(&lists[i].paths));
            },
            None => {},
        }
        i = i + 1;
    }
    assert(lists.deep_view().take(i as int) =~= lists.deep_view());
    r
}

fn load_partials(lists: &Vec<PathList>) -> (r: Table)
    ensures
        r.wf(),
        r@ == partials_loaded(lists.deep_view()),
{
    let mut r = Table::new();
    let mut i: usize = 0;
    assert(lists.deep_view().take(0) =~= Seq::<ListV>::empty());
    while i < lists.len()
        invariant
            i <= lists@.len(),
            r.wf(),
            r@ == partials_loaded(lists.deep_view().take(i as int)),
        decreases lists@.len() - i,
    {
        let ghost t = lists.deep_view().take(i + 1);
        assert(t.drop_last() =~= lists.deep_view().take(i as int));
        assert(t.last() == lists@[i as int]@);
        match split_at_first(lists[i].key.as_str(), ':') {
            Some((size_text, hash)) => {
                match parse_u64(size_text.as_str()) {
                    Some(n) => {
                        r.set(partial_key(n, hash.as_str()), n, copy_paths(&lists[i].paths));
                    },
                    None => {},
                }
            },
            None => {},
        }
        i = i + 1;
    }
    assert(lists.deep_view().take(i as int) =~= lists.deep_view());
    r
}

fn load_fulls(lists: &Vec<PathList>) -> (r: Table)
    ensures
        r.wf(),
        r@ == fulls_loaded(lists.deep_view()),
{
    let mut r = Table::new();
    let mut i: usize = 0;
    assert(lists.deep_view().take(0) =~= Seq::<ListV>::empty());
    while i < lists.len()
        invariant
            i <= lists@.len(),
            r.wf(),
            r@ == fulls_loaded(lists.deep_view().take(i as int)),
        decreases lists@.len() - i,
    {
        let ghost t = lists.deep_view().take(i + 1);
        assert(t.drop_last() =~= lists.deep_view().take(i as int));
        assert(t.last() == lists@[i as int]@);
        r.set(lists[i].key.clone(), 0, copy_paths(&lists[i].paths));
        i = i + 1;
    }
    assert(lists.deep_view().take(i as int) =~= lists.deep_view());
    r
}

// ------------------------------------------------------------------ quick hash

/// A file whose beginning is to be hashed.
#[derive(Debug)]
pub struct Candidate {
    pub size: u64,
    pub path: FilePath,
}

pub struct CandidateV {
    pub size: u64,
    pub path: PathV,
}

impl View for Candidate {
    type V = CandidateV;

    open spec fn view(&self) -> CandidateV {
        CandidateV { size: self.size, path: self.path@ }
    }
}

impl DeepView for Candidate {
    type V = CandidateV;

    open spec fn deep_view(&self) -> CandidateV {
        self@
    }
}

/// The paths of files to hash.
pub open spec fn candidate_paths(list: Seq<CandidateV>) -> Seq<PathV> {
    list.map_values(|c: CandidateV| c.path)
}

/// The files of one bucket that were not processed before.
pub open spec fn unprocessed(size: u64, paths: Seq<PathV>, done: Set<PathId>) -> Seq<CandidateV>
    decreases paths.len(),
{
    if paths.len() == 0 {
        Seq::empty()
    } else if done.contains(paths.last().parts) {
        unprocessed(size, paths.drop_last(), done)
    } else {
        unprocessed(size, paths.drop_last(), done).push(CandidateV { size, path: paths.last() })
    }
}

/// The files to hash: those that share their size with another file and were
/// not processed before.
pub open spec fn candidates_of(by_size: TableV, done: Set<PathId>) -> Seq<CandidateV>
    decreases by_size.len(),
{
    if by_size.len() == 0 {
        Seq::empty()
    } else {
        let before = candidates_of(by_size.drop_last(), done);
        if by_size.last().paths.len() < 2 {
            before
        } else {
            before + unprocessed(by_size.last().size, by_size.last().paths, done)
        }
    }
}

fn push_unprocessed(out: &mut Vec<Candidate>, bucket: &Bucket, done: &PathSet)
    ensures
        final(out).deep_view() == old(out).deep_view() + unprocessed(bucket@.size, bucket@.paths, done@),
{
    let ghost all = bucket@.paths;
    let mut i: usize = 0;
    assert(all.take(0) =~= Seq::<PathV>::empty());
    assert(out.deep_view() =~= old(out).deep_view() + unprocessed(bucket@.size, all.take(0), done@));
    while i < bucket.paths.len()
        invariant
            i <= bucket.paths@.len(),
            all == bucket@.paths,
            out.deep_view() == old(out).deep_view() + unprocessed(bucket@.size, all.take(i as int), done@),
        decreases bucket.paths@.len() - i,
    {
        let ghost t = all.take(i + 1);
        assert(t.drop_last() =~= all.take(i as int));
        assert(t.last() == bucket.paths@[i as int]@);
        if !done.contains(&bucket.paths[i]) {
            let ghost before = out.deep_view();
            let c = Candidate { size: bucket.size, path: bucket.paths[i].clone() };
            let ghost cv = c@;
            out.push(c);
            assert(out.deep_view() =~= before.push(cv));
            assert(out.deep_view() =~= old(out).deep_view() + unprocessed(bucket@.size, t, done@));
        }
        i = i + 1;
    }
    assert(all.take(i as int) =~= all);
}

fn list_candidates(by_size: &Table, done: &PathSet) -> (r: Vec<Candidate>)
    ensures
        r.deep_view() == candidates_of(by_size@, done@),
{
    let mut r: Vec<Candidate> = Vec::new();
    let mut i: usize = 0;
    assert(by_size@.take(0) =~= Seq::<BucketV>::empty());
    assert(r.deep_view() =~= Seq::<CandidateV>::empty());
    while i < by_size.len()
        invariant
            i <= by_size@.len(),
            r.deep_view() == candidates_of(by_size@.take(i as int), done@),
        decreases by_size@.len() - i,
    {
        let ghost t = by_size@.take(i + 1);
        assert(t.drop_last() =~= by_size@.take(i as int));
        let bucket = by_size.bucket(i);
        assert(t.last() == bucket@);
        if bucket.paths.len() >= 2 {
            push_unprocessed(&mut r, bucket, done);
        }
        i = i + 1;
    }
    assert(by_size@.take(i as int) =~= by_size@);
    r
}

/// What a batch of quick hashes comes to.
pub struct HashedV {
    pub by_partial: TableV,
    pub entries: Seq<EntryV>,
    pub skipped: Seq<PathV>,
}

/// Each file that could be read goes under its size and hash, the others are
/// skipped.
pub open spec fn hashed(t: TableV, batch: Seq<CandidateV>, results: Seq<Option<Seq<char>>>) -> HashedV
    decreases batch.len(),
{
    if batch.len() == 0 {
        HashedV { by_partial: t, entries: Seq::empty(), skipped: Seq::empty() }
    } else {
        let h = hashed(t, batch.drop_last(), results.drop_last());
        let c = batch.last();
        match results.last() {
            Some(digest) => HashedV {
                by_partial: added(h.by_partial, partial_key_text(c.size, digest), c.size, c.path),
                entries: h.entries.push(EntryV { key: partial_key_text(c.size, digest), path: c.path }),
                ..h
            },
            None => HashedV { skipped: h.skipped.push(c.path), ..h },
        }
    }
}

// --------------------------------------------------------------------- confirm

/// For each path the position of the last list that holds it.
pub open spec fn list_positions(lists: Seq<ListV>) -> Map<PathId, usize>
    decreases lists.len(),
{
    if lists.len() == 0 {
        Map::empty()
    } else {
        marked(list_positions(lists.drop_last()), lists.last().paths, (lists.len() - 1) as usize)
    }
}

fn index_lists(lists: &Vec<PathList>) -> (r: PathMap<usize>)
    ensures
        r@ == list_positions(lists.deep_view()),
{
    let mut r: PathMap<usize> = PathMap::new();
    let mut i: usize = 0;
    assert(lists.deep_view().take(0) =~= Seq::<ListV>::empty());
    while i < lists.len()
        invariant
            i <= lists@.len(),
            r@ == list_positions(lists.deep_view().take(i as int)),
        decreases lists@.len() - i,
    {
        let ghost t = lists.deep_view().take(i + 1);
        assert(t.drop_last() =~= lists.deep_view().take(i as int));
        assert(t.last() == lists@[i as int]@);
        mark_paths(&mut r, &lists[i].paths, i);
        i = i + 1;
    }
    assert(lists.deep_view().take(i as int) =~= lists.deep_view());
    r
}

proof fn lemma_positions_bounded(lists: Seq<ListV>, p: PathId)
    requires
        lists.len() <= usize::MAX,
    ensures
        list_positions(lists).contains_key(p) ==> list_positions(lists)[p] < lists.len(),
    decreases lists.len(),
{
    if lists.len() > 0 {
        lemma_positions_bounded(lists.drop_last(), p);
        crate::tables::lemma_marked(
            list_positions(lists.drop_last()),
            lists.last().paths,
            (lists.len() - 1) as usize,
            p,
        );
    }
}

/// The files that saved progress shows to be done: those in saved lists, and those
/// noted as processed.
pub open spec fn done_before(lists: Seq<ListV>, processed: Seq<PathV>) -> Set<PathId> {
    list_positions(lists).dom().union(ids_of(processed))
}

/// Whether every path of a bucket was confirmed before.
pub open spec fn all_resolved(paths: Seq<PathV>, done: Set<PathId>) -> bool {
    forall|i: int| 0 <= i < paths.len() ==> done.contains((#[trigger] paths[i]).parts)
}

/// Whether a bucket is still to be confirmed.
pub open spec fn unconfirmed(b: BucketV, done: Set<PathId>) -> bool {
    b.paths.len() >= 2 && !all_resolved(b.paths, done)
}

/// The buckets that are still to be confirmed.
pub open spec fn open_buckets(by_partial: TableV, done: Set<PathId>) -> Seq<BucketV>
    decreases by_partial.len(),
{
    if by_partial.len() == 0 {
        Seq::empty()
    } else if unconfirmed(by_partial.last(), done) {
        open_buckets(by_partial.drop_last(), done).push(by_partial.last())
    } else {
        open_buckets(by_partial.drop_last(), done)
    }
}

/// Whether a bucket is too large to be compared at once.
pub open spec fn oversized(paths: Seq<PathV>) -> bool {
    paths.len() > BATCH_SIZE
}

/// The files of a bucket that are not done, each on its own.
pub open spec fn singles(paths: Seq<PathV>, done: Set<PathId>) -> Seq<Seq<PathV>>
    decreases paths.len(),
{
    if paths.len() == 0 {
        Seq::empty()
    } else if done.contains(paths.last().parts) {
        singles(paths.drop_last(), done)
    } else {
        singles(paths.drop_last(), done).push(seq![paths.last()])
    }
}

/// What is handed out of a bucket: the whole of it, or its files one by one where
/// it is too large to be compared at once.
pub open spec fn pieces(paths: Seq<PathV>, done: Set<PathId>) -> Seq<Seq<PathV>> {
    if oversized(paths) {
        singles(paths, done)
    } else {
        seq![paths]
    }
}

/// Whether a bucket is too large to confirm during the scan.
pub open spec fn deferred_size(size: u64, threshold: u64) -> bool {
    threshold > 0 && size >= threshold
}

/// The groups of very large files, not confirmed.
pub open spec fn deferred_of(buckets: Seq<BucketV>, threshold: u64) -> Seq<GroupV>
    decreases buckets.len(),
{
    if buckets.len() == 0 {
        Seq::empty()
    } else {
        let before = deferred_of(buckets.drop_last(), threshold);
        let b = buckets.last();
        if deferred_size(b.size, threshold) {
            before.push(GroupV { file_hash: b.key, size: b.size, paths: b.paths, confirmed: false })
        } else {
            before
        }
    }
}

/// What to confirm now.
pub open spec fn to_confirm(buckets: Seq<BucketV>, threshold: u64, done: Set<PathId>) -> Seq<Seq<PathV>>
    decreases buckets.len(),
{
    if buckets.len() == 0 {
        Seq::empty()
    } else {
        let before = to_confirm(buckets.drop_last(), threshold, done);
        if deferred_size(buckets.last().size, threshold) {
            before
        } else {
            before + pieces(buckets.last().paths, done)
        }
    }
}

/// The keys of lists that share a path with an open bucket that is compared as a
/// whole: what they say is out of date.
pub open spec fn stale_keys(buckets: Seq<BucketV>, lists: Seq<ListV>, at: Map<PathId, usize>) -> Set<Seq<char>>
    decreases buckets.len(),
{
    if buckets.len() == 0 {
        Set::empty()
    } else if oversized(buckets.last().paths) {
        stale_keys(buckets.drop_last(), lists, at)
    } else {
        stale_keys(buckets.drop_last(), lists, at).union(keys_touched(buckets.last().paths, lists, at))
    }
}

/// The keys of the lists that hold one of these paths.
pub open spec fn keys_touched(paths: Seq<PathV>, lists: Seq<ListV>, at: Map<PathId, usize>) -> Set<Seq<char>>
    decreases paths.len(),
{
    if paths.len() == 0 {
        Set::empty()
    } else {
        let before = keys_touched(paths.drop_last(), lists, at);
        let p = paths.last().parts;
        if at.contains_key(p) {
            before.insert(lists[at[p] as int].key)
        } else {
            before
        }
    }
}

/// Buckets in batches, each closed as soon as it holds `BATCH_SIZE` files.
pub struct PackV {
    pub done: Seq<Seq<Seq<PathV>>>,
    pub current: Seq<Seq<PathV>>,
    pub count: nat,
}

pub open spec fn packed(buckets: Seq<Seq<PathV>>) -> PackV
    decreases buckets.len(),
{
    if buckets.len() == 0 {
        PackV { done: Seq::empty(), current: Seq::empty(), count: 0 }
    } else {
        let p = packed(buckets.drop_last());
        let b = buckets.last();
        if p.count + b.len() >= BATCH_SIZE {
            PackV { done: p.done.push(p.current.push(b)), current: Seq::empty(), count: 0 }
        } else {
            PackV { current: p.current.push(b), count: p.count + b.len(), ..p }
        }
    }
}

pub open spec fn batches_of(buckets: Seq<Seq<PathV>>) -> Seq<Seq<Seq<PathV>>> {
    let p = packed(buckets);
    if p.current.len() > 0 {
        p.done.push(p.current)
    } else {
        p.done
    }
}

/// The files of some buckets, one after the other.
pub open spec fn flat(buckets: Seq<Seq<PathV>>) -> Seq<PathV>
    decreases buckets.len(),
{
    if buckets.len() == 0 {
        Seq::empty()
    } else {
        flat(buckets.drop_last()) + buckets.last()
    }
}

/// The files of some batches, one after the other.
pub open spec fn flat_batches(batches: Seq<Seq<Seq<PathV>>>) -> Seq<PathV>
    decreases batches.len(),
{
    if batches.len() == 0 {
        Seq::empty()
    } else {
        flat_batches(batches.drop_last()) + flat(batches.last())
    }
}

fn flatten(buckets: &Vec<Vec<FilePath>>) -> (r: Vec<FilePath>)
    ensures
        r.deep_view() == flat(buckets.deep_view()),
{
    let ghost all = buckets.deep_view();
    let mut r: Vec<FilePath> = Vec::new();
    let mut i: usize = 0;
    assert(all.take(0) =~= Seq::<Seq<PathV>>::empty());
    assert(r.deep_view() =~= Seq::<PathV>::empty());
    while i < buckets.len()
        invariant
            i <= buckets@.len(),
            all == buckets.deep_view(),
            r.deep_view() == flat(all.take(i as int)),
        decreases buckets@.len() - i,
    {
        let ghost t = all.take(i + 1);
        assert(t.drop_last() =~= all.take(i as int));
        assert(t.last() == buckets@[i as int].deep_view());
        let ghost before = r.deep_view();
        let mut more = copy_paths(&buckets[i]);
        r.append(&mut more);
        assert(r.deep_view() =~= before + t.last());
        i = i + 1;
    }
    assert(all.take(i as int) =~= all);
    r
}

/// How many files there are to confirm, cut to 64 bits.
pub open spec fn files_in(buckets: Seq<Seq<PathV>>) -> int
    decreases buckets.len(),
{
    if buckets.len() == 0 {
        0
    } else {
        files_in(buckets.drop_last()) + buckets.last().len()
    }
}

fn make_batches(buckets: &Vec<Vec<FilePath>>) -> (r: Vec<Vec<Vec<FilePath>>>)
    ensures
        r.deep_view() == batches_of(buckets.deep_view()),
{
    let mut done: Vec<Vec<Vec<FilePath>>> = Vec::new();
    let mut current: Vec<Vec<FilePath>> = Vec::new();
    let mut count: usize = 0;
    let ghost all = buckets.deep_view();
    let mut i: usize = 0;
    assert(all.take(0) =~= Seq::<Seq<PathV>>::empty());
    assert(done.deep_view() =~= Seq::<Seq<Seq<PathV>>>::empty());
    assert(current.deep_view() =~= Seq::<Seq<PathV>>::empty());
    while i < buckets.len()
        invariant
            i <= buckets@.len(),
            all == buckets.deep_view(),
            count < BATCH_SIZE,
            (PackV { done: done.deep_view(), current: current.deep_view(), count: count as nat }) == packed(
                all.take(i as int),
            ),
        decreases buckets@.len() - i,
    {
        let ghost t = all.take(i + 1);
        assert(t.drop_last() =~= all.take(i as int));
        assert(t.last() == buckets@[i as int].deep_view());
        let ghost before = current.deep_view();
        let bucket = copy_paths(&buckets[i]);
        let n: usize = bucket.len();
        assert(n == t.last().len());
        current.push(bucket);
        assert(current.deep_view() =~= before.push(t.last()));
        if n >= BATCH_SIZE - count {
            let ghost d = done.deep_view();
            done.push(current);
            assert(done.deep_view() =~= d.push(before.push(t.last())));
            current = Vec::new();
            assert(current.deep_view() =~= Seq::<Seq<PathV>>::empty());
            count = 0;
        } else {
            count = count + n;
        }
        i = i + 1;
    }
    assert(all.take(i as int) =~= all);
    if current.len() > 0 {
        let ghost d = done.deep_view();
        let ghost c = current.deep_view();
        done.push(current);
        assert(done.deep_view() =~= d.push(c));
    }
    done
}

fn is_all_resolved(paths: &Vec<FilePath>, at: &PathMap<usize>, processed: &PathSet) -> (r: bool)
    ensures
        r == all_resolved(paths.deep_view(), at@.dom().union(processed@)),
{
    let mut i: usize = 0;
    while i < paths.len()
        invariant
            i <= paths@.len(),
            forall|j: int|
                0 <= j < i ==> at@.dom().union(processed@).contains((#[trigger] paths.deep_view()[j]).parts),
        decreases paths@.len() - i,
    {
        assert(paths.deep_view()[i as int] == paths@[i as int]@);
        if at.get(&paths[i]).is_none() && !processed.contains(&paths[i]) {
            return false;
        }
        i = i + 1;
    }
    true
}

fn push_singles(out: &mut Vec<Vec<FilePath>>, paths: &Vec<FilePath>, at: &PathMap<usize>, processed: &PathSet)
    ensures
        final(out).deep_view() == old(out).deep_view() + singles(paths.deep_view(), at@.dom().union(processed@)),
{
    let ghost all = paths.deep_view();
    let ghost done = at@.dom().union(processed@);
    let mut i: usize = 0;
    assert(all.take(0) =~= Seq::<PathV>::empty());
    assert(out.deep_view() =~= old(out).deep_view() + singles(all.take(0), done));
    while i < paths.len()
        invariant
            i <= paths@.len(),
            all == paths.deep_view(),
            done == at@.dom().union(processed@),
            out.deep_view() == old(out).deep_view() + singles(all.take(i as int), done),
        decreases paths@.len() - i,
    {
        let ghost t = all.take(i + 1);
        assert(t.drop_last() =~= all.take(i as int));
        assert(t.last() == paths@[i as int]@);
        if at.get(&paths[i]).is_none() && !processed.contains(&paths[i]) {
            let ghost before = out.deep_view();
            let mut one: Vec<FilePath> = Vec::new();
            one.push(paths[i].clone());
            assert(one.deep_view() =~= seq![t.last()]);
            out.push(one);
            assert(out.deep_view() =~= before.push(seq![t.last()]));
            assert(out.deep_view() =~= old(out).deep_view() + singles(t, done));
        }
        i = i + 1;
    }
    assert(all.take(i as int) =~= all);
}

fn collect_touched(out: &mut StringHashSet, paths: &Vec<FilePath>, lists: &Vec<PathList>, at: &PathMap<usize>)
    requires
        at@ == list_positions(lists.deep_view()),
    ensures
        final(out)@ == old(out)@.union(keys_touched(paths.deep_view(), lists.deep_view(), at@)),
{
    let ghost all = paths.deep_view();
    let ghost lv = lists.deep_view();
    let mut i: usize = 0;
    assert(all.take(0) =~= Seq::<PathV>::empty());
    assert(out@ =~= old(out)@.union(keys_touched(all.take(0), lv, at@)));
    while i < paths.len()
        invariant
            i <= paths@.len(),
            all == paths.deep_view(),
            lv == lists.deep_view(),
            at@ == list_positions(lv),
            out@ == old(out)@.union(keys_touched(all.take(i as int), lv, at@)),
        decreases paths@.len() - i,
    {
        let ghost t = all.take(i + 1);
        assert(t.drop_last() =~= all.take(i as int));
        assert(t.last() == paths@[i as int]@);
        let total: usize = lists.len();
        proof {
            assert(lv.len() == total);
            lemma_positions_bounded(lv, paths@[i as int]@.parts);
        }
        match at.get(&paths[i]) {
            Some(k) => {
                let ghost before = out@;
                let key = lists[*k].key.clone();
                out.insert(key);
                assert(lv[*k as int] == lists@[*k as int]@);
                assert(out@ =~= old(out)@.union(keys_touched(t, lv, at@)));
            },
            None => {},
        }
        i = i + 1;
    }
    assert(all.take(i as int) =~= all);
}

/// What the confirm stage starts from.
struct Plan {
    by_full: Table,
    deferred: Vec<DuplicateGroup>,
    buckets: Vec<Vec<FilePath>>,
}

fn plan_confirm(by_partial: &Table, saved_full: &Vec<PathList>, processed: &PathSet, threshold: u64) -> (r: Plan)
    ensures
        ({
            let at = list_positions(saved_full.deep_view());
            let done = at.dom().union(processed@);
            let open = open_buckets(by_partial@, done);
            &&& r.by_full.wf()
            &&& r.by_full@ == without(
                fulls_loaded(saved_full.deep_view()),
                stale_keys(open, saved_full.deep_view(), at),
            )
            &&& r.deferred.deep_view() == deferred_of(open, threshold)
            &&& r.buckets.deep_view() == to_confirm(open, threshold, done)
        }),
{
    let ghost lv = saved_full.deep_view();
    let at = index_lists(saved_full);
    let ghost done = at@.dom().union(processed@);
    let loaded = load_fulls(saved_full);
    let mut stale = StringHashSet::new();
    let mut deferred: Vec<DuplicateGroup> = Vec::new();
    let mut buckets: Vec<Vec<FilePath>> = Vec::new();
    let mut i: usize = 0;
    assert(by_partial@.take(0) =~= Seq::<BucketV>::empty());
    assert(deferred.deep_view() =~= Seq::<GroupV>::empty());
    assert(buckets.deep_view() =~= Seq::<Seq<PathV>>::empty());
    while i < by_partial.len()
        invariant
            i <= by_partial@.len(),
            lv == saved_full.deep_view(),
            at@ == list_positions(lv),
            done == at@.dom().union(processed@),
            stale@ == stale_keys(open_buckets(by_partial@.take(i as int), done), lv, at@),
            deferred.deep_view() == deferred_of(open_buckets(by_partial@.take(i as int), done), threshold),
            buckets.deep_view() == to_confirm(open_buckets(by_partial@.take(i as int), done), threshold, done),
        decreases by_partial@.len() - i,
    {
        let ghost t = by_partial@.take(i + 1);
        assert(t.drop_last() =~= by_partial@.take(i as int));
        let b = by_partial.bucket(i);
        assert(t.last() == b@);
        if b.paths.len() >= 2 && !is_all_resolved(&b.paths, &at, processed) {
            let ghost o = open_buckets(t, done);
            assert(o.drop_last() =~= open_buckets(t.drop_last(), done));
            if b.paths.len() <= BATCH_SIZE {
                collect_touched(&mut stale, &b.paths, saved_full, &at);
            }
            if threshold > 0 && b.size >= threshold {
                let ghost before = deferred.deep_view();
                let g = DuplicateGroup {
                    file_hash: b.key.clone(),
                    size: b.size,
                    paths: copy_paths(&b.paths),
                    confirmed: false,
                };
                let ghost gv = g@;
                deferred.push(g);
                assert(deferred.deep_view() =~= before.push(gv));
            } else if b.paths.len() > BATCH_SIZE {
                push_singles(&mut buckets, &b.paths, &at, processed);
            } else {
                let ghost before = buckets.deep_view();
                buckets.push(copy_paths(&b.paths));
                assert(buckets.deep_view() =~= before + seq![b@.paths]);
            }
        }
        i = i + 1;
    }
    assert(by_partial@.take(i as int) =~= by_partial@);
    Plan { by_full: loaded.drop_keys(&stale), deferred, buckets }
}

// ----------------------------------------------------------- confirmed batches

/// What a batch of confirmed buckets comes to.
pub struct ConfirmedV {
    pub by_full: TableV,
    pub entries: Seq<EntryV>,
    pub skipped: Seq<PathV>,
    pub processed: int,
}

/// One entry per path, all under one key.
pub open spec fn entries_under(key: Seq<char>, paths: Seq<PathV>) -> Seq<EntryV> {
    paths.map_values(|p: PathV| EntryV { key, path: p })
}

/// A table and the new entries after groups came in.
pub open spec fn groups_taken(t: TableV, entries: Seq<EntryV>, groups: Seq<MatchV>) -> (TableV, Seq<EntryV>)
    decreases groups.len(),
{
    if groups.len() == 0 {
        (t, entries)
    } else {
        let (u, e) = groups_taken(t, entries, groups.drop_last());
        let g = groups.last();
        (extended(u, g.digest, g.paths), e + entries_under(g.digest, g.paths))
    }
}

pub open spec fn confirmed(t: TableV, results: Seq<BucketResultV>) -> ConfirmedV
    decreases results.len(),
{
    if results.len() == 0 {
        ConfirmedV { by_full: t, entries: Seq::empty(), skipped: Seq::empty(), processed: 0 }
    } else {
        let c = confirmed(t, results.drop_last());
        let r = results.last();
        let (u, e) = groups_taken(c.by_full, c.entries, r.groups);
        ConfirmedV {
            by_full: u,
            entries: e,
            skipped: c.skipped + r.skipped,
            processed: c.processed + r.processed_count,
        }
    }
}

fn push_entries(out: &mut Vec<Entry>, key: &str, paths: &Vec<FilePath>)
    ensures
        final(out).deep_view() == old(out).deep_view() + entries_under(key@, paths.deep_view()),
{
    let ghost all = entries_under(key@, paths.deep_view());
    let mut i: usize = 0;
    assert(out.deep_view() =~= old(out).deep_view() + all.take(0));
    while i < paths.len()
        invariant
            i <= paths@.len(),
            all == entries_under(key@, paths.deep_view()),
            out.deep_view() == old(out).deep_view() + all.take(i as int),
        decreases paths@.len() - i,
    {
        let ghost before = out.deep_view();
        let e = Entry { key: key.to_string(), path: paths[i].clone() };
        let ghost ev = e@;
        out.push(e);
        assert(out.deep_view() =~= before.push(ev));
        assert(paths.deep_view()[i as int] == paths@[i as int]@);
        assert(all[i as int] == ev);
        assert(out.deep_view() =~= old(out).deep_view() + all.take(i + 1));
        i = i + 1;
    }
    assert(all.take(i as int) =~= all);
}

fn take_groups(t: &mut Table, entries: &mut Vec<Entry>, groups: &Vec<MatchGroup>)
    requires
        old(t).wf(),
    ensures
        final(t).wf(),
        (final(t)@, final(entries).deep_view()) == groups_taken(
            old(t)@,
            old(entries).deep_view(),
            groups.deep_view(),
        ),
{
    let ghost all = groups.deep_view();
    let mut i: usize = 0;
    assert(all.take(0) =~= Seq::<MatchV>::empty());
    while i < groups.len()
        invariant
            i <= groups@.len(),
            all == groups.deep_view(),
            t.wf(),
            (t@, entries.deep_view()) == groups_taken(old(t)@, old(entries).deep_view(), all.take(i as int)),
        decreases groups@.len() - i,
    {
        let ghost u = all.take(i + 1);
        assert(u.drop_last() =~= all.take(i as int));
        let g = &groups[i];
        assert(u.last() == g@);
        push_entries(entries, g.digest.as_str(), &g.paths);
        t.extend(g.digest.clone(), copy_paths(&g.paths));
        i = i + 1;
    }
    assert(all.take(i as int) =~= all);
}

// -------------------------------------------------------------------- the scan

/// Where a scan stands.
#[derive(Clone, Copy, Debug, PartialEq, Eq, Structural)]
pub enum ScanPhase {
    /// Directories are walked.
    Walking,
    /// Beginnings of files are hashed.
    Hashing,
    /// Duplicates are confirmed by content.
    Confirming,
    /// Nothing is left to do, or the scan was cancelled.
    Ended,
}

/// A scan as a mathematical value.
#[verifier::ext_equal]
pub struct ScanV {
    pub directories: Seq<Seq<char>>,
    pub root_keys: Seq<RootKeyV>,
    pub threshold: u64,
    pub resumed: Option<ScanStage>,
    pub resume_ignored: bool,
    pub saved_partial: Seq<ListV>,
    pub saved_full: Seq<ListV>,
    pub processed: Seq<PathV>,
    pub directories_sent: bool,
    pub root_keys_sent: bool,
    pub by_size_sent: bool,
    pub phase: ScanPhase,
    pub cancelled: Option<ScanStage>,
    pub by_size: TableV,
    pub completed_dirs: Seq<Seq<char>>,
    pub skipped: Seq<PathV>,
    pub pending_entries: Seq<EntryV>,
    pub pending_skipped: Seq<PathV>,
    pub pending_completed: Seq<Seq<char>>,
    pub by_partial: TableV,
    pub candidates: Seq<CandidateV>,
    pub at: nat,
    pub by_full: TableV,
    pub deferred: Seq<GroupV>,
    pub batches: Seq<Seq<Seq<PathV>>>,
    pub confirm_total: u64,
    pub at_batch: nat,
}

/// A value that is sent once.
pub open spec fn once<T>(sent: bool, value: T) -> Option<T> {
    if sent {
        None
    } else {
        Some(value)
    }
}

/// A scan before anything was read.
pub open spec fn scan_blank(roots: Seq<RootKeyV>, threshold: u64) -> ScanV {
    ScanV {
        directories: roots.map_values(|r: RootKeyV| r.directory),
        root_keys: root_keys_from(roots),
        threshold,
        resumed: None,
        resume_ignored: false,
        saved_partial: Seq::empty(),
        saved_full: Seq::empty(),
        processed: Seq::empty(),
        directories_sent: false,
        root_keys_sent: false,
        by_size_sent: false,
        phase: ScanPhase::Walking,
        cancelled: None,
        by_size: Seq::empty(),
        completed_dirs: Seq::empty(),
        skipped: Seq::empty(),
        pending_entries: Seq::empty(),
        pending_skipped: Seq::empty(),
        pending_completed: Seq::empty(),
        by_partial: Seq::empty(),
        candidates: Seq::empty(),
        at: 0,
        by_full: Seq::empty(),
        deferred: Seq::empty(),
        batches: Seq::empty(),
        confirm_total: 0,
        at_batch: 0,
    }
}

/// A scan at its beginning. What a snapshot holds is taken over as far as its
/// stage had come; a snapshot of directories that now lead elsewhere is ignored.
pub open spec fn scan_begun(roots: Seq<RootKeyV>, threshold: u64, resume: Option<ResumeV>) -> ScanV {
    let blank = scan_blank(roots, threshold);
    match resume {
        None => blank,
        Some(rs) => if !roots_match(rs.root_keys, roots) {
            ScanV { resume_ignored: true, ..blank }
        } else {
            match stage_named(rs.stage) {
                None => blank,
                Some(ScanStage::Scanning) => ScanV {
                    resumed: Some(ScanStage::Scanning),
                    by_size: sizes_loaded(rs.by_size),
                    completed_dirs: distinct(rs.completed_dirs),
                    skipped: rs.skipped,
                    ..blank
                },
                Some(ScanStage::QuickHash) => ScanV {
                    resumed: Some(ScanStage::QuickHash),
                    by_size: sizes_loaded(rs.by_size),
                    skipped: rs.skipped,
                    saved_partial: rs.by_partial,
                    processed: rs.processed,
                    ..blank
                }.hashing(),
                Some(ScanStage::FullHash) => ScanV {
                    resumed: Some(ScanStage::FullHash),
                    by_size: sizes_loaded(rs.by_size),
                    skipped: rs.skipped,
                    saved_partial: rs.by_partial,
                    saved_full: rs.by_full,
                    processed: rs.processed,
                    ..blank
                }.hashing(),
            }
        },
    }
}

impl ScanV {
    /// The walk that this scan does, where a new scan does the walk `w`: what was walked
    /// and found before is left out.
    pub open spec fn walk_of(self, w: WalkV) -> WalkV {
        WalkV {
            completed: self.completed_dirs.to_set(),
            seen: ids_of(all_paths(self.by_size) + self.skipped),
            ..w
        }
    }

    /// How many walked entries are unsaved.
    pub open spec fn pending(self) -> nat {
        self.pending_entries.len() + self.pending_skipped.len() + self.pending_completed.len()
    }

    /// What is to be saved of the walk.
    pub open spec fn walk_delta(self) -> Option<DeltaV> {
        if self.pending() == 0 {
            None
        } else {
            Some(
                DeltaV {
                    stage: "scanning"@,
                    new_entries: self.pending_entries,
                    new_skipped: self.pending_skipped,
                    new_completed_dirs: self.pending_completed,
                    new_processed: Seq::empty(),
                    by_size: None,
                    directories: once(self.directories_sent, self.directories),
                    root_keys: once(self.root_keys_sent, self.root_keys),
                },
            )
        }
    }

    /// The scan once that is saved.
    pub open spec fn walk_saved(self) -> ScanV {
        if self.pending() == 0 {
            self
        } else {
            ScanV {
                pending_entries: Seq::empty(),
                pending_skipped: Seq::empty(),
                pending_completed: Seq::empty(),
                directories_sent: true,
                root_keys_sent: true,
                ..self
            }
        }
    }

    /// A directory was walked to its end.
    pub open spec fn after_dir(self, key: Seq<char>) -> ScanV {
        ScanV {
            completed_dirs: noted(self.completed_dirs, key),
            pending_completed: self.pending_completed.push(key),
            ..self
        }
    }

    /// A file was found; its size, where it could be told.
    pub open spec fn after_file(self, path: PathV, size: Option<u64>) -> ScanV {
        match size {
            Some(n) => ScanV {
                by_size: added(self.by_size, decimal(n as nat), n, path),
                pending_entries: self.pending_entries.push(EntryV { key: decimal(n as nat), path }),
                ..self
            },
            None => ScanV {
                skipped: self.skipped.push(path),
                pending_skipped: self.pending_skipped.push(path),
                ..self
            },
        }
    }

    /// Whether so much is unsaved that a checkpoint is due.
    pub open spec fn checkpoint_due(self) -> bool {
        self.pending() >= CHECKPOINT_INTERVAL
    }

    /// The scan after a checkpoint, if one was due.
    pub open spec fn checkpointed(self) -> ScanV {
        if self.checkpoint_due() {
            self.walk_saved()
        } else {
            self
        }
    }

    /// What that checkpoint saves.
    pub open spec fn due_delta(self) -> Option<DeltaV> {
        if self.checkpoint_due() {
            self.walk_delta()
        } else {
            None
        }
    }

    pub open spec fn cancelled_in(self, stage: ScanStage) -> ScanV {
        ScanV { phase: ScanPhase::Ended, cancelled: Some(stage), ..self }
    }

    /// At the beginning of the second stage.
    pub open spec fn hashing(self) -> ScanV {
        ScanV {
            phase: ScanPhase::Hashing,
            by_partial: partials_loaded(self.saved_partial),
            candidates: if self.resumed == Some(ScanStage::FullHash) {
                Seq::empty()
            } else {
                candidates_of(self.by_size, ids_of(self.processed))
            },
            at: 0,
            ..self
        }
    }

    /// After the walk.
    pub open spec fn after_walk(self, cancel: bool) -> ScanV {
        if cancel {
            self.walk_saved().cancelled_in(ScanStage::Scanning)
        } else {
            self.walk_saved().hashing()
        }
    }

    /// Where the next batch of files to hash ends.
    pub open spec fn hash_end(self) -> int {
        if self.at + BATCH_SIZE < self.candidates.len() {
            self.at + BATCH_SIZE
        } else {
            self.candidates.len() as int
        }
    }

    /// The next files to hash.
    pub open spec fn hash_batch(self) -> Seq<CandidateV> {
        self.candidates.subrange(self.at as int, self.hash_end())
    }

    /// What a stage saves: new entries, and files that were skipped or compared.
    pub open spec fn stage_delta(
        self,
        stage: ScanStage,
        entries: Seq<EntryV>,
        skipped: Seq<PathV>,
        processed: Seq<PathV>,
    ) -> Option<DeltaV> {
        if entries.len() == 0 && skipped.len() == 0 && processed.len() == 0 {
            None
        } else {
            Some(
                DeltaV {
                    stage: stage_text(stage),
                    new_entries: entries,
                    new_skipped: skipped,
                    new_completed_dirs: Seq::empty(),
                    new_processed: processed,
                    by_size: once(self.by_size_sent, lists_of(self.by_size)),
                    directories: once(self.directories_sent, self.directories),
                    root_keys: once(self.root_keys_sent, self.root_keys),
                },
            )
        }
    }

    /// The scan once that is saved.
    pub open spec fn stage_saved(self, entries: Seq<EntryV>, skipped: Seq<PathV>, processed: Seq<PathV>) -> ScanV {
        if entries.len() == 0 && skipped.len() == 0 && processed.len() == 0 {
            self
        } else {
            ScanV { directories_sent: true, root_keys_sent: true, by_size_sent: true, ..self }
        }
    }

    /// After a batch of quick hashes.
    pub open spec fn after_hashes(self, results: Seq<Option<Seq<char>>>) -> ScanV {
        let h = hashed(self.by_partial, self.hash_batch(), results);
        ScanV {
            by_partial: h.by_partial,
            skipped: self.skipped + h.skipped,
            at: self.hash_end() as nat,
            ..self
        }.stage_saved(h.entries, h.skipped, Seq::empty())
    }

    /// The files that were compared before the scan was taken up.
    pub open spec fn compared_before(self) -> Seq<PathV> {
        if self.resumed == Some(ScanStage::FullHash) {
            self.processed
        } else {
            Seq::empty()
        }
    }

    /// The files that need no comparing any more.
    pub open spec fn settled(self) -> Set<PathId> {
        done_before(self.saved_full, self.compared_before())
    }

    /// The buckets that the third stage starts from.
    pub open spec fn open_at_start(self) -> Seq<BucketV> {
        open_buckets(self.by_partial, self.settled())
    }

    /// What the third stage has to compare.
    pub open spec fn work(self) -> Seq<Seq<PathV>> {
        to_confirm(self.open_at_start(), self.threshold, self.settled())
    }

    /// At the beginning of the third stage.
    pub open spec fn confirming(self) -> ScanV {
        let at = list_positions(self.saved_full);
        let open = self.open_at_start();
        let buckets = self.work();
        ScanV {
            phase: ScanPhase::Confirming,
            by_full: without(fulls_loaded(self.saved_full), stale_keys(open, self.saved_full, at)),
            deferred: deferred_of(open, self.threshold),
            batches: batches_of(buckets),
            confirm_total: wrapped(files_in(buckets)),
            at_batch: 0,
            ..self
        }
    }

    /// The files of the batch that is compared.
    pub open spec fn batch_files(self) -> Seq<PathV> {
        flat(self.batches[self.at_batch as int])
    }

    /// After a batch of buckets was compared.
    pub open spec fn after_confirm(self, results: Seq<BucketResultV>) -> ScanV {
        let c = confirmed(self.by_full, results);
        ScanV {
            by_full: c.by_full,
            skipped: self.skipped + c.skipped,
            at_batch: self.at_batch + 1,
            ..self
        }.stage_saved(c.entries, c.skipped, self.batch_files())
    }
}

/// A scan in progress.
pub struct Scan {
    directories: Vec<String>,
    root_keys: Vec<RootKey>,
    threshold: u64,
    resumed: Option<ScanStage>,
    resume_ignored: bool,
    saved_partial: Vec<PathList>,
    saved_full: Vec<PathList>,
    processed: Vec<FilePath>,
    directories_sent: bool,
    root_keys_sent: bool,
    by_size_sent: bool,
    phase: ScanPhase,
    cancelled: Option<ScanStage>,
    by_size: Table,
    completed_dirs: KeyList,
    skipped: Vec<FilePath>,
    pending_entries: Vec<Entry>,
    pending_skipped: Vec<FilePath>,
    pending_completed: Vec<String>,
    by_partial: Table,
    candidates: Vec<Candidate>,
    at: usize,
    by_full: Table,
    deferred: Vec<DuplicateGroup>,
    batches: Vec<Vec<Vec<FilePath>>>,
    confirm_total: u64,
    at_batch: usize,
}

impl View for Scan {
    type V = ScanV;

    closed spec fn view(&self) -> ScanV {
        ScanV {
            directories: self.directories.deep_view(),
            root_keys: self.root_keys.deep_view(),
            threshold: self.threshold,
            resumed: self.resumed,
            resume_ignored: self.resume_ignored,
            saved_partial: self.saved_partial.deep_view(),
            saved_full: self.saved_full.deep_view(),
            processed: self.processed.deep_view(),
            directories_sent: self.directories_sent,
            root_keys_sent: self.root_keys_sent,
            by_size_sent: self.by_size_sent,
            phase: self.phase,
            cancelled: self.cancelled,
            by_size: self.by_size@,
            completed_dirs: self.completed_dirs@,
            skipped: self.skipped.deep_view(),
            pending_entries: self.pending_entries.deep_view(),
            pending_skipped: self.pending_skipped.deep_view(),
            pending_completed: self.pending_completed.deep_view(),
            by_partial: self.by_partial@,
            candidates: self.candidates.deep_view(),
            at: self.at as nat,
            by_full: self.by_full@,
            deferred: self.deferred.deep_view(),
            batches: self.batches.deep_view(),
            confirm_total: self.confirm_total,
            at_batch: self.at_batch as nat,
        }
    }
}

/// What a walk does after an event.
#[derive(Debug)]
pub struct WalkReply {
    /// Whether the walk goes on.
    pub go_on: bool,
    /// What is to be saved now.
    pub checkpoint: Option<CheckpointDelta>,
}

fn directory_texts(roots: &Vec<RootKey>) -> (r: Vec<String>)
    ensures
        r.deep_view() == roots.deep_view().map_values(|k: RootKeyV| k.directory),
{
    let mut r: Vec<String> = Vec::new();
    let mut i: usize = 0;
    while i < roots.len()
        invariant
            i <= roots@.len(),
            r@.len() == i,
            forall|j: int| 0 <= j < i ==> (#[trigger] r@[j])@ == roots@[j]@.directory,
        decreases roots@.len() - i,
    {
        r.push(roots[i].directory.clone());
        i = i + 1;
    }
    assert(r.deep_view() =~= roots.deep_view().map_values(|k: RootKeyV| k.directory));
    r
}

fn copy_roots(list: &Vec<RootKey>) -> (r: Vec<RootKey>)
    ensures
        r.deep_view() == list.deep_view(),
{
    let r = list.clone();
    assert(r.deep_view() =~= list.deep_view());
    r
}

impl Scan {
    /// What holds of every scan between two steps. No checkpoint is overdue.
    pub closed spec fn wf(&self) -> bool {
        self.sound() && self@.pending() < CHECKPOINT_INTERVAL
    }

    spec fn sound(&self) -> bool {
        &&& self.by_size.wf()
        &&& self.completed_dirs.wf()
        &&& self.by_partial.wf()
        &&& self.by_full.wf()
        &&& self@.at <= self@.candidates.len()
        &&& self@.at_batch <= self@.batches.len()
    }

    /// At no time is a checkpoint interval's worth of walked entries unsaved.
    pub proof fn law_little_is_unsaved(&self)
        requires
            self.wf(),
        ensures
            self@.pending() < CHECKPOINT_INTERVAL,
    {
    }

    fn blank(roots: &Vec<RootKey>, threshold: u64) -> (r: Scan)
        ensures
            r.sound(),
            r@ == scan_blank(roots.deep_view(), threshold),
    {
        let r = Scan {
            directories: directory_texts(roots),
            root_keys: collect_roots(roots),
            threshold,
            resumed: None,
            resume_ignored: false,
            saved_partial: Vec::new(),
            saved_full: Vec::new(),
            processed: Vec::new(),
            directories_sent: false,
            root_keys_sent: false,
            by_size_sent: false,
            phase: ScanPhase::Walking,
            cancelled: None,
            by_size: Table::new(),
            completed_dirs: KeyList::new(),
            skipped: Vec::new(),
            pending_entries: Vec::new(),
            pending_skipped: Vec::new(),
            pending_completed: Vec::new(),
            by_partial: Table::new(),
            candidates: Vec::new(),
            at: 0,
            by_full: Table::new(),
            deferred: Vec::new(),
            batches: Vec::new(),
            confirm_total: 0,
            at_batch: 0,
        };
        assert(r@ =~= scan_blank(roots.deep_view(), threshold));
        r
    }

    /// Begins a scan of directories, each with the real directory it leads to.
    /// Groups of files of `threshold` bytes or more are not confirmed, unless
    /// `threshold` is 0.
    pub fn begin(roots: &Vec<RootKey>, threshold: u64, resume: Option<ResumeState>) -> (r: Scan)
        ensures
            r.wf(),
            r@ == scan_begun(
                roots.deep_view(),
                threshold,
                match resume {
                    Some(rs) => Some(rs@),
                    None => None,
                },
            ),
    {
        let mut scan = Scan::blank(roots, threshold);
        let ghost blank = scan@;
        match resume {
            None => {},
            Some(rs) => {
                if !resume_roots_match(&rs, roots) {
                    scan.resume_ignored = true;
                } else {
                    match stage_from(rs.stage.as_str()) {
                        None => {},
                        Some(ScanStage::Scanning) => {
                            scan.resumed = Some(ScanStage::Scanning);
                            scan.by_size = load_sizes(&rs.by_size);
                            scan.completed_dirs = KeyList::from_list(&rs.completed_dirs);
                            scan.skipped = rs.skipped;
                        },
                        Some(ScanStage::QuickHash) => {
                            scan.resumed = Some(ScanStage::QuickHash);
                            scan.by_size = load_sizes(&rs.by_size);
                            scan.skipped = rs.skipped;
                            scan.saved_partial = rs.by_partial;
                            scan.processed = rs.processed;
                            scan.start_hashing();
                        },
                        Some(ScanStage::FullHash) => {
                            scan.resumed = Some(ScanStage::FullHash);
                            scan.by_size = load_sizes(&rs.by_size);
                            scan.skipped = rs.skipped;
                            scan.saved_partial = rs.by_partial;
                            scan.saved_full = rs.by_full;
                            scan.processed = rs.processed;
                            scan.start_hashing();
                        },
                    }
                }
            },
        }
        scan
    }

    /// Whether a snapshot was ignored because a directory leads elsewhere now.
    pub fn resume_ignored(&self) -> (r: bool)
        ensures
            r == self@.resume_ignored,
    {
        self.resume_ignored
    }

    /// Where the scan stands.
    pub fn phase(&self) -> (r: ScanPhase)
        ensures
            r == self@.phase,
    {
        self.phase
    }

    /// How many files there are to hash.
    pub fn hash_total(&self) -> (r: usize)
        ensures
            r == self@.candidates.len(),
    {
        self.candidates.len()
    }

    /// How many files there are to confirm.
    pub fn confirm_total(&self) -> (r: u64)
        ensures
            r == self@.confirm_total,
    {
        self.confirm_total
    }

    /// The walk of the first stage: it enters no directory that was completed
    /// before and reports no file that was found before.
    pub fn walker(&self, excluded: &Vec<String>, filter: Option<ExtensionFilter>, exclude_temp: bool) -> (r: Walker)
        ensures
            r@.wf(),
            r@ == self@.walk_of(
                new_walk(
                    excluded.deep_view().to_set(),
                    match filter {
                        Some(f) => Some(f.chosen.deep_view()),
                        None => None,
                    },
                    exclude_temp,
                ),
            ),
    {
        let mut seen = self.by_size.paths();
        let ghost found = seen.deep_view();
        let mut more = copy_paths(&self.skipped);
        seen.append(&mut more);
        assert(seen.deep_view() =~= found + self.skipped.deep_view());
        Walker::new(&self.completed_dirs.to_list(), &seen, excluded, filter, exclude_temp)
    }

    fn take_directories(&mut self) -> (r: Option<Vec<String>>)
        ensures
            r.deep_view() == once(old(self)@.directories_sent, old(self)@.directories),
            final(self)@ == (ScanV { directories_sent: true, ..old(self)@ }),
            old(self).sound() ==> final(self).sound(),
    {
        if self.directories_sent {
            None
        } else {
            self.directories_sent = true;
            Some(copy_texts(&self.directories))
        }
    }

    fn take_root_keys(&mut self) -> (r: Option<Vec<RootKey>>)
        ensures
            r.deep_view() == once(old(self)@.root_keys_sent, old(self)@.root_keys),
            final(self)@ == (ScanV { root_keys_sent: true, ..old(self)@ }),
            old(self).sound() ==> final(self).sound(),
    {
        if self.root_keys_sent {
            None
        } else {
            self.root_keys_sent = true;
            Some(copy_roots(&self.root_keys))
        }
    }

    fn take_by_size(&mut self) -> (r: Option<Vec<PathList>>)
        ensures
            r.deep_view() == once(old(self)@.by_size_sent, lists_of(old(self)@.by_size)),
            final(self)@ == (ScanV { by_size_sent: true, ..old(self)@ }),
            old(self).sound() ==> final(self).sound(),
    {
        if self.by_size_sent {
            None
        } else {
            self.by_size_sent = true;
            Some(self.by_size.lists())
        }
    }

    fn flush_stage1(&mut self) -> (r: Option<CheckpointDelta>)
        requires
            old(self).sound(),
        ensures
            final(self).sound(),
            final(self)@ == old(self)@.walk_saved(),
            match r {
                Some(d) => old(self)@.walk_delta() == Some(d@),
                None => old(self)@.walk_delta() is None,
            },
    {
        if self.pending_entries.len() == 0 && self.pending_completed.len() == 0 && self.pending_skipped.len() == 0 {
            return None;
        }
        let directories = self.take_directories();
        let root_keys = self.take_root_keys();
        let mut new_entries: Vec<Entry> = Vec::new();
        let mut new_skipped: Vec<FilePath> = Vec::new();
        let mut new_completed_dirs: Vec<String> = Vec::new();
        let new_processed: Vec<FilePath> = Vec::new();
        assert(new_processed.deep_view() =~= Seq::<PathV>::empty());
        std::mem::swap(&mut new_entries, &mut self.pending_entries);
        std::mem::swap(&mut new_skipped, &mut self.pending_skipped);
        std::mem::swap(&mut new_completed_dirs, &mut self.pending_completed);
        let d = CheckpointDelta {
            stage: "scanning".to_string(),
            new_entries,
            new_skipped,
            new_completed_dirs,
            new_processed,
            by_size: None,
            directories,
            root_keys,
        };
        assert(self@ =~= old(self)@.walk_saved());
        Some(d)
    }

    fn checkpoint_if_due(&mut self) -> (r: Option<CheckpointDelta>)
        requires
            old(self).sound(),
            old(self)@.pending() <= CHECKPOINT_INTERVAL,
        ensures
            final(self).sound(),
            final(self)@ == old(self)@.checkpointed(),
            match r {
                Some(d) => old(self)@.due_delta() == Some(d@),
                None => old(self)@.due_delta() is None,
            },
    {
        let unsaved: usize = self.pending_count();
        if unsaved >= CHECKPOINT_INTERVAL {
            self.flush_stage1()
        } else {
            None
        }
    }

    /// How many walked entries are unsaved.
    fn pending_count(&self) -> (r: usize)
        requires
            self@.pending() <= CHECKPOINT_INTERVAL,
        ensures
            r == self@.pending(),
    {
        self.pending_entries.len() + self.pending_skipped.len() + self.pending_completed.len()
    }

    /// The walk left a directory. A cancelled walk takes no note and stops.
    pub fn dir_done(&mut self, cancel: bool, key: &str) -> (r: WalkReply)
        requires
            old(self).wf(),
        ensures
            final(self).wf(),
            r.go_on == !cancel,
            cancel ==> final(self)@ == old(self)@ && r.checkpoint is None,
            !cancel ==> final(self)@ == old(self)@.after_dir(key@).checkpointed(),
            !cancel ==> match r.checkpoint {
                Some(d) => old(self)@.after_dir(key@).due_delta() == Some(d@),
                None => old(self)@.after_dir(key@).due_delta() is None,
            },
    {
        if cancel {
            return WalkReply { go_on: false, checkpoint: None };
        }
        self.completed_dirs.note(key);
        self.pending_completed.push(key.to_string());
        assert(self@ =~= old(self)@.after_dir(key@));
        let checkpoint = self.checkpoint_if_due();
        WalkReply { go_on: true, checkpoint }
    }

    /// The walk found a file; `size` is its size, where that could be told.
    pub fn file_found(&mut self, cancel: bool, path: &FilePath, size: Option<u64>) -> (r: WalkReply)
        requires
            old(self).wf(),
        ensures
            final(self).wf(),
            r.go_on == !cancel,
            cancel ==> final(self)@ == old(self)@ && r.checkpoint is None,
            !cancel ==> final(self)@ == old(self)@.after_file(path@, size).checkpointed(),
            !cancel ==> match r.checkpoint {
                Some(d) => old(self)@.after_file(path@, size).due_delta() == Some(d@),
                None => old(self)@.after_file(path@, size).due_delta() is None,
            },
    {
        if cancel {
            return WalkReply { go_on: false, checkpoint: None };
        }
        match size {
            Some(n) => {
                self.by_size.add(decimal_text(n), n, path.clone());
                let e = Entry { key: decimal_text(n), path: path.clone() };
                let ghost ev = e@;
                self.pending_entries.push(e);
                assert(self.pending_entries.deep_view() =~= old(self).pending_entries.deep_view().push(ev));
                assert(self@ =~= old(self)@.after_file(path@, size));
            },
            None => {
                self.skipped.push(path.clone());
                self.pending_skipped.push(path.clone());
                assert(self.skipped.deep_view() =~= old(self).skipped.deep_view().push(path@));
                assert(self@ =~= old(self)@.after_file(path@, size));
            },
        }
        let checkpoint = self.checkpoint_if_due();
        WalkReply { go_on: true, checkpoint }
    }

    /// The walk is over, or was stopped. What is unsaved is to be saved.
    pub fn walk_finished(&mut self, cancel: bool) -> (r: Option<CheckpointDelta>)
        requires
            old(self).wf(),
        ensures
            final(self).wf(),
            final(self)@ == old(self)@.after_walk(cancel),
            match r {
                Some(d) => old(self)@.walk_delta() == Some(d@),
                None => old(self)@.walk_delta() is None,
            },
    {
        let r = self.flush_stage1();
        if cancel {
            self.phase = ScanPhase::Ended;
            self.cancelled = Some(ScanStage::Scanning);
        } else {
            self.start_hashing();
        }
        r
    }

    fn start_hashing(&mut self)
        requires
            old(self).sound(),
        ensures
            final(self).sound(),
            final(self)@ == old(self)@.hashing(),
    {
        self.phase = ScanPhase::Hashing;
        self.by_partial = load_partials(&self.saved_partial);
        let full: bool = match self.resumed {
            Some(ScanStage::FullHash) => true,
            _ => false,
        };
        if full {
            self.candidates = Vec::new();
            assert(self.candidates.deep_view() =~= Seq::<CandidateV>::empty());
        } else {
            let done = path_set(&self.processed);
            self.candidates = list_candidates(&self.by_size, &done);
        }
        self.at = 0;
    }

    /// The next files to hash. None are left, or the scan is cancelled, where
    /// it gives nothing; the scan is then in its next phase.
    pub fn next_hash_batch(&mut self, cancel: bool) -> (r: Option<Vec<FilePath>>)
        requires
            old(self).wf(),
            old(self)@.phase == ScanPhase::Hashing,
        ensures
            final(self).wf(),
            old(self)@.at == old(self)@.candidates.len() ==> r is None && final(self)@ == old(self)@.confirming(),
            old(self)@.at < old(self)@.candidates.len() && cancel ==> r is None && final(self)@
                == old(self)@.cancelled_in(ScanStage::QuickHash),
            old(self)@.at < old(self)@.candidates.len() && !cancel ==> final(self)@ == old(self)@ && match r {
                Some(batch) => batch.deep_view() == old(self)@.hash_batch().map_values(|c: CandidateV| c.path),
                None => false,
            },
    {
        if self.at == self.candidates.len() {
            self.start_confirming();
            return None;
        }
        if cancel {
            self.phase = ScanPhase::Ended;
            self.cancelled = Some(ScanStage::QuickHash);
            return None;
        }
        let end: usize = self.hash_batch_end();
        let mut batch: Vec<FilePath> = Vec::new();
        let mut i: usize = self.at;
        while i < end
            invariant
                self.at <= i <= end,
                end == self@.hash_end(),
                end <= self.candidates@.len(),
                batch@.len() == i - self.at,
                forall|j: int| 0 <= j < batch@.len() ==> (#[trigger] batch@[j])@ == self.candidates@[self.at + j].path@,
            decreases end - i,
        {
            batch.push(self.candidates[i].path.clone());
            i = i + 1;
        }
        assert(batch.deep_view() =~= self@.hash_batch().map_values(|c: CandidateV| c.path));
        Some(batch)
    }

    fn hash_batch_end(&self) -> (r: usize)
        requires
            self@.at <= self@.candidates.len(),
        ensures
            r == self@.hash_end(),
            self.at <= r <= self.candidates@.len(),
    {
        let left: usize = self.candidates.len() - self.at;
        if left > BATCH_SIZE {
            self.at + BATCH_SIZE
        } else {
            self.candidates.len()
        }
    }

    fn stage_checkpoint(
        &mut self,
        stage: ScanStage,
        entries: Vec<Entry>,
        skipped: Vec<FilePath>,
        processed: Vec<FilePath>,
    ) -> (r: Option<CheckpointDelta>)
        requires
            old(self).sound(),
        ensures
            final(self).sound(),
            final(self)@ == old(self)@.stage_saved(entries.deep_view(), skipped.deep_view(), processed.deep_view()),
            ({
                let delta = old(self)@.stage_delta(
                    stage,
                    entries.deep_view(),
                    skipped.deep_view(),
                    processed.deep_view(),
                );
                match r {
                    Some(d) => delta == Some(d@),
                    None => delta is None,
                }
            }),
    {
        if entries.len() == 0 && skipped.len() == 0 && processed.len() == 0 {
            return None;
        }
        let by_size = self.take_by_size();
        let directories = self.take_directories();
        let root_keys = self.take_root_keys();
        let new_completed_dirs: Vec<String> = Vec::new();
        assert(new_completed_dirs.deep_view() =~= Seq::<Seq<char>>::empty());
        Some(
            CheckpointDelta {
                stage: stage_name(stage),
                new_entries: entries,
                new_skipped: skipped,
                new_completed_dirs,
                new_processed: processed,
                by_size,
                directories,
                root_keys,
            },
        )
    }

    /// Takes note of a batch of quick hashes, one for each file of the batch,
    /// none where a file could not be read.
    pub fn hashes_done(&mut self, results: &Vec<Option<String>>) -> (r: Option<CheckpointDelta>)
        requires
            old(self).wf(),
            old(self)@.phase == ScanPhase::Hashing,
            results@.len() == old(self)@.hash_batch().len(),
        ensures
            final(self).wf(),
            final(self)@ == old(self)@.after_hashes(results.deep_view()),
            ({
                let h = hashed(old(self)@.by_partial, old(self)@.hash_batch(), results.deep_view());
                match r {
                    Some(d) => old(self)@.stage_delta(ScanStage::QuickHash, h.entries, h.skipped, Seq::empty()) == Some(
                        d@,
                    ),
                    None => old(self)@.stage_delta(ScanStage::QuickHash, h.entries, h.skipped, Seq::empty()) is None,
                }
            }),
    {
        let end: usize = self.hash_batch_end();
        let from: usize = self.at;
        let mut entries: Vec<Entry> = Vec::new();
        let mut missed: Vec<FilePath> = Vec::new();
        let ghost batch = self@.hash_batch();
        let ghost res = results.deep_view();
        let mut i: usize = 0;
        assert(batch.take(0) =~= Seq::<CandidateV>::empty());
        assert(entries.deep_view() =~= Seq::<EntryV>::empty());
        assert(missed.deep_view() =~= Seq::<PathV>::empty());
        assert(self.skipped.deep_view() =~= old(self)@.skipped + missed.deep_view());
        while i < results.len()
            invariant
                i <= results@.len(),
                old(self).wf(),
                self.wf(),
                res == results.deep_view(),
                batch == old(self)@.hash_batch(),
                results@.len() == batch.len(),
                from == old(self)@.at,
                end == old(self)@.hash_end(),
                self@ == (ScanV { by_partial: self@.by_partial, skipped: self@.skipped, ..old(self)@ }),
                (HashedV {
                    by_partial: self@.by_partial,
                    entries: entries.deep_view(),
                    skipped: missed.deep_view(),
                }) == hashed(old(self)@.by_partial, batch.take(i as int), res.take(i as int)),
                self@.skipped == old(self)@.skipped + missed.deep_view(),
            decreases results@.len() - i,
        {
            let ghost bt = batch.take(i + 1);
            let ghost rt = res.take(i + 1);
            assert(bt.drop_last() =~= batch.take(i as int));
            assert(rt.drop_last() =~= res.take(i as int));
            assert(batch[i as int] == self@.candidates[from + i]);
            assert(bt.last() == self.candidates@[from + i]@);
            assert(rt.last() == results@[i as int].deep_view());
            let ghost s0 = *self;
            let size: u64 = self.candidates[from + i].size;
            let path = self.candidates[from + i].path.clone();
            match &results[i] {
                Some(digest) => {
                    let key = partial_key(size, digest.as_str());
                    self.by_partial.add(key.clone(), size, path.clone());
                    let ghost before = entries.deep_view();
                    let e = Entry { key, path };
                    let ghost ev = e@;
                    entries.push(e);
                    assert(entries.deep_view() =~= before.push(ev));
                },
                None => {
                    let ghost before = missed.deep_view();
                    self.skipped.push(path.clone());
                    assert(self.skipped.deep_view() =~= s0.skipped.deep_view().push(path@));
                    missed.push(path);
                    assert(missed.deep_view() =~= before.push(bt.last().path));
                    assert(self@.skipped =~= old(self)@.skipped + missed.deep_view());
                },
            }
            i = i + 1;
        }
        assert(batch.take(i as int) =~= batch);
        assert(res.take(i as int) =~= res);
        self.at = end;
        let none: Vec<FilePath> = Vec::new();
        assert(none.deep_view() =~= Seq::<PathV>::empty());
        self.stage_checkpoint(ScanStage::QuickHash, entries, missed, none)
    }

    fn start_confirming(&mut self)
        requires
            old(self).sound(),
        ensures
            final(self).sound(),
            final(self)@ == old(self)@.confirming(),
    {
        let full: bool = match self.resumed {
            Some(ScanStage::FullHash) => true,
            _ => false,
        };
        let compared = if full {
            path_set(&self.processed)
        } else {
            let none: Vec<FilePath> = Vec::new();
            assert(none.deep_view() =~= Seq::<PathV>::empty());
            path_set(&none)
        };
        let plan = plan_confirm(&self.by_partial, &self.saved_full, &compared, self.threshold);
        self.phase = ScanPhase::Confirming;
        self.by_full = plan.by_full;
        self.deferred = plan.deferred;
        self.batches = make_batches(&plan.buckets);
        self.confirm_total = count_files(&plan.buckets);
        self.at_batch = 0;
    }

    /// The next buckets to confirm. None are left, or the scan is cancelled,
    /// where it gives nothing; the scan has then ended.
    pub fn next_confirm_batch(&mut self, cancel: bool) -> (r: Option<Vec<Vec<FilePath>>>)
        requires
            old(self).wf(),
            old(self)@.phase == ScanPhase::Confirming,
        ensures
            final(self).wf(),
            old(self)@.at_batch == old(self)@.batches.len() ==> r is None && final(self)@ == (ScanV {
                phase: ScanPhase::Ended,
                ..old(self)@
            }),
            old(self)@.at_batch < old(self)@.batches.len() && cancel ==> r is None && final(self)@
                == old(self)@.cancelled_in(ScanStage::FullHash),
            old(self)@.at_batch < old(self)@.batches.len() && !cancel ==> final(self)@ == old(self)@ && match r {
                Some(batch) => batch.deep_view() == old(self)@.batches[old(self)@.at_batch as int],
                None => false,
            },
    {
        if self.at_batch == self.batches.len() {
            self.phase = ScanPhase::Ended;
            return None;
        }
        if cancel {
            self.phase = ScanPhase::Ended;
            self.cancelled = Some(ScanStage::FullHash);
            return None;
        }
        let batch = self.batches[self.at_batch].clone();
        assert(batch.deep_view() =~= self.batches@[self.at_batch as int].deep_view()) by {
            assert forall|i: int| 0 <= i < batch@.len() implies (#[trigger] batch@[i]).deep_view()
                =~= self.batches@[self.at_batch as int]@[i].deep_view() by {
                assert(cloned(self.batches@[self.at_batch as int]@[i], batch@[i]));
            }
        }
        Some(batch)
    }

    /// Takes note of a batch of confirmed buckets. Says what is to be saved and
    /// by how many files the stage has come on.
    pub fn confirm_done(&mut self, results: &Vec<BucketResult>) -> (r: (Option<CheckpointDelta>, u64))
        requires
            old(self).wf(),
            old(self)@.phase == ScanPhase::Confirming,
            old(self)@.at_batch < old(self)@.batches.len(),
        ensures
            final(self).wf(),
            final(self)@ == old(self)@.after_confirm(results.deep_view()),
            ({
                let c = confirmed(old(self)@.by_full, results.deep_view());
                &&& r.1 == wrapped(c.processed)
                &&& match r.0 {
                    Some(d) => old(self)@.stage_delta(
                        ScanStage::FullHash,
                        c.entries,
                        c.skipped,
                        old(self)@.batch_files(),
                    ) == Some(d@),
                    None => old(self)@.stage_delta(
                        ScanStage::FullHash,
                        c.entries,
                        c.skipped,
                        old(self)@.batch_files(),
                    ) is None,
                }
            }),
    {
        let mut entries: Vec<Entry> = Vec::new();
        let mut missed: Vec<FilePath> = Vec::new();
        let mut processed: u64 = 0;
        let ghost res = results.deep_view();
        let mut i: usize = 0;
        assert(res.take(0) =~= Seq::<BucketResultV>::empty());
        assert(entries.deep_view() =~= Seq::<EntryV>::empty());
        assert(missed.deep_view() =~= Seq::<PathV>::empty());
        assert(self.skipped.deep_view() =~= old(self)@.skipped + missed.deep_view());
        while i < results.len()
            invariant
                i <= results@.len(),
                old(self).wf(),
                self.wf(),
                res == results.deep_view(),
                self@ == (ScanV { by_full: self@.by_full, skipped: self@.skipped, ..old(self)@ }),
                ({
                    let c = confirmed(old(self)@.by_full, res.take(i as int));
                    &&& c.by_full == self@.by_full
                    &&& c.entries == entries.deep_view()
                    &&& c.skipped == missed.deep_view()
                    &&& wrapped(c.processed) == processed
                }),
                self@.skipped == old(self)@.skipped + missed.deep_view(),
            decreases results@.len() - i,
        {
            let ghost rt = res.take(i + 1);
            assert(rt.drop_last() =~= res.take(i as int));
            let one = &results[i];
            assert(rt.last() == one@);
            let ghost c0 = confirmed(old(self)@.by_full, res.take(i as int));
            take_groups(&mut self.by_full, &mut entries, &one.groups);
            let mut more = copy_paths(&one.skipped);
            let mut more_missed = copy_paths(&one.skipped);
            let ghost sk = self.skipped.deep_view();
            let ghost mi = missed.deep_view();
            self.skipped.append(&mut more);
            missed.append(&mut more_missed);
            assert(self.skipped.deep_view() =~= sk + one@.skipped);
            assert(missed.deep_view() =~= mi + one@.skipped);
            assert(self@.skipped =~= old(self)@.skipped + missed.deep_view());
            processed = plus_wrapping(processed, one.processed_count as u64);
            i = i + 1;
        }
        assert(res.take(i as int) =~= res);
        let total: usize = self.batches.len();
        assert(self.at_batch < total);
        let compared = flatten(&self.batches[self.at_batch]);
        self.at_batch = self.at_batch + 1;
        let delta = self.stage_checkpoint(ScanStage::FullHash, entries, missed, compared);
        (delta, processed)
    }
}

fn count_files(buckets: &Vec<Vec<FilePath>>) -> (r: u64)
    ensures
        r == wrapped(files_in(buckets.deep_view())),
{
    let ghost all = buckets.deep_view();
    let mut n: u64 = 0;
    let mut i: usize = 0;
    assert(all.take(0) =~= Seq::<Seq<PathV>>::empty());
    while i < buckets.len()
        invariant
            i <= buckets@.len(),
            all == buckets.deep_view(),
            n == wrapped(files_in(all.take(i as int))),
        decreases buckets@.len() - i,
    {
        let ghost t = all.take(i + 1);
        assert(t.drop_last() =~= all.take(i as int));
        assert(t.last() == buckets@[i as int].deep_view());
        n = plus_wrapping(n, buckets[i].len() as u64);
        i = i + 1;
    }
    assert(all.take(i as int) =~= all);
    n
}

// ---------------------------------------------------------------------- result

/// What a scan came to.
#[derive(Debug)]
pub struct ScanResult {
    pub groups: Vec<DuplicateGroup>,
    pub skipped: Vec<FilePath>,
    pub cancelled: bool,
    /// Where to take up a cancelled scan.
    pub resume_state: Option<ResumeState>,
    pub folder_groups: Vec<FolderGroup>,
    /// The run whose saved results these are, if nothing had to be scanned.
    pub reused_run_id: Option<String>,
}

pub struct ScanResultV {
    pub groups: Seq<GroupV>,
    pub skipped: Seq<PathV>,
    pub cancelled: bool,
    pub resume_state: Option<ResumeV>,
    pub folder_groups: Seq<FolderV>,
    pub reused_run_id: Option<Seq<char>>,
}

impl View for ScanResult {
    type V = ScanResultV;

    open spec fn view(&self) -> ScanResultV {
        ScanResultV {
            groups: self.groups.deep_view(),
            skipped: self.skipped.deep_view(),
            cancelled: self.cancelled,
            resume_state: match self.resume_state {
                Some(rs) => Some(rs@),
                None => None,
            },
            folder_groups: self.folder_groups.deep_view(),
            reused_run_id: self.reused_run_id.deep_view(),
        }
    }
}

/// The size of each file of a table.
pub open spec fn file_sizes(t: TableV) -> Map<PathId, u64>
    decreases t.len(),
{
    if t.len() == 0 {
        Map::empty()
    } else {
        marked(file_sizes(t.drop_last()), t.last().paths, t.last().size)
    }
}

/// The size of the files of a group: that of its first file, where it is known.
pub open spec fn group_size(paths: Seq<PathV>, sizes: Map<PathId, u64>) -> u64 {
    if paths.len() > 0 && sizes.contains_key(paths[0].parts) {
        sizes[paths[0].parts]
    } else {
        0
    }
}

/// The groups of files with the same digest.
pub open spec fn confirmed_groups(by_full: TableV, sizes: Map<PathId, u64>) -> Seq<GroupV>
    decreases by_full.len(),
{
    if by_full.len() == 0 {
        Seq::empty()
    } else {
        let before = confirmed_groups(by_full.drop_last(), sizes);
        let b = by_full.last();
        if b.paths.len() > 1 {
            before.push(
                GroupV { file_hash: b.key, size: group_size(b.paths, sizes), paths: b.paths, confirmed: true },
            )
        } else {
            before
        }
    }
}

impl ScanV {
    /// The groups found so far, those that take up most first.
    pub open spec fn groups_found(self) -> Seq<GroupV> {
        ranked(confirmed_groups(self.by_full, file_sizes(self.by_partial)) + self.deferred)
    }

    /// The files that a stage is done with.
    pub open spec fn done_in(self, stage: ScanStage) -> Seq<PathV> {
        match stage {
            ScanStage::Scanning => Seq::empty(),
            ScanStage::QuickHash => self.processed + candidate_paths(self.candidates.take(self.at as int)),
            ScanStage::FullHash => self.compared_before() + flat_batches(self.batches.take(self.at_batch as int)),
        }
    }

    /// Where to take the scan up again, if it was cancelled.
    pub open spec fn snapshot(self, roots: Seq<RootKeyV>) -> Option<ResumeV> {
        match self.cancelled {
            None => None,
            Some(stage) => Some(
                ResumeV {
                    directories: self.directories,
                    stage: stage_text(stage),
                    by_size: lists_of(self.by_size),
                    by_partial: if stage == ScanStage::Scanning {
                        Seq::empty()
                    } else {
                        lists_of(self.by_partial)
                    },
                    by_full: if stage == ScanStage::Scanning {
                        Seq::empty()
                    } else {
                        lists_of(self.by_full)
                    },
                    processed: self.done_in(stage),
                    skipped: self.skipped,
                    completed_dirs: if stage == ScanStage::Scanning {
                        self.completed_dirs
                    } else {
                        Seq::empty()
                    },
                    root_keys: root_keys_from(roots),
                },
            ),
        }
    }

    pub open spec fn result(self, scanned: Seq<PathV>, roots: Seq<RootKeyV>) -> ScanResultV {
        ScanResultV {
            groups: self.groups_found(),
            skipped: self.skipped,
            cancelled: self.cancelled is Some,
            resume_state: self.snapshot(roots),
            folder_groups: if self.cancelled is Some {
                Seq::empty()
            } else {
                tree_of(
                    all_paths(self.by_size),
                    self.skipped,
                    self.groups_found(),
                    ids_of(scanned),
                ).duplicate_folders()
            },
            reused_run_id: None,
        }
    }
}

fn map_sizes(t: &Table) -> (r: PathMap<u64>)
    ensures
        r@ == file_sizes(t@),
{
    let mut r: PathMap<u64> = PathMap::new();
    let mut i: usize = 0;
    assert(t@.take(0) =~= Seq::<BucketV>::empty());
    while i < t.len()
        invariant
            i <= t@.len(),
            r@ == file_sizes(t@.take(i as int)),
        decreases t@.len() - i,
    {
        let ghost u = t@.take(i + 1);
        assert(u.drop_last() =~= t@.take(i as int));
        let b = t.bucket(i);
        assert(u.last() == b@);
        mark_paths(&mut r, &b.paths, b.size);
        i = i + 1;
    }
    assert(t@.take(i as int) =~= t@);
    r
}

fn collect_groups(by_full: &Table, sizes: &PathMap<u64>) -> (r: Vec<DuplicateGroup>)
    ensures
        r.deep_view() == confirmed_groups(by_full@, sizes@),
{
    let mut r: Vec<DuplicateGroup> = Vec::new();
    let mut i: usize = 0;
    assert(by_full@.take(0) =~= Seq::<BucketV>::empty());
    assert(r.deep_view() =~= Seq::<GroupV>::empty());
    while i < by_full.len()
        invariant
            i <= by_full@.len(),
            r.deep_view() == confirmed_groups(by_full@.take(i as int), sizes@),
        decreases by_full@.len() - i,
    {
        let ghost u = by_full@.take(i + 1);
        assert(u.drop_last() =~= by_full@.take(i as int));
        let b = by_full.bucket(i);
        assert(u.last() == b@);
        if b.paths.len() > 1 {
            assert(b@.paths[0] == b.paths@[0]@);
            let size: u64 = match sizes.get(&b.paths[0]) {
                Some(n) => *n,
                None => 0,
            };
            let ghost before = r.deep_view();
            let g = DuplicateGroup {
                file_hash: b.key.clone(),
                size,
                paths: copy_paths(&b.paths),
                confirmed: true,
            };
            let ghost gv = g@;
            r.push(g);
            assert(r.deep_view() =~= before.push(gv));
        }
        i = i + 1;
    }
    assert(by_full@.take(i as int) =~= by_full@);
    r
}

fn copy_groups(groups: &Vec<DuplicateGroup>) -> (r: Vec<DuplicateGroup>)
    ensures
        r.deep_view() == groups.deep_view(),
{
    let r = groups.clone();
    assert(r.deep_view() =~= groups.deep_view());
    r
}

impl Scan {
    fn rank(&self) -> (r: Vec<DuplicateGroup>)
        ensures
            r.deep_view() == self@.groups_found(),
    {
        let sizes = map_sizes(&self.by_partial);
        let mut groups = collect_groups(&self.by_full, &sizes);
        let ghost sure = groups.deep_view();
        let mut deferred = copy_groups(&self.deferred);
        groups.append(&mut deferred);
        assert(groups.deep_view() =~= sure + self.deferred.deep_view());
        rank_groups(&groups)
    }

    fn files_done(&self, stage: ScanStage) -> (r: Vec<FilePath>)
        requires
            self.sound(),
        ensures
            r.deep_view() == self@.done_in(stage),
    {
        match stage {
            ScanStage::Scanning => {
                let none: Vec<FilePath> = Vec::new();
                assert(none.deep_view() =~= Seq::<PathV>::empty());
                none
            },
            ScanStage::QuickHash => {
                let mut r = copy_paths(&self.processed);
                let ghost all = candidate_paths(self@.candidates);
                let mut i: usize = 0;
                assert(r.deep_view() =~= self@.processed + all.take(0));
                while i < self.at
                    invariant
                        i <= self.at <= self.candidates@.len(),
                        all == candidate_paths(self@.candidates),
                        r.deep_view() == self@.processed + all.take(i as int),
                    decreases self.at - i,
                {
                    let ghost before = r.deep_view();
                    r.push(self.candidates[i].path.clone());
                    assert(r.deep_view() =~= before.push(all[i as int]));
                    assert(r.deep_view() =~= self@.processed + all.take(i + 1));
                    i = i + 1;
                }
                assert(all.take(i as int) =~= candidate_paths(self@.candidates.take(self.at as int)));
                r
            },
            ScanStage::FullHash => {
                let full: bool = match self.resumed {
                    Some(ScanStage::FullHash) => true,
                    _ => false,
                };
                let mut r: Vec<FilePath> = Vec::new();
                if full {
                    r = copy_paths(&self.processed);
                }
                let ghost before = self@.compared_before();
                assert(r.deep_view() =~= before);
                let ghost all = self@.batches;
                let mut i: usize = 0;
                assert(all.take(0) =~= Seq::<Seq<Seq<PathV>>>::empty());
                assert(r.deep_view() =~= before + flat_batches(all.take(0)));
                while i < self.at_batch
                    invariant
                        i <= self.at_batch <= self.batches@.len(),
                        all == self@.batches,
                        r.deep_view() == before + flat_batches(all.take(i as int)),
                    decreases self.at_batch - i,
                {
                    let ghost t = all.take(i + 1);
                    assert(t.drop_last() =~= all.take(i as int));
                    let ghost so_far = r.deep_view();
                    let mut more = flatten(&self.batches[i]);
                    r.append(&mut more);
                    assert(r.deep_view() =~= so_far + flat(t.last()));
                    assert(r.deep_view() =~= before + flat_batches(t));
                    i = i + 1;
                }
                r
            },
        }
    }

    fn take_snapshot(&self, roots: &Vec<RootKey>) -> (r: Option<ResumeState>)
        requires
            self.sound(),
        ensures
            match r {
                Some(rs) => self@.snapshot(roots.deep_view()) == Some(rs@),
                None => self@.snapshot(roots.deep_view()) is None,
            },
    {
        match self.cancelled {
            None => None,
            Some(stage) => {
                let mut by_partial: Vec<PathList> = Vec::new();
                let mut by_full: Vec<PathList> = Vec::new();
                let mut completed_dirs: Vec<String> = Vec::new();
                assert(by_partial.deep_view() =~= Seq::<ListV>::empty());
                assert(by_full.deep_view() =~= Seq::<ListV>::empty());
                assert(completed_dirs.deep_view() =~= Seq::<Seq<char>>::empty());
                match stage {
                    ScanStage::Scanning => {
                        completed_dirs = self.completed_dirs.to_list();
                    },
                    _ => {
                        by_partial = self.by_partial.lists();
                        by_full = self.by_full.lists();
                    },
                }
                Some(
                    ResumeState {
                        directories: copy_texts(&self.directories),
                        stage: stage_name(stage),
                        by_size: self.by_size.lists(),
                        by_partial,
                        by_full,
                        processed: self.files_done(stage),
                        skipped: copy_paths(&self.skipped),
                        completed_dirs,
                        root_keys: collect_roots(roots),
                    },
                )
            },
        }
    }

    /// How many directories there are to look at for duplicate folders.
    pub fn folder_total(&self, scanned: &Vec<FilePath>) -> (r: usize)
        ensures
            r == dirs_of(
                all_paths(self@.by_size) + self@.skipped,
                top_roots(ids_of(scanned.deep_view())),
            ).len(),
    {
        count_folders(&self.by_size.paths(), &self.skipped, scanned)
    }

    /// What the scan came to. `scanned` are the directories scanned, `roots`
    /// the real directories they lead to now.
    pub fn finish(&self, scanned: &Vec<FilePath>, roots: &Vec<RootKey>) -> (r: ScanResult)
        requires
            self.wf(),
        ensures
            r@ == self@.result(scanned.deep_view(), roots.deep_view()),
    {
        let groups = self.rank();
        let resume_state = self.take_snapshot(roots);
        let cancelled = self.cancelled.is_some();
        let skipped = copy_paths(&self.skipped);
        let folder_groups = if cancelled {
            let none: Vec<FolderGroup> = Vec::new();
            assert(none.deep_view() =~= Seq::<FolderV>::empty());
            none
        } else {
            find_duplicate_folders(&self.by_size.paths(), &self.skipped, &groups, scanned)
        };
        ScanResult { groups, skipped, cancelled, resume_state, folder_groups, reused_run_id: None }
    }
}

} // verus!
