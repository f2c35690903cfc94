//! Telling whether a directory tree has changed since it was last scanned.

use vstd::hash_map::StringHashMap;
use vstd::prelude::*;

use crate::filetypes::ExtensionFilter;
use crate::groups::{DuplicateGroup, FolderGroup, FolderV, GroupV};
use crate::guarantees::{files_found, FoundV};
use crate::json::{encode_texts, json_of_texts, texts_of_json};
use crate::order::{law_sorting_forgets_order, sort_texts, sorted_texts};
use crate::paths::{FilePath, PathId, PathV};
use crate::resume::RootKeyV;
use crate::scan::{scan_begun, ScanResult, ScanResultV};
use crate::tables::all_paths;
use crate::walk::{ids_of, WalkV, Walker};

verus! {

/// A file as a cheap look shows it. `mtime` are the bits of its modification
/// time, a floating-point number of seconds.
#[derive(Debug)]
pub struct FileStamp {
    pub path: String,
    pub size: u64,
    pub mtime: u64,
}

pub struct StampV {
    pub path: Seq<char>,
    pub size: u64,
    pub mtime: u64,
}

impl View for FileStamp {
    type V = StampV;

    open spec fn view(&self) -> StampV {
        StampV { path: self.path@, size: self.size, mtime: self.mtime }
    }
}

impl DeepView for FileStamp {
    type V = StampV;

    open spec fn deep_view(&self) -> StampV {
        self@
    }
}

/// A saved stamp. Sizes are kept as signed 64-bit numbers.
#[derive(Debug)]
pub struct ManifestRow {
    pub path: String,
    pub size: i64,
    pub mtime: u64,
}

pub struct ManifestRowV {
    pub path: Seq<char>,
    pub size: i64,
    pub mtime: u64,
}

impl View for ManifestRow {
    type V = ManifestRowV;

    open spec fn view(&self) -> ManifestRowV {
        ManifestRowV { path: self.path@, size: self.size, mtime: self.mtime }
    }
}

impl DeepView for ManifestRow {
    type V = ManifestRowV;

    open spec fn deep_view(&self) -> ManifestRowV {
        self@
    }
}

/// Two modification times to compare.
#[derive(Clone, Copy, Debug, PartialEq, Eq, Structural)]
pub struct TimePair {
    pub current: u64,
    pub saved: u64,
}

// ------------------------------------------------------------------- manifests

/// Where a path stands in a list of stamps, or the length of the list.
pub open spec fn stamp_pos(list: Seq<StampV>, path: Seq<char>) -> int
    decreases list.len(),
{
    if list.len() == 0 {
        0
    } else if list[0].path == path {
        0
    } else {
        1 + stamp_pos(list.skip(1), path)
    }
}

/// A list of stamps after one came in; there is one per path.
pub open spec fn stamp_put(list: Seq<StampV>, stamp: StampV) -> Seq<StampV> {
    let p = stamp_pos(list, stamp.path);
    if p < list.len() {
        list.update(p, stamp)
    } else {
        list.push(stamp)
    }
}

pub open spec fn stamps_unique(list: Seq<StampV>) -> bool {
    forall|i: int, j: int| 0 <= i < j < list.len() ==> (#[trigger] list[i]).path != (#[trigger] list[j]).path
}

pub proof fn lemma_stamp_pos(list: Seq<StampV>, path: Seq<char>)
    ensures
        0 <= stamp_pos(list, path) <= list.len(),
        stamp_pos(list, path) < list.len() ==> list[stamp_pos(list, path)].path == path,
        forall|i: int| 0 <= i < stamp_pos(list, path) ==> (#[trigger] list[i]).path != path,
    decreases list.len(),
{
    if list.len() > 0 && list[0].path != path {
        lemma_stamp_pos(list.skip(1), path);
        assert forall|i: int| 0 <= i < stamp_pos(list, path) implies (#[trigger] list[i]).path != path by {
            if i > 0 {
                assert(list.skip(1)[i - 1].path != path);
            }
        }
    }
}

pub proof fn lemma_stamp_at(list: Seq<StampV>, i: int)
    requires
        stamps_unique(list),
        0 <= i < list.len(),
    ensures
        stamp_pos(list, list[i].path) == i,
{
    lemma_stamp_pos(list, list[i].path);
    let p = stamp_pos(list, list[i].path);
    if p < i {
        assert(list[p].path != list[i].path);
    }
}

/// The stamps of a directory tree, one per path.
pub struct Manifest {
    index: StringHashMap<usize>,
    list: Vec<FileStamp>,
}

impl View for Manifest {
    type V = Seq<StampV>;

    closed spec fn view(&self) -> Seq<StampV> {
        self.list.deep_view()
    }
}

impl Manifest {
    pub closed spec fn wf(&self) -> bool {
        &&& stamps_unique(self@)
        &&& forall|i: int| 0 <= i < self@.len() ==> self.index@.contains_key((#[trigger] self@[i]).path)
        &&& forall|p: Seq<char>| #[trigger]
            self.index@.contains_key(p) ==> self.index@[p] < self@.len() && self@[self.index@[p] as int].path == p
    }

    pub proof fn lemma_wf(&self)
        requires
            self.wf(),
        ensures
            stamps_unique(self@),
    {
    }

    pub fn new() -> (r: Manifest)
        ensures
            r.wf(),
            r@ == Seq::<StampV>::empty(),
    {
        let r = Manifest { index: StringHashMap::new(), list: Vec::new() };
        assert(r@ =~= Seq::<StampV>::empty());
        r
    }

    pub fn len(&self) -> (n: usize)
        ensures
            n == self@.len(),
    {
        self.list.len()
    }

    fn find(&self, path: &str) -> (r: Option<usize>)
        requires
            self.wf(),
        ensures
            match r {
                Some(i) => i < self@.len() && i == stamp_pos(self@, path@) && self@[i as int].path == path@,
                None => stamp_pos(self@, path@) == self@.len(),
            },
    {
        match self.index.get(path) {
            Some(i) => {
                proof {
                    lemma_stamp_at(self@, *i as int);
                }
                Some(*i)
            },
            None => {
                proof {
                    lemma_stamp_pos(self@, path@);
                }
                None
            },
        }
    }

    /// Takes a stamp in; a later one of the same path counts.
    pub fn insert(&mut self, stamp: FileStamp)
        requires
            old(self).wf(),
        ensures
            final(self).wf(),
            final(self)@ == stamp_put(old(self)@, stamp@),
    {
        let ghost sv = stamp@;
        match self.find(stamp.path.as_str()) {
            Some(i) => {
                self.list[i] = stamp;
                proof {
                    assert(self@ =~= old(self)@.update(i as int, sv));
                    assert forall|j: int| 0 <= j < self@.len() implies self.index@.contains_key((#[trigger] self@[j]).path) by {
                        assert(old(self).index@.contains_key(old(self)@[j].path));
                    }
                    assert forall|a: int, b: int| 0 <= a < b < self@.len() implies (#[trigger] self@[a]).path
                        != (#[trigger] self@[b]).path by {
                        assert(old(self)@[a].path != old(self)@[b].path);
                    }
                }
            },
            None => {
                let at: usize = self.list.len();
                proof {
                    lemma_stamp_pos(self@, stamp.path@);
                }
                self.index.insert(stamp.path.clone(), at);
                self.list.push(stamp);
                proof {
                    assert(self@ =~= old(self)@.push(sv));
                    assert forall|j: int| 0 <= j < self@.len() implies self.index@.contains_key((#[trigger] self@[j]).path) by {
                        if j < old(self)@.len() {
                            assert(self@[j] == old(self)@[j]);
                        }
                    }
                    assert forall|p: Seq<char>| #[trigger] self.index@.contains_key(p) implies self.index@[p]
                        < self@.len() && self@[self.index@[p] as int].path == p by {
                        if p != sv.path {
                            assert(old(self).index@.contains_key(p));
                        }
                    }
                }
            },
        }
    }
}

/// A walk that collects stamps.
pub struct ManifestWalk {
    manifest: Manifest,
    cancelled: bool,
}

pub struct ManifestWalkV {
    pub stamps: Seq<StampV>,
    pub cancelled: bool,
}

impl View for ManifestWalk {
    type V = ManifestWalkV;

    closed spec fn view(&self) -> ManifestWalkV {
        ManifestWalkV { stamps: self.manifest@, cancelled: self.cancelled }
    }
}

impl ManifestWalk {
    pub closed spec fn wf(&self) -> bool {
        self.manifest.wf()
    }

    /// Begins a cheap look at a directory tree. It uses a walk to which nothing
    /// is complete and nothing was seen.
    pub fn quick_scan_manifest() -> (r: ManifestWalk)
        ensures
            r.wf(),
            r@ == (ManifestWalkV { stamps: Seq::empty(), cancelled: false }),
    {
        ManifestWalk { manifest: Manifest::new(), cancelled: false }
    }

    /// Takes note of an event of the walk: of a file with its stamp, where that
    /// could be told. Says whether the walk goes on.
    pub fn event(&mut self, cancel: bool, stamp: Option<FileStamp>) -> (go_on: bool)
        requires
            old(self).wf(),
        ensures
            final(self).wf(),
            go_on == !cancel,
            final(self)@ == (if cancel {
                ManifestWalkV { cancelled: true, ..old(self)@ }
            } else {
                match stamp {
                    Some(s) => ManifestWalkV { stamps: stamp_put(old(self)@.stamps, s@), ..old(self)@ },
                    None => old(self)@,
                }
            }),
    {
        if cancel {
            self.cancelled = true;
            return false;
        }
        match stamp {
            Some(s) => {
                self.manifest.insert(s);
            },
            None => {},
        }
        true
    }

    /// The stamps, unless the walk was cancelled.
    pub fn finish(self) -> (r: Option<Manifest>)
        requires
            self.wf(),
        ensures
            match r {
                Some(m) => !self@.cancelled && m.wf() && m@ == self@.stamps,
                None => self@.cancelled,
            },
    {
        if self.cancelled {
            None
        } else {
            Some(self.manifest)
        }
    }
}

/// The walk that stamps are collected on: one to which nothing is complete and
/// nothing was seen.
pub fn manifest_walker(excluded: &Vec<String>, filter: Option<ExtensionFilter>, exclude_temp: bool) -> (r: Walker)
    ensures
        r@.wf(),
        r@ == (WalkV {
            completed: Set::empty(),
            seen: Set::empty(),
            excluded: excluded.deep_view().to_set(),
            chosen: match filter {
                Some(f) => Some(f.chosen.deep_view()),
                None => None,
            },
            exclude_temp,
            visited: Set::empty(),
            open: Seq::empty(),
        }),
{
    let complete: Vec<String> = Vec::new();
    let seen: Vec<FilePath> = Vec::new();
    assert(complete.deep_view().to_set() =~= Set::<Seq<char>>::empty());
    assert(ids_of(seen.deep_view()) =~= Set::<PathId>::empty());
    Walker::new(&complete, &seen, excluded, filter, exclude_temp)
}

/// The stamps after all that a walk reports, with what a look at each file shows.
pub open spec fn stamps_of(found: Seq<FoundV>, look: spec_fn(PathV) -> Option<StampV>) -> Seq<StampV>
    decreases found.len(),
{
    if found.len() == 0 {
        Seq::empty()
    } else {
        let before = stamps_of(found.drop_last(), look);
        match found.last() {
            FoundV::Dir(_) => before,
            FoundV::File(p) => match look(p) {
                Some(stamp) => stamp_put(before, stamp),
                None => before,
            },
        }
    }
}

/// Whether a stamp is that of a file that a walk reports.
pub open spec fn stamp_of_file(found: Seq<FoundV>, look: spec_fn(PathV) -> Option<StampV>, stamp: StampV) -> bool {
    exists|i: int| 0 <= i < files_found(found).len() && #[trigger] look(files_found(found)[i]) == Some(stamp)
}

/// Whether a list has a stamp for a path.
pub open spec fn stamped(list: Seq<StampV>, path: Seq<char>) -> bool {
    exists|i: int| 0 <= i < list.len() && (#[trigger] list[i]).path == path
}

/// The stamps are those of exactly the files that the walk reports, as far as they
/// can be looked at, one per path.
pub proof fn law_stamps_are_those_of_the_files(found: Seq<FoundV>, look: spec_fn(PathV) -> Option<StampV>)
    ensures
        stamps_unique(stamps_of(found, look)),
        forall|i: int|
            0 <= i < stamps_of(found, look).len() ==> stamp_of_file(found, look, #[trigger] stamps_of(found, look)[i]),
        forall|i: int|
            0 <= i < files_found(found).len() && (#[trigger] look(files_found(found)[i])) is Some ==> stamped(
                stamps_of(found, look),
                look(files_found(found)[i]).unwrap().path,
            ),
    decreases found.len(),
{
    if found.len() > 0 {
        let rest = found.drop_last();
        law_stamps_are_those_of_the_files(rest, look);
        let (before, all) = (stamps_of(rest, look), stamps_of(found, look));
        let (files, more) = (files_found(rest), files_found(found));
        assert forall|i: int| 0 <= i < files.len() implies more[i] == files[i] by {}
        assert forall|s: StampV| #[trigger] stamp_of_file(rest, look, s) implies stamp_of_file(found, look, s) by {
            let i = choose|i: int| 0 <= i < files.len() && #[trigger] look(files[i]) == Some(s);
            assert(look(more[i]) == Some(s));
        }
        match found.last() {
            FoundV::Dir(_) => {},
            FoundV::File(p) => {
                assert(more[files.len() as int] == p);
                match look(p) {
                    Some(stamp) => {
                        lemma_stamp_pos(before, stamp.path);
                        let at = stamp_pos(before, stamp.path);
                        assert(look(more[files.len() as int]) == Some(stamp));
                        assert(stamp_of_file(found, look, stamp));
                        assert forall|i: int| 0 <= i < all.len() implies stamp_of_file(found, look, #[trigger] all[i]) by {
                            if i != at {
                                assert(all[i] == before[i]);
                                assert(stamp_of_file(rest, look, before[i]));
                            }
                        }
                        assert(stamps_unique(all)) by {
                            assert forall|i: int, j: int| 0 <= i < j < all.len() implies (#[trigger] all[i]).path != (
                            #[trigger] all[j]).path by {
                                if i != at && j != at {
                                    assert(before[i].path != before[j].path);
                                } else if i == at && at < before.len() {
                                    assert(before[i].path != before[j].path);
                                } else if j == at && at < before.len() {
                                    assert(before[i].path != before[j].path);
                                }
                            }
                        }
                        assert forall|path: Seq<char>| #[trigger] stamped(before, path) implies stamped(all, path) by {
                            let i = choose|i: int| 0 <= i < before.len() && (#[trigger] before[i]).path == path;
                            assert(all[i].path == path);
                        }
                        assert(all[at].path == stamp.path);
                        assert(stamped(all, stamp.path));
                    },
                    None => {},
                }
            },
        }
        assert forall|i: int| 0 <= i < more.len() && (#[trigger] look(more[i])) is Some implies stamped(
            all,
            look(more[i]).unwrap().path,
        ) by {
            if i < files.len() {
                assert(look(files[i]) is Some);
            }
        }
    }
}

/// A new scan goes through the directories on the same walk: it too takes nothing
/// for complete or seen.
pub proof fn law_new_scan_walks_the_same(roots: Seq<RootKeyV>, threshold: u64)
    ensures
        scan_begun(roots, threshold, None).completed_dirs.to_set() == Set::<Seq<char>>::empty(),
        ids_of(
            all_paths(scan_begun(roots, threshold, None).by_size) + scan_begun(roots, threshold, None).skipped,
        ) == Set::<PathId>::empty(),
{
    let s = scan_begun(roots, threshold, None);
    assert(s.completed_dirs.to_set() =~= Set::<Seq<char>>::empty());
    assert(all_paths(s.by_size) + s.skipped =~= Seq::<PathV>::empty());
    assert(ids_of(Seq::<PathV>::empty()) =~= Set::<PathId>::empty());
}

// ----------------------------------------------------------------------- reuse

/// The key of a set of directories: the JSON text of their sorted list.
pub open spec fn dir_key(directories: Seq<Seq<char>>) -> Seq<char> {
    match json_of_texts(sorted_texts(directories)) {
        Some(json) => json,
        None => Seq::empty(),
    }
}

/// The key of a set of directories. The list can be told from it again, so that
/// different sets have different keys.
pub fn dir_key_for(directories: &Vec<String>) -> (r: String)
    ensures
        r@ == dir_key(directories.deep_view()),
        json_of_texts(sorted_texts(directories.deep_view())) is Some ==> texts_of_json(r@) == Some(
            sorted_texts(directories.deep_view()),
        ),
{
    match encode_texts(&sort_texts(directories)) {
        Some(json) => json,
        None => {
            let none = String::new();
            assert(none@ =~= Seq::<char>::empty());
            none
        },
    }
}

/// The order in which directories are given makes no difference to their key, so that
/// what is kept under it is found again in whatever order they come.
pub proof fn law_dir_key_forgets_order(a: Seq<Seq<char>>, b: Seq<Seq<char>>)
    requires
        a.to_multiset() == b.to_multiset(),
        a.len() <= usize::MAX,
    ensures
        dir_key(a) == dir_key(b),
{
    law_sorting_forgets_order(a, b);
}

/// The rows that keep a manifest.
pub open spec fn manifest_rows(stamps: Seq<StampV>) -> Seq<ManifestRowV> {
    stamps.map_values(|s: StampV| ManifestRowV { path: s.path, size: s.size as i64, mtime: s.mtime })
}

/// The rows to keep for a set of directories, in place of all that it had.
pub fn save_scan_manifest(manifest: &Manifest) -> (r: Vec<ManifestRow>)
    ensures
        r.deep_view() == manifest_rows(manifest@),
{
    let mut r: Vec<ManifestRow> = Vec::new();
    let mut i: usize = 0;
    while i < manifest.list.len()
        invariant
            i <= manifest.list@.len(),
            r@.len() == i,
            forall|j: int|
                0 <= j < i ==> (#[trigger] r@[j])@ == (ManifestRowV {
                    path: manifest.list@[j]@.path,
                    size: manifest.list@[j]@.size as i64,
                    mtime: manifest.list@[j]@.mtime,
                }),
        decreases manifest.list@.len() - i,
    {
        let s = &manifest.list[i];
        r.push(ManifestRow { path: s.path.clone(), size: s.size as i64, mtime: s.mtime });
        i = i + 1;
    }
    assert(r.deep_view() =~= manifest_rows(manifest@));
    r
}

/// Whether a saved row is that of a file that is still there with its size.
pub open spec fn row_stands(row: ManifestRowV, stamps: Seq<StampV>) -> bool {
    let p = stamp_pos(stamps, row.path);
    p < stamps.len() && stamps[p].size as i64 == row.size
}

/// Whether saved rows are those of the files that are there now, their times
/// left aside.
pub open spec fn same_files(rows: Seq<ManifestRowV>, stamps: Seq<StampV>) -> bool {
    rows.len() == stamps.len() && forall|i: int| 0 <= i < rows.len() ==> row_stands(#[trigger] rows[i], stamps)
}

/// The times to compare, row by row.
pub open spec fn time_pairs(rows: Seq<ManifestRowV>, stamps: Seq<StampV>) -> Seq<TimePair> {
    rows.map_values(
        |r: ManifestRowV| TimePair { current: stamps[stamp_pos(stamps, r.path)].mtime, saved: r.mtime },
    )
}

/// Whether the saved scan of these directories may still stand: gives the
/// modification times that are then left to compare, and nothing where a file
/// is gone, new or of another size.
pub fn find_reusable_run(rows: &Vec<ManifestRow>, manifest: &Manifest) -> (r: Option<Vec<TimePair>>)
    requires
        manifest.wf(),
    ensures
        match r {
            Some(pairs) => same_files(rows.deep_view(), manifest@) && pairs@ == time_pairs(
                rows.deep_view(),
                manifest@,
            ),
            None => !same_files(rows.deep_view(), manifest@),
        },
{
    if rows.len() != manifest.len() {
        return None;
    }
    let ghost rv = rows.deep_view();
    let mut pairs: Vec<TimePair> = Vec::new();
    let mut i: usize = 0;
    while i < rows.len()
        invariant
            i <= rows@.len(),
            rv == rows.deep_view(),
            manifest.wf(),
            rows@.len() == manifest@.len(),
            forall|j: int| 0 <= j < i ==> row_stands(#[trigger] rv[j], manifest@),
            pairs@ == time_pairs(rv.take(i as int), manifest@),
        decreases rows@.len() - i,
    {
        assert(rv[i as int] == rows@[i as int]@);
        match manifest.find(rows[i].path.as_str()) {
            Some(at) => {
                let stamp = &manifest.list[at];
                if stamp.size as i64 != rows[i].size {
                    assert(!row_stands(rv[i as int], manifest@));
                    return None;
                }
                pairs.push(TimePair { current: stamp.mtime, saved: rows[i].mtime });
                assert(pairs@ =~= time_pairs(rv.take(i + 1), manifest@));
            },
            None => {
                assert(!row_stands(rv[i as int], manifest@));
                return None;
            },
        }
        i = i + 1;
    }
    assert(rv.take(i as int) =~= rv);
    Some(pairs)
}

/// Whether each saved path is there once.
pub open spec fn rows_unique(rows: Seq<ManifestRowV>) -> bool {
    forall|i: int, j: int| 0 <= i < j < rows.len() ==> (#[trigger] rows[i]).path != (#[trigger] rows[j]).path
}

/// Whether a file that is there now is saved with its size.
pub open spec fn stamp_stands(stamp: StampV, rows: Seq<ManifestRowV>) -> bool {
    exists|i: int| 0 <= i < rows.len() && (#[trigger] rows[i]).path == stamp.path && rows[i].size == stamp.size as i64
}

/// Saved rows pass exactly if every saved file is still there with its size and
/// every file that is there was saved with it: nothing is gone, new or of another
/// size.
pub proof fn law_rows_pass_iff_nothing_changed(rows: Seq<ManifestRowV>, stamps: Seq<StampV>)
    requires
        rows_unique(rows),
        stamps_unique(stamps),
    ensures
        same_files(rows, stamps) <==> (forall|i: int| 0 <= i < rows.len() ==> row_stands(#[trigger] rows[i], stamps)) && (
        forall|j: int| 0 <= j < stamps.len() ==> stamp_stands(#[trigger] stamps[j], rows)),
{
    let a = rows.map_values(|r: ManifestRowV| r.path);
    let b = stamps.map_values(|s: StampV| s.path);
    assert(a.no_duplicates()) by {
        assert forall|i: int, j: int| 0 <= i < a.len() && 0 <= j < a.len() && i != j implies a[i] != a[j] by {
            if i < j {
                assert(rows[i].path != rows[j].path);
            } else {
                assert(rows[j].path != rows[i].path);
            }
        }
    }
    assert(b.no_duplicates()) by {
        assert forall|i: int, j: int| 0 <= i < b.len() && 0 <= j < b.len() && i != j implies b[i] != b[j] by {
            if i < j {
                assert(stamps[i].path != stamps[j].path);
            } else {
                assert(stamps[j].path != stamps[i].path);
            }
        }
    }
    a.unique_seq_to_set();
    b.unique_seq_to_set();
    let (x, y) = (a.to_set(), b.to_set());
    if forall|i: int| 0 <= i < rows.len() ==> row_stands(#[trigger] rows[i], stamps) {
        assert(x.subset_of(y)) by {
            assert forall|p: Seq<char>| x.contains(p) implies y.contains(p) by {
                let i = choose|i: int| 0 <= i < a.len() && a[i] == p;
                assert(row_stands(rows[i], stamps));
                lemma_stamp_pos(stamps, p);
                assert(b[stamp_pos(stamps, p)] == p);
            }
        }
        if rows.len() == stamps.len() {
            vstd::set_lib::lemma_subset_equality(x, y);
            assert forall|j: int| 0 <= j < stamps.len() implies stamp_stands(#[trigger] stamps[j], rows) by {
                assert(y.contains(b[j]));
                assert(x.contains(b[j]));
                let i = choose|i: int| 0 <= i < a.len() && a[i] == b[j];
                assert(row_stands(rows[i], stamps));
                lemma_stamp_at(stamps, j);
            }
        } else if forall|j: int| 0 <= j < stamps.len() ==> stamp_stands(#[trigger] stamps[j], rows) {
            assert(x =~= y) by {
                assert forall|p: Seq<char>| y.contains(p) implies x.contains(p) by {
                    let j = choose|j: int| 0 <= j < b.len() && b[j] == p;
                    assert(stamp_stands(stamps[j], rows));
                    let i = choose|i: int|
                        0 <= i < rows.len() && (#[trigger] rows[i]).path == stamps[j].path && rows[i].size
                            == stamps[j].size as i64;
                    assert(a[i] == p);
                }
            }
        }
    }
}

/// Whether all of a list of comparisons came out equal.
pub fn all_equal(results: &Vec<bool>) -> (r: bool)
    ensures
        r == (forall|i: int| 0 <= i < results@.len() ==> #[trigger] results@[i]),
{
    let mut i: usize = 0;
    while i < results.len()
        invariant
            i <= results@.len(),
            forall|j: int| 0 <= j < i ==> #[trigger] results@[j],
        decreases results@.len() - i,
    {
        if !results[i] {
            return false;
        }
        i = i + 1;
    }
    true
}

/// What a scan does next about the results of an earlier one.
#[derive(Debug)]
pub enum ReuseStep {
    /// Collect the stamps of the directories.
    CollectManifest,
    /// Look for an earlier run of the same directories.
    FindRun,
    /// Load the groups of this run.
    LoadRun(String),
    /// Scan.
    Scan,
    /// This is the result.
    Finish(ScanResult),
}

pub enum ReuseStepV {
    CollectManifest,
    FindRun,
    LoadRun(Seq<char>),
    Scan,
    Finish(ScanResultV),
}

impl View for ReuseStep {
    type V = ReuseStepV;

    open spec fn view(&self) -> ReuseStepV {
        match self {
            ReuseStep::CollectManifest => ReuseStepV::CollectManifest,
            ReuseStep::FindRun => ReuseStepV::FindRun,
            ReuseStep::LoadRun(id) => ReuseStepV::LoadRun(id@),
            ReuseStep::Scan => ReuseStepV::Scan,
            ReuseStep::Finish(result) => ReuseStepV::Finish(result@),
        }
    }
}

/// The result of a scan that was cancelled before it began.
pub open spec fn cancelled_result() -> ScanResultV {
    ScanResultV {
        groups: Seq::empty(),
        skipped: Seq::empty(),
        cancelled: true,
        resume_state: None,
        folder_groups: Seq::empty(),
        reused_run_id: None,
    }
}

/// The result that replays an earlier run.
pub open spec fn reused_result(run_id: Seq<char>, groups: Seq<GroupV>, folder_groups: Seq<FolderV>) -> ScanResultV {
    ScanResultV {
        groups,
        skipped: Seq::empty(),
        cancelled: false,
        resume_state: None,
        folder_groups,
        reused_run_id: Some(run_id),
    }
}

/// The first step: only a new scan looks for an earlier run.
pub fn scan_or_reuse(resuming: bool) -> (r: ReuseStep)
    ensures
        r@ == (if resuming {
            ReuseStepV::Scan
        } else {
            ReuseStepV::CollectManifest
        }),
{
    if resuming {
        ReuseStep::Scan
    } else {
        ReuseStep::CollectManifest
    }
}

fn no_skipped() -> (r: Vec<FilePath>)
    ensures
        r.deep_view() == Seq::<PathV>::empty(),
{
    let none: Vec<FilePath> = Vec::new();
    assert(none.deep_view() =~= Seq::<PathV>::empty());
    none
}

/// Goes on when the stamps are there, or ends where that was cancelled.
pub fn after_manifest(collected: bool) -> (r: ReuseStep)
    ensures
        r@ == (if collected {
            ReuseStepV::FindRun
        } else {
            ReuseStepV::Finish(cancelled_result())
        }),
{
    if collected {
        ReuseStep::FindRun
    } else {
        let groups: Vec<DuplicateGroup> = Vec::new();
        let folder_groups: Vec<FolderGroup> = Vec::new();
        assert(groups.deep_view() =~= Seq::<GroupV>::empty());
        assert(folder_groups.deep_view() =~= Seq::<FolderV>::empty());
        ReuseStep::Finish(
            ScanResult {
                groups,
                skipped: no_skipped(),
                cancelled: true,
                resume_state: None,
                folder_groups,
                reused_run_id: None,
            },
        )
    }
}

/// Goes on with the run that was found unchanged, if any.
pub fn after_find(found: Option<String>) -> (r: ReuseStep)
    ensures
        r@ == (match found {
            Some(id) => ReuseStepV::LoadRun(id@),
            None => ReuseStepV::Scan,
        }),
{
    match found {
        Some(id) => ReuseStep::LoadRun(id),
        None => ReuseStep::Scan,
    }
}

/// What follows when the groups of a run are loaded.
pub open spec fn after_load_step(
    run_id: Seq<char>,
    recorded: Option<i64>,
    loaded: Option<(Seq<GroupV>, Seq<FolderV>)>,
) -> ReuseStepV {
    match loaded {
        Some((groups, folder_groups)) => ReuseStepV::Finish(reused_result(run_id, groups, folder_groups)),
        None => if recorded == Some(0i64) {
            ReuseStepV::Finish(reused_result(run_id, Seq::empty(), Seq::empty()))
        } else {
            ReuseStepV::Scan
        },
    }
}

/// Replays the groups of a run. A run of which no group is kept is replayed too
/// if its record says that it found none; otherwise its groups are lost, and the
/// files are scanned. `recorded` is the number of groups in the record of the run.
pub fn after_load(
    run_id: String,
    recorded: Option<i64>,
    loaded: Option<(Vec<DuplicateGroup>, Vec<FolderGroup>)>,
) -> (r: ReuseStep)
    ensures
        r@ == after_load_step(
            run_id@,
            recorded,
            match loaded {
                Some((groups, folder_groups)) => Some((groups.deep_view(), folder_groups.deep_view())),
                None => None,
            },
        ),
{
    let found_none: bool = match recorded {
        Some(n) => n == 0,
        None => false,
    };
    match loaded {
        Some((groups, folder_groups)) => ReuseStep::Finish(
            ScanResult {
                groups,
                skipped: no_skipped(),
                cancelled: false,
                resume_state: None,
                folder_groups,
                reused_run_id: Some(run_id),
            },
        ),
        None => {
            if !found_none {
                return ReuseStep::Scan;
            }
            let groups: Vec<DuplicateGroup> = Vec::new();
            let folder_groups: Vec<FolderGroup> = Vec::new();
            assert(groups.deep_view() =~= Seq::<GroupV>::empty());
            assert(folder_groups.deep_view() =~= Seq::<FolderV>::empty());
            ReuseStep::Finish(
                ScanResult {
                    groups,
                    skipped: no_skipped(),
                    cancelled: false,
                    resume_state: None,
                    folder_groups,
                    reused_run_id: Some(run_id),
                },
            )
        },
    }
}

/// Whether the stamps are saved after a scan: if they were collected and the
/// scan came to its end.
pub fn keeps_manifest(collected: bool, cancelled: bool) -> (r: bool)
    ensures
        r == (collected && !cancelled),
{
    collected && !cancelled
}

// ----------------------------------------------------------------------- laws

/// A tree that has not changed since its stamps were saved is recognised, and
/// the times left to compare are the same.
pub proof fn law_unchanged_tree_is_recognised(stamps: Seq<StampV>)
    requires
        stamps_unique(stamps),
    ensures
        same_files(manifest_rows(stamps), stamps),
        forall|i: int|
            0 <= i < stamps.len() ==> (#[trigger] time_pairs(manifest_rows(stamps), stamps)[i]).current == time_pairs(
                manifest_rows(stamps),
                stamps,
            )[i].saved,
{
    let rows = manifest_rows(stamps);
    assert forall|i: int| 0 <= i < rows.len() implies row_stands(#[trigger] rows[i], stamps) by {
        lemma_stamp_at(stamps, i);
    }
    assert forall|i: int| 0 <= i < stamps.len() implies (#[trigger] time_pairs(rows, stamps)[i]).current == time_pairs(
        rows,
        stamps,
    )[i].saved by {
        lemma_stamp_at(stamps, i);
    }
}

/// Where saved rows, one per path, stand for the files that are there now, every
/// file that is there now was there before: no file is new.
pub proof fn law_no_file_is_new(rows: Seq<ManifestRowV>, stamps: Seq<StampV>, k: int)
    requires
        same_files(rows, stamps),
        forall|i: int, j: int| 0 <= i < j < rows.len() ==> (#[trigger] rows[i]).path != (#[trigger] rows[j]).path,
        stamps_unique(stamps),
        0 <= k < stamps.len(),
    ensures
        exists|i: int|
            0 <= i < rows.len() && (#[trigger] rows[i]).path == stamps[k].path && rows[i].size == stamps[k].size as i64,
{
    let at = rows.map_values(|r: ManifestRowV| stamp_pos(stamps, r.path));
    assert(at.no_duplicates()) by {
        assert forall|i: int, j: int| 0 <= i < at.len() && 0 <= j < at.len() && i != j implies at[i] != at[j] by {
            assert(row_stands(rows[i], stamps));
            assert(row_stands(rows[j], stamps));
            lemma_stamp_pos(stamps, rows[i].path);
            lemma_stamp_pos(stamps, rows[j].path);
            if i < j {
                assert(rows[i].path != rows[j].path);
            } else {
                assert(rows[j].path != rows[i].path);
            }
        }
    }
    at.unique_seq_to_set();
    let range = vstd::set_lib::set_int_range(0, stamps.len() as int);
    vstd::set_lib::lemma_int_range(0, stamps.len() as int);
    assert(at.to_set().subset_of(range)) by {
        assert forall|v: int| at.to_set().contains(v) implies range.contains(v) by {
            let i = choose|i: int| 0 <= i < at.len() && at[i] == v;
            assert(row_stands(rows[i], stamps));
            lemma_stamp_pos(stamps, rows[i].path);
        }
    }
    vstd::set_lib::lemma_subset_equality(at.to_set(), range);
    assert(range.contains(k));
    assert(at.contains(k));
    let i = choose|i: int| 0 <= i < at.len() && at[i] == k;
    assert(row_stands(rows[i], stamps));
    lemma_stamp_pos(stamps, rows[i].path);
    assert(rows[i].path == stamps[k].path);
}

} // verus!
