//! Progress of a scan that was not finished, and the rows it is kept in.

use vstd::hash_set::StringHashSet;
use vstd::prelude::*;

use crate::order::{arranged, is_stable_order, key_of_bytes, rows, stable_order, stable_order_of, text_key};
use crate::paths::{FilePath, PathId, PathSet, PathV};
use crate::tables::{
    added, all_paths, copy_paths, distinct, lemma_pos, lists_of, paths_under, pos, BucketV, KeyList, ListV, PathList,
    Table, TableV,
};
use crate::text::{copy_texts, same_text};
use crate::walk::{ids_of, lemma_ids_push};

verus! {

/// How many unfinished scans are kept.
pub const MAX_RESUME_STATES: i64 = 50;

/// A scanned directory and the real directory it led to.
#[derive(Debug)]
pub struct RootKey {
    pub directory: String,
    pub key: String,
}

pub struct RootKeyV {
    pub directory: Seq<char>,
    pub key: Seq<char>,
}

impl View for RootKey {
    type V = RootKeyV;

    open spec fn view(&self) -> RootKeyV {
        RootKeyV { directory: self.directory@, key: self.key@ }
    }
}

impl DeepView for RootKey {
    type V = RootKeyV;

    open spec fn deep_view(&self) -> RootKeyV {
        self@
    }
}

impl Clone for RootKey {
    fn clone(&self) -> (r: Self)
        ensures
            r@ == self@,
    {
        RootKey { directory: self.directory.clone(), key: self.key.clone() }
    }
}

/// A snapshot of an interrupted scan. `stage` is "scanning" while directories
/// are walked, "quick_hash" while beginnings of files are hashed, "full_hash"
/// while duplicates are confirmed by content.
#[derive(Debug)]
pub struct ResumeState {
    pub directories: Vec<String>,
    pub stage: String,
    pub by_size: Vec<PathList>,
    pub by_partial: Vec<PathList>,
    pub by_full: Vec<PathList>,
    pub processed: Vec<FilePath>,
    pub skipped: Vec<FilePath>,
    pub completed_dirs: Vec<String>,
    pub root_keys: Vec<RootKey>,
}

pub struct ResumeV {
    pub directories: Seq<Seq<char>>,
    pub stage: Seq<char>,
    pub by_size: Seq<ListV>,
    pub by_partial: Seq<ListV>,
    pub by_full: Seq<ListV>,
    pub processed: Seq<PathV>,
    pub skipped: Seq<PathV>,
    pub completed_dirs: Seq<Seq<char>>,
    pub root_keys: Seq<RootKeyV>,
}

impl View for ResumeState {
    type V = ResumeV;

    open spec fn view(&self) -> ResumeV {
        ResumeV {
            directories: self.directories.deep_view(),
            stage: self.stage@,
            by_size: self.by_size.deep_view(),
            by_partial: self.by_partial.deep_view(),
            by_full: self.by_full.deep_view(),
            processed: self.processed.deep_view(),
            skipped: self.skipped.deep_view(),
            completed_dirs: self.completed_dirs.deep_view(),
            root_keys: self.root_keys.deep_view(),
        }
    }
}

/// A path that was sorted under a key.
#[derive(Debug)]
pub struct Entry {
    pub key: String,
    pub path: FilePath,
}

pub struct EntryV {
    pub key: Seq<char>,
    pub path: PathV,
}

impl View for Entry {
    type V = EntryV;

    open spec fn view(&self) -> EntryV {
        EntryV { key: self.key@, path: self.path@ }
    }
}

impl DeepView for Entry {
    type V = EntryV;

    open spec fn deep_view(&self) -> EntryV {
        self@
    }
}

/// What is new since the previous checkpoint of a running scan.
#[derive(Debug)]
pub struct CheckpointDelta {
    pub stage: String,
    pub new_entries: Vec<Entry>,
    pub new_skipped: Vec<FilePath>,
    pub new_completed_dirs: Vec<String>,
    /// Files whose content was compared.
    pub new_processed: Vec<FilePath>,
    pub by_size: Option<Vec<PathList>>,
    pub directories: Option<Vec<String>>,
    pub root_keys: Option<Vec<RootKey>>,
}

pub struct DeltaV {
    pub stage: Seq<char>,
    pub new_entries: Seq<EntryV>,
    pub new_skipped: Seq<PathV>,
    pub new_completed_dirs: Seq<Seq<char>>,
    pub new_processed: Seq<PathV>,
    pub by_size: Option<Seq<ListV>>,
    pub directories: Option<Seq<Seq<char>>>,
    pub root_keys: Option<Seq<RootKeyV>>,
}

impl View for CheckpointDelta {
    type V = DeltaV;

    open spec fn view(&self) -> DeltaV {
        DeltaV {
            stage: self.stage@,
            new_entries: self.new_entries.deep_view(),
            new_skipped: self.new_skipped.deep_view(),
            new_completed_dirs: self.new_completed_dirs.deep_view(),
            new_processed: self.new_processed.deep_view(),
            by_size: self.by_size.deep_view(),
            directories: self.directories.deep_view(),
            root_keys: self.root_keys.deep_view(),
        }
    }
}

/// One row of saved progress: a path in one of the lists, under a key where the
/// list has keys.
#[derive(Debug)]
pub struct ProgressRow {
    pub list_name: String,
    pub key: String,
    pub path: FilePath,
}

pub struct RowV {
    pub list_name: Seq<char>,
    pub key: Seq<char>,
    pub path: PathV,
}

impl View for ProgressRow {
    type V = RowV;

    open spec fn view(&self) -> RowV {
        RowV { list_name: self.list_name@, key: self.key@, path: self.path@ }
    }
}

impl DeepView for ProgressRow {
    type V = RowV;

    open spec fn deep_view(&self) -> RowV {
        self@
    }
}

/// A text where a row wants a path.
pub open spec fn text_only(s: Seq<char>) -> PathV {
    PathV { text: s, parts: Seq::empty() }
}

fn plain_path(s: &str) -> (r: FilePath)
    ensures
        r@ == text_only(s@),
{
    let parts: Vec<crate::paths::PathPart> = Vec::new();
    assert(parts.deep_view() =~= Seq::<crate::paths::PartV>::empty());
    FilePath { text: s.to_string(), parts }
}

// ----------------------------------------------------------------- root keys

/// The identity recorded for a directory.
pub open spec fn root_key_of(list: Seq<RootKeyV>, directory: Seq<char>) -> Option<Seq<char>>
    decreases list.len(),
{
    if list.len() == 0 {
        None
    } else if list[0].directory == directory {
        Some(list[0].key)
    } else {
        root_key_of(list.skip(1), directory)
    }
}

/// A list of identities after one was recorded; there is one per directory.
pub open spec fn root_key_put(list: Seq<RootKeyV>, entry: RootKeyV) -> Seq<RootKeyV>
    decreases list.len(),
{
    if list.len() == 0 {
        seq![entry]
    } else if list[0].directory == entry.directory {
        list.update(0, entry)
    } else {
        seq![list[0]] + root_key_put(list.skip(1), entry)
    }
}

/// The identities of a row of directories, the last one counting.
pub open spec fn root_keys_from(list: Seq<RootKeyV>) -> Seq<RootKeyV>
    decreases list.len(),
{
    if list.len() == 0 {
        Seq::empty()
    } else {
        root_key_put(root_keys_from(list.drop_last()), list.last())
    }
}

pub open spec fn roots_unique(list: Seq<RootKeyV>) -> bool {
    forall|i: int, j: int| 0 <= i < j < list.len() ==> (#[trigger] list[i]).directory != (#[trigger] list[j]).directory
}

proof fn lemma_root_key_at(list: Seq<RootKeyV>, directory: Seq<char>, i: int)
    requires
        0 <= i <= list.len(),
        forall|j: int| 0 <= j < i ==> (#[trigger] list[j]).directory != directory,
        i < list.len() ==> list[i].directory == directory,
    ensures
        root_key_of(list, directory) == (if i < list.len() {
            Some(list[i].key)
        } else {
            None
        }),
        forall|key: Seq<char>|
            #![trigger root_key_put(list, RootKeyV { directory, key })]
            root_key_put(list, RootKeyV { directory, key }) == (if i < list.len() {
                list.update(i, RootKeyV { directory, key })
            } else {
                list.push(RootKeyV { directory, key })
            }),
    decreases list.len(),
{
    if list.len() > 0 {
        if i == 0 {
        } else {
            lemma_root_key_at(list.skip(1), directory, i - 1);
            assert forall|key: Seq<char>|
                #![trigger root_key_put(list, RootKeyV { directory, key })]
                root_key_put(list, RootKeyV { directory, key }) == (if i < list.len() {
                    list.update(i, RootKeyV { directory, key })
                } else {
                    list.push(RootKeyV { directory, key })
                }) by {
                let e = RootKeyV { directory, key };
                assert(root_key_put(list, e) =~= seq![list[0]] + root_key_put(list.skip(1), e));
                if i < list.len() {
                    assert(seq![list[0]] + list.skip(1).update(i - 1, e) =~= list.update(i, e));
                } else {
                    assert(seq![list[0]] + list.skip(1).push(e) =~= list.push(e));
                }
            }
        }
    } else {
        assert forall|key: Seq<char>|
            #![trigger root_key_put(list, RootKeyV { directory, key })]
            root_key_put(list, RootKeyV { directory, key }) == list.push(RootKeyV { directory, key }) by {
            assert(list.push(RootKeyV { directory, key }) =~= seq![RootKeyV { directory, key }]);
        }
    }
}

fn find_root_key(list: &Vec<RootKey>, directory: &str) -> (i: usize)
    ensures
        i <= list@.len(),
        forall|j: int| 0 <= j < i ==> (#[trigger] list.deep_view()[j]).directory != directory@,
        i < list@.len() ==> list.deep_view()[i as int].directory == directory@,
{
    let mut i: usize = 0;
    while i < list.len()
        invariant
            i <= list@.len(),
            forall|j: int| 0 <= j < i ==> (#[trigger] list.deep_view()[j]).directory != directory@,
        decreases list@.len() - i,
    {
        if same_text(list[i].directory.as_str(), directory) {
            return i;
        }
        assert(list.deep_view()[i as int] == list@[i as int]@);
        i = i + 1;
    }
    i
}

/// The identity recorded for a directory.
pub fn recorded_root<'a>(list: &'a Vec<RootKey>, directory: &str) -> (r: Option<&'a String>)
    ensures
        match r {
            Some(k) => root_key_of(list.deep_view(), directory@) == Some(k@),
            None => root_key_of(list.deep_view(), directory@) is None,
        },
{
    let i = find_root_key(list, directory);
    proof {
        lemma_root_key_at(list.deep_view(), directory@, i as int);
    }
    if i < list.len() {
        Some(&list[i].key)
    } else {
        None
    }
}

/// Records the identity of a directory.
pub fn record_root(list: &mut Vec<RootKey>, entry: RootKey)
    ensures
        final(list).deep_view() == root_key_put(old(list).deep_view(), entry@),
{
    let i = find_root_key(list, entry.directory.as_str());
    proof {
        lemma_root_key_at(list.deep_view(), entry.directory@, i as int);
        assert(RootKeyV { directory: entry.directory@, key: entry.key@ } == entry@);
        let _ = root_key_put(list.deep_view(), RootKeyV { directory: entry.directory@, key: entry.key@ });
    }
    let ghost e = entry@;
    if i < list.len() {
        list[i] = entry;
        assert(list.deep_view() =~= old(list).deep_view().update(i as int, e));
    } else {
        list.push(entry);
        assert(list.deep_view() =~= old(list).deep_view().push(e));
    }
}

/// The identities of a row of directories, one per directory.
pub fn collect_roots(list: &Vec<RootKey>) -> (r: Vec<RootKey>)
    ensures
        r.deep_view() == root_keys_from(list.deep_view()),
{
    let mut r: Vec<RootKey> = Vec::new();
    let mut i: usize = 0;
    assert(r.deep_view() =~= Seq::<RootKeyV>::empty());
    assert(list.deep_view().take(0) =~= Seq::<RootKeyV>::empty());
    while i < list.len()
        invariant
            i <= list@.len(),
            r.deep_view() == root_keys_from(list.deep_view().take(i as int)),
        decreases list@.len() - i,
    {
        let ghost t = list.deep_view().take(i + 1);
        assert(t.drop_last() =~= list.deep_view().take(i as int));
        assert(t.last() == list@[i as int]@);
        record_root(&mut r, list[i].clone());
        i = i + 1;
    }
    assert(list.deep_view().take(i as int) =~= list.deep_view());
    r
}

// --------------------------------------------------------------- writing rows

/// The rows of one list of paths under a key.
pub open spec fn list_rows(name: Seq<char>, list: ListV) -> Seq<RowV> {
    list.paths.map_values(|p: PathV| RowV { list_name: name, key: list.key, path: p })
}

/// The rows of lists, one after the other.
pub open spec fn lists_rows(name: Seq<char>, lists: Seq<ListV>) -> Seq<RowV>
    decreases lists.len(),
{
    if lists.len() == 0 {
        Seq::empty()
    } else {
        lists_rows(name, lists.drop_last()) + list_rows(name, lists.last())
    }
}

pub open spec fn skipped_rows(paths: Seq<PathV>) -> Seq<RowV> {
    paths.map_values(|p: PathV| RowV { list_name: "skipped"@, key: Seq::empty(), path: p })
}

pub open spec fn processed_rows(paths: Seq<PathV>) -> Seq<RowV> {
    paths.map_values(|p: PathV| RowV { list_name: "processed"@, key: Seq::empty(), path: p })
}

pub open spec fn completed_rows(dirs: Seq<Seq<char>>) -> Seq<RowV> {
    dirs.map_values(|d: Seq<char>| RowV { list_name: "completed_dirs"@, key: Seq::empty(), path: text_only(d) })
}

pub open spec fn root_rows(list: Seq<RootKeyV>) -> Seq<RowV> {
    list.map_values(|e: RootKeyV| RowV { list_name: "root_keys"@, key: e.directory, path: text_only(e.key) })
}

/// The rows that a whole snapshot is kept in.
pub open spec fn state_rows(s: ResumeV) -> Seq<RowV> {
    lists_rows("by_size"@, s.by_size) + lists_rows("by_partial"@, s.by_partial) + lists_rows("by_full"@, s.by_full)
        + skipped_rows(s.skipped) + completed_rows(s.completed_dirs) + root_rows(s.root_keys) + processed_rows(
        s.processed,
    )
}

fn push_list_rows(out: &mut Vec<ProgressRow>, name: &str, lists: &Vec<PathList>)
    ensures
        final(out).deep_view() == old(out).deep_view() + lists_rows(name@, lists.deep_view()),
{
    let mut i: usize = 0;
    assert(lists.deep_view().take(0) =~= Seq::<ListV>::empty());
    assert(out.deep_view() =~= old(out).deep_view() + lists_rows(name@, lists.deep_view().take(0)));
    while i < lists.len()
        invariant
            i <= lists@.len(),
            out.deep_view() == old(out).deep_view() + lists_rows(name@, lists.deep_view().take(i as int)),
        decreases lists@.len() - i,
    {
        let ghost before = out.deep_view();
        let ghost t = lists.deep_view().take(i + 1);
        let ghost l = lists@[i as int]@;
        assert(t.drop_last() =~= lists.deep_view().take(i as int));
        assert(t.last() == l);
        let mut j: usize = 0;
        let list = &lists[i];
        assert(out.deep_view() =~= before + list_rows(name@, l).take(0));
        while j < list.paths.len()
            invariant
                j <= list.paths@.len(),
                l == list@,
                out.deep_view() == before + list_rows(name@, l).take(j as int),
            decreases list.paths@.len() - j,
        {
            let ghost b2 = out.deep_view();
            let row = ProgressRow { list_name: name.to_string(), key: list.key.clone(), path: list.paths[j].clone() };
            let ghost rv = row@;
            out.push(row);
            assert(out.deep_view() =~= b2.push(rv));
            assert(l.paths[j as int] == list.paths@[j as int]@);
            assert(rv == list_rows(name@, l)[j as int]);
            assert(out.deep_view() =~= before + list_rows(name@, l).take(j + 1));
            j = j + 1;
        }
        assert(list_rows(name@, l).take(j as int) =~= list_rows(name@, l));
        assert(out.deep_view() =~= old(out).deep_view() + lists_rows(name@, t));
        i = i + 1;
    }
    assert(lists.deep_view().take(i as int) =~= lists.deep_view());
}

fn push_skipped_rows(out: &mut Vec<ProgressRow>, paths: &Vec<FilePath>)
    ensures
        final(out).deep_view() == old(out).deep_view() + skipped_rows(paths.deep_view()),
{
    let mut i: usize = 0;
    let ghost all = skipped_rows(paths.deep_view());
    assert(out.deep_view() =~= old(out).deep_view() + all.take(0));
    while i < paths.len()
        invariant
            i <= paths@.len(),
            all == skipped_rows(paths.deep_view()),
            out.deep_view() == old(out).deep_view() + all.take(i as int),
        decreases paths@.len() - i,
    {
        let ghost before = out.deep_view();
        let row = ProgressRow { list_name: "skipped".to_string(), key: String::new(), path: paths[i].clone() };
        let ghost rv = row@;
        out.push(row);
        assert(out.deep_view() =~= before.push(rv));
        assert(paths.deep_view()[i as int] == paths@[i as int]@);
        assert(rv == all[i as int]);
        assert(out.deep_view() =~= old(out).deep_view() + all.take(i + 1));
        i = i + 1;
    }
    assert(all.take(i as int) =~= all);
}

fn push_processed_rows(out: &mut Vec<ProgressRow>, paths: &Vec<FilePath>)
    ensures
        final(out).deep_view() == old(out).deep_view() + processed_rows(paths.deep_view()),
{
    let mut i: usize = 0;
    let ghost all = processed_rows(paths.deep_view());
    assert(out.deep_view() =~= old(out).deep_view() + all.take(0));
    while i < paths.len()
        invariant
            i <= paths@.len(),
            all == processed_rows(paths.deep_view()),
            out.deep_view() == old(out).deep_view() + all.take(i as int),
        decreases paths@.len() - i,
    {
        let ghost before = out.deep_view();
        let row = ProgressRow { list_name: "processed".to_string(), key: String::new(), path: paths[i].clone() };
        let ghost rv = row@;
        out.push(row);
        assert(out.deep_view() =~= before.push(rv));
        assert(paths.deep_view()[i as int] == paths@[i as int]@);
        assert(rv == all[i as int]);
        assert(out.deep_view() =~= old(out).deep_view() + all.take(i + 1));
        i = i + 1;
    }
    assert(all.take(i as int) =~= all);
}

fn push_completed_rows(out: &mut Vec<ProgressRow>, dirs: &Vec<String>)
    ensures
        final(out).deep_view() == old(out).deep_view() + completed_rows(dirs.deep_view()),
{
    let mut i: usize = 0;
    let ghost all = completed_rows(dirs.deep_view());
    assert(out.deep_view() =~= old(out).deep_view() + all.take(0));
    while i < dirs.len()
        invariant
            i <= dirs@.len(),
            all == completed_rows(dirs.deep_view()),
            out.deep_view() == old(out).deep_view() + all.take(i as int),
        decreases dirs@.len() - i,
    {
        let ghost before = out.deep_view();
        let row = ProgressRow {
            list_name: "completed_dirs".to_string(),
            key: String::new(),
            path: plain_path(dirs[i].as_str()),
        };
        let ghost rv = row@;
        out.push(row);
        assert(out.deep_view() =~= before.push(rv));
        assert(dirs.deep_view()[i as int] == dirs@[i as int]@);
        assert(rv == all[i as int]);
        assert(out.deep_view() =~= old(out).deep_view() + all.take(i + 1));
        i = i + 1;
    }
    assert(all.take(i as int) =~= all);
}

fn push_root_rows(out: &mut Vec<ProgressRow>, list: &Vec<RootKey>)
    ensures
        final(out).deep_view() == old(out).deep_view() + root_rows(list.deep_view()),
{
    let mut i: usize = 0;
    let ghost all = root_rows(list.deep_view());
    assert(out.deep_view() =~= old(out).deep_view() + all.take(0));
    while i < list.len()
        invariant
            i <= list@.len(),
            all == root_rows(list.deep_view()),
            out.deep_view() == old(out).deep_view() + all.take(i as int),
        decreases list@.len() - i,
    {
        let ghost before = out.deep_view();
        let row = ProgressRow {
            list_name: "root_keys".to_string(),
            key: list[i].directory.clone(),
            path: plain_path(list[i].key.as_str()),
        };
        let ghost rv = row@;
        out.push(row);
        assert(out.deep_view() =~= before.push(rv));
        assert(list.deep_view()[i as int] == list@[i as int]@);
        assert(rv == all[i as int]);
        assert(out.deep_view() =~= old(out).deep_view() + all.take(i + 1));
        i = i + 1;
    }
    assert(all.take(i as int) =~= all);
}

/// The rows to keep for a snapshot, in place of all rows that its run had.
pub fn save_resume_state(state: &ResumeState) -> (r: Vec<ProgressRow>)
    ensures
        r.deep_view() == state_rows(state@),
{
    let mut out: Vec<ProgressRow> = Vec::new();
    push_list_rows(&mut out, "by_size", &state.by_size);
    push_list_rows(&mut out, "by_partial", &state.by_partial);
    push_list_rows(&mut out, "by_full", &state.by_full);
    push_skipped_rows(&mut out, &state.skipped);
    push_completed_rows(&mut out, &state.completed_dirs);
    push_root_rows(&mut out, &state.root_keys);
    push_processed_rows(&mut out, &state.processed);
    assert(out.deep_view() =~= state_rows(state@));
    out
}

// ---------------------------------------------------------------- checkpoints

/// The list that new entries of a stage go into.
pub open spec fn list_of_stage(stage: Seq<char>) -> Seq<char> {
    if stage == "scanning"@ {
        "by_size"@
    } else if stage == "quick_hash"@ {
        "by_partial"@
    } else if stage == "full_hash"@ {
        "by_full"@
    } else {
        stage
    }
}

pub open spec fn entry_rows(name: Seq<char>, entries: Seq<EntryV>) -> Seq<RowV> {
    entries.map_values(|e: EntryV| RowV { list_name: name, key: e.key, path: e.path })
}

/// The paths whose texts are not known yet.
pub open spec fn missing_paths(known: Set<Seq<char>>, paths: Seq<PathV>) -> Seq<PathV>
    decreases paths.len(),
{
    if paths.len() == 0 {
        Seq::empty()
    } else if known.contains(paths.last().text) {
        missing_paths(known, paths.drop_last())
    } else {
        missing_paths(known, paths.drop_last()).push(paths.last())
    }
}

/// Of each list the paths that a table does not have under its key.
pub open spec fn missing_lists(t: TableV, lists: Seq<ListV>) -> Seq<ListV> {
    lists.map_values(
        |l: ListV| ListV { key: l.key, paths: missing_paths(texts_of(paths_under(t, l.key)), l.paths) },
    )
}

/// The identities of directories for which none is recorded.
pub open spec fn missing_roots(known: Seq<RootKeyV>, list: Seq<RootKeyV>) -> Seq<RootKeyV>
    decreases list.len(),
{
    if list.len() == 0 {
        Seq::empty()
    } else if root_key_of(known, list.last().directory) is Some {
        missing_roots(known, list.drop_last())
    } else {
        missing_roots(known, list.drop_last()).push(list.last())
    }
}

/// The rows that a checkpoint adds to those that amount to `l`: what is new, and
/// what is missing of the sizes and root directories where it has them all.
pub open spec fn delta_rows(d: DeltaV, l: LoadV) -> Seq<RowV> {
    (match d.by_size {
        Some(lists) => lists_rows("by_size"@, missing_lists(l.by_size, lists)),
        None => Seq::empty(),
    }) + (match d.root_keys {
        Some(list) => root_rows(missing_roots(l.root_keys, list)),
        None => Seq::empty(),
    }) + entry_rows(list_of_stage(d.stage), d.new_entries) + skipped_rows(d.new_skipped) + completed_rows(
        d.new_completed_dirs,
    ) + processed_rows(d.new_processed)
}

/// The rows of a run after a checkpoint: those that were there, and more.
pub open spec fn rows_after(before: Seq<RowV>, d: DeltaV) -> Seq<RowV> {
    before + delta_rows(d, load_rows(nothing_loaded(), before))
}

fn drop_known(known: &Vec<FilePath>, paths: &Vec<FilePath>) -> (r: Vec<FilePath>)
    ensures
        r.deep_view() == missing_paths(texts_of(known.deep_view()), paths.deep_view()),
{
    let mut texts = StringHashSet::new();
    let ghost kv = known.deep_view();
    let mut k: usize = 0;
    assert(texts_of(kv.take(0)) =~= Set::<Seq<char>>::empty());
    while k < known.len()
        invariant
            k <= known@.len(),
            kv == known.deep_view(),
            texts@ == texts_of(kv.take(k as int)),
        decreases known@.len() - k,
    {
        proof {
            lemma_texts_push(kv.take(k as int), kv[k as int]);
            assert(kv.take(k + 1) =~= kv.take(k as int).push(kv[k as int]));
        }
        texts.insert(known[k].text.clone());
        k = k + 1;
    }
    assert(kv.take(k as int) =~= kv);
    let ghost all = paths.deep_view();
    let mut r: Vec<FilePath> = Vec::new();
    let mut i: usize = 0;
    assert(all.take(0) =~= Seq::<PathV>::empty());
    assert(r.deep_view() =~= Seq::<PathV>::empty());
    while i < paths.len()
        invariant
            i <= paths@.len(),
            all == paths.deep_view(),
            texts@ == texts_of(kv),
            r.deep_view() == missing_paths(texts_of(kv), all.take(i as int)),
        decreases paths@.len() - i,
    {
        let ghost t = all.take(i + 1);
        assert(t.drop_last() =~= all.take(i as int));
        assert(t.last() == paths@[i as int]@);
        if !texts.contains(paths[i].text.as_str()) {
            let ghost before = r.deep_view();
            r.push(paths[i].clone());
            assert(r.deep_view() =~= before.push(t.last()));
        }
        i = i + 1;
    }
    assert(all.take(i as int) =~= all);
    r
}

proof fn lemma_texts_push(s: Seq<PathV>, p: PathV)
    ensures
        texts_of(s.push(p)) == texts_of(s).insert(p.text),
{
    let ms = s.map_values(|p: PathV| p.text);
    let mt = s.push(p).map_values(|p: PathV| p.text);
    assert(mt =~= ms.push(p.text));
    assert forall|x: Seq<char>| mt.to_set().contains(x) == ms.to_set().insert(p.text).contains(x) by {
        if ms.contains(x) {
            let j = choose|j: int| 0 <= j < ms.len() && ms[j] == x;
            assert(mt[j] == x);
        }
        if x == p.text {
            assert(mt[s.len() as int] == x);
        }
    }
    assert(mt.to_set() =~= ms.to_set().insert(p.text));
}

fn drop_known_lists(t: &Table, lists: &Vec<PathList>) -> (r: Vec<PathList>)
    requires
        t.wf(),
    ensures
        r.deep_view() == missing_lists(t@, lists.deep_view()),
{
    let mut r: Vec<PathList> = Vec::new();
    let mut i: usize = 0;
    while i < lists.len()
        invariant
            i <= lists@.len(),
            t.wf(),
            r@.len() == i,
            forall|j: int| 0 <= j < i ==> (#[trigger] r@[j])@ == missing_lists(t@, lists.deep_view())[j],
        decreases lists@.len() - i,
    {
        let paths = drop_known(&t.paths_of(lists[i].key.as_str()), &lists[i].paths);
        assert(lists.deep_view()[i as int] == lists@[i as int]@);
        r.push(PathList { key: lists[i].key.clone(), paths });
        i = i + 1;
    }
    assert(r.deep_view() =~= missing_lists(t@, lists.deep_view()));
    r
}

fn drop_known_roots(known: &Vec<RootKey>, list: &Vec<RootKey>) -> (r: Vec<RootKey>)
    ensures
        r.deep_view() == missing_roots(known.deep_view(), list.deep_view()),
{
    let mut r: Vec<RootKey> = Vec::new();
    let ghost all = list.deep_view();
    let mut i: usize = 0;
    assert(all.take(0) =~= Seq::<RootKeyV>::empty());
    assert(r.deep_view() =~= Seq::<RootKeyV>::empty());
    while i < list.len()
        invariant
            i <= list@.len(),
            all == list.deep_view(),
            r.deep_view() == missing_roots(known.deep_view(), all.take(i as int)),
        decreases list@.len() - i,
    {
        let ghost t = all.take(i + 1);
        assert(t.drop_last() =~= all.take(i as int));
        assert(t.last() == list@[i as int]@);
        if recorded_root(known, list[i].directory.as_str()).is_none() {
            let ghost before = r.deep_view();
            r.push(list[i].clone());
            assert(r.deep_view() =~= before.push(t.last()));
        }
        i = i + 1;
    }
    assert(all.take(i as int) =~= all);
    r
}

fn push_entry_rows(out: &mut Vec<ProgressRow>, name: &str, entries: &Vec<Entry>)
    ensures
        final(out).deep_view() == old(out).deep_view() + entry_rows(name@, entries.deep_view()),
{
    let mut i: usize = 0;
    let ghost all = entry_rows(name@, entries.deep_view());
    assert(out.deep_view() =~= old(out).deep_view() + all.take(0));
    while i < entries.len()
        invariant
            i <= entries@.len(),
            all == entry_rows(name@, entries.deep_view()),
            out.deep_view() == old(out).deep_view() + all.take(i as int),
        decreases entries@.len() - i,
    {
        let ghost before = out.deep_view();
        let row = ProgressRow {
            list_name: name.to_string(),
            key: entries[i].key.clone(),
            path: entries[i].path.clone(),
        };
        let ghost rv = row@;
        out.push(row);
        assert(out.deep_view() =~= before.push(rv));
        assert(entries.deep_view()[i as int] == entries@[i as int]@);
        assert(rv == all[i as int]);
        assert(out.deep_view() =~= old(out).deep_view() + all.take(i + 1));
        i = i + 1;
    }
    assert(all.take(i as int) =~= all);
}

/// What is recorded of a run beside its rows, after a checkpoint: its directories and
/// its stage. The directories stay unless the checkpoint brings them; `saved` are those
/// of a run that is recorded already.
pub fn checkpoint_record(delta: &CheckpointDelta, saved: Option<Vec<String>>) -> (r: (Vec<String>, String))
    ensures
        r.0.deep_view() == (match (delta@.directories, saved.deep_view()) {
            (Some(list), _) => list,
            (None, Some(list)) => list,
            (None, None) => Seq::empty(),
        }),
        r.1@ == delta@.stage,
{
    let stage = delta.stage.clone();
    match &delta.directories {
        Some(list) => (copy_texts(list), stage),
        None => match saved {
            Some(list) => (list, stage),
            None => {
                let none: Vec<String> = Vec::new();
                assert(none.deep_view() =~= Seq::<Seq<char>>::empty());
                (none, stage)
            },
        },
    }
}

/// The rows that a checkpoint adds to the saved rows of its run. Nothing that was
/// saved is touched. The saved rows count only where the checkpoint has all sizes
/// or all root directories.
pub fn checkpoint_progress(delta: &CheckpointDelta, saved: &Vec<ProgressRow>) -> (r: Vec<ProgressRow>)
    ensures
        r.deep_view() == delta_rows(delta@, load_rows(nothing_loaded(), saved.deep_view())),
{
    let known = Loaded::read(saved);
    let mut out: Vec<ProgressRow> = Vec::new();
    assert(out.deep_view() =~= Seq::<RowV>::empty());
    match &delta.by_size {
        Some(lists) => {
            push_list_rows(&mut out, "by_size", &drop_known_lists(&known.by_size, lists));
        },
        None => {},
    }
    match &delta.root_keys {
        Some(list) => {
            push_root_rows(&mut out, &drop_known_roots(&known.root_keys, list));
        },
        None => {},
    }
    let stage = delta.stage.as_str();
    let name = if same_text(stage, "scanning") {
        "by_size"
    } else if same_text(stage, "quick_hash") {
        "by_partial"
    } else if same_text(stage, "full_hash") {
        "by_full"
    } else {
        stage
    };
    push_entry_rows(&mut out, name, &delta.new_entries);
    push_skipped_rows(&mut out, &delta.new_skipped);
    push_completed_rows(&mut out, &delta.new_completed_dirs);
    push_processed_rows(&mut out, &delta.new_processed);
    assert(out.deep_view() =~= delta_rows(delta@, known@));
    out
}

// --------------------------------------------------------------- reading rows

/// Progress as it is read back, row by row.
pub struct LoadV {
    pub by_size: TableV,
    pub by_partial: TableV,
    pub by_full: TableV,
    pub skipped: Seq<PathV>,
    pub completed_dirs: Seq<Seq<char>>,
    pub root_keys: Seq<RootKeyV>,
    pub processed: Seq<PathV>,
}

pub open spec fn nothing_loaded() -> LoadV {
    LoadV {
        by_size: Seq::empty(),
        by_partial: Seq::empty(),
        by_full: Seq::empty(),
        skipped: Seq::empty(),
        completed_dirs: Seq::empty(),
        root_keys: Seq::empty(),
        processed: Seq::empty(),
    }
}

/// What one row adds. Rows of unknown lists add nothing.
pub open spec fn load_row(l: LoadV, row: RowV) -> LoadV {
    if row.list_name == "by_size"@ {
        LoadV { by_size: added(l.by_size, row.key, 0, row.path), ..l }
    } else if row.list_name == "by_partial"@ {
        LoadV { by_partial: added(l.by_partial, row.key, 0, row.path), ..l }
    } else if row.list_name == "by_full"@ {
        LoadV { by_full: added(l.by_full, row.key, 0, row.path), ..l }
    } else if row.list_name == "skipped"@ {
        LoadV { skipped: l.skipped.push(row.path), ..l }
    } else if row.list_name == "completed_dirs"@ {
        LoadV { completed_dirs: l.completed_dirs.push(row.path.text), ..l }
    } else if row.list_name == "root_keys"@ {
        LoadV { root_keys: root_key_put(l.root_keys, RootKeyV { directory: row.key, key: row.path.text }), ..l }
    } else if row.list_name == "processed"@ {
        LoadV { processed: l.processed.push(row.path), ..l }
    } else {
        l
    }
}

pub open spec fn load_rows(l: LoadV, rows: Seq<RowV>) -> LoadV
    decreases rows.len(),
{
    if rows.len() == 0 {
        l
    } else {
        load_row(load_rows(l, rows.drop_last()), rows.last())
    }
}

/// The paths of a list that did not occur before.
pub open spec fn distinct_paths(list: Seq<PathV>) -> Seq<PathV>
    decreases list.len(),
{
    if list.len() == 0 {
        Seq::empty()
    } else {
        let before = distinct_paths(list.drop_last());
        if ids_of(list.drop_last()).contains(list.last().parts) {
            before
        } else {
            before.push(list.last())
        }
    }
}

pub open spec fn texts_of(list: Seq<PathV>) -> Set<Seq<char>> {
    list.map_values(|p: PathV| p.text).to_set()
}

/// Paths in ascending order of their texts.
pub open spec fn sorted_by_text(list: Seq<PathV>) -> Seq<PathV> {
    arranged(list, stable_order_of(list.map_values(|p: PathV| text_key(p.text))))
}

/// The files that the stage in progress is done with, each once: those compared,
/// confirmed or skipped, and those hashed while files are hashed.
pub open spec fn processed_of(l: LoadV, stage: Seq<char>) -> Seq<PathV> {
    let hashed = if stage == "full_hash"@ {
        Seq::empty()
    } else {
        all_paths(l.by_partial)
    };
    sorted_by_text(distinct_paths(hashed + all_paths(l.by_full) + l.skipped + l.processed))
}

/// The snapshot that the rows of a run amount to.
pub open spec fn state_of(directories: Seq<Seq<char>>, stage: Seq<char>, rows: Seq<RowV>) -> ResumeV {
    let l = load_rows(nothing_loaded(), rows);
    ResumeV {
        directories,
        stage,
        by_size: lists_of(l.by_size),
        by_partial: lists_of(l.by_partial),
        by_full: lists_of(l.by_full),
        processed: processed_of(l, stage),
        skipped: l.skipped,
        completed_dirs: l.completed_dirs,
        root_keys: l.root_keys,
    }
}

/// The paths of a list that did not occur before.
fn drop_repeated(list: &Vec<FilePath>) -> (r: Vec<FilePath>)
    ensures
        r.deep_view() == distinct_paths(list.deep_view()),
{
    let mut seen = PathSet::new();
    let mut r: Vec<FilePath> = Vec::new();
    let mut i: usize = 0;
    let ghost all = list.deep_view();
    assert(all.take(0) =~= Seq::<PathV>::empty());
    assert(r.deep_view() =~= Seq::<PathV>::empty());
    assert(ids_of(all.take(0)) =~= Set::<PathId>::empty());
    while i < list.len()
        invariant
            i <= list@.len(),
            all == list.deep_view(),
            seen@ == ids_of(all.take(i as int)),
            r.deep_view() == distinct_paths(all.take(i as int)),
        decreases list@.len() - i,
    {
        let ghost s = all.take(i as int);
        let ghost t = all.take(i + 1);
        let ghost p = list@[i as int]@;
        assert(t.drop_last() =~= s);
        assert(t.last() == p);
        let fresh = seen.insert(&list[i]);
        proof {
            lemma_ids_push(s, p);
            assert(t =~= s.push(p));
        }
        if fresh {
            let ghost before = r.deep_view();
            r.push(list[i].clone());
            assert(r.deep_view() =~= before.push(p));
        }
        i = i + 1;
    }
    assert(all.take(i as int) =~= all);
    r
}

fn sort_by_text(list: &Vec<FilePath>) -> (r: Vec<FilePath>)
    ensures
        r.deep_view() == sorted_by_text(list.deep_view()),
{
    let mut keys: Vec<Vec<u64>> = Vec::new();
    let mut i: usize = 0;
    while i < list.len()
        invariant
            i <= list@.len(),
            keys@.len() == i,
            forall|j: int| 0 <= j < i ==> (#[trigger] keys@[j])@ == text_key(list@[j]@.text),
        decreases list@.len() - i,
    {
        keys.push(key_of_bytes(list[i].text.as_str().as_bytes()));
        i = i + 1;
    }
    assert(rows(keys@) =~= list.deep_view().map_values(|p: PathV| text_key(p.text)));
    let perm = stable_order(&keys);
    let mut r: Vec<FilePath> = Vec::new();
    let mut k: usize = 0;
    while k < perm.len()
        invariant
            k <= perm@.len(),
            is_stable_order(rows(keys@), perm@),
            keys@.len() == list@.len(),
            r@.len() == k,
            forall|j: int| 0 <= j < k ==> (#[trigger] r@[j])@ == list@[perm@[j] as int]@,
        decreases perm@.len() - k,
    {
        r.push(list[perm[k]].clone());
        k = k + 1;
    }
    assert(r.deep_view() =~= arranged(list.deep_view(), perm@));
    r
}

/// Progress as it is read back.
struct Loaded {
    by_size: Table,
    by_partial: Table,
    by_full: Table,
    skipped: Vec<FilePath>,
    completed_dirs: Vec<String>,
    root_keys: Vec<RootKey>,
    processed: Vec<FilePath>,
}

impl View for Loaded {
    type V = LoadV;

    closed spec fn view(&self) -> LoadV {
        LoadV {
            by_size: self.by_size@,
            by_partial: self.by_partial@,
            by_full: self.by_full@,
            skipped: self.skipped.deep_view(),
            completed_dirs: self.completed_dirs.deep_view(),
            root_keys: self.root_keys.deep_view(),
            processed: self.processed.deep_view(),
        }
    }
}

impl Loaded {
    spec fn wf(&self) -> bool {
        self.by_size.wf() && self.by_partial.wf() && self.by_full.wf()
    }

    fn nothing() -> (r: Loaded)
        ensures
            r.wf(),
            r@ == nothing_loaded(),
    {
        let r = Loaded {
            by_size: Table::new(),
            by_partial: Table::new(),
            by_full: Table::new(),
            skipped: Vec::new(),
            completed_dirs: Vec::new(),
            root_keys: Vec::new(),
            processed: Vec::new(),
        };
        assert(r.skipped.deep_view() =~= Seq::<PathV>::empty());
        assert(r.completed_dirs.deep_view() =~= Seq::<Seq<char>>::empty());
        assert(r.root_keys.deep_view() =~= Seq::<RootKeyV>::empty());
        assert(r.processed.deep_view() =~= Seq::<PathV>::empty());
        r
    }

    fn take_row(&mut self, row: &ProgressRow)
        requires
            old(self).wf(),
        ensures
            final(self).wf(),
            final(self)@ == load_row(old(self)@, row@),
    {
        let name = row.list_name.as_str();
        if same_text(name, "by_size") {
            self.by_size.add(row.key.clone(), 0, row.path.clone());
        } else if same_text(name, "by_partial") {
            self.by_partial.add(row.key.clone(), 0, row.path.clone());
        } else if same_text(name, "by_full") {
            self.by_full.add(row.key.clone(), 0, row.path.clone());
        } else if same_text(name, "skipped") {
            self.skipped.push(row.path.clone());
            assert(self.skipped.deep_view() =~= old(self).skipped.deep_view().push(row.path@));
        } else if same_text(name, "completed_dirs") {
            self.completed_dirs.push(row.path.text.clone());
            assert(self.completed_dirs.deep_view() =~= old(self).completed_dirs.deep_view().push(row.path.text@));
        } else if same_text(name, "root_keys") {
            record_root(&mut self.root_keys, RootKey { directory: row.key.clone(), key: row.path.text.clone() });
        } else if same_text(name, "processed") {
            self.processed.push(row.path.clone());
            assert(self.processed.deep_view() =~= old(self).processed.deep_view().push(row.path@));
        }
        proof {
            lemma_names_differ();
        }
    }

    fn read(rows: &Vec<ProgressRow>) -> (r: Loaded)
        ensures
            r.wf(),
            r@ == load_rows(nothing_loaded(), rows.deep_view()),
    {
        let mut r = Loaded::nothing();
        let ghost all = rows.deep_view();
        assert(all.take(0) =~= Seq::<RowV>::empty());
        let mut i: usize = 0;
        while i < rows.len()
            invariant
                i <= rows@.len(),
                all == rows.deep_view(),
                r.wf(),
                r@ == load_rows(nothing_loaded(), all.take(i as int)),
            decreases rows@.len() - i,
        {
            let ghost t = all.take(i + 1);
            assert(t.drop_last() =~= all.take(i as int));
            assert(t.last() == rows@[i as int]@);
            r.take_row(&rows[i]);
            i = i + 1;
        }
        assert(all.take(i as int) =~= all);
        r
    }
}

/// Puts the rows of a run back together.
pub fn load_resume_state(directories: Vec<String>, stage: String, rows: Vec<ProgressRow>) -> (r: ResumeState)
    ensures
        r@ == state_of(directories.deep_view(), stage@, rows.deep_view()),
{
    let l = Loaded::read(&rows);
    let full: bool = same_text(stage.as_str(), "full_hash");
    let mut worked: Vec<FilePath> = if full {
        Vec::new()
    } else {
        l.by_partial.paths()
    };
    let ghost w1 = worked.deep_view();
    assert(full ==> w1 =~= Seq::<PathV>::empty());
    let mut full_paths = l.by_full.paths();
    let ghost w2 = full_paths.deep_view();
    worked.append(&mut full_paths);
    assert(worked.deep_view() =~= w1 + w2);
    let mut skipped_copy = copy_paths(&l.skipped);
    worked.append(&mut skipped_copy);
    assert(worked.deep_view() =~= w1 + w2 + l@.skipped);
    let mut compared = copy_paths(&l.processed);
    worked.append(&mut compared);
    assert(worked.deep_view() =~= w1 + w2 + l@.skipped + l@.processed);
    let processed = sort_by_text(&drop_repeated(&worked));
    ResumeState {
        directories,
        stage,
        by_size: l.by_size.lists(),
        by_partial: l.by_partial.lists(),
        by_full: l.by_full.lists(),
        processed,
        skipped: l.skipped,
        completed_dirs: l.completed_dirs,
        root_keys: l.root_keys,
    }
}

// ----------------------------------------------------------------------- laws

/// Rows read one after the other.
pub proof fn lemma_load_concat(l: LoadV, a: Seq<RowV>, b: Seq<RowV>)
    ensures
        load_rows(l, a + b) == load_rows(load_rows(l, a), b),
    decreases b.len(),
{
    if b.len() == 0 {
        assert(a + b =~= a);
    } else {
        lemma_load_concat(l, a, b.drop_last());
        assert((a + b).drop_last() =~= a + b.drop_last());
        assert((a + b).last() == b.last());
    }
}

/// Lists that are read into a table by name.
pub open spec fn is_table_name(name: Seq<char>) -> bool {
    name == "by_size"@ || name == "by_partial"@ || name == "by_full"@
}

pub open spec fn table_named(l: LoadV, name: Seq<char>) -> TableV {
    if name == "by_size"@ {
        l.by_size
    } else if name == "by_partial"@ {
        l.by_partial
    } else {
        l.by_full
    }
}

pub open spec fn with_table(l: LoadV, name: Seq<char>, t: TableV) -> LoadV {
    if name == "by_size"@ {
        LoadV { by_size: t, ..l }
    } else if name == "by_partial"@ {
        LoadV { by_partial: t, ..l }
    } else {
        LoadV { by_full: t, ..l }
    }
}

/// A table after the paths of one list went in.
pub open spec fn list_added(t: TableV, key: Seq<char>, paths: Seq<PathV>) -> TableV
    decreases paths.len(),
{
    if paths.len() == 0 {
        t
    } else {
        added(list_added(t, key, paths.drop_last()), key, 0, paths.last())
    }
}

pub open spec fn lists_added(t: TableV, lists: Seq<ListV>) -> TableV
    decreases lists.len(),
{
    if lists.len() == 0 {
        t
    } else {
        list_added(lists_added(t, lists.drop_last()), lists.last().key, lists.last().paths)
    }
}

pub proof fn lemma_names_differ()
    ensures
        "by_size"@ != "by_partial"@,
        "by_size"@ != "by_full"@,
        "by_partial"@ != "by_full"@,
        "skipped"@ != "by_size"@ && "skipped"@ != "by_partial"@ && "skipped"@ != "by_full"@,
        "completed_dirs"@ != "by_size"@ && "completed_dirs"@ != "by_partial"@ && "completed_dirs"@ != "by_full"@
            && "completed_dirs"@ != "skipped"@,
        "root_keys"@ != "by_size"@ && "root_keys"@ != "by_partial"@ && "root_keys"@ != "by_full"@ && "root_keys"@
            != "skipped"@ && "root_keys"@ != "completed_dirs"@,
        "processed"@ != "by_size"@ && "processed"@ != "by_partial"@ && "processed"@ != "by_full"@ && "processed"@
            != "skipped"@ && "processed"@ != "completed_dirs"@ && "processed"@ != "root_keys"@,
{
    reveal_strlit("by_size");
    reveal_strlit("by_partial");
    reveal_strlit("by_full");
    reveal_strlit("skipped");
    reveal_strlit("completed_dirs");
    reveal_strlit("root_keys");
    reveal_strlit("processed");
    assert("processed"@[0] == 'p');
    assert("by_size"@[0] == 'b' && "by_partial"@[0] == 'b' && "by_full"@[0] == 'b');
    assert("by_size"@.len() == 7 && "by_partial"@.len() == 10 && "by_full"@.len() == 7);
    assert("by_size"@[3] == 's' && "by_full"@[3] == 'f');
    assert("skipped"@[0] == 's' && "completed_dirs"@[0] == 'c' && "root_keys"@[0] == 'r');
}

proof fn lemma_load_list(l: LoadV, name: Seq<char>, list: ListV)
    requires
        is_table_name(name),
    ensures
        load_rows(l, list_rows(name, list)) == with_table(l, name, list_added(table_named(l, name), list.key, list.paths)),
    decreases list.paths.len(),
{
    lemma_names_differ();
    let r = list_rows(name, list);
    if list.paths.len() > 0 {
        let shorter = ListV { paths: list.paths.drop_last(), ..list };
        lemma_load_list(l, name, shorter);
        assert(r.drop_last() =~= list_rows(name, shorter));
    }
}

pub proof fn lemma_load_lists(l: LoadV, name: Seq<char>, lists: Seq<ListV>)
    requires
        is_table_name(name),
    ensures
        load_rows(l, lists_rows(name, lists)) == with_table(l, name, lists_added(table_named(l, name), lists)),
    decreases lists.len(),
{
    lemma_names_differ();
    if lists.len() > 0 {
        lemma_load_lists(l, name, lists.drop_last());
        let before = load_rows(l, lists_rows(name, lists.drop_last()));
        lemma_load_concat(l, lists_rows(name, lists.drop_last()), list_rows(name, lists.last()));
        lemma_load_list(before, name, lists.last());
    }
}

pub proof fn lemma_load_skipped(l: LoadV, paths: Seq<PathV>)
    ensures
        load_rows(l, skipped_rows(paths)) == (LoadV { skipped: l.skipped + paths, ..l }),
    decreases paths.len(),
{
    lemma_names_differ();
    if paths.len() > 0 {
        lemma_load_skipped(l, paths.drop_last());
        assert(skipped_rows(paths).drop_last() =~= skipped_rows(paths.drop_last()));
        assert(l.skipped + paths =~= (l.skipped + paths.drop_last()).push(paths.last()));
    } else {
        assert(l.skipped + paths =~= l.skipped);
    }
}

pub proof fn lemma_load_processed(l: LoadV, paths: Seq<PathV>)
    ensures
        load_rows(l, processed_rows(paths)) == (LoadV { processed: l.processed + paths, ..l }),
    decreases paths.len(),
{
    lemma_names_differ();
    if paths.len() > 0 {
        lemma_load_processed(l, paths.drop_last());
        assert(processed_rows(paths).drop_last() =~= processed_rows(paths.drop_last()));
        assert(l.processed + paths =~= (l.processed + paths.drop_last()).push(paths.last()));
    } else {
        assert(l.processed + paths =~= l.processed);
    }
}

pub proof fn lemma_load_completed(l: LoadV, dirs: Seq<Seq<char>>)
    ensures
        load_rows(l, completed_rows(dirs)) == (LoadV { completed_dirs: l.completed_dirs + dirs, ..l }),
    decreases dirs.len(),
{
    lemma_names_differ();
    if dirs.len() > 0 {
        lemma_load_completed(l, dirs.drop_last());
        assert(completed_rows(dirs).drop_last() =~= completed_rows(dirs.drop_last()));
        assert(l.completed_dirs + dirs =~= (l.completed_dirs + dirs.drop_last()).push(dirs.last()));
    } else {
        assert(l.completed_dirs + dirs =~= l.completed_dirs);
    }
}

pub open spec fn roots_added(list: Seq<RootKeyV>, more: Seq<RootKeyV>) -> Seq<RootKeyV>
    decreases more.len(),
{
    if more.len() == 0 {
        list
    } else {
        root_key_put(roots_added(list, more.drop_last()), more.last())
    }
}

pub proof fn lemma_load_roots(l: LoadV, list: Seq<RootKeyV>)
    ensures
        load_rows(l, root_rows(list)) == (LoadV { root_keys: roots_added(l.root_keys, list), ..l }),
    decreases list.len(),
{
    lemma_names_differ();
    if list.len() > 0 {
        lemma_load_roots(l, list.drop_last());
        assert(root_rows(list).drop_last() =~= root_rows(list.drop_last()));
        assert(RootKeyV { directory: list.last().directory, key: list.last().key } == list.last());
    }
}

proof fn lemma_roots_kept(list: Seq<RootKeyV>)
    requires
        roots_unique(list),
    ensures
        roots_added(Seq::empty(), list) == list,
    decreases list.len(),
{
    if list.len() > 0 {
        let s = list.drop_last();
        assert(roots_unique(s)) by {
            assert forall|i: int, j: int| 0 <= i < j < s.len() implies (#[trigger] s[i]).directory != (#[trigger] s[j]).directory by {
                assert(list[i].directory != list[j].directory);
            }
        }
        lemma_roots_kept(s);
        let e = list.last();
        assert forall|j: int| 0 <= j < s.len() implies (#[trigger] s[j]).directory != e.directory by {
            assert(list[j].directory != list[list.len() - 1].directory);
        }
        lemma_root_key_at(s, e.directory, s.len() as int);
        assert(RootKeyV { directory: e.directory, key: e.key } == e);
        assert(s.push(e) =~= list);
    }
}

proof fn lemma_list_added_fresh(t: TableV, key: Seq<char>, paths: Seq<PathV>)
    requires
        pos(t, key) == t.len(),
        paths.len() > 0,
    ensures
        list_added(t, key, paths) == t.push(BucketV { key, size: 0, paths }),
    decreases paths.len(),
{
    let s = paths.drop_last();
    if s.len() == 0 {
        assert(list_added(t, key, s) == t);
        assert(seq![paths.last()] =~= paths);
    } else {
        lemma_list_added_fresh(t, key, s);
        let u = t.push(BucketV { key, size: 0, paths: s });
        lemma_pos(t, key);
        lemma_pos(u, key);
        let p = pos(u, key);
        if p < t.len() {
            assert(t[p].key == key);
        }
        assert(u[t.len() as int].key == key);
        assert(p == t.len());
        assert(s.push(paths.last()) =~= paths);
        assert(added(u, key, 0, paths.last()) =~= t.push(BucketV { key, size: 0, paths }));
    }
}

/// Whether saved lists are those of a table in which no bucket is empty.
pub open spec fn lists_valid(lists: Seq<ListV>) -> bool {
    &&& forall|i: int, j: int| 0 <= i < j < lists.len() ==> (#[trigger] lists[i]).key != (#[trigger] lists[j]).key
    &&& forall|i: int| 0 <= i < lists.len() ==> (#[trigger] lists[i]).paths.len() > 0
}

pub proof fn lemma_lists_kept(lists: Seq<ListV>)
    requires
        lists_valid(lists),
    ensures
        lists_of(lists_added(Seq::empty(), lists)) == lists,
    decreases lists.len(),
{
    if lists.len() > 0 {
        let s = lists.drop_last();
        assert(lists_valid(s)) by {
            assert forall|i: int, j: int| 0 <= i < j < s.len() implies (#[trigger] s[i]).key != (#[trigger] s[j]).key by {
                assert(lists[i].key != lists[j].key);
            }
            assert forall|i: int| 0 <= i < s.len() implies (#[trigger] s[i]).paths.len() > 0 by {
                assert(lists[i].paths.len() > 0);
            }
        }
        lemma_lists_kept(s);
        let t = lists_added(Seq::empty(), s);
        let l = lists.last();
        lemma_pos(t, l.key);
        let p = pos(t, l.key);
        if p < t.len() {
            assert(lists_of(t)[p].key == t[p].key);
            assert(lists[p].key != lists[lists.len() - 1].key);
        }
        assert(lists[lists.len() - 1].paths.len() > 0);
        lemma_list_added_fresh(t, l.key, l.paths);
        assert(lists_of(t.push(BucketV { key: l.key, size: 0, paths: l.paths })) =~= lists_of(t).push(l));
        assert(s.push(l) =~= lists);
    } else {
        assert(lists_of(lists_added(Seq::empty(), lists)) =~= lists);
    }
}

/// Whether a snapshot can have come from a scan: its lists have one entry per
/// key, none of them empty, and one identity per directory.
pub open spec fn snapshot_valid(s: ResumeV) -> bool {
    lists_valid(s.by_size) && lists_valid(s.by_partial) && lists_valid(s.by_full) && roots_unique(s.root_keys)
}

/// All paths of saved lists.
pub open spec fn lists_paths(lists: Seq<ListV>) -> Seq<PathV>
    decreases lists.len(),
{
    if lists.len() == 0 {
        Seq::empty()
    } else {
        lists_paths(lists.drop_last()) + lists.last().paths
    }
}

pub proof fn lemma_all_paths_lists(t: TableV)
    ensures
        lists_paths(lists_of(t)) == all_paths(t),
    decreases t.len(),
{
    if t.len() > 0 {
        lemma_all_paths_lists(t.drop_last());
        assert(lists_of(t).drop_last() =~= lists_of(t.drop_last()));
    }
}

/// A snapshot that is saved and read back is the snapshot. The processed files are
/// put together from all lists that show them.
pub proof fn law_saved_state_reads_back(s: ResumeV)
    requires
        snapshot_valid(s),
    ensures
        state_of(s.directories, s.stage, state_rows(s)) == (ResumeV {
            processed: processed_of(load_rows(nothing_loaded(), state_rows(s)), s.stage),
            ..s
        }),
        load_rows(nothing_loaded(), state_rows(s)).processed == s.processed,
        all_paths(load_rows(nothing_loaded(), state_rows(s)).by_partial) == lists_paths(s.by_partial),
        all_paths(load_rows(nothing_loaded(), state_rows(s)).by_full) == lists_paths(s.by_full),
{
    lemma_names_differ();
    let r1 = lists_rows("by_size"@, s.by_size);
    let r2 = lists_rows("by_partial"@, s.by_partial);
    let r3 = lists_rows("by_full"@, s.by_full);
    let r4 = skipped_rows(s.skipped);
    let r5 = completed_rows(s.completed_dirs);
    let r6 = root_rows(s.root_keys);
    let l0 = nothing_loaded();
    lemma_load_lists(l0, "by_size"@, s.by_size);
    let l1 = load_rows(l0, r1);
    lemma_load_concat(l0, r1, r2);
    lemma_load_lists(l1, "by_partial"@, s.by_partial);
    let l2 = load_rows(l1, r2);
    lemma_load_concat(l0, r1 + r2, r3);
    lemma_load_lists(l2, "by_full"@, s.by_full);
    let l3 = load_rows(l2, r3);
    lemma_load_concat(l0, r1 + r2 + r3, r4);
    lemma_load_skipped(l3, s.skipped);
    let l4 = load_rows(l3, r4);
    lemma_load_concat(l0, r1 + r2 + r3 + r4, r5);
    lemma_load_completed(l4, s.completed_dirs);
    let l5 = load_rows(l4, r5);
    lemma_load_concat(l0, r1 + r2 + r3 + r4 + r5, r6);
    lemma_load_roots(l5, s.root_keys);
    let l6 = load_rows(l5, r6);
    lemma_load_concat(l0, r1 + r2 + r3 + r4 + r5 + r6, processed_rows(s.processed));
    lemma_load_processed(l6, s.processed);
    assert(Seq::<PathV>::empty() + s.processed =~= s.processed);
    lemma_all_paths_lists(l6.by_partial);
    lemma_all_paths_lists(l6.by_full);
    lemma_lists_kept(s.by_size);
    lemma_lists_kept(s.by_partial);
    lemma_lists_kept(s.by_full);
    lemma_roots_kept(s.root_keys);
    assert(Seq::<PathV>::empty() + s.skipped =~= s.skipped);
    assert(Seq::<Seq<char>>::empty() + s.completed_dirs =~= s.completed_dirs);
}

/// Whether a table has a path under a key.
pub open spec fn has_path(t: TableV, key: Seq<char>, p: PathV) -> bool {
    paths_under(t, key).contains(p)
}

/// Whether all that one reading has, another has too.
pub open spec fn keeps(a: LoadV, b: LoadV) -> bool {
    &&& forall|key: Seq<char>, p: PathV| has_path(a.by_size, key, p) ==> #[trigger] has_path(b.by_size, key, p)
    &&& forall|key: Seq<char>, p: PathV| has_path(a.by_partial, key, p) ==> #[trigger] has_path(b.by_partial, key, p)
    &&& forall|key: Seq<char>, p: PathV| has_path(a.by_full, key, p) ==> #[trigger] has_path(b.by_full, key, p)
    &&& forall|p: PathV| a.skipped.contains(p) ==> #[trigger] b.skipped.contains(p)
    &&& forall|d: Seq<char>| a.completed_dirs.contains(d) ==> #[trigger] b.completed_dirs.contains(d)
    &&& forall|d: Seq<char>| root_key_of(a.root_keys, d) is Some ==> #[trigger] root_key_of(b.root_keys, d) == root_key_of(a.root_keys, d)
    &&& forall|p: PathV| a.processed.contains(p) ==> #[trigger] b.processed.contains(p)
}

proof fn lemma_added_has(t: TableV, key: Seq<char>, path: PathV)
    ensures
        forall|k: Seq<char>, p: PathV| has_path(t, k, p) ==> #[trigger] has_path(added(t, key, 0, path), k, p),
        has_path(added(t, key, 0, path), key, path),
{
    let n = added(t, key, 0, path);
    assert forall|k: Seq<char>, p: PathV| has_path(t, k, p) implies #[trigger] has_path(n, k, p) by {
        lemma_under_added(t, key, path, k);
        let i = choose|i: int| 0 <= i < paths_under(t, k).len() && paths_under(t, k)[i] == p;
        assert(paths_under(n, k)[i] == p);
    }
    lemma_under_added(t, key, path, key);
    assert(paths_under(n, key).last() == path);
}

proof fn lemma_under_added(t: TableV, key: Seq<char>, path: PathV, k: Seq<char>)
    ensures
        paths_under(added(t, key, 0, path), k) == (if k == key {
            paths_under(t, k).push(path)
        } else {
            paths_under(t, k)
        }),
{
    let n = added(t, key, 0, path);
    lemma_pos(t, key);
    lemma_pos(t, k);
    lemma_pos(n, k);
    let p = pos(t, k);
    let q = pos(n, k);
    assert(forall|i: int| 0 <= i < t.len() ==> (#[trigger] n[i]).key == t[i].key);
    if p < t.len() {
        assert(n[p].key == k);
        if q < p {
            assert(t[q].key == k);
        }
        assert(p == q);
    } else if k == key {
        assert(n[t.len() as int].key == k);
        if q < t.len() {
            assert(t[q].key == k);
        }
        assert(paths_under(t, k).push(path) =~= seq![path]);
    } else if q < n.len() {
        if q < t.len() {
            assert(t[q].key == k);
        }
    }
}

/// Putting an identity for one directory leaves those of the others.
pub proof fn lemma_root_put(list: Seq<RootKeyV>, e: RootKeyV, d: Seq<char>)
    ensures
        root_key_of(root_key_put(list, e), d) == (if d == e.directory {
            Some(e.key)
        } else {
            root_key_of(list, d)
        }),
    decreases list.len(),
{
    if list.len() > 0 {
        let n = root_key_put(list, e);
        if list[0].directory != e.directory {
            lemma_root_put(list.skip(1), e, d);
            assert(n.skip(1) =~= root_key_put(list.skip(1), e));
        } else {
            assert(n.skip(1) =~= list.skip(1));
        }
    } else {
        assert(root_key_put(list, e).skip(1) =~= list);
    }
}

proof fn lemma_rows_keep(base: LoadV, l: LoadV, rows: Seq<RowV>)
    requires
        keeps(base, l),
        forall|i: int|
            0 <= i < rows.len() && (#[trigger] rows[i]).list_name == "root_keys"@ ==> root_key_of(
                base.root_keys,
                rows[i].key,
            ) is None,
    ensures
        keeps(base, load_rows(l, rows)),
    decreases rows.len(),
{
    if rows.len() > 0 {
        let s = rows.drop_last();
        assert forall|i: int| 0 <= i < s.len() && (#[trigger] s[i]).list_name == "root_keys"@ implies root_key_of(
            base.root_keys,
            s[i].key,
        ) is None by {
            assert(rows[i].list_name == "root_keys"@);
        }
        lemma_rows_keep(base, l, s);
        let m = load_rows(l, s);
        let row = rows.last();
        assert(rows[rows.len() - 1] == row);
        let n = load_row(m, row);
        lemma_names_differ();
        lemma_added_has(m.by_size, row.key, row.path);
        lemma_added_has(m.by_partial, row.key, row.path);
        lemma_added_has(m.by_full, row.key, row.path);
        assert forall|p: PathV| m.skipped.contains(p) implies m.skipped.push(row.path).contains(p) by {
            let i = choose|i: int| 0 <= i < m.skipped.len() && m.skipped[i] == p;
            assert(m.skipped.push(row.path)[i] == p);
        }
        assert forall|p: PathV| m.processed.contains(p) implies m.processed.push(row.path).contains(p) by {
            let i = choose|i: int| 0 <= i < m.processed.len() && m.processed[i] == p;
            assert(m.processed.push(row.path)[i] == p);
        }
        assert forall|d: Seq<char>| m.completed_dirs.contains(d) implies m.completed_dirs.push(row.path.text).contains(d) by {
            let i = choose|i: int| 0 <= i < m.completed_dirs.len() && m.completed_dirs[i] == d;
            assert(m.completed_dirs.push(row.path.text)[i] == d);
        }
        assert forall|key: Seq<char>, p: PathV| has_path(base.by_size, key, p) implies #[trigger] has_path(
            n.by_size,
            key,
            p,
        ) by {
            assert(has_path(m.by_size, key, p));
        }
        assert forall|key: Seq<char>, p: PathV| has_path(base.by_partial, key, p) implies #[trigger] has_path(
            n.by_partial,
            key,
            p,
        ) by {
            assert(has_path(m.by_partial, key, p));
        }
        assert forall|key: Seq<char>, p: PathV| has_path(base.by_full, key, p) implies #[trigger] has_path(
            n.by_full,
            key,
            p,
        ) by {
            assert(has_path(m.by_full, key, p));
        }
        assert forall|p: PathV| base.skipped.contains(p) implies #[trigger] n.skipped.contains(p) by {
            assert(m.skipped.contains(p));
        }
        assert forall|p: PathV| base.processed.contains(p) implies #[trigger] n.processed.contains(p) by {
            assert(m.processed.contains(p));
        }
        assert forall|d: Seq<char>| base.completed_dirs.contains(d) implies #[trigger] n.completed_dirs.contains(d) by {
            assert(m.completed_dirs.contains(d));
        }
        assert forall|d: Seq<char>| root_key_of(base.root_keys, d) is Some implies #[trigger] root_key_of(n.root_keys, d)
            == root_key_of(base.root_keys, d) by {
            lemma_root_put(m.root_keys, RootKeyV { directory: row.key, key: row.path.text }, d);
            assert(root_key_of(m.root_keys, d) == root_key_of(base.root_keys, d));
        }
    }
}

proof fn lemma_missing_roots(known: Seq<RootKeyV>, list: Seq<RootKeyV>)
    ensures
        forall|i: int|
            0 <= i < missing_roots(known, list).len() ==> root_key_of(
                known,
                (#[trigger] missing_roots(known, list)[i]).directory,
            ) is None,
    decreases list.len(),
{
    if list.len() > 0 {
        lemma_missing_roots(known, list.drop_last());
    }
}

/// Whether a stage is one of a scan.
pub open spec fn is_stage(stage: Seq<char>) -> bool {
    stage == "scanning"@ || stage == "quick_hash"@ || stage == "full_hash"@
}

/// A checkpoint leaves all that was saved in place: what is read afterwards has
/// all that was read before, and the new entries.
pub proof fn law_checkpoint_only_adds(before: Seq<RowV>, d: DeltaV)
    requires
        is_stage(d.stage),
    ensures
        rows_after(before, d).take(before.len() as int) == before,
        keeps(load_rows(nothing_loaded(), before), load_rows(nothing_loaded(), rows_after(before, d))),
        forall|i: int|
            0 <= i < d.new_entries.len() ==> has_path(
                table_named(load_rows(nothing_loaded(), rows_after(before, d)), list_of_stage(d.stage)),
                (#[trigger] d.new_entries[i]).key,
                d.new_entries[i].path,
            ),
        forall|i: int|
            0 <= i < d.new_skipped.len() ==> load_rows(nothing_loaded(), rows_after(before, d)).skipped.contains(
                #[trigger] d.new_skipped[i],
            ),
        forall|i: int|
            0 <= i < d.new_completed_dirs.len() ==> load_rows(
                nothing_loaded(),
                rows_after(before, d),
            ).completed_dirs.contains(#[trigger] d.new_completed_dirs[i]),
{
    let l = load_rows(nothing_loaded(), before);
    let rows = delta_rows(d, l);
    assert(rows_after(before, d).take(before.len() as int) =~= before);
    lemma_load_concat(nothing_loaded(), before, rows);
    lemma_names_differ();
    lemma_stage_lists(d.stage);
    let p1 = match d.by_size {
        Some(lists) => lists_rows("by_size"@, missing_lists(l.by_size, lists)),
        None => Seq::empty(),
    };
    let p2 = match d.root_keys {
        Some(list) => root_rows(missing_roots(l.root_keys, list)),
        None => Seq::empty(),
    };
    let p3 = entry_rows(list_of_stage(d.stage), d.new_entries);
    let p4 = skipped_rows(d.new_skipped);
    let p5 = completed_rows(d.new_completed_dirs);
    let p6 = processed_rows(d.new_processed);
    match d.by_size {
        Some(lists) => {
            lemma_list_names("by_size"@, missing_lists(l.by_size, lists));
        },
        None => {},
    }
    match d.root_keys {
        Some(list) => {
            lemma_missing_roots(l.root_keys, list);
        },
        None => {},
    }
    lemma_rows_keep(l, l, p1);
    lemma_rows_keep(l, load_rows(l, p1), p2);
    let l2 = load_rows(load_rows(l, p1), p2);
    lemma_rows_keep(l, l2, p3);
    let l3 = load_rows(l2, p3);
    lemma_rows_keep(l, l3, p4);
    let l4 = load_rows(l3, p4);
    lemma_rows_keep(l, l4, p5);
    let l5 = load_rows(l4, p5);
    lemma_rows_keep(l, l5, p6);
    let l6 = load_rows(l5, p6);
    lemma_load_concat(l, p1, p2);
    lemma_load_concat(l, p1 + p2, p3);
    lemma_load_concat(l, p1 + p2 + p3, p4);
    lemma_load_concat(l, p1 + p2 + p3 + p4, p5);
    lemma_load_concat(l, p1 + p2 + p3 + p4 + p5, p6);
    assert(load_rows(nothing_loaded(), rows_after(before, d)) == l6);
    lemma_load_skipped(l3, d.new_skipped);
    lemma_load_completed(l4, d.new_completed_dirs);
    lemma_load_processed(l5, d.new_processed);
    let name = list_of_stage(d.stage);
    assert forall|i: int| 0 <= i < d.new_entries.len() implies has_path(
        table_named(l6, name),
        (#[trigger] d.new_entries[i]).key,
        d.new_entries[i].path,
    ) by {
        lemma_entries_there(l2, name, d.new_entries, i);
    }
    assert forall|i: int| 0 <= i < d.new_skipped.len() implies l6.skipped.contains(#[trigger] d.new_skipped[i]) by {
        assert((l3.skipped + d.new_skipped)[l3.skipped.len() + i] == d.new_skipped[i]);
    }
    assert forall|i: int| 0 <= i < d.new_completed_dirs.len() implies l6.completed_dirs.contains(
        #[trigger] d.new_completed_dirs[i],
    ) by {
        assert((l4.completed_dirs + d.new_completed_dirs)[l4.completed_dirs.len() + i] == d.new_completed_dirs[i]);
    }
}

proof fn lemma_stage_lists(stage: Seq<char>)
    requires
        is_stage(stage),
    ensures
        is_table_name(list_of_stage(stage)),
{
}

proof fn lemma_list_names(name: Seq<char>, lists: Seq<ListV>)
    ensures
        forall|i: int| 0 <= i < lists_rows(name, lists).len() ==> (#[trigger] lists_rows(name, lists)[i]).list_name == name,
    decreases lists.len(),
{
    if lists.len() > 0 {
        lemma_list_names(name, lists.drop_last());
        let a = lists_rows(name, lists.drop_last());
        let b = list_rows(name, lists.last());
        assert forall|i: int| 0 <= i < (a + b).len() implies (#[trigger] (a + b)[i]).list_name == name by {
            if i >= a.len() {
                assert((a + b)[i] == b[i - a.len()]);
            } else {
                assert((a + b)[i] == a[i]);
            }
        }
    }
}

proof fn lemma_entries_there(l: LoadV, name: Seq<char>, entries: Seq<EntryV>, i: int)
    requires
        is_table_name(name),
        0 <= i < entries.len(),
    ensures
        has_path(table_named(load_rows(l, entry_rows(name, entries)), name), entries[i].key, entries[i].path),
    decreases entries.len(),
{
    lemma_names_differ();
    let s = entries.drop_last();
    assert(entry_rows(name, entries).drop_last() =~= entry_rows(name, s));
    let m = load_rows(l, entry_rows(name, s));
    let e = entries.last();
    lemma_added_has(table_named(m, name), e.key, e.path);
    if i < s.len() {
        lemma_entries_there(l, name, s, i);
        assert(s[i] == entries[i]);
    }
}

// --------------------------------------------------------------- run bookkeeping

/// Of so many unfinished scans, how many have to go.
pub open spec fn surplus_resume_runs(count: nat) -> nat {
    if count > MAX_RESUME_STATES {
        (count - MAX_RESUME_STATES) as nat
    } else {
        0
    }
}

/// Which unfinished scans have to go, with all their progress. `runs` are all of
/// them, the one that was worked on longest ago first.
pub fn drop_oldest_resume_runs(runs: &Vec<String>) -> (r: Vec<String>)
    ensures
        r.deep_view() == runs.deep_view().take(surplus_resume_runs(runs@.len()) as int),
{
    let limit: usize = MAX_RESUME_STATES as usize;
    let mut gone: Vec<String> = Vec::new();
    if runs.len() > limit {
        let surplus: usize = runs.len() - limit;
        while gone.len() < surplus
            invariant
                gone@.len() <= surplus <= runs@.len(),
                gone.deep_view() == runs.deep_view().take(gone@.len() as int),
            decreases surplus - gone@.len(),
        {
            let i: usize = gone.len();
            let ghost before = gone.deep_view();
            gone.push(runs[i].clone());
            assert(gone.deep_view() =~= before.push(runs@[i as int]@));
            assert(gone.deep_view() =~= runs.deep_view().take(i + 1));
        }
    }
    assert(gone.deep_view() =~= runs.deep_view().take(surplus_resume_runs(runs@.len()) as int));
    gone
}

/// The rows that could be read.
pub open spec fn readable(found: Seq<Option<Seq<char>>>) -> Seq<Seq<char>>
    decreases found.len(),
{
    if found.len() == 0 {
        Seq::empty()
    } else {
        match found.last() {
            Some(s) => readable(found.drop_last()).push(s),
            None => readable(found.drop_last()),
        }
    }
}

/// The ids of the unfinished scans, from the rows found; a row that could not
/// be read is left out.
pub fn resumable_run_ids(found: &Vec<Option<String>>) -> (r: Vec<String>)
    ensures
        r.deep_view() == distinct(readable(found.deep_view())),
{
    let mut r = KeyList::new();
    let mut i: usize = 0;
    assert(found.deep_view().take(0) =~= Seq::<Option<Seq<char>>>::empty());
    while i < found.len()
        invariant
            i <= found@.len(),
            r.wf(),
            r@ == distinct(readable(found.deep_view().take(i as int))),
        decreases found@.len() - i,
    {
        let ghost t = found.deep_view().take(i + 1);
        assert(t.drop_last() =~= found.deep_view().take(i as int));
        assert(t.last() == found@[i as int].deep_view());
        match &found[i] {
            Some(id) => {
                assert(readable(t).drop_last() =~= readable(t.drop_last()));
                r.note(id.as_str());
            },
            None => {},
        }
        i = i + 1;
    }
    assert(found.deep_view().take(i as int) =~= found.deep_view());
    r.to_list()
}

} // verus!
