//! The state of the window: how it changes with each message, and what each
//! message makes happen outside.

use vstd::prelude::*;

use crate::actions::{ActionHandle, ActionHandleV, ActionItem, ActionKind, ActionReport, ActionReportV, ItemV, KindV};
use crate::filetypes::{
    default_dir_names, default_excluded_dir_names, lower_all, lowered, OptionsV, ScanOptions,
};
use crate::groups::{wrapped, DuplicateGroup, FolderGroup, FolderV, GroupV};
use crate::history::{RecordV, RunRecord};
use crate::paths::{FilePath, PathId, PathSet, PathV};
use crate::picks::{
    all_picked, file_bytes, file_picks, folder_bytes, folder_picks, picked, picked_file_bytes, picked_folder_bytes,
    unpicked, Pick, PickSet,
};
use crate::removal::{empty_path, in_any, under_any};
use crate::summary::{
    past_summary, past_summary_of, OutcomeV, ScanHandle, ScanHandleV, ScanOutcome, ScanSummary, SummaryV,
};
use crate::tables::{copy_paths, noted};
use crate::text::{
    chars_of, copy_texts, list_contains, parse_count, parsed_number, same_text, trim, trimmed,
};
use crate::walk::{ids_of, path_set};

verus! {

#[derive(Clone, Copy, Debug, PartialEq, Eq, Structural)]
pub enum Tab {
    Scan,
    History,
}

#[derive(Clone, Copy, Debug, PartialEq, Eq, Structural)]
pub enum ResultsView {
    Files,
    Folders,
}

#[derive(Clone, Copy, Debug, PartialEq, Eq, Structural)]
pub enum Phase {
    Idle,
    Scanning,
    Reviewing,
    Acting,
}

/// An action that waits to be confirmed.
#[derive(Clone, Copy, Debug, PartialEq, Eq, Structural)]
pub enum PendingAction {
    Trash,
}

/// What a user does, and what comes back from outside.
#[derive(Debug)]
pub enum Message {
    TabSelected(Tab),
    DirInputChanged(String),
    AddTypedDirectory,
    PickDirectory,
    /// A directory was picked; its path is absolute.
    DirectoryPicked(Option<FilePath>),
    RemoveDirectory(usize),
    MinSizeChanged(String),
    ThreadsChanged(String),
    LargeThresholdChanged(String),
    ExcludeInputChanged(String),
    AddExclude,
    RemoveExclude(usize),
    ToggleDefaultExcludes(bool),
    ToggleExcludeTempFiles(bool),
    ToggleFileType(String, bool),
    ToggleDryRun(bool),
    StartScan,
    ResumeScan,
    CancelScan,
    Tick,
    ResultsViewChanged(ResultsView),
    ToggleFileRemoved(usize, usize, bool),
    ToggleFolderRemoved(usize, usize, bool),
    SelectAllFiles,
    SelectNoneFiles,
    SelectAllFolders,
    SelectNoneFolders,
    RequestTrash,
    RequestMoveTo,
    MoveDestPicked(Option<FilePath>),
    ConfirmAction,
    CancelConfirm,
    LoadHistoryRun(usize),
    DismissError,
}

pub enum MessageV {
    TabSelected(Tab),
    DirInputChanged(Seq<char>),
    AddTypedDirectory,
    PickDirectory,
    DirectoryPicked(Option<PathV>),
    RemoveDirectory(usize),
    MinSizeChanged(Seq<char>),
    ThreadsChanged(Seq<char>),
    LargeThresholdChanged(Seq<char>),
    ExcludeInputChanged(Seq<char>),
    AddExclude,
    RemoveExclude(usize),
    ToggleDefaultExcludes(bool),
    ToggleExcludeTempFiles(bool),
    ToggleFileType(Seq<char>, bool),
    ToggleDryRun(bool),
    StartScan,
    ResumeScan,
    CancelScan,
    Tick,
    ResultsViewChanged(ResultsView),
    ToggleFileRemoved(usize, usize, bool),
    ToggleFolderRemoved(usize, usize, bool),
    SelectAllFiles,
    SelectNoneFiles,
    SelectAllFolders,
    SelectNoneFolders,
    RequestTrash,
    RequestMoveTo,
    MoveDestPicked(Option<PathV>),
    ConfirmAction,
    CancelConfirm,
    LoadHistoryRun(usize),
    DismissError,
}

impl View for Message {
    type V = MessageV;

    open spec fn view(&self) -> MessageV {
        match self {
            Message::TabSelected(t) => MessageV::TabSelected(*t),
            Message::DirInputChanged(v) => MessageV::DirInputChanged(v@),
            Message::AddTypedDirectory => MessageV::AddTypedDirectory,
            Message::PickDirectory => MessageV::PickDirectory,
            Message::DirectoryPicked(p) => MessageV::DirectoryPicked(p.deep_view()),
            Message::RemoveDirectory(i) => MessageV::RemoveDirectory(*i),
            Message::MinSizeChanged(v) => MessageV::MinSizeChanged(v@),
            Message::ThreadsChanged(v) => MessageV::ThreadsChanged(v@),
            Message::LargeThresholdChanged(v) => MessageV::LargeThresholdChanged(v@),
            Message::ExcludeInputChanged(v) => MessageV::ExcludeInputChanged(v@),
            Message::AddExclude => MessageV::AddExclude,
            Message::RemoveExclude(i) => MessageV::RemoveExclude(*i),
            Message::ToggleDefaultExcludes(b) => MessageV::ToggleDefaultExcludes(*b),
            Message::ToggleExcludeTempFiles(b) => MessageV::ToggleExcludeTempFiles(*b),
            Message::ToggleFileType(n, b) => MessageV::ToggleFileType(n@, *b),
            Message::ToggleDryRun(b) => MessageV::ToggleDryRun(*b),
            Message::StartScan => MessageV::StartScan,
            Message::ResumeScan => MessageV::ResumeScan,
            Message::CancelScan => MessageV::CancelScan,
            Message::Tick => MessageV::Tick,
            Message::ResultsViewChanged(v) => MessageV::ResultsViewChanged(*v),
            Message::ToggleFileRemoved(g, p, b) => MessageV::ToggleFileRemoved(*g, *p, *b),
            Message::ToggleFolderRemoved(g, p, b) => MessageV::ToggleFolderRemoved(*g, *p, *b),
            Message::SelectAllFiles => MessageV::SelectAllFiles,
            Message::SelectNoneFiles => MessageV::SelectNoneFiles,
            Message::SelectAllFolders => MessageV::SelectAllFolders,
            Message::SelectNoneFolders => MessageV::SelectNoneFolders,
            Message::RequestTrash => MessageV::RequestTrash,
            Message::RequestMoveTo => MessageV::RequestMoveTo,
            Message::MoveDestPicked(p) => MessageV::MoveDestPicked(p.deep_view()),
            Message::ConfirmAction => MessageV::ConfirmAction,
            Message::CancelConfirm => MessageV::CancelConfirm,
            Message::LoadHistoryRun(i) => MessageV::LoadHistoryRun(*i),
            Message::DismissError => MessageV::DismissError,
        }
    }
}

/// The sizes in the two size fields of the window, in bytes.
#[derive(Clone, Copy, Debug, PartialEq, Eq, Structural)]
pub struct Sizes {
    pub min_size: u64,
    pub large_threshold: u64,
}

/// A scan to start. Where `resume_run_id` is set, its own directories are
/// scanned.
#[derive(Debug)]
pub struct ScanRequest {
    pub directories: Vec<FilePath>,
    pub options: ScanOptions,
    pub min_size: u64,
    pub resume_run_id: Option<String>,
}

pub struct ScanRequestV {
    pub directories: Seq<PathV>,
    pub options: OptionsV,
    pub min_size: u64,
    pub resume_run_id: Option<Seq<char>>,
}

impl View for ScanRequest {
    type V = ScanRequestV;

    open spec fn view(&self) -> ScanRequestV {
        ScanRequestV {
            directories: self.directories.deep_view(),
            options: self.options@,
            min_size: self.min_size,
            resume_run_id: self.resume_run_id.deep_view(),
        }
    }
}

/// What a message makes happen outside.
#[derive(Debug)]
pub enum Effect {
    Nothing,
    /// Load the history and hand it over.
    RefreshHistory,
    /// Let the user pick a directory.
    PickDirectory,
    /// Let the user pick a destination.
    PickDestination,
    /// Make this path absolute and hand it over as a picked directory.
    ResolveDirectory(String),
    StartScan(ScanRequest),
    /// Tell the running scan to stop.
    CancelScan,
    StartAction(Vec<ActionItem>, ActionKind, bool),
    /// Load the groups of this run and hand them over, with this place in the
    /// history.
    LoadRun(usize, String),
}

pub enum EffectV {
    Nothing,
    RefreshHistory,
    PickDirectory,
    PickDestination,
    ResolveDirectory(Seq<char>),
    StartScan(ScanRequestV),
    CancelScan,
    StartAction(Seq<ItemV>, KindV, bool),
    LoadRun(usize, Seq<char>),
}

impl View for Effect {
    type V = EffectV;

    open spec fn view(&self) -> EffectV {
        match self {
            Effect::Nothing => EffectV::Nothing,
            Effect::RefreshHistory => EffectV::RefreshHistory,
            Effect::PickDirectory => EffectV::PickDirectory,
            Effect::PickDestination => EffectV::PickDestination,
            Effect::ResolveDirectory(s) => EffectV::ResolveDirectory(s@),
            Effect::StartScan(r) => EffectV::StartScan(r@),
            Effect::CancelScan => EffectV::CancelScan,
            Effect::StartAction(items, kind, dry) => EffectV::StartAction(items.deep_view(), kind@, *dry),
            Effect::LoadRun(i, id) => EffectV::LoadRun(*i, id@),
        }
    }
}

// ----------------------------------------------------------------- small rules

/// Whether a text is made of digits, and of points where these are allowed.
pub open spec fn numeric(s: Seq<char>, points: bool) -> bool {
    forall|i: int| 0 <= i < s.len() ==> ('0' <= #[trigger] s[i] && s[i] <= '9') || (points && s[i] == '.')
}

fn is_numeric(s: &str, points: bool) -> (r: bool)
    ensures
        r == numeric(s@, points),
{
    let chars = chars_of(s);
    let mut i: usize = 0;
    while i < chars.len()
        invariant
            i <= chars@.len(),
            chars@ == s@,
            forall|j: int| 0 <= j < i ==> ('0' <= #[trigger] chars@[j] && chars@[j] <= '9') || (points && chars@[j] == '.'),
        decreases chars@.len() - i,
    {
        let c = chars[i];
        if !((c >= '0' && c <= '9') || (points && c == '.')) {
            assert(!numeric(s@, points)) by {
                assert(s@[i as int] == c);
            }
            return false;
        }
        i = i + 1;
    }
    true
}

/// A character, an ASCII capital as its small letter.
pub open spec fn ascii_small(c: char) -> char {
    if 'A' <= c && c <= 'Z' {
        ((c as u32 + 32) as u32) as char
    } else {
        c
    }
}

pub open spec fn ascii_lower(s: Seq<char>) -> Seq<char> {
    s.map_values(|c: char| ascii_small(c))
}

fn small_letter(c: char) -> (r: char)
    ensures
        r == ascii_small(c),
{
    if c >= 'A' && c <= 'Z' {
        let n: u32 = c as u32;
        let b: u8 = (n + 32) as u8;
        b as char
    } else {
        c
    }
}

fn same_but_case(a: &str, b: &str) -> (r: bool)
    ensures
        r == (ascii_lower(a@) == ascii_lower(b@)),
{
    let x = chars_of(a);
    let y = chars_of(b);
    if x.len() != y.len() {
        assert(ascii_lower(a@).len() != ascii_lower(b@).len());
        return false;
    }
    let mut i: usize = 0;
    while i < x.len()
        invariant
            i <= x@.len(),
            x@.len() == y@.len(),
            x@ == a@,
            y@ == b@,
            forall|j: int| 0 <= j < i ==> ascii_small(#[trigger] x@[j]) == ascii_small(y@[j]),
        decreases x@.len() - i,
    {
        if small_letter(x[i]) != small_letter(y[i]) {
            assert(ascii_lower(a@)[i as int] != ascii_lower(b@)[i as int]);
            return false;
        }
        i = i + 1;
    }
    assert(ascii_lower(a@) =~= ascii_lower(b@));
    true
}

/// Whether a list has a name already, whatever its case.
pub open spec fn has_name(list: Seq<Seq<char>>, name: Seq<char>) -> bool {
    exists|i: int| 0 <= i < list.len() && ascii_lower(#[trigger] list[i]) == ascii_lower(name)
}

fn list_has_name(list: &Vec<String>, name: &str) -> (r: bool)
    ensures
        r == has_name(list.deep_view(), name@),
{
    let mut i: usize = 0;
    while i < list.len()
        invariant
            i <= list@.len(),
            forall|j: int| 0 <= j < i ==> ascii_lower(#[trigger] list.deep_view()[j]) != ascii_lower(name@),
        decreases list@.len() - i,
    {
        assert(list.deep_view()[i as int] == list@[i as int]@);
        if same_but_case(list[i].as_str(), name) {
            return true;
        }
        i = i + 1;
    }
    false
}

/// Whether a list of directories has one.
pub open spec fn has_path(list: Seq<PathV>, path: PathId) -> bool {
    exists|i: int| 0 <= i < list.len() && (#[trigger] list[i]).parts == path
}

fn list_has_path(list: &Vec<FilePath>, path: &FilePath) -> (r: bool)
    ensures
        r == has_path(list.deep_view(), path@.parts),
{
    let mut i: usize = 0;
    while i < list.len()
        invariant
            i <= list@.len(),
            forall|j: int| 0 <= j < i ==> (#[trigger] list.deep_view()[j]).parts != path@.parts,
        decreases list@.len() - i,
    {
        assert(list.deep_view()[i as int] == list@[i as int]@);
        if list[i].same(path) {
            return true;
        }
        i = i + 1;
    }
    false
}

/// A list of texts without one.
pub open spec fn without_text(list: Seq<Seq<char>>, s: Seq<char>) -> Seq<Seq<char>>
    decreases list.len(),
{
    if list.len() == 0 {
        Seq::empty()
    } else if list.last() == s {
        without_text(list.drop_last(), s)
    } else {
        without_text(list.drop_last(), s).push(list.last())
    }
}

fn drop_text(list: &Vec<String>, s: &str) -> (r: Vec<String>)
    ensures
        r.deep_view() == without_text(list.deep_view(), s@),
{
    let ghost all = list.deep_view();
    let mut r: Vec<String> = Vec::new();
    let mut i: usize = 0;
    assert(all.take(0) =~= Seq::<Seq<char>>::empty());
    assert(r.deep_view() =~= Seq::<Seq<char>>::empty());
    while i < list.len()
        invariant
            i <= list@.len(),
            all == list.deep_view(),
            r.deep_view() == without_text(all.take(i as int), s@),
        decreases list@.len() - i,
    {
        let ghost t = all.take(i + 1);
        assert(t.drop_last() =~= all.take(i as int));
        assert(t.last() == list@[i as int]@);
        if !same_text(list[i].as_str(), s) {
            let ghost before = r.deep_view();
            r.push(list[i].clone());
            assert(r.deep_view() =~= before.push(t.last()));
        }
        i = i + 1;
    }
    assert(all.take(i as int) =~= all);
    r
}

// ------------------------------------------------------------ what is acted on

/// The further copies of a group that are picked.
pub open spec fn chosen(group: usize, paths: Seq<PathV>, picks: Seq<Pick>) -> Seq<PathV>
    decreases paths.len(),
{
    if paths.len() == 0 {
        Seq::empty()
    } else {
        let before = chosen(group, paths.drop_last(), picks);
        let copy = (paths.len() - 1) as usize;
        if copy > 0 && picks.contains(Pick { group, copy }) {
            before.push(paths.last())
        } else {
            before
        }
    }
}

/// The directories that are picked, of confirmed groups only.
pub open spec fn chosen_folders(groups: Seq<FolderV>, picks: Seq<Pick>) -> Seq<PathV>
    decreases groups.len(),
{
    if groups.len() == 0 {
        Seq::empty()
    } else {
        let before = chosen_folders(groups.drop_last(), picks);
        if groups.last().confirmed {
            before + chosen((groups.len() - 1) as usize, groups.last().paths, picks)
        } else {
            before
        }
    }
}

/// The items of the picked files of a group that no picked directory holds.
pub open spec fn file_items(g: GroupV, paths: Seq<PathV>, roots: Seq<PathV>) -> Seq<ItemV>
    decreases paths.len(),
{
    if paths.len() == 0 {
        Seq::empty()
    } else {
        let before = file_items(g, paths.drop_last(), roots);
        if in_any(paths.last().parts, roots) {
            before
        } else {
            before.push(
                ItemV {
                    path: paths.last(),
                    is_folder: false,
                    needs_verify: !g.confirmed,
                    reference: g.paths[0],
                },
            )
        }
    }
}

/// Whether a copy of a group is neither picked nor in a picked directory.
pub open spec fn one_stays(group: usize, paths: Seq<PathV>, picks: Seq<Pick>, roots: Seq<PathV>) -> bool {
    exists|i: int|
        0 <= i < paths.len() && !in_any((#[trigger] paths[i]).parts, roots) && !(i > 0 && picks.contains(
            Pick { group, copy: i as usize },
        ))
}

/// The items of a group. Where picked files and directories would take every copy along,
/// the first of the files is left out.
pub open spec fn group_picks(group: usize, g: GroupV, picks: Seq<Pick>, roots: Seq<PathV>) -> Seq<ItemV> {
    let items = file_items(g, chosen(group, g.paths, picks), roots);
    if items.len() == 0 || one_stays(group, g.paths, picks, roots) {
        items
    } else {
        items.skip(1)
    }
}

pub open spec fn all_file_items(groups: Seq<GroupV>, picks: Seq<Pick>, roots: Seq<PathV>) -> Seq<ItemV>
    decreases groups.len(),
{
    if groups.len() == 0 {
        Seq::empty()
    } else {
        all_file_items(groups.drop_last(), picks, roots) + group_picks(
            (groups.len() - 1) as usize,
            groups.last(),
            picks,
            roots,
        )
    }
}

/// What is picked: directories first, then the files that none of them holds.
pub open spec fn selected_items(summary: SummaryV, files: Seq<Pick>, folders: Seq<Pick>) -> Seq<ItemV> {
    let roots = chosen_folders(summary.folder_groups, folders);
    roots.map_values(|p: PathV| crate::removal::folder_item(p)) + all_file_items(summary.groups, files, roots)
}

fn choose_copies(group: usize, paths: &Vec<FilePath>, picks: &PickSet) -> (r: Vec<FilePath>)
    requires
        picks.wf(),
    ensures
        r.deep_view() == chosen(group, paths.deep_view(), picks@),
{
    let ghost all = paths.deep_view();
    let mut r: Vec<FilePath> = Vec::new();
    let mut i: usize = 0;
    assert(all.take(0) =~= Seq::<PathV>::empty());
    assert(r.deep_view() =~= Seq::<PathV>::empty());
    while i < paths.len()
        invariant
            i <= paths@.len(),
            all == paths.deep_view(),
            picks.wf(),
            r.deep_view() == chosen(group, all.take(i as int), picks@),
        decreases paths@.len() - i,
    {
        let ghost t = all.take(i + 1);
        assert(t.drop_last() =~= all.take(i as int));
        assert(t.last() == paths@[i as int]@);
        if i > 0 && picks.contains(group, i) {
            let ghost before = r.deep_view();
            r.push(paths[i].clone());
            assert(r.deep_view() =~= before.push(t.last()));
        }
        i = i + 1;
    }
    assert(all.take(i as int) =~= all);
    r
}

fn choose_folders(groups: &Vec<FolderGroup>, picks: &PickSet) -> (r: Vec<FilePath>)
    requires
        picks.wf(),
    ensures
        r.deep_view() == chosen_folders(groups.deep_view(), picks@),
{
    let ghost all = groups.deep_view();
    let mut r: Vec<FilePath> = Vec::new();
    let mut i: usize = 0;
    assert(all.take(0) =~= Seq::<FolderV>::empty());
    assert(r.deep_view() =~= Seq::<PathV>::empty());
    while i < groups.len()
        invariant
            i <= groups@.len(),
            all == groups.deep_view(),
            picks.wf(),
            r.deep_view() == chosen_folders(all.take(i as int), picks@),
        decreases groups@.len() - i,
    {
        let ghost t = all.take(i + 1);
        assert(t.drop_last() =~= all.take(i as int));
        assert(t.last() == groups@[i as int]@);
        if groups[i].confirmed {
            let ghost before = r.deep_view();
            let mut more = choose_copies(i, &groups[i].paths, picks);
            let ghost m = more.deep_view();
            r.append(&mut more);
            assert(r.deep_view() =~= before + m);
        }
        i = i + 1;
    }
    assert(all.take(i as int) =~= all);
    r
}

proof fn lemma_chosen_needs_paths(group: usize, paths: Seq<PathV>, picks: Seq<Pick>)
    ensures
        chosen(group, paths, picks).len() <= paths.len(),
    decreases paths.len(),
{
    if paths.len() > 0 {
        lemma_chosen_needs_paths(group, paths.drop_last(), picks);
    }
}

fn make_file_items(g: &DuplicateGroup, paths: &Vec<FilePath>, roots: &Vec<FilePath>) -> (out: Vec<ActionItem>)
    requires
        paths@.len() <= g.paths@.len(),
    ensures
        out.deep_view() == file_items(g@, paths.deep_view(), roots.deep_view()),
{
    let ghost all = paths.deep_view();
    let mut out: Vec<ActionItem> = Vec::new();
    let mut i: usize = 0;
    assert(all.take(0) =~= Seq::<PathV>::empty());
    assert(out.deep_view() =~= Seq::<ItemV>::empty());
    while i < paths.len()
        invariant
            i <= paths@.len(),
            all == paths.deep_view(),
            paths@.len() <= g.paths@.len(),
            out.deep_view() == file_items(g@, all.take(i as int), roots.deep_view()),
        decreases paths@.len() - i,
    {
        let ghost t = all.take(i + 1);
        assert(t.drop_last() =~= all.take(i as int));
        assert(t.last() == paths@[i as int]@);
        if !under_any(&paths[i], roots) {
            assert(g@.paths[0] == g.paths@[0]@);
            let item = ActionItem {
                path: paths[i].clone(),
                is_folder: false,
                needs_verify: !g.confirmed,
                reference: g.paths[0].clone(),
            };
            let ghost before = out.deep_view();
            let ghost iv = item@;
            out.push(item);
            assert(out.deep_view() =~= before.push(iv));
        }
        i = i + 1;
    }
    assert(all.take(i as int) =~= all);
    out
}

fn any_stays(group: usize, paths: &Vec<FilePath>, picks: &PickSet, roots: &Vec<FilePath>) -> (r: bool)
    requires
        picks.wf(),
    ensures
        r == one_stays(group, paths.deep_view(), picks@, roots.deep_view()),
{
    let ghost all = paths.deep_view();
    let mut i: usize = 0;
    while i < paths.len()
        invariant
            i <= paths@.len(),
            all == paths.deep_view(),
            picks.wf(),
            forall|j: int|
                0 <= j < i ==> in_any((#[trigger] all[j]).parts, roots.deep_view()) || (j > 0 && picks@.contains(
                    Pick { group, copy: j as usize },
                )),
        decreases paths@.len() - i,
    {
        assert(all[i as int] == paths@[i as int]@);
        if !under_any(&paths[i], roots) && !(i > 0 && picks.contains(group, i)) {
            assert(!in_any(all[i as int].parts, roots.deep_view()));
            return true;
        }
        i = i + 1;
    }
    false
}

fn gather_group(group: usize, g: &DuplicateGroup, picks: &PickSet, roots: &Vec<FilePath>) -> (r: Vec<ActionItem>)
    requires
        picks.wf(),
    ensures
        r.deep_view() == group_picks(group, g@, picks@, roots.deep_view()),
{
    let copies = choose_copies(group, &g.paths, picks);
    proof {
        lemma_chosen_needs_paths(group, g@.paths, picks@);
    }
    let mut items = make_file_items(g, &copies, roots);
    if items.len() > 0 && !any_stays(group, &g.paths, picks, roots) {
        let ghost before = items.deep_view();
        let _ = items.remove(0);
        assert(items.deep_view() =~= before.skip(1));
    }
    items
}

/// Gathers what is picked. A file that a picked directory holds is left to it, so
/// that nothing is touched twice, and of each group a copy is left.
fn gather_items(summary: &ScanSummary, files: &PickSet, folders: &PickSet) -> (r: Vec<ActionItem>)
    requires
        files.wf(),
        folders.wf(),
    ensures
        r.deep_view() == selected_items(summary@, files@, folders@),
{
    let roots = choose_folders(&summary.folder_groups, folders);
    let ghost rv = roots.deep_view();
    let ghost goal = rv.map_values(|p: PathV| crate::removal::folder_item(p));
    let mut items: Vec<ActionItem> = Vec::new();
    let mut i: usize = 0;
    assert(items.deep_view() =~= goal.take(0));
    while i < roots.len()
        invariant
            i <= roots@.len(),
            rv == roots.deep_view(),
            goal == rv.map_values(|p: PathV| crate::removal::folder_item(p)),
            items.deep_view() == goal.take(i as int),
        decreases roots@.len() - i,
    {
        let ghost before = items.deep_view();
        let item = ActionItem { path: roots[i].clone(), is_folder: true, needs_verify: false, reference: empty_path() };
        let ghost iv = item@;
        items.push(item);
        assert(items.deep_view() =~= before.push(iv));
        assert(rv[i as int] == roots@[i as int]@);
        assert(goal[i as int] == iv);
        assert(items.deep_view() =~= goal.take(i + 1));
        i = i + 1;
    }
    assert(goal.take(i as int) =~= goal);
    let ghost gv = summary.groups.deep_view();
    let mut k: usize = 0;
    assert(gv.take(0) =~= Seq::<GroupV>::empty());
    assert(items.deep_view() =~= goal + all_file_items(gv.take(0), files@, rv));
    while k < summary.groups.len()
        invariant
            k <= summary.groups@.len(),
            gv == summary.groups.deep_view(),
            rv == roots.deep_view(),
            files.wf(),
            items.deep_view() == goal + all_file_items(gv.take(k as int), files@, rv),
        decreases summary.groups@.len() - k,
    {
        let ghost t = gv.take(k + 1);
        assert(t.drop_last() =~= gv.take(k as int));
        let g = &summary.groups[k];
        assert(t.last() == g@);
        let mut more = gather_group(k, g, files, &roots);
        let ghost (before, m) = (items.deep_view(), more.deep_view());
        items.append(&mut more);
        assert(items.deep_view() =~= before + m);
        assert(items.deep_view() =~= goal + all_file_items(t, files@, rv));
        k = k + 1;
    }
    assert(gv.take(k as int) =~= gv);
    items
}

// -------------------------------------------------------------------- pruning

/// Paths without those that are gone.
pub open spec fn still_there(paths: Seq<PathV>, gone: Set<PathId>) -> Seq<PathV>
    decreases paths.len(),
{
    if paths.len() == 0 {
        Seq::empty()
    } else if gone.contains(paths.last().parts) {
        still_there(paths.drop_last(), gone)
    } else {
        still_there(paths.drop_last(), gone).push(paths.last())
    }
}

/// Groups without the paths that are gone, as long as two are left.
pub open spec fn pruned_groups(groups: Seq<GroupV>, gone: Set<PathId>) -> Seq<GroupV>
    decreases groups.len(),
{
    if groups.len() == 0 {
        Seq::empty()
    } else {
        let before = pruned_groups(groups.drop_last(), gone);
        let left = still_there(groups.last().paths, gone);
        if left.len() >= 2 {
            before.push(GroupV { paths: left, ..groups.last() })
        } else {
            before
        }
    }
}

pub open spec fn pruned_folders(groups: Seq<FolderV>, gone: Set<PathId>) -> Seq<FolderV>
    decreases groups.len(),
{
    if groups.len() == 0 {
        Seq::empty()
    } else {
        let before = pruned_folders(groups.drop_last(), gone);
        let left = still_there(groups.last().paths, gone);
        if left.len() >= 2 {
            before.push(FolderV { paths: left, ..groups.last() })
        } else {
            before
        }
    }
}

fn keep_paths(paths: &Vec<FilePath>, gone: &PathSet) -> (r: Vec<FilePath>)
    ensures
        r.deep_view() == still_there(paths.deep_view(), gone@),
{
    let ghost all = paths.deep_view();
    let mut r: Vec<FilePath> = Vec::new();
    let mut i: usize = 0;
    assert(all.take(0) =~= Seq::<PathV>::empty());
    assert(r.deep_view() =~= Seq::<PathV>::empty());
    while i < paths.len()
        invariant
            i <= paths@.len(),
            all == paths.deep_view(),
            r.deep_view() == still_there(all.take(i as int), gone@),
        decreases paths@.len() - i,
    {
        let ghost t = all.take(i + 1);
        assert(t.drop_last() =~= all.take(i as int));
        assert(t.last() == paths@[i as int]@);
        if !gone.contains(&paths[i]) {
            let ghost before = r.deep_view();
            r.push(paths[i].clone());
            assert(r.deep_view() =~= before.push(t.last()));
        }
        i = i + 1;
    }
    assert(all.take(i as int) =~= all);
    r
}

fn prune_groups(groups: &Vec<DuplicateGroup>, gone: &PathSet) -> (r: Vec<DuplicateGroup>)
    ensures
        r.deep_view() == pruned_groups(groups.deep_view(), gone@),
{
    let ghost all = groups.deep_view();
    let mut r: Vec<DuplicateGroup> = Vec::new();
    let mut i: usize = 0;
    assert(all.take(0) =~= Seq::<GroupV>::empty());
    assert(r.deep_view() =~= Seq::<GroupV>::empty());
    while i < groups.len()
        invariant
            i <= groups@.len(),
            all == groups.deep_view(),
            r.deep_view() == pruned_groups(all.take(i as int), gone@),
        decreases groups@.len() - i,
    {
        let ghost t = all.take(i + 1);
        assert(t.drop_last() =~= all.take(i as int));
        let g = &groups[i];
        assert(t.last() == g@);
        let left = keep_paths(&g.paths, gone);
        if left.len() >= 2 {
            let ghost before = r.deep_view();
            let kept = DuplicateGroup {
                file_hash: g.file_hash.clone(),
                size: g.size,
                paths: left,
                confirmed: g.confirmed,
            };
            let ghost kv = kept@;
            r.push(kept);
            assert(r.deep_view() =~= before.push(kv));
        }
        i = i + 1;
    }
    assert(all.take(i as int) =~= all);
    r
}

fn prune_folders(groups: &Vec<FolderGroup>, gone: &PathSet) -> (r: Vec<FolderGroup>)
    ensures
        r.deep_view() == pruned_folders(groups.deep_view(), gone@),
{
    let ghost all = groups.deep_view();
    let mut r: Vec<FolderGroup> = Vec::new();
    let mut i: usize = 0;
    assert(all.take(0) =~= Seq::<FolderV>::empty());
    assert(r.deep_view() =~= Seq::<FolderV>::empty());
    while i < groups.len()
        invariant
            i <= groups@.len(),
            all == groups.deep_view(),
            r.deep_view() == pruned_folders(all.take(i as int), gone@),
        decreases groups@.len() - i,
    {
        let ghost t = all.take(i + 1);
        assert(t.drop_last() =~= all.take(i as int));
        let g = &groups[i];
        assert(t.last() == g@);
        let left = keep_paths(&g.paths, gone);
        if left.len() >= 2 {
            let ghost before = r.deep_view();
            let kept = FolderGroup { paths: left, file_count: g.file_count, size: g.size, confirmed: g.confirmed };
            let ghost kv = kept@;
            r.push(kept);
            assert(r.deep_view() =~= before.push(kv));
        }
        i = i + 1;
    }
    assert(all.take(i as int) =~= all);
    r
}

// -------------------------------------------------------------------- the state

/// The state of the window.
pub struct App {
    pub tab: Tab,
    pub directories: Vec<FilePath>,
    pub dir_input: String,
    pub min_size_mb: String,
    pub threads: String,
    pub large_threshold_mb: String,
    pub exclude_input: String,
    pub excludes: Vec<String>,
    pub use_default_excludes: bool,
    pub exclude_temp_files: bool,
    /// The chosen file types, each once.
    pub file_type_filter: Vec<String>,
    pub dry_run: bool,
    pub phase: Phase,
    pub scan_handle: Option<ScanHandle>,
    pub resumable_run: Option<String>,
    pub last_summary: Option<ScanSummary>,
    pub error: Option<String>,
    pub results_view: ResultsView,
    pub file_removed: PickSet,
    pub folder_removed: PickSet,
    pub action_handle: Option<ActionHandle>,
    pub confirm: Option<PendingAction>,
    pub last_action_report: Option<ActionReport>,
    /// The newest run first.
    pub history: Vec<RunRecord>,
    pub resumable_ids: Vec<String>,
    pub history_error: Option<String>,
}

/// The state of the window as a mathematical value.
#[verifier::ext_equal]
pub struct AppV {
    pub tab: Tab,
    pub directories: Seq<PathV>,
    pub dir_input: Seq<char>,
    pub min_size_mb: Seq<char>,
    pub threads: Seq<char>,
    pub large_threshold_mb: Seq<char>,
    pub exclude_input: Seq<char>,
    pub excludes: Seq<Seq<char>>,
    pub use_default_excludes: bool,
    pub exclude_temp_files: bool,
    pub file_type_filter: Seq<Seq<char>>,
    pub dry_run: bool,
    pub phase: Phase,
    pub scan_handle: Option<ScanHandleV>,
    pub resumable_run: Option<Seq<char>>,
    pub last_summary: Option<SummaryV>,
    pub error: Option<Seq<char>>,
    pub results_view: ResultsView,
    pub file_removed: Seq<Pick>,
    pub folder_removed: Seq<Pick>,
    pub action_handle: Option<ActionHandleV>,
    pub confirm: Option<PendingAction>,
    pub last_action_report: Option<ActionReportV>,
    pub history: Seq<RecordV>,
    pub resumable_ids: Seq<Seq<char>>,
    pub history_error: Option<Seq<char>>,
}

impl View for App {
    type V = AppV;

    open spec fn view(&self) -> AppV {
        AppV {
            tab: self.tab,
            directories: self.directories.deep_view(),
            dir_input: self.dir_input@,
            min_size_mb: self.min_size_mb@,
            threads: self.threads@,
            large_threshold_mb: self.large_threshold_mb@,
            exclude_input: self.exclude_input@,
            excludes: self.excludes.deep_view(),
            use_default_excludes: self.use_default_excludes,
            exclude_temp_files: self.exclude_temp_files,
            file_type_filter: self.file_type_filter.deep_view(),
            dry_run: self.dry_run,
            phase: self.phase,
            scan_handle: match self.scan_handle {
                Some(h) => Some(h@),
                None => None,
            },
            resumable_run: self.resumable_run.deep_view(),
            last_summary: match self.last_summary {
                Some(s) => Some(s@),
                None => None,
            },
            error: self.error.deep_view(),
            results_view: self.results_view,
            file_removed: self.file_removed@,
            folder_removed: self.folder_removed@,
            action_handle: match self.action_handle {
                Some(h) => Some(h@),
                None => None,
            },
            confirm: self.confirm,
            last_action_report: match self.last_action_report {
                Some(r) => Some(r@),
                None => None,
            },
            history: self.history.deep_view(),
            resumable_ids: self.resumable_ids.deep_view(),
            history_error: self.history_error.deep_view(),
        }
    }
}

/// The window when it opens.
pub open spec fn app_start() -> AppV {
    AppV {
        tab: Tab::Scan,
        directories: Seq::empty(),
        dir_input: Seq::empty(),
        min_size_mb: "0"@,
        threads: "0"@,
        large_threshold_mb: "500"@,
        exclude_input: Seq::empty(),
        excludes: Seq::empty(),
        use_default_excludes: true,
        exclude_temp_files: true,
        file_type_filter: Seq::empty(),
        dry_run: false,
        phase: Phase::Idle,
        scan_handle: None,
        resumable_run: None,
        last_summary: None,
        error: None,
        results_view: ResultsView::Files,
        file_removed: Seq::empty(),
        folder_removed: Seq::empty(),
        action_handle: None,
        confirm: None,
        last_action_report: None,
        history: Seq::empty(),
        resumable_ids: Seq::empty(),
        history_error: None,
    }
}

/// What a typed directory makes happen.
pub open spec fn typed_effect(raw: Seq<char>) -> EffectV {
    if raw.len() > 0 {
        EffectV::ResolveDirectory(raw)
    } else {
        EffectV::Nothing
    }
}

/// Decides what a typed directory makes happen.
pub fn resolve_typed(raw: &str) -> (r: Effect)
    ensures
        r@ == typed_effect(raw@),
{
    let long: bool = chars_of(raw).len() > 0;
    if long {
        Effect::ResolveDirectory(raw.to_string())
    } else {
        Effect::Nothing
    }
}

/// The number of threads that a text asks for; none where it is no number.
pub open spec fn threads_asked(text: Seq<char>) -> usize {
    match parsed_number(text, usize::MAX as nat) {
        Some(n) => n as usize,
        None => 0,
    }
}

/// Reads the number of threads.
pub fn read_threads(text: &str) -> (r: usize)
    ensures
        r == threads_asked(text@),
{
    match parse_count(text) {
        Some(n) => n,
        None => 0,
    }
}

/// A list the other way round.
pub open spec fn reversed(list: Seq<RecordV>) -> Seq<RecordV> {
    Seq::new(list.len(), |i: int| list[list.len() - 1 - i])
}

impl AppV {
    /// How the window wants a scan to go about its work.
    pub open spec fn scan_options(self, large_threshold: u64) -> OptionsV {
        OptionsV {
            show_progress: false,
            workers: threads_asked(trimmed(self.threads)),
            large_file_threshold: large_threshold,
            exclude_dirs: if self.use_default_excludes {
                lowered(default_dir_names()) + lowered(self.excludes)
            } else {
                lowered(self.excludes)
            },
            exclude_temp_files: self.exclude_temp_files,
            file_types: if self.file_type_filter.len() == 0 {
                None
            } else {
                Some(self.file_type_filter)
            },
        }
    }

    /// All further copies picked, of folders those of confirmed groups.
    pub open spec fn with_default_selection(self) -> AppV {
        match self.last_summary {
            Some(s) => AppV {
                file_removed: all_picked(Seq::empty(), file_picks(s.groups)),
                folder_removed: all_picked(Seq::empty(), folder_picks(s.folder_groups)),
                ..self
            },
            None => AppV { file_removed: Seq::empty(), folder_removed: Seq::empty(), ..self },
        }
    }

    /// With the results of a scan.
    pub open spec fn with_summary(self, summary: SummaryV) -> AppV {
        let a = AppV { directories: summary.directories, last_summary: Some(summary), ..self }.with_default_selection();
        AppV { phase: Phase::Reviewing, tab: Tab::Scan, last_action_report: None, ..a }
    }

    /// What is picked.
    pub open spec fn items(self) -> Seq<ItemV> {
        match self.last_summary {
            Some(s) => selected_items(s, self.file_removed, self.folder_removed),
            None => Seq::empty(),
        }
    }

    /// Without what an action has removed.
    pub open spec fn pruned(self, report: ActionReportV) -> AppV {
        if report.dry_run || report.succeeded_paths.len() == 0 {
            self
        } else {
            let gone = ids_of(report.succeeded_paths);
            AppV {
                last_summary: match self.last_summary {
                    Some(s) => Some(
                        SummaryV {
                            groups: pruned_groups(s.groups, gone),
                            folder_groups: pruned_folders(s.folder_groups, gone),
                            ..s
                        },
                    ),
                    None => None,
                },
                ..self
            }.with_default_selection()
        }
    }

    /// An action on what is picked begins, if anything is.
    pub open spec fn acting(self, kind: KindV) -> (AppV, EffectV) {
        if self.items().len() == 0 {
            (AppV { error: Some("Nothing selected to act on."@), ..self }, EffectV::Nothing)
        } else {
            (
                AppV {
                    error: None,
                    phase: Phase::Acting,
                    action_handle: Some(ActionHandleV { done: false, result: None }),
                    ..self
                },
                EffectV::StartAction(self.items(), kind, self.dry_run),
            )
        }
    }

    /// With a further name of directories to leave out.
    pub open spec fn with_exclude(self, name: Seq<char>) -> AppV {
        AppV {
            excludes: if name.len() > 0 && !has_name(self.excludes, name) {
                self.excludes.push(name)
            } else {
                self.excludes
            },
            exclude_input: Seq::empty(),
            ..self
        }
    }

    pub open spec fn with_directory(self, path: PathV) -> AppV {
        if has_path(self.directories, path.parts) {
            self
        } else {
            AppV { directories: self.directories.push(path), ..self }
        }
    }

    /// A scan begins.
    pub open spec fn scanning(self, request: ScanRequestV) -> (AppV, EffectV) {
        (
            AppV {
                error: None,
                last_action_report: None,
                phase: Phase::Scanning,
                scan_handle: Some(ScanHandleV { cancel: false, done: false, result: None }),
                ..self
            },
            EffectV::StartScan(request),
        )
    }

    /// A scan has ended.
    pub open spec fn after_scan(self, outcome: Option<OutcomeV>) -> AppV {
        let a = AppV { scan_handle: None, ..self };
        match outcome {
            Some(OutcomeV::Scanned(s)) => a.with_summary(s),
            Some(OutcomeV::Failed(e)) => AppV { error: Some(e), phase: Phase::Idle, ..a },
            None => AppV { phase: Phase::Idle, ..a },
        }
    }

    /// An action has ended.
    pub open spec fn after_action(self, report: Option<ActionReportV>) -> AppV {
        let a = AppV { action_handle: None, ..self };
        let b = match report {
            Some(r) => AppV { last_action_report: Some(r), ..a.pruned(r) },
            None => a,
        };
        AppV { phase: Phase::Reviewing, ..b }
    }

    /// Looks whether what runs elsewhere has ended.
    pub open spec fn ticked(self) -> (AppV, EffectV) {
        if self.phase == Phase::Scanning && self.scan_handle is Some && self.scan_handle.unwrap().done {
            (self.after_scan(self.scan_handle.unwrap().result), EffectV::RefreshHistory)
        } else if self.phase == Phase::Acting && self.action_handle is Some && self.action_handle.unwrap().done {
            (self.after_action(self.action_handle.unwrap().result), EffectV::Nothing)
        } else {
            (self, EffectV::Nothing)
        }
    }

    /// With the history as it was loaded, which begins with the oldest run.
    pub open spec fn with_history(
        self,
        loaded: Result<Seq<RecordV>, Seq<char>>,
        resumable: Seq<Seq<char>>,
        latest: Option<Seq<char>>,
    ) -> AppV {
        let a = match loaded {
            Ok(records) => AppV { history: reversed(records), history_error: None, ..self },
            Err(e) => AppV { history_error: Some(e), ..self },
        };
        AppV { resumable_ids: resumable, resumable_run: latest, ..a }
    }

    /// What a message changes, and what it makes happen outside.
    pub open spec fn updated(self, m: MessageV, sizes: Sizes) -> (AppV, EffectV) {
        match m {
            MessageV::TabSelected(tab) => (
                AppV { tab, ..self },
                if tab == Tab::History {
                    EffectV::RefreshHistory
                } else {
                    EffectV::Nothing
                },
            ),
            MessageV::DirInputChanged(v) => (AppV { dir_input: v, ..self }, EffectV::Nothing),
            MessageV::AddTypedDirectory => (
                AppV { dir_input: Seq::empty(), ..self },
                typed_effect(trimmed(self.dir_input)),
            ),
            MessageV::PickDirectory => (self, EffectV::PickDirectory),
            MessageV::DirectoryPicked(path) => (
                match path {
                    Some(p) => self.with_directory(p),
                    None => self,
                },
                EffectV::Nothing,
            ),
            MessageV::RemoveDirectory(i) => (
                if i < self.directories.len() {
                    AppV { directories: self.directories.remove(i as int), ..self }
                } else {
                    self
                },
                EffectV::Nothing,
            ),
            MessageV::MinSizeChanged(v) => (
                if numeric(v, true) {
                    AppV { min_size_mb: v, ..self }
                } else {
                    self
                },
                EffectV::Nothing,
            ),
            MessageV::ThreadsChanged(v) => (
                if numeric(v, false) {
                    AppV { threads: v, ..self }
                } else {
                    self
                },
                EffectV::Nothing,
            ),
            MessageV::LargeThresholdChanged(v) => (
                if numeric(v, true) {
                    AppV { large_threshold_mb: v, ..self }
                } else {
                    self
                },
                EffectV::Nothing,
            ),
            MessageV::ExcludeInputChanged(v) => (AppV { exclude_input: v, ..self }, EffectV::Nothing),
            MessageV::AddExclude => (self.with_exclude(trimmed(self.exclude_input)), EffectV::Nothing),
            MessageV::RemoveExclude(i) => (
                if i < self.excludes.len() {
                    AppV { excludes: self.excludes.remove(i as int), ..self }
                } else {
                    self
                },
                EffectV::Nothing,
            ),
            MessageV::ToggleDefaultExcludes(b) => (AppV { use_default_excludes: b, ..self }, EffectV::Nothing),
            MessageV::ToggleExcludeTempFiles(b) => (AppV { exclude_temp_files: b, ..self }, EffectV::Nothing),
            MessageV::ToggleFileType(name, on) => (
                AppV {
                    file_type_filter: if on {
                        noted(self.file_type_filter, name)
                    } else {
                        without_text(self.file_type_filter, name)
                    },
                    ..self
                },
                EffectV::Nothing,
            ),
            MessageV::ToggleDryRun(b) => (AppV { dry_run: b, ..self }, EffectV::Nothing),
            MessageV::StartScan => if self.directories.len() == 0 {
                (
                    AppV { error: Some("Add at least one directory to scan first."@), ..self },
                    EffectV::Nothing,
                )
            } else {
                self.scanning(
                    ScanRequestV {
                        directories: self.directories,
                        options: self.scan_options(sizes.large_threshold),
                        min_size: sizes.min_size,
                        resume_run_id: None,
                    },
                )
            },
            MessageV::ResumeScan => match self.resumable_run {
                None => (self, EffectV::Nothing),
                Some(id) => self.scanning(
                    ScanRequestV {
                        directories: Seq::empty(),
                        options: self.scan_options(sizes.large_threshold),
                        min_size: sizes.min_size,
                        resume_run_id: Some(id),
                    },
                ),
            },
            MessageV::CancelScan => match self.scan_handle {
                Some(h) => (
                    AppV { scan_handle: Some(ScanHandleV { cancel: true, ..h }), ..self },
                    EffectV::CancelScan,
                ),
                None => (self, EffectV::Nothing),
            },
            MessageV::Tick => self.ticked(),
            MessageV::ResultsViewChanged(v) => (AppV { results_view: v, ..self }, EffectV::Nothing),
            MessageV::ToggleFileRemoved(group, copy, on) => (
                AppV {
                    file_removed: if on {
                        picked(self.file_removed, Pick { group, copy })
                    } else {
                        unpicked(self.file_removed, Pick { group, copy })
                    },
                    ..self
                },
                EffectV::Nothing,
            ),
            MessageV::ToggleFolderRemoved(group, copy, on) => (
                AppV {
                    folder_removed: if on {
                        picked(self.folder_removed, Pick { group, copy })
                    } else {
                        unpicked(self.folder_removed, Pick { group, copy })
                    },
                    ..self
                },
                EffectV::Nothing,
            ),
            MessageV::SelectAllFiles => (
                match self.last_summary {
                    Some(s) => AppV { file_removed: all_picked(self.file_removed, file_picks(s.groups)), ..self },
                    None => self,
                },
                EffectV::Nothing,
            ),
            MessageV::SelectNoneFiles => (AppV { file_removed: Seq::empty(), ..self }, EffectV::Nothing),
            MessageV::SelectAllFolders => (
                match self.last_summary {
                    Some(s) => AppV {
                        folder_removed: all_picked(self.folder_removed, folder_picks(s.folder_groups)),
                        ..self
                    },
                    None => self,
                },
                EffectV::Nothing,
            ),
            MessageV::SelectNoneFolders => (AppV { folder_removed: Seq::empty(), ..self }, EffectV::Nothing),
            MessageV::RequestTrash => (AppV { confirm: Some(PendingAction::Trash), ..self }, EffectV::Nothing),
            MessageV::RequestMoveTo => (self, EffectV::PickDestination),
            MessageV::MoveDestPicked(dest) => match dest {
                Some(d) => self.acting(KindV::MoveTo(d)),
                None => (self, EffectV::Nothing),
            },
            MessageV::ConfirmAction => match self.confirm {
                Some(PendingAction::Trash) => (AppV { confirm: None, ..self }).acting(KindV::Trash),
                None => (self, EffectV::Nothing),
            },
            MessageV::CancelConfirm => (AppV { confirm: None, ..self }, EffectV::Nothing),
            MessageV::LoadHistoryRun(i) => (
                self,
                if i < self.history.len() {
                    EffectV::LoadRun(i, self.history[i as int].timestamp)
                } else {
                    EffectV::Nothing
                },
            ),
            MessageV::DismissError => (AppV { error: None, ..self }, EffectV::Nothing),
        }
    }
}

impl Default for App {
    fn default() -> (r: App)
        ensures
            r.wf(),
            r@ == app_start(),
    {
        let r = App {
            tab: Tab::Scan,
            directories: Vec::new(),
            dir_input: String::new(),
            min_size_mb: "0".to_string(),
            threads: "0".to_string(),
            large_threshold_mb: "500".to_string(),
            exclude_input: String::new(),
            excludes: Vec::new(),
            use_default_excludes: true,
            exclude_temp_files: true,
            file_type_filter: Vec::new(),
            dry_run: false,
            phase: Phase::Idle,
            scan_handle: None,
            resumable_run: None,
            last_summary: None,
            error: None,
            results_view: ResultsView::Files,
            file_removed: PickSet::new(),
            folder_removed: PickSet::new(),
            action_handle: None,
            confirm: None,
            last_action_report: None,
            history: Vec::new(),
            resumable_ids: Vec::new(),
            history_error: None,
        };
        assert(r@ =~= app_start());
        r
    }
}

impl App {
    /// The picks are in order.
    pub open spec fn wf(&self) -> bool {
        self.file_removed.wf() && self.folder_removed.wf()
    }

    /// Whether something runs elsewhere that is to be looked after.
    pub fn is_waiting(&self) -> (r: bool)
        ensures
            r == (self@.phase == Phase::Scanning || self@.phase == Phase::Acting),
    {
        self.phase == Phase::Scanning || self.phase == Phase::Acting
    }

    /// Takes over the history as it was loaded, which begins with the oldest
    /// run, the runs that can be resumed, and the one that was stopped last.
    pub fn refresh_history(
        &mut self,
        loaded: Result<Vec<RunRecord>, String>,
        resumable: Vec<String>,
        latest: Option<String>,
    )
        requires
            old(self).wf(),
        ensures
            final(self).wf(),
            final(self)@ == old(self)@.with_history(
                match loaded {
                    Ok(records) => Ok(records.deep_view()),
                    Err(e) => Err(e@),
                },
                resumable.deep_view(),
                latest.deep_view(),
            ),
    {
        match loaded {
            Ok(records) => {
                let mut list: Vec<RunRecord> = Vec::new();
                let n: usize = records.len();
                let mut i: usize = 0;
                while i < n
                    invariant
                        i <= n,
                        n == records@.len(),
                        list@.len() == i,
                        forall|j: int| 0 <= j < i ==> (#[trigger] list@[j])@ == records@[n - 1 - j]@,
                    decreases n - i,
                {
                    list.push(records[n - 1 - i].clone());
                    i = i + 1;
                }
                assert(list.deep_view() =~= reversed(records.deep_view()));
                self.history = list;
                self.history_error = None;
            },
            Err(e) => {
                self.history_error = Some(e);
            },
        }
        self.resumable_ids = resumable;
        self.resumable_run = latest;
    }

    fn build_scan_options(&self, large_threshold_bytes: u64) -> (r: ScanOptions)
        ensures
            r@ == self@.scan_options(large_threshold_bytes),
    {
        let mut exclude_dirs = lower_all(&self.excludes);
        if self.use_default_excludes {
            let ghost own = exclude_dirs.deep_view();
            let mut all = lower_all(&default_excluded_dir_names());
            let ghost first = all.deep_view();
            all.append(&mut exclude_dirs);
            assert(all.deep_view() =~= first + own);
            exclude_dirs = all;
        }
        let workers: usize = read_threads(trim(self.threads.as_str()).as_str());
        let file_types = if self.file_type_filter.len() == 0 {
            None
        } else {
            Some(copy_texts(&self.file_type_filter))
        };
        ScanOptions {
            show_progress: false,
            workers,
            large_file_threshold: large_threshold_bytes,
            exclude_dirs,
            exclude_temp_files: self.exclude_temp_files,
            file_types,
        }
    }

    fn default_selection(&mut self)
        ensures
            final(self).wf(),
            final(self)@ == old(self)@.with_default_selection(),
    {
        let mut files = PickSet::new();
        let mut folders = PickSet::new();
        match &self.last_summary {
            Some(summary) => {
                files.pick_files(&summary.groups);
                folders.pick_folders(&summary.folder_groups);
            },
            None => {},
        }
        self.file_removed = files;
        self.folder_removed = folders;
    }

    /// Takes over the results of a scan.
    pub fn apply_scan_summary(&mut self, summary: ScanSummary)
        ensures
            final(self).wf(),
            final(self)@ == old(self)@.with_summary(summary@),
    {
        self.directories = copy_paths(&summary.directories);
        self.last_summary = Some(summary);
        self.default_selection();
        self.phase = Phase::Reviewing;
        self.tab = Tab::Scan;
        self.last_action_report = None;
    }

    /// Gathers what is picked.
    pub fn collect_selected_items(&self) -> (r: Vec<ActionItem>)
        requires
            self.wf(),
        ensures
            r.deep_view() == self@.items(),
    {
        match &self.last_summary {
            Some(summary) => gather_items(summary, &self.file_removed, &self.folder_removed),
            None => {
                let none: Vec<ActionItem> = Vec::new();
                assert(none.deep_view() =~= Seq::<ItemV>::empty());
                none
            },
        }
    }

    fn prune_after_action(&mut self, report: &ActionReport)
        requires
            old(self).wf(),
        ensures
            final(self).wf(),
            final(self)@ == old(self)@.pruned(report@),
    {
        if report.dry_run || report.succeeded_paths.len() == 0 {
            return;
        }
        let gone = path_set(&report.succeeded_paths);
        match self.last_summary.take() {
            Some(summary) => {
                let groups = prune_groups(&summary.groups, &gone);
                let folder_groups = prune_folders(&summary.folder_groups, &gone);
                self.last_summary = Some(
                    ScanSummary {
                        run_id: summary.run_id,
                        directories: summary.directories,
                        groups,
                        folder_groups,
                        skipped: summary.skipped,
                        cancelled: summary.cancelled,
                        resumable: summary.resumable,
                        reused: summary.reused,
                        duration_seconds: summary.duration_seconds,
                        reclaimable_bytes: summary.reclaimable_bytes,
                    },
                );
            },
            None => {},
        }
        self.default_selection();
    }

    fn run_action(&mut self, kind: ActionKind) -> (r: Effect)
        requires
            old(self).wf(),
        ensures
            final(self).wf(),
            (final(self)@, r@) == old(self)@.acting(kind@),
    {
        let items = self.collect_selected_items();
        if items.len() == 0 {
            self.error = Some("Nothing selected to act on.".to_string());
            return Effect::Nothing;
        }
        self.error = None;
        self.phase = Phase::Acting;
        self.action_handle = Some(ActionHandle::started());
        Effect::StartAction(items, kind, self.dry_run)
    }

    /// Adds a directory, whose path is absolute, unless it is there.
    pub fn add_directory(&mut self, path: FilePath)
        requires
            old(self).wf(),
        ensures
            final(self).wf(),
            final(self)@ == old(self)@.with_directory(path@),
    {
        if !list_has_path(&self.directories, &path) {
            let ghost pv = path@;
            self.directories.push(path);
            assert(self.directories.deep_view() =~= old(self).directories.deep_view().push(pv));
        }
    }

    fn start_scan(&mut self, directories: Vec<FilePath>, sizes: Sizes, resume_run_id: Option<String>) -> (r: Effect)
        requires
            old(self).wf(),
        ensures
            final(self).wf(),
            (final(self)@, r@) == old(self)@.scanning(
                ScanRequestV {
                    directories: directories.deep_view(),
                    options: old(self)@.scan_options(sizes.large_threshold),
                    min_size: sizes.min_size,
                    resume_run_id: resume_run_id.deep_view(),
                },
            ),
    {
        let options = self.build_scan_options(sizes.large_threshold);
        self.error = None;
        self.last_action_report = None;
        self.phase = Phase::Scanning;
        self.scan_handle = Some(ScanHandle::started());
        Effect::StartScan(ScanRequest { directories, options, min_size: sizes.min_size, resume_run_id })
    }

    fn tick(&mut self) -> (r: Effect)
        requires
            old(self).wf(),
        ensures
            final(self).wf(),
            (final(self)@, r@) == old(self)@.ticked(),
    {
        if self.phase == Phase::Scanning {
            let done: bool = match &self.scan_handle {
                Some(h) => h.is_done(),
                None => false,
            };
            if done {
                let outcome = match self.scan_handle.take() {
                    Some(mut h) => h.take(),
                    None => None,
                };
                match outcome {
                    Some(ScanOutcome::Scanned(summary)) => {
                        self.apply_scan_summary(summary);
                    },
                    Some(ScanOutcome::Failed(e)) => {
                        self.error = Some(e);
                        self.phase = Phase::Idle;
                    },
                    None => {
                        self.phase = Phase::Idle;
                    },
                }
                return Effect::RefreshHistory;
            }
        }
        if self.phase == Phase::Acting {
            let done: bool = match &self.action_handle {
                Some(h) => h.is_done(),
                None => false,
            };
            if done {
                let report = match self.action_handle.take() {
                    Some(mut h) => h.take(),
                    None => None,
                };
                match report {
                    Some(r) => {
                        self.prune_after_action(&r);
                        self.last_action_report = Some(r);
                    },
                    None => {},
                }
                self.phase = Phase::Reviewing;
            }
        }
        Effect::Nothing
    }

    /// Excludes directories of a name, unless it is empty or excluded already,
    /// and empties the input.
    pub fn add_exclude(&mut self, name: &str)
        requires
            old(self).wf(),
        ensures
            final(self).wf(),
            final(self)@ == old(self)@.with_exclude(name@),
    {
        let long: bool = chars_of(name).len() > 0;
        if long && !list_has_name(&self.excludes, name) {
            self.excludes.push(name.to_string());
            assert(self.excludes.deep_view() =~= old(self).excludes.deep_view().push(name@));
        }
        self.exclude_input = String::new();
        assert(self.exclude_input@ =~= Seq::<char>::empty());
    }

    fn toggle_file_type(&mut self, name: &str, on: bool)
        requires
            old(self).wf(),
        ensures
            final(self).wf(),
            final(self)@ == old(self)@.updated(
                MessageV::ToggleFileType(name@, on),
                Sizes { min_size: 0, large_threshold: 0 },
            ).0,
    {
        if on {
            if !list_contains(&self.file_type_filter, name) {
                self.file_type_filter.push(name.to_string());
                assert(self.file_type_filter.deep_view() =~= old(self).file_type_filter.deep_view().push(name@));
            }
        } else {
            self.file_type_filter = drop_text(&self.file_type_filter, name);
        }
    }

    /// Takes in a message. `sizes` are the sizes in the two size fields.
    #[verifier::spinoff_prover]
    #[verifier::rlimit(80)]
    pub fn update(&mut self, message: Message, sizes: Sizes) -> (r: Effect)
        requires
            old(self).wf(),
        ensures
            final(self).wf(),
            (final(self)@, r@) == old(self)@.updated(message@, sizes),
    {
        match message {
            Message::TabSelected(tab) => {
                self.tab = tab;
                if tab == Tab::History {
                    Effect::RefreshHistory
                } else {
                    Effect::Nothing
                }
            },
            Message::DirInputChanged(v) => {
                self.dir_input = v;
                Effect::Nothing
            },
            Message::AddTypedDirectory => {
                let raw = trim(self.dir_input.as_str());
                self.dir_input = String::new();
                assert(self.dir_input@ =~= Seq::<char>::empty());
                resolve_typed(raw.as_str())
            },
            Message::PickDirectory => Effect::PickDirectory,
            Message::DirectoryPicked(path) => {
                match path {
                    Some(p) => {
                        self.add_directory(p);
                    },
                    None => {},
                }
                Effect::Nothing
            },
            Message::RemoveDirectory(idx) => {
                if idx < self.directories.len() {
                    self.directories.remove(idx);
                    assert(self.directories.deep_view() =~= old(self).directories.deep_view().remove(idx as int));
                }
                Effect::Nothing
            },
            Message::MinSizeChanged(v) => {
                if is_numeric(v.as_str(), true) {
                    self.min_size_mb = v;
                }
                Effect::Nothing
            },
            Message::ThreadsChanged(v) => {
                if is_numeric(v.as_str(), false) {
                    self.threads = v;
                }
                Effect::Nothing
            },
            Message::LargeThresholdChanged(v) => {
                if is_numeric(v.as_str(), true) {
                    self.large_threshold_mb = v;
                }
                Effect::Nothing
            },
            Message::ExcludeInputChanged(v) => {
                self.exclude_input = v;
                Effect::Nothing
            },
            Message::AddExclude => {
                let name = trim(self.exclude_input.as_str());
                self.add_exclude(name.as_str());
                Effect::Nothing
            },
            Message::RemoveExclude(idx) => {
                if idx < self.excludes.len() {
                    self.excludes.remove(idx);
                    assert(self.excludes.deep_view() =~= old(self).excludes.deep_view().remove(idx as int));
                }
                Effect::Nothing
            },
            Message::ToggleDefaultExcludes(v) => {
                self.use_default_excludes = v;
                Effect::Nothing
            },
            Message::ToggleExcludeTempFiles(v) => {
                self.exclude_temp_files = v;
                Effect::Nothing
            },
            Message::ToggleFileType(name, checked) => {
                self.toggle_file_type(name.as_str(), checked);
                Effect::Nothing
            },
            Message::ToggleDryRun(v) => {
                self.dry_run = v;
                Effect::Nothing
            },
            Message::StartScan => {
                if self.directories.len() == 0 {
                    self.error = Some("Add at least one directory to scan first.".to_string());
                    return Effect::Nothing;
                }
                let directories = copy_paths(&self.directories);
                self.start_scan(directories, sizes, None)
            },
            Message::ResumeScan => {
                let run = match &self.resumable_run {
                    Some(id) => Some(id.clone()),
                    None => None,
                };
                match run {
                    Some(id) => {
                        let none: Vec<FilePath> = Vec::new();
                        assert(none.deep_view() =~= Seq::<PathV>::empty());
                        self.start_scan(none, sizes, Some(id))
                    },
                    None => Effect::Nothing,
                }
            },
            Message::CancelScan => {
                match self.scan_handle.take() {
                    Some(h) => {
                        let mut handle = h;
                        handle.request_cancel();
                        self.scan_handle = Some(handle);
                        Effect::CancelScan
                    },
                    None => Effect::Nothing,
                }
            },
            Message::Tick => self.tick(),
            Message::ResultsViewChanged(v) => {
                self.results_view = v;
                Effect::Nothing
            },
            Message::ToggleFileRemoved(gi, pi, checked) => {
                if checked {
                    self.file_removed.insert(gi, pi);
                } else {
                    self.file_removed.remove(gi, pi);
                }
                Effect::Nothing
            },
            Message::ToggleFolderRemoved(gi, pi, checked) => {
                if checked {
                    self.folder_removed.insert(gi, pi);
                } else {
                    self.folder_removed.remove(gi, pi);
                }
                Effect::Nothing
            },
            Message::SelectAllFiles => {
                match &self.last_summary {
                    Some(summary) => {
                        self.file_removed.pick_files(&summary.groups);
                    },
                    None => {},
                }
                Effect::Nothing
            },
            Message::SelectNoneFiles => {
                self.file_removed.clear();
                Effect::Nothing
            },
            Message::SelectAllFolders => {
                match &self.last_summary {
                    Some(summary) => {
                        self.folder_removed.pick_folders(&summary.folder_groups);
                    },
                    None => {},
                }
                Effect::Nothing
            },
            Message::SelectNoneFolders => {
                self.folder_removed.clear();
                Effect::Nothing
            },
            Message::RequestTrash => {
                self.confirm = Some(PendingAction::Trash);
                Effect::Nothing
            },
            Message::RequestMoveTo => Effect::PickDestination,
            Message::MoveDestPicked(dest) => {
                match dest {
                    Some(d) => self.run_action(ActionKind::MoveTo(d)),
                    None => Effect::Nothing,
                }
            },
            Message::ConfirmAction => {
                match self.confirm.take() {
                    Some(PendingAction::Trash) => self.run_action(ActionKind::Trash),
                    None => Effect::Nothing,
                }
            },
            Message::CancelConfirm => {
                self.confirm = None;
                Effect::Nothing
            },
            Message::LoadHistoryRun(idx) => {
                if idx < self.history.len() {
                    assert(self@.history[idx as int] == self.history@[idx as int]@);
                    Effect::LoadRun(idx, self.history[idx].timestamp.clone())
                } else {
                    Effect::Nothing
                }
            },
            Message::DismissError => {
                self.error = None;
                Effect::Nothing
            },
        }
    }

    /// Takes over the groups of a past run, or what went wrong. `paths` are the
    /// directories of the run.
    pub fn load_history_run(
        &mut self,
        idx: usize,
        paths: Vec<FilePath>,
        loaded: Result<Option<(Vec<DuplicateGroup>, Vec<FolderGroup>)>, String>,
    )
        requires
            old(self).wf(),
        ensures
            final(self).wf(),
            final(self)@ == (if idx >= old(self)@.history.len() {
                old(self)@
            } else {
                let record = old(self)@.history[idx as int];
                match loaded {
                    Ok(Some((groups, folder_groups))) => old(self)@.with_summary(
                        past_summary_of(
                            record,
                            paths.deep_view(),
                            groups.deep_view(),
                            folder_groups.deep_view(),
                            old(self)@.resumable_ids.contains(record.timestamp),
                        ),
                    ),
                    Ok(None) => AppV {
                        error: Some("No saved detail for that run -- it may predate detail tracking."@),
                        ..old(self)@
                    },
                    Err(e) => AppV { error: Some(e@), ..old(self)@ },
                }
            }),
    {
        if idx >= self.history.len() {
            return;
        }
        assert(self@.history[idx as int] == self.history@[idx as int]@);
        match loaded {
            Ok(Some((groups, folder_groups))) => {
                let resumable = list_contains(&self.resumable_ids, self.history[idx].timestamp.as_str());
                let summary = past_summary(&self.history[idx], paths, groups, folder_groups, resumable);
                self.apply_scan_summary(summary);
            },
            Ok(None) => {
                self.error = Some("No saved detail for that run -- it may predate detail tracking.".to_string());
            },
            Err(e) => {
                self.error = Some(e);
            },
        }
    }

    /// How many files or folders are picked, and what they take up together.
    pub fn selected_totals(&self, files: bool) -> (r: (usize, u64))
        ensures
            (r.0 as nat, r.1) == (match self@.last_summary {
                None => (0nat, 0u64),
                Some(s) => if files {
                    (self@.file_removed.len(), wrapped(picked_file_bytes(self@.file_removed, s.groups)))
                } else {
                    (self@.folder_removed.len(), wrapped(picked_folder_bytes(self@.folder_removed, s.folder_groups)))
                },
            }),
    {
        match &self.last_summary {
            None => (0, 0),
            Some(summary) => {
                if files {
                    (self.file_removed.len(), file_bytes(&self.file_removed, &summary.groups))
                } else {
                    (self.folder_removed.len(), folder_bytes(&self.folder_removed, &summary.folder_groups))
                }
            },
        }
    }
}

} // verus!
