//! What each message to the window does, and what it leaves alone.

use vstd::prelude::*;

use crate::actions::{ItemV, KindV};
use crate::filetypes::{default_dir_names, lowered};
use crate::groups::{FolderV, GroupV};
use crate::history::RecordV;
use crate::paths::{is_under, PathId, PathV};
use crate::picks::{all_picked, file_picks, folder_picks, Pick};
use crate::removal::in_any;
use crate::report_laws::{law_picks_add_up, law_picks_come_and_go};
use crate::session::{
    all_file_items, app_start, ascii_lower, chosen, chosen_folders, file_items, group_picks, numeric, one_stays,
    pruned_folders, pruned_groups, selected_items, still_there, without_text, AppV, EffectV, MessageV, PendingAction,
    Phase, ResultsView, Sizes, Tab,
};
use crate::summary::{OutcomeV, SummaryV};
use crate::text::{lowercase, parsed_number, trimmed};
use crate::text_laws::law_numbers_fit;
use crate::walk::{ids_of, lemma_ids_has};

verus! {

// --------------------------------------------------------------- what changes what

/// Whether a message tells that a scan has ended, and what came of it.
pub open spec fn scan_arrives(a: AppV, m: MessageV) -> bool {
    m is Tick && a.phase == Phase::Scanning && a.scan_handle is Some && a.scan_handle.unwrap().done
}

/// Whether a message tells that an action has ended.
pub open spec fn action_arrives(a: AppV, m: MessageV) -> bool {
    m is Tick && a.phase == Phase::Acting && a.action_handle is Some && a.action_handle.unwrap().done
}

/// The settings change only by the messages that are there to change them.
pub proof fn law_settings_stay(a: AppV, m: MessageV, sizes: Sizes)
    ensures
        ({
            let n = a.updated(m, sizes).0;
            &&& m is MinSizeChanged || n.min_size_mb == a.min_size_mb
            &&& m is ThreadsChanged || n.threads == a.threads
            &&& m is LargeThresholdChanged || n.large_threshold_mb == a.large_threshold_mb
            &&& m is AddExclude || m is RemoveExclude || n.excludes == a.excludes
            &&& m is ToggleDefaultExcludes || n.use_default_excludes == a.use_default_excludes
            &&& m is ToggleExcludeTempFiles || n.exclude_temp_files == a.exclude_temp_files
            &&& m is ToggleFileType || n.file_type_filter == a.file_type_filter
            &&& m is ToggleDryRun || n.dry_run == a.dry_run
            &&& m is DirectoryPicked || m is RemoveDirectory || scan_arrives(a, m) || n.directories == a.directories
            &&& m is DirInputChanged || m is AddTypedDirectory || n.dir_input == a.dir_input
            &&& m is ExcludeInputChanged || m is AddExclude || n.exclude_input == a.exclude_input
        }),
{
}

/// Whether what is found and what is picked of it are as before, but for what a message is
/// there to change.
pub open spec fn results_kept(a: AppV, m: MessageV, n: AppV) -> bool {
    let arrived = scan_arrives(a, m) || action_arrives(a, m);
    &&& arrived || n.last_summary == a.last_summary
    &&& arrived || m is ToggleFileRemoved || m is SelectAllFiles || m is SelectNoneFiles || n.file_removed
        == a.file_removed
    &&& arrived || m is ToggleFolderRemoved || m is SelectAllFolders || m is SelectNoneFolders || n.folder_removed
        == a.folder_removed
    &&& scan_arrives(a, m) || m is TabSelected || n.tab == a.tab
    &&& m is ResultsViewChanged || n.results_view == a.results_view
}

/// Whether what is under way is as before, but for what a message is there to start, to
/// stop or to end.
pub open spec fn work_kept(a: AppV, m: MessageV, n: AppV) -> bool {
    &&& scan_arrives(a, m) || m is StartScan || m is ResumeScan || m is CancelScan || n.scan_handle == a.scan_handle
    &&& action_arrives(a, m) || m is MoveDestPicked || m is ConfirmAction || n.action_handle == a.action_handle
    &&& m is RequestTrash || m is ConfirmAction || m is CancelConfirm || n.confirm == a.confirm
    &&& scan_arrives(a, m) || action_arrives(a, m) || m is StartScan || m is ResumeScan || m is MoveDestPicked
        || m is ConfirmAction || n.phase == a.phase
}

/// Whether what is shown of earlier runs is as before.
pub open spec fn history_kept(a: AppV, n: AppV) -> bool {
    &&& n.history == a.history
    &&& n.resumable_ids == a.resumable_ids
    &&& n.resumable_run == a.resumable_run
    &&& n.history_error == a.history_error
}

proof fn lemma_tick_leaves(a: AppV)
    ensures
        results_kept(a, MessageV::Tick, a.ticked().0),
        work_kept(a, MessageV::Tick, a.ticked().0),
        history_kept(a, a.ticked().0),
{
}

/// What is found and what is picked of it change only where something is picked or has
/// ended.
pub proof fn law_results_stay(a: AppV, m: MessageV, sizes: Sizes)
    ensures
        results_kept(a, m, a.updated(m, sizes).0),
{
    let n = a.updated(m, sizes).0;
    match m {
        MessageV::TabSelected(_) => assert(results_kept(a, m, n)),
        MessageV::DirInputChanged(_) => assert(results_kept(a, m, n)),
        MessageV::AddTypedDirectory => assert(results_kept(a, m, n)),
        MessageV::PickDirectory => assert(results_kept(a, m, n)),
        MessageV::DirectoryPicked(_) => assert(results_kept(a, m, n)),
        MessageV::RemoveDirectory(_) => assert(results_kept(a, m, n)),
        MessageV::MinSizeChanged(_) => assert(results_kept(a, m, n)),
        MessageV::ThreadsChanged(_) => assert(results_kept(a, m, n)),
        MessageV::LargeThresholdChanged(_) => assert(results_kept(a, m, n)),
        MessageV::ExcludeInputChanged(_) => assert(results_kept(a, m, n)),
        MessageV::AddExclude => assert(results_kept(a, m, n)),
        MessageV::RemoveExclude(_) => assert(results_kept(a, m, n)),
        MessageV::ToggleDefaultExcludes(_) => assert(results_kept(a, m, n)),
        MessageV::ToggleExcludeTempFiles(_) => assert(results_kept(a, m, n)),
        MessageV::ToggleFileType(_, _) => assert(results_kept(a, m, n)),
        MessageV::ToggleDryRun(_) => assert(results_kept(a, m, n)),
        MessageV::StartScan => assert(results_kept(a, m, n)),
        MessageV::ResumeScan => assert(results_kept(a, m, n)),
        MessageV::CancelScan => assert(results_kept(a, m, n)),
        MessageV::Tick => {
            lemma_tick_leaves(a);
        },
        MessageV::ResultsViewChanged(_) => assert(results_kept(a, m, n)),
        MessageV::ToggleFileRemoved(_, _, _) => assert(results_kept(a, m, n)),
        MessageV::ToggleFolderRemoved(_, _, _) => assert(results_kept(a, m, n)),
        MessageV::SelectAllFiles => assert(results_kept(a, m, n)),
        MessageV::SelectNoneFiles => assert(results_kept(a, m, n)),
        MessageV::SelectAllFolders => assert(results_kept(a, m, n)),
        MessageV::SelectNoneFolders => assert(results_kept(a, m, n)),
        MessageV::RequestTrash => assert(results_kept(a, m, n)),
        MessageV::RequestMoveTo => assert(results_kept(a, m, n)),
        MessageV::MoveDestPicked(_) => assert(results_kept(a, m, n)),
        MessageV::ConfirmAction => assert(results_kept(a, m, n)),
        MessageV::CancelConfirm => assert(results_kept(a, m, n)),
        MessageV::LoadHistoryRun(_) => assert(results_kept(a, m, n)),
        MessageV::DismissError => assert(results_kept(a, m, n)),
    }
}

/// What is under way changes only where something is started, stopped or has ended.
pub proof fn law_running_work_stays(a: AppV, m: MessageV, sizes: Sizes)
    ensures
        work_kept(a, m, a.updated(m, sizes).0),
{
    let n = a.updated(m, sizes).0;
    match m {
        MessageV::TabSelected(_) => assert(work_kept(a, m, n)),
        MessageV::DirInputChanged(_) => assert(work_kept(a, m, n)),
        MessageV::AddTypedDirectory => assert(work_kept(a, m, n)),
        MessageV::PickDirectory => assert(work_kept(a, m, n)),
        MessageV::DirectoryPicked(_) => assert(work_kept(a, m, n)),
        MessageV::RemoveDirectory(_) => assert(work_kept(a, m, n)),
        MessageV::MinSizeChanged(_) => assert(work_kept(a, m, n)),
        MessageV::ThreadsChanged(_) => assert(work_kept(a, m, n)),
        MessageV::LargeThresholdChanged(_) => assert(work_kept(a, m, n)),
        MessageV::ExcludeInputChanged(_) => assert(work_kept(a, m, n)),
        MessageV::AddExclude => assert(work_kept(a, m, n)),
        MessageV::RemoveExclude(_) => assert(work_kept(a, m, n)),
        MessageV::ToggleDefaultExcludes(_) => assert(work_kept(a, m, n)),
        MessageV::ToggleExcludeTempFiles(_) => assert(work_kept(a, m, n)),
        MessageV::ToggleFileType(_, _) => assert(work_kept(a, m, n)),
        MessageV::ToggleDryRun(_) => assert(work_kept(a, m, n)),
        MessageV::StartScan => assert(work_kept(a, m, n)),
        MessageV::ResumeScan => assert(work_kept(a, m, n)),
        MessageV::CancelScan => assert(work_kept(a, m, n)),
        MessageV::Tick => {
            lemma_tick_leaves(a);
        },
        MessageV::ResultsViewChanged(_) => assert(work_kept(a, m, n)),
        MessageV::ToggleFileRemoved(_, _, _) => assert(work_kept(a, m, n)),
        MessageV::ToggleFolderRemoved(_, _, _) => assert(work_kept(a, m, n)),
        MessageV::SelectAllFiles => assert(work_kept(a, m, n)),
        MessageV::SelectNoneFiles => assert(work_kept(a, m, n)),
        MessageV::SelectAllFolders => assert(work_kept(a, m, n)),
        MessageV::SelectNoneFolders => assert(work_kept(a, m, n)),
        MessageV::RequestTrash => assert(work_kept(a, m, n)),
        MessageV::RequestMoveTo => assert(work_kept(a, m, n)),
        MessageV::MoveDestPicked(_) => assert(work_kept(a, m, n)),
        MessageV::ConfirmAction => assert(work_kept(a, m, n)),
        MessageV::CancelConfirm => assert(work_kept(a, m, n)),
        MessageV::LoadHistoryRun(_) => assert(work_kept(a, m, n)),
        MessageV::DismissError => assert(work_kept(a, m, n)),
    }
}

/// No message changes what is shown of earlier runs: that is read anew.
pub proof fn law_history_stays(a: AppV, m: MessageV, sizes: Sizes)
    ensures
        history_kept(a, a.updated(m, sizes).0),
{
    let n = a.updated(m, sizes).0;
    match m {
        MessageV::TabSelected(_) => assert(history_kept(a, n)),
        MessageV::DirInputChanged(_) => assert(history_kept(a, n)),
        MessageV::AddTypedDirectory => assert(history_kept(a, n)),
        MessageV::PickDirectory => assert(history_kept(a, n)),
        MessageV::DirectoryPicked(_) => assert(history_kept(a, n)),
        MessageV::RemoveDirectory(_) => assert(history_kept(a, n)),
        MessageV::MinSizeChanged(_) => assert(history_kept(a, n)),
        MessageV::ThreadsChanged(_) => assert(history_kept(a, n)),
        MessageV::LargeThresholdChanged(_) => assert(history_kept(a, n)),
        MessageV::ExcludeInputChanged(_) => assert(history_kept(a, n)),
        MessageV::AddExclude => assert(history_kept(a, n)),
        MessageV::RemoveExclude(_) => assert(history_kept(a, n)),
        MessageV::ToggleDefaultExcludes(_) => assert(history_kept(a, n)),
        MessageV::ToggleExcludeTempFiles(_) => assert(history_kept(a, n)),
        MessageV::ToggleFileType(_, _) => assert(history_kept(a, n)),
        MessageV::ToggleDryRun(_) => assert(history_kept(a, n)),
        MessageV::StartScan => assert(history_kept(a, n)),
        MessageV::ResumeScan => assert(history_kept(a, n)),
        MessageV::CancelScan => assert(history_kept(a, n)),
        MessageV::Tick => {
            lemma_tick_leaves(a);
        },
        MessageV::ResultsViewChanged(_) => assert(history_kept(a, n)),
        MessageV::ToggleFileRemoved(_, _, _) => assert(history_kept(a, n)),
        MessageV::ToggleFolderRemoved(_, _, _) => assert(history_kept(a, n)),
        MessageV::SelectAllFiles => assert(history_kept(a, n)),
        MessageV::SelectNoneFiles => assert(history_kept(a, n)),
        MessageV::SelectAllFolders => assert(history_kept(a, n)),
        MessageV::SelectNoneFolders => assert(history_kept(a, n)),
        MessageV::RequestTrash => assert(history_kept(a, n)),
        MessageV::RequestMoveTo => assert(history_kept(a, n)),
        MessageV::MoveDestPicked(_) => assert(history_kept(a, n)),
        MessageV::ConfirmAction => assert(history_kept(a, n)),
        MessageV::CancelConfirm => assert(history_kept(a, n)),
        MessageV::LoadHistoryRun(_) => assert(history_kept(a, n)),
        MessageV::DismissError => assert(history_kept(a, n)),
    }
}

/// What is typed stands in its field; where a number is asked for, only digits are taken,
/// and a point where parts of it may be given.
pub proof fn law_typed_text_is_taken(a: AppV, v: Seq<char>, sizes: Sizes)
    ensures
        a.updated(MessageV::DirInputChanged(v), sizes).0.dir_input == v,
        a.updated(MessageV::ExcludeInputChanged(v), sizes).0.exclude_input == v,
        ({
            let whole = forall|i: int| 0 <= i < v.len() ==> '0' <= #[trigger] v[i] <= '9';
            let parts = forall|i: int| 0 <= i < v.len() ==> '0' <= #[trigger] v[i] <= '9' || v[i] == '.';
            &&& a.updated(MessageV::ThreadsChanged(v), sizes).0.threads == (if whole {
                v
            } else {
                a.threads
            })
            &&& a.updated(MessageV::MinSizeChanged(v), sizes).0.min_size_mb == (if parts {
                v
            } else {
                a.min_size_mb
            })
            &&& a.updated(MessageV::LargeThresholdChanged(v), sizes).0.large_threshold_mb == (if parts {
                v
            } else {
                a.large_threshold_mb
            })
        }),
{
    let whole = forall|i: int| 0 <= i < v.len() ==> '0' <= #[trigger] v[i] <= '9';
    let parts = forall|i: int| 0 <= i < v.len() ==> '0' <= #[trigger] v[i] <= '9' || v[i] == '.';
    if whole {
        assert(numeric(v, false)) by {
            assert forall|i: int| 0 <= i < v.len() implies ('0' <= #[trigger] v[i] && v[i] <= '9') || (false && v[i]
                == '.') by {}
        }
    }
    if numeric(v, false) {
        assert forall|i: int| 0 <= i < v.len() implies '0' <= #[trigger] v[i] <= '9' by {}
    }
    if parts {
        assert forall|i: int| 0 <= i < v.len() implies ('0' <= #[trigger] v[i] && v[i] <= '9') || (true && v[i]
            == '.') by {}
    }
    if numeric(v, true) {
        assert forall|i: int| 0 <= i < v.len() implies '0' <= #[trigger] v[i] <= '9' || v[i] == '.' by {}
    }
}

/// A switch is as it was last put.
pub proof fn law_switches(a: AppV, on: bool, tab: Tab, view: ResultsView, sizes: Sizes)
    ensures
        a.updated(MessageV::ToggleDefaultExcludes(on), sizes).0.use_default_excludes == on,
        a.updated(MessageV::ToggleExcludeTempFiles(on), sizes).0.exclude_temp_files == on,
        a.updated(MessageV::ToggleDryRun(on), sizes).0.dry_run == on,
        a.updated(MessageV::TabSelected(tab), sizes).0.tab == tab,
        a.updated(MessageV::TabSelected(tab), sizes).1 is RefreshHistory <==> tab == Tab::History,
        a.updated(MessageV::ResultsViewChanged(view), sizes).0.results_view == view,
        a.updated(MessageV::DismissError, sizes).0.error is None,
{
}

/// Nothing is asked for but by the messages that ask for it.
pub proof fn law_what_is_asked_for(a: AppV, m: MessageV, sizes: Sizes)
    ensures
        ({
            let effect = a.updated(m, sizes).1;
            &&& effect is PickDirectory <==> m is PickDirectory
            &&& effect is PickDestination <==> m is RequestMoveTo
            &&& effect is ResolveDirectory <==> m is AddTypedDirectory && trimmed(a.dir_input).len() > 0
            &&& effect is ResolveDirectory ==> effect->ResolveDirectory_0 == trimmed(a.dir_input)
                && a.updated(m, sizes).0.dir_input.len() == 0
            &&& effect is CancelScan <==> m is CancelScan && a.scan_handle is Some
            &&& effect is CancelScan ==> a.updated(m, sizes).0.scan_handle.unwrap().cancel
            &&& effect is StartScan <==> (m is StartScan && a.directories.len() > 0) || (m is ResumeScan
                && a.resumable_run is Some)
            &&& effect is RefreshHistory <==> m == MessageV::TabSelected(Tab::History) || scan_arrives(a, m)
            &&& effect is LoadRun <==> (m is LoadHistoryRun && m->LoadHistoryRun_0 < a.history.len())
            &&& effect is LoadRun ==> effect->LoadRun_0 == m->LoadHistoryRun_0 && effect->LoadRun_1
                == a.history[m->LoadHistoryRun_0 as int].timestamp
            &&& effect is StartAction <==> a.items().len() > 0 && ((m is MoveDestPicked && m->MoveDestPicked_0 is Some)
                || (m is ConfirmAction && a.confirm is Some))
        }),
{
}

/// A directory that is picked is on the list from then on, once, and one that is removed
/// goes from its place; all others stay, in their order.
pub proof fn law_directories_come_and_go(a: AppV, path: PathV, i: usize, sizes: Sizes)
    ensures
        ({
            let n = a.updated(MessageV::DirectoryPicked(Some(path)), sizes).0;
            let known = exists|k: int| 0 <= k < a.directories.len() && (#[trigger] a.directories[k]).parts == path.parts;
            &&& known ==> n.directories == a.directories
            &&& !known ==> n.directories == a.directories + seq![path]
        }),
        a.updated(MessageV::DirectoryPicked(None), sizes).0.directories == a.directories,
        i < a.directories.len() ==> a.updated(MessageV::RemoveDirectory(i), sizes).0.directories
            == a.directories.take(i as int) + a.directories.skip(i + 1),
        i >= a.directories.len() ==> a.updated(MessageV::RemoveDirectory(i), sizes).0.directories == a.directories,
{
    assert(a.directories + seq![path] =~= a.directories.push(path));
    if i < a.directories.len() {
        assert(a.directories.remove(i as int) =~= a.directories.take(i as int) + a.directories.skip(i + 1));
    }
}

/// A name to leave out is on the list from then on, unless it is empty or there already in
/// whatever case, and one that is removed goes from its place.
pub proof fn law_excluded_names_come_and_go(a: AppV, i: usize, sizes: Sizes)
    ensures
        ({
            let n = a.updated(MessageV::AddExclude, sizes).0;
            let name = trimmed(a.exclude_input);
            let known = exists|k: int|
                0 <= k < a.excludes.len() && same_letters(#[trigger] a.excludes[k], name);
            &&& name.len() > 0 && !known ==> n.excludes == a.excludes + seq![name]
            &&& name.len() == 0 || known ==> n.excludes == a.excludes
            &&& n.exclude_input.len() == 0
        }),
        i < a.excludes.len() ==> a.updated(MessageV::RemoveExclude(i), sizes).0.excludes == a.excludes.take(i as int)
            + a.excludes.skip(i + 1),
        i >= a.excludes.len() ==> a.updated(MessageV::RemoveExclude(i), sizes).0.excludes == a.excludes,
{
    let name = trimmed(a.exclude_input);
    assert(a.excludes + seq![name] =~= a.excludes.push(name));
    if i < a.excludes.len() {
        assert(a.excludes.remove(i as int) =~= a.excludes.take(i as int) + a.excludes.skip(i + 1));
    }
    assert forall|k: int| 0 <= k < a.excludes.len() implies same_letters(#[trigger] a.excludes[k], name)
        == (ascii_lower(a.excludes[k]) == ascii_lower(name)) by {
        lemma_same_letters(a.excludes[k], name);
    }
}

/// Whether two letters are the same, or differ only in that one is a capital.
pub open spec fn same_letter(a: char, b: char) -> bool {
    ||| a == b
    ||| 'A' <= a <= 'Z' && b as u32 == a as u32 + 32
    ||| 'A' <= b <= 'Z' && a as u32 == b as u32 + 32
}

pub open spec fn same_letters(a: Seq<char>, b: Seq<char>) -> bool {
    a.len() == b.len() && forall|i: int| 0 <= i < a.len() ==> same_letter(#[trigger] a[i], b[i])
}

proof fn lemma_same_letters(a: Seq<char>, b: Seq<char>)
    ensures
        same_letters(a, b) <==> ascii_lower(a) == ascii_lower(b),
{
    let (x, y) = (ascii_lower(a), ascii_lower(b));
    if same_letters(a, b) {
        assert forall|i: int| 0 <= i < x.len() implies x[i] == y[i] by {
            assert(same_letter(a[i], b[i]));
        }
        assert(x =~= y);
    }
    if x == y {
        assert(a.len() == x.len() && b.len() == y.len());
        assert forall|i: int| 0 <= i < a.len() implies same_letter(#[trigger] a[i], b[i]) by {
            assert(x[i] == y[i]);
        }
    }
}

/// A type that is switched on is chosen, one that is switched off is not, and the others
/// stay as they are.
pub proof fn law_types_are_chosen(a: AppV, name: Seq<char>, on: bool, sizes: Sizes, other: Seq<char>)
    ensures
        a.updated(MessageV::ToggleFileType(name, on), sizes).0.file_type_filter.contains(other) <==> (if other == name {
            on
        } else {
            a.file_type_filter.contains(other)
        }),
{
    let list = a.file_type_filter;
    lemma_without(list, name, other);
    if on && !list.contains(name) {
        let n = list.push(name);
        assert(n[list.len() as int] == name);
        if list.contains(other) {
            let i = choose|i: int| 0 <= i < list.len() && list[i] == other;
            assert(n[i] == other);
        }
        if n.contains(other) && other != name {
            let i = choose|i: int| 0 <= i < n.len() && n[i] == other;
            assert(list[i] == other);
        }
    }
}

proof fn lemma_without(list: Seq<Seq<char>>, name: Seq<char>, other: Seq<char>)
    ensures
        without_text(list, name).contains(other) <==> list.contains(other) && other != name,
    decreases list.len(),
{
    if list.len() > 0 {
        let s = list.drop_last();
        let x = list.last();
        lemma_without(s, name, other);
        let before = without_text(s, name);
        if s.contains(other) {
            let i = choose|i: int| 0 <= i < s.len() && s[i] == other;
            assert(list[i] == other);
        }
        assert(list[list.len() - 1] == x);
        if list.contains(other) && other != x {
            let i = choose|i: int| 0 <= i < list.len() && list[i] == other;
            assert(s[i] == other);
        }
        if x != name {
            let n = before.push(x);
            assert(n[before.len() as int] == x);
            if before.contains(other) {
                let i = choose|i: int| 0 <= i < before.len() && before[i] == other;
                assert(n[i] == other);
            }
            if n.contains(other) && other != x {
                let i = choose|i: int| 0 <= i < n.len() && n[i] == other;
                assert(before[i] == other);
            }
        }
    }
}

/// A scan is asked for with the settings as they stand: the directories or the run to take
/// up, the sizes, the number of threads, the chosen types, whether temporary files are left
/// out, and the names to leave out in lower case, the usual ones among them where those are
/// switched on.
pub proof fn law_scan_is_asked_for_as_set(a: AppV, m: MessageV, sizes: Sizes, name: Seq<char>)
    requires
        a.updated(m, sizes).1 is StartScan,
    ensures
        ({
            let request = a.updated(m, sizes).1->StartScan_0;
            let n = a.updated(m, sizes).0;
            &&& m is StartScan ==> request.directories == a.directories && request.resume_run_id is None
            &&& m is ResumeScan ==> request.directories.len() == 0 && request.resume_run_id == a.resumable_run
            &&& request.min_size == sizes.min_size
            &&& request.options.large_file_threshold == sizes.large_threshold
            &&& !request.options.show_progress
            &&& request.options.exclude_temp_files == a.exclude_temp_files
            &&& a.file_type_filter.len() == 0 ==> request.options.file_types is None
            &&& a.file_type_filter.len() > 0 ==> request.options.file_types == Some(a.file_type_filter)
            &&& parsed_number(trimmed(a.threads), usize::MAX as nat) is None ==> request.options.workers == 0
            &&& parsed_number(trimmed(a.threads), usize::MAX as nat) is Some ==> request.options.workers
                == parsed_number(trimmed(a.threads), usize::MAX as nat).unwrap()
            &&& request.options.exclude_dirs.contains(name) <==> lowered_has(a.excludes, name) || (
            a.use_default_excludes && lowered_has(default_dir_names(), name))
            &&& n.phase == Phase::Scanning && n.error is None && n.last_action_report is None
            &&& n.scan_handle is Some && !n.scan_handle.unwrap().cancel && !n.scan_handle.unwrap().done
                && n.scan_handle.unwrap().result is None
        }),
{
    let (d, e) = (lowered(default_dir_names()), lowered(a.excludes));
    lemma_lowered_has(default_dir_names(), name);
    lemma_lowered_has(a.excludes, name);
    if d.contains(name) {
        let i = choose|i: int| 0 <= i < d.len() && d[i] == name;
        assert((d + e)[i] == name);
    }
    if e.contains(name) {
        let i = choose|i: int| 0 <= i < e.len() && e[i] == name;
        assert((d + e)[d.len() + i] == name);
    }
    if let Some(x) = parsed_number(trimmed(a.threads), usize::MAX as nat) {
        law_numbers_fit(trimmed(a.threads), usize::MAX as nat);
    }
}

/// Whether a name is one of a list, in lower case.
pub open spec fn lowered_has(list: Seq<Seq<char>>, name: Seq<char>) -> bool {
    exists|k: int| 0 <= k < list.len() && lowercase(#[trigger] list[k]) == name
}

proof fn lemma_lowered_has(list: Seq<Seq<char>>, name: Seq<char>)
    ensures
        lowered(list).contains(name) <==> lowered_has(list, name),
{
    let low = lowered(list);
    if low.contains(name) {
        let i = choose|i: int| 0 <= i < low.len() && low[i] == name;
        assert(lowercase(list[i]) == name);
    }
    if lowered_has(list, name) {
        let k = choose|k: int| 0 <= k < list.len() && lowercase(#[trigger] list[k]) == name;
        assert(low[k] == name);
    }
}

/// A scan that cannot be started for want of a directory says so and changes nothing else.
pub proof fn law_no_scan_without_directories(a: AppV, sizes: Sizes)
    requires
        a.directories.len() == 0,
    ensures
        a.updated(MessageV::StartScan, sizes).1 is Nothing,
        a.updated(MessageV::StartScan, sizes).0 == (AppV {
            error: Some("Add at least one directory to scan first."@),
            ..a
        }),
{
}

/// What a scan found is what is shown then, with the directories it went through and its
/// further copies picked; where it failed, the reason is shown and the earlier results stay.
pub proof fn law_scan_results_are_shown(a: AppV, sizes: Sizes)
    requires
        scan_arrives(a, MessageV::Tick),
    ensures
        ({
            let n = a.updated(MessageV::Tick, sizes).0;
            let result = a.scan_handle.unwrap().result;
            &&& n.scan_handle is None
            &&& result matches Some(OutcomeV::Scanned(s)) ==> {
                &&& n.last_summary == Some(s)
                &&& n.directories == s.directories
                &&& n.phase == Phase::Reviewing
                &&& n.tab == Tab::Scan
                &&& n.last_action_report is None
                &&& n.error == a.error
                &&& n.file_removed == all_picked(Seq::empty(), file_picks(s.groups))
                &&& n.folder_removed == all_picked(
                    Seq::empty(),
                    folder_picks(s.folder_groups),
                )
            }
            &&& result matches Some(OutcomeV::Failed(e)) ==> n.error == Some(e) && n.phase == Phase::Idle
                && n.last_summary == a.last_summary && n.file_removed == a.file_removed
            &&& result is None ==> n.phase == Phase::Idle && n.error == a.error && n.last_summary == a.last_summary
        }),
{
}

/// An action is asked for on what is picked, in the way that was asked for, and without
/// touching anything where that was asked for. Without picks nothing is asked for, and the
/// window says so.
pub proof fn law_action_is_asked_for_as_set(a: AppV, m: MessageV, sizes: Sizes)
    requires
        m is ConfirmAction && a.confirm is Some || m is MoveDestPicked && m->MoveDestPicked_0 is Some,
    ensures
        ({
            let (n, effect) = a.updated(m, sizes);
            &&& a.items().len() > 0 ==> effect is StartAction && effect->StartAction_0 == a.items()
                && effect->StartAction_1 == (if m is ConfirmAction {
                KindV::Trash
            } else {
                KindV::MoveTo(m->MoveDestPicked_0.unwrap())
            }) && effect->StartAction_2 == a.dry_run && n.phase == Phase::Acting && n.error is None
                && n.action_handle is Some && !n.action_handle.unwrap().done
            &&& a.items().len() == 0 ==> effect is Nothing && n.error == Some("Nothing selected to act on."@) && n.phase
                == a.phase && n.action_handle == a.action_handle
        }),
{
}

/// Moving to the trash is asked about first, and the question can be taken back.
pub proof fn law_trash_is_asked_about(a: AppV, sizes: Sizes)
    ensures
        a.updated(MessageV::RequestTrash, sizes).0.confirm == Some(PendingAction::Trash),
        a.updated(MessageV::RequestTrash, sizes).1 is Nothing,
        a.updated(MessageV::CancelConfirm, sizes).0.confirm is None,
        a.updated(MessageV::CancelConfirm, sizes).1 is Nothing,
        a.confirm is None ==> a.updated(MessageV::ConfirmAction, sizes) == (a, EffectV::Nothing),
        a.updated(MessageV::ConfirmAction, sizes).0.confirm is None,
{
}

/// After an action its report is shown. Where it was only tried, or moved nothing, what is
/// shown and picked stays; else the paths that are gone leave the groups, and the further
/// copies of what is left are picked.
pub proof fn law_action_report_is_shown(a: AppV, sizes: Sizes)
    requires
        action_arrives(a, MessageV::Tick),
    ensures
        ({
            let n = a.updated(MessageV::Tick, sizes).0;
            let result = a.action_handle.unwrap().result;
            &&& n.action_handle is None
            &&& n.phase == Phase::Reviewing
            &&& result is None ==> n.last_summary == a.last_summary && n.last_action_report == a.last_action_report
            &&& result matches Some(r) ==> {
                &&& n.last_action_report == Some(r)
                &&& r.dry_run || r.succeeded_paths.len() == 0 ==> n.last_summary == a.last_summary && n.file_removed
                    == a.file_removed && n.folder_removed == a.folder_removed
                &&& !r.dry_run && r.succeeded_paths.len() > 0 && a.last_summary is Some ==> n.last_summary == Some(
                    SummaryV {
                        groups: groups_left(a.last_summary.unwrap().groups, r.succeeded_paths),
                        folder_groups: folders_left(a.last_summary.unwrap().folder_groups, r.succeeded_paths),
                        ..a.last_summary.unwrap()
                    },
                ) && n.file_removed == all_picked(
                    Seq::empty(),
                    file_picks(groups_left(a.last_summary.unwrap().groups, r.succeeded_paths)),
                ) && n.folder_removed == all_picked(
                    Seq::empty(),
                    folder_picks(folders_left(a.last_summary.unwrap().folder_groups, r.succeeded_paths)),
                )
            }
        }),
{
    let result = a.action_handle.unwrap().result;
    if result is Some && a.last_summary is Some {
        let gone = result.unwrap().succeeded_paths;
        lemma_groups_left(a.last_summary.unwrap().groups, gone);
        lemma_folders_left(a.last_summary.unwrap().folder_groups, gone);
    }
}

/// The paths of a list that are none of those that are gone, in their order.
pub open spec fn paths_left(paths: Seq<PathV>, gone: Seq<PathV>) -> Seq<PathV> {
    paths.filter(|p: PathV| !is_gone(p, gone))
}

pub open spec fn is_gone(p: PathV, gone: Seq<PathV>) -> bool {
    exists|k: int| 0 <= k < gone.len() && (#[trigger] gone[k]).parts == p.parts
}

/// The groups without what is gone, those of them that are still groups, in their order.
pub open spec fn groups_left(groups: Seq<GroupV>, gone: Seq<PathV>) -> Seq<GroupV> {
    groups.map_values(|g: GroupV| GroupV { paths: paths_left(g.paths, gone), ..g }).filter(
        |g: GroupV| g.paths.len() >= 2,
    )
}

pub open spec fn folders_left(groups: Seq<FolderV>, gone: Seq<PathV>) -> Seq<FolderV> {
    groups.map_values(|g: FolderV| FolderV { paths: paths_left(g.paths, gone), ..g }).filter(
        |g: FolderV| g.paths.len() >= 2,
    )
}

proof fn lemma_paths_left(paths: Seq<PathV>, gone: Seq<PathV>)
    ensures
        still_there(paths, ids_of(gone)) == paths_left(paths, gone),
    decreases paths.len(),
{
    reveal(Seq::filter);
    if paths.len() > 0 {
        lemma_paths_left(paths.drop_last(), gone);
        lemma_ids_has(gone, paths.last().parts);
    }
}

proof fn lemma_groups_left(groups: Seq<GroupV>, gone: Seq<PathV>)
    ensures
        pruned_groups(groups, ids_of(gone)) == groups_left(groups, gone),
    decreases groups.len(),
{
    reveal(Seq::filter);
    let f = |g: GroupV| GroupV { paths: paths_left(g.paths, gone), ..g };
    if groups.len() > 0 {
        lemma_groups_left(groups.drop_last(), gone);
        lemma_paths_left(groups.last().paths, gone);
        assert(groups.map_values(f).drop_last() =~= groups.drop_last().map_values(f));
    }
}

proof fn lemma_folders_left(groups: Seq<FolderV>, gone: Seq<PathV>)
    ensures
        pruned_folders(groups, ids_of(gone)) == folders_left(groups, gone),
    decreases groups.len(),
{
    reveal(Seq::filter);
    let f = |g: FolderV| FolderV { paths: paths_left(g.paths, gone), ..g };
    if groups.len() > 0 {
        lemma_folders_left(groups.drop_last(), gone);
        lemma_paths_left(groups.last().paths, gone);
        assert(groups.map_values(f).drop_last() =~= groups.drop_last().map_values(f));
    }
}

// ------------------------------------------------------------ picks, history, start

/// A copy is picked if and only if it was put so last; picking all of them picks the further
/// copies too, and picking none leaves none.
pub proof fn law_picks_follow_the_messages(a: AppV, p: Pick, on: bool, other: Pick, sizes: Sizes)
    ensures
        a.updated(MessageV::ToggleFileRemoved(p.group, p.copy, on), sizes).0.file_removed.contains(other) <==> (if other
            == p {
            on
        } else {
            a.file_removed.contains(other)
        }),
        a.updated(MessageV::ToggleFolderRemoved(p.group, p.copy, on), sizes).0.folder_removed.contains(other) <==> (
        if other == p {
            on
        } else {
            a.folder_removed.contains(other)
        }),
        a.updated(MessageV::SelectNoneFiles, sizes).0.file_removed.len() == 0,
        a.updated(MessageV::SelectNoneFolders, sizes).0.folder_removed.len() == 0,
        a.last_summary matches Some(s) ==> (a.updated(MessageV::SelectAllFiles, sizes).0.file_removed.contains(other)
            <==> a.file_removed.contains(other) || file_picks(s.groups).contains(other)),
        a.last_summary matches Some(s) ==> (a.updated(MessageV::SelectAllFolders, sizes).0.folder_removed.contains(
            other,
        ) <==> a.folder_removed.contains(other) || folder_picks(s.folder_groups).contains(other)),
        a.last_summary is None ==> a.updated(MessageV::SelectAllFiles, sizes).0.file_removed == a.file_removed,
{
    law_picks_come_and_go(a.file_removed, p, other);
    law_picks_come_and_go(a.folder_removed, p, other);
    if a.last_summary is Some {
        law_picks_add_up(a.file_removed, file_picks(a.last_summary.unwrap().groups), other);
        law_picks_add_up(a.folder_removed, folder_picks(a.last_summary.unwrap().folder_groups), other);
    }
}

/// The earlier runs are shown with the newest first; where they cannot be read, the reason
/// is shown and those that were shown stay.
pub proof fn law_history_shows_newest_first(
    a: AppV,
    records: Seq<RecordV>,
    why: Seq<char>,
    resumable: Seq<Seq<char>>,
    latest: Option<Seq<char>>,
)
    ensures
        ({
            let n = a.with_history(Ok(records), resumable, latest);
            &&& n.history.len() == records.len()
            &&& forall|i: int|
                0 <= i < records.len() ==> #[trigger] n.history[i] == records[records.len() - 1 - i]
            &&& n.history_error is None
            &&& n.resumable_ids == resumable
            &&& n.resumable_run == latest
            &&& n.last_summary == a.last_summary && n.directories == a.directories && n.phase == a.phase
        }),
        ({
            let n = a.with_history(Err(why), resumable, latest);
            &&& n.history == a.history
            &&& n.history_error == Some(why)
            &&& n.resumable_ids == resumable
            &&& n.resumable_run == latest
        }),
{
}

/// At the start nothing is chosen but what is usual: the usual names and temporary files
/// are left out, and a large file is one from five hundred megabytes on.
pub proof fn law_at_the_start()
    ensures
        ({
            let a = app_start();
            &&& a.tab == Tab::Scan && a.phase == Phase::Idle && a.results_view == ResultsView::Files
            &&& a.directories.len() == 0 && a.excludes.len() == 0 && a.file_type_filter.len() == 0
            &&& a.min_size_mb == "0"@ && a.threads == "0"@ && a.large_threshold_mb == "500"@
            &&& a.use_default_excludes && a.exclude_temp_files && !a.dry_run
            &&& a.last_summary is None && a.error is None && a.confirm is None && a.scan_handle is None
                && a.action_handle is None
            &&& a.file_removed.len() == 0 && a.folder_removed.len() == 0 && a.history.len() == 0
        }),
{
}

// -------------------------------------------------------------------- what is picked

/// The place of a path that is picked: it is a further copy, and the pick is made.
pub open spec fn picked_at(paths: Seq<PathV>, group: int, picks: Seq<Pick>, k: int) -> bool {
    1 <= k < paths.len() && picks.contains(Pick { group: group as usize, copy: k as usize })
}

/// Whether a path is one of those that are picked.
pub open spec fn is_picked(paths: Seq<PathV>, group: int, picks: Seq<Pick>, path: PathV) -> bool {
    exists|k: int| #[trigger] picked_at(paths, group, picks, k) && paths[k] == path
}

proof fn lemma_chosen(group: usize, paths: Seq<PathV>, picks: Seq<Pick>)
    requires
        paths.len() <= usize::MAX,
    ensures
        forall|i: int|
            0 <= i < chosen(group, paths, picks).len() ==> is_picked(
                paths,
                group as int,
                picks,
                #[trigger] chosen(group, paths, picks)[i],
            ),
        forall|k: int| #[trigger]
            picked_at(paths, group as int, picks, k) ==> chosen(group, paths, picks).contains(paths[k]),
    decreases paths.len(),
{
    if paths.len() > 0 {
        let s = paths.drop_last();
        let n = paths.len() - 1;
        lemma_chosen(group, s, picks);
        let (before, all) = (chosen(group, s, picks), chosen(group, paths, picks));
        assert forall|i: int| 0 <= i < all.len() implies is_picked(paths, group as int, picks, #[trigger] all[i]) by {
            if i < before.len() {
                assert(before[i] == all[i]);
                assert(is_picked(s, group as int, picks, before[i]));
                let k = choose|k: int| #[trigger] picked_at(s, group as int, picks, k) && s[k] == before[i];
                assert(picked_at(paths, group as int, picks, k) && paths[k] == all[i]);
            } else {
                assert(picked_at(paths, group as int, picks, n) && paths[n] == all[i]);
            }
        }
        assert forall|k: int| #[trigger] picked_at(paths, group as int, picks, k) implies all.contains(paths[k]) by {
            if k < n {
                assert(picked_at(s, group as int, picks, k));
                assert(before.contains(s[k]));
                let i = choose|i: int| 0 <= i < before.len() && before[i] == s[k];
                assert(all[i] == paths[k]);
            } else {
                assert(all[before.len() as int] == paths[k]);
            }
        }
    }
}

/// The folders that are acted on are those that are picked in a confirmed group, other than
/// its first.
pub proof fn law_picked_folders(groups: Seq<FolderV>, picks: Seq<Pick>, path: PathV)
    requires
        groups.len() <= usize::MAX,
        forall|g: int| 0 <= g < groups.len() ==> (#[trigger] groups[g]).paths.len() <= usize::MAX,
    ensures
        chosen_folders(groups, picks).contains(path) <==> exists|g: int, k: int|
            0 <= g < groups.len() && groups[g].confirmed && #[trigger] picked_at(groups[g].paths, g, picks, k)
                && groups[g].paths[k] == path,
    decreases groups.len(),
{
    if groups.len() > 0 {
        let s = groups.drop_last();
        let n = groups.len() - 1;
        assert forall|g: int| 0 <= g < s.len() implies (#[trigger] s[g]).paths.len() <= usize::MAX by {
            assert(s[g] == groups[g]);
        }
        law_picked_folders(s, picks, path);
        assert(groups[n].paths.len() <= usize::MAX);
        let last = groups.last();
        lemma_chosen(n as usize, last.paths, picks);
        let (before, mine, all) = (
            chosen_folders(s, picks),
            chosen(n as usize, last.paths, picks),
            chosen_folders(groups, picks),
        );
        if all.contains(path) {
            let i = choose|i: int| 0 <= i < all.len() && all[i] == path;
            if i < before.len() {
                assert(before[i] == path);
                let (g, k) = choose|g: int, k: int|
                    0 <= g < s.len() && s[g].confirmed && #[trigger] picked_at(s[g].paths, g, picks, k)
                        && s[g].paths[k] == path;
                assert(picked_at(groups[g].paths, g, picks, k));
            } else {
                assert(is_picked(last.paths, n, picks, mine[i - before.len()]));
                let k = choose|k: int|
                    #[trigger] picked_at(last.paths, n, picks, k) && last.paths[k] == mine[i - before.len()];
                assert(picked_at(groups[n].paths, n, picks, k));
            }
        }
        if exists|g: int, k: int|
            0 <= g < groups.len() && groups[g].confirmed && #[trigger] picked_at(groups[g].paths, g, picks, k)
                && groups[g].paths[k] == path {
            let (g, k) = choose|g: int, k: int|
                0 <= g < groups.len() && groups[g].confirmed && #[trigger] picked_at(groups[g].paths, g, picks, k)
                    && groups[g].paths[k] == path;
            if g < n {
                assert(picked_at(s[g].paths, g, picks, k) && s[g].confirmed && s[g].paths[k] == path);
                let i = choose|i: int| 0 <= i < before.len() && before[i] == path;
                assert(all[i] == path);
            } else {
                assert(picked_at(last.paths, n, picks, k));
                assert(mine.contains(last.paths[k]));
                let i = choose|i: int| 0 <= i < mine.len() && mine[i] == path;
                assert(all[before.len() + i] == path);
            }
        }
    }
}

/// Whether a path lies in one of these folders.
pub open spec fn in_folders(path: PathId, folders: Seq<PathV>) -> bool {
    exists|i: int| 0 <= i < folders.len() && is_under(path, (#[trigger] folders[i]).parts)
}

/// Whether an item is the picked copy of a group.
pub open spec fn item_of(item: ItemV, g: GroupV, group: int, picks: Seq<Pick>, k: int) -> bool {
    &&& picked_at(g.paths, group, picks, k)
    &&& item.path == g.paths[k]
    &&& !item.is_folder
    &&& item.needs_verify == !g.confirmed
    &&& item.reference == g.paths[0]
}

proof fn lemma_file_items(g: GroupV, paths: Seq<PathV>, roots: Seq<PathV>)
    ensures
        forall|i: int|
            0 <= i < file_items(g, paths, roots).len() ==> {
                let item = #[trigger] file_items(g, paths, roots)[i];
                &&& paths.contains(item.path)
                &&& !in_folders(item.path.parts, roots)
                &&& !item.is_folder
                &&& item.needs_verify == !g.confirmed
                &&& item.reference == g.paths[0]
            },
        forall|k: int|
            0 <= k < paths.len() && !in_folders((#[trigger] paths[k]).parts, roots) ==> has_item(
                file_items(g, paths, roots),
                paths[k],
            ),
    decreases paths.len(),
{
    if paths.len() > 0 {
        let s = paths.drop_last();
        let n = paths.len() - 1;
        lemma_file_items(g, s, roots);
        let (before, all) = (file_items(g, s, roots), file_items(g, paths, roots));
        assert(in_folders(paths.last().parts, roots) == in_any(paths.last().parts, roots));
        assert forall|i: int| 0 <= i < all.len() implies {
            let item = #[trigger] all[i];
            &&& paths.contains(item.path)
            &&& !in_folders(item.path.parts, roots)
            &&& !item.is_folder
            &&& item.needs_verify == !g.confirmed
            &&& item.reference == g.paths[0]
        } by {
            if i < before.len() {
                assert(all[i] == before[i]);
                let j = choose|j: int| 0 <= j < s.len() && s[j] == before[i].path;
                assert(paths[j] == before[i].path);
            } else {
                assert(paths[n] == all[i].path);
            }
        }
        assert forall|k: int| 0 <= k < paths.len() && !in_folders((#[trigger] paths[k]).parts, roots) implies has_item(
            all,
            paths[k],
        ) by {
            if k < n {
                assert(s[k] == paths[k]);
                assert(has_item(before, s[k]));
                let i = choose|i: int| 0 <= i < before.len() && (#[trigger] before[i]).path == s[k];
                assert(all[i].path == paths[k]);
            } else {
                assert(all[before.len() as int].path == paths[k]);
            }
        }
    }
}

/// Whether a path is acted on as a file.
pub open spec fn has_item(items: Seq<ItemV>, path: PathV) -> bool {
    exists|i: int| 0 <= i < items.len() && (#[trigger] items[i]).path == path
}

/// Whether a group keeps a copy of itself: one that is not picked and lies in no folder that
/// is acted on.
pub open spec fn keeps_one(g: GroupV, group: int, picks: Seq<Pick>, roots: Seq<PathV>) -> bool {
    exists|k: int|
        0 <= k < g.paths.len() && !in_folders((#[trigger] g.paths[k]).parts, roots) && !picked_at(g.paths, group, picks, k)
}

proof fn lemma_group_picks(group: usize, g: GroupV, picks: Seq<Pick>, roots: Seq<PathV>)
    requires
        g.paths.len() <= usize::MAX,
    ensures
        forall|i: int|
            0 <= i < group_picks(group, g, picks, roots).len() ==> is_item_of(
                #[trigger] group_picks(group, g, picks, roots)[i],
                g,
                group as int,
                picks,
            ) && !in_folders(group_picks(group, g, picks, roots)[i].path.parts, roots),
        keeps_one(g, group as int, picks, roots) ==> forall|k: int| #[trigger]
            picked_at(g.paths, group as int, picks, k) && !in_folders(g.paths[k].parts, roots) ==> has_item(
                group_picks(group, g, picks, roots),
                g.paths[k],
            ),
{
    let list = chosen(group, g.paths, picks);
    let items = file_items(g, list, roots);
    let mine = group_picks(group, g, picks, roots);
    lemma_chosen(group, g.paths, picks);
    lemma_file_items(g, list, roots);
    assert forall|i: int| 0 <= i < mine.len() implies is_item_of(#[trigger] mine[i], g, group as int, picks)
        && !in_folders(mine[i].path.parts, roots) by {
        let j = if mine == items {
            i
        } else {
            i + 1
        };
        assert(mine[i] == items[j]);
        let x = choose|x: int| 0 <= x < list.len() && list[x] == items[j].path;
        assert(is_picked(g.paths, group as int, picks, list[x]));
        let k = choose|k: int| #[trigger] picked_at(g.paths, group as int, picks, k) && g.paths[k] == list[x];
        assert(item_of(items[j], g, group as int, picks, k));
    }
    if keeps_one(g, group as int, picks, roots) {
        let k = choose|k: int|
            0 <= k < g.paths.len() && !in_folders((#[trigger] g.paths[k]).parts, roots) && !picked_at(
                g.paths,
                group as int,
                picks,
                k,
            );
        assert(in_any(g.paths[k].parts, roots) == in_folders(g.paths[k].parts, roots));
        assert(one_stays(group, g.paths, picks, roots));
        assert forall|k: int| #[trigger]
            picked_at(g.paths, group as int, picks, k) && !in_folders(g.paths[k].parts, roots) implies has_item(
            mine,
            g.paths[k],
        ) by {
            let x = choose|x: int| 0 <= x < list.len() && list[x] == g.paths[k];
            assert(has_item(items, list[x]));
        }
    }
}

pub open spec fn is_item_of(item: ItemV, g: GroupV, group: int, picks: Seq<Pick>) -> bool {
    exists|k: int| #[trigger] item_of(item, g, group, picks, k)
}

proof fn lemma_all_items(groups: Seq<GroupV>, picks: Seq<Pick>, roots: Seq<PathV>)
    requires
        groups.len() <= usize::MAX,
        forall|g: int| 0 <= g < groups.len() ==> (#[trigger] groups[g]).paths.len() <= usize::MAX,
    ensures
        forall|i: int|
            0 <= i < all_file_items(groups, picks, roots).len() ==> comes_from(
                #[trigger] all_file_items(groups, picks, roots)[i],
                groups,
                picks,
                roots,
            ),
        forall|g: int, k: int|
            0 <= g < groups.len() && keeps_one(groups[g], g, picks, roots) && #[trigger] picked_at(
                groups[g].paths,
                g,
                picks,
                k,
            ) && !in_folders(groups[g].paths[k].parts, roots) ==> has_item(
                all_file_items(groups, picks, roots),
                groups[g].paths[k],
            ),
    decreases groups.len(),
{
    if groups.len() > 0 {
        let s = groups.drop_last();
        let n = groups.len() - 1;
        assert forall|g: int| 0 <= g < s.len() implies (#[trigger] s[g]).paths.len() <= usize::MAX by {
            assert(s[g] == groups[g]);
        }
        assert(groups[n].paths.len() <= usize::MAX);
        lemma_all_items(s, picks, roots);
        lemma_group_picks(n as usize, groups[n], picks, roots);
        let (before, mine, all) = (
            all_file_items(s, picks, roots),
            group_picks(n as usize, groups[n], picks, roots),
            all_file_items(groups, picks, roots),
        );
        assert forall|i: int| 0 <= i < all.len() implies comes_from(#[trigger] all[i], groups, picks, roots) by {
            if i < before.len() {
                assert(all[i] == before[i]);
                assert(comes_from(before[i], s, picks, roots));
                let g = choose|g: int| 0 <= g < s.len() && is_item_of(before[i], #[trigger] s[g], g, picks);
                assert(is_item_of(all[i], groups[g], g, picks));
            } else {
                assert(all[i] == mine[i - before.len()]);
                assert(is_item_of(all[i], groups[n], n, picks));
            }
        }
        assert forall|g: int, k: int|
            0 <= g < groups.len() && keeps_one(groups[g], g, picks, roots) && #[trigger] picked_at(
                groups[g].paths,
                g,
                picks,
                k,
            ) && !in_folders(groups[g].paths[k].parts, roots) implies has_item(all, groups[g].paths[k]) by {
            if g < n {
                assert(s[g] == groups[g]);
                assert(picked_at(s[g].paths, g, picks, k));
                assert(has_item(before, s[g].paths[k]));
                let i = choose|i: int| 0 <= i < before.len() && (#[trigger] before[i]).path == s[g].paths[k];
                assert(all[i].path == groups[g].paths[k]);
            } else {
                assert(has_item(mine, groups[n].paths[k]));
                let i = choose|i: int| 0 <= i < mine.len() && (#[trigger] mine[i]).path == groups[n].paths[k];
                assert(all[before.len() + i].path == groups[g].paths[k]);
            }
        }
    }
}

/// Whether an item is a picked copy of one of the groups and goes with no folder.
pub open spec fn comes_from(item: ItemV, groups: Seq<GroupV>, picks: Seq<Pick>, roots: Seq<PathV>) -> bool {
    &&& !in_folders(item.path.parts, roots)
    &&& exists|g: int| 0 <= g < groups.len() && is_item_of(item, #[trigger] groups[g], g, picks)
}

/// What is acted on: each folder that is picked, as a whole, and then files that are picked
/// and go with none of those folders, each further copies of their groups. The files of an
/// unconfirmed group are to be compared with its first copy. Of a group that keeps a copy,
/// every picked file that goes with no folder is acted on.
pub proof fn law_what_is_acted_on(summary: SummaryV, files: Seq<Pick>, folders: Seq<Pick>)
    requires
        summary.groups.len() <= usize::MAX,
        forall|g: int| 0 <= g < summary.groups.len() ==> (#[trigger] summary.groups[g]).paths.len() <= usize::MAX,
    ensures
        ({
            let items = selected_items(summary, files, folders);
            let roots = chosen_folders(summary.folder_groups, folders);
            &&& items.len() >= roots.len()
            &&& forall|i: int|
                0 <= i < roots.len() ==> (#[trigger] items[i]).path == roots[i] && items[i].is_folder
                    && !items[i].needs_verify
            &&& forall|i: int|
                roots.len() <= i < items.len() ==> comes_from(#[trigger] items[i], summary.groups, files, roots)
            &&& forall|g: int, k: int|
                0 <= g < summary.groups.len() && keeps_one(summary.groups[g], g, files, roots) && #[trigger] picked_at(
                    summary.groups[g].paths,
                    g,
                    files,
                    k,
                ) && !in_folders(summary.groups[g].paths[k].parts, roots) ==> has_item(
                    items,
                    summary.groups[g].paths[k],
                )
        }),
{
    let items = selected_items(summary, files, folders);
    let roots = chosen_folders(summary.folder_groups, folders);
    let rest = all_file_items(summary.groups, files, roots);
    lemma_all_items(summary.groups, files, roots);
    assert forall|i: int| roots.len() <= i < items.len() implies comes_from(
        #[trigger] items[i],
        summary.groups,
        files,
        roots,
    ) by {
        assert(items[i] == rest[i - roots.len()]);
    }
    assert forall|g: int, k: int|
        0 <= g < summary.groups.len() && keeps_one(summary.groups[g], g, files, roots) && #[trigger] picked_at(
            summary.groups[g].paths,
            g,
            files,
            k,
        ) && !in_folders(summary.groups[g].paths[k].parts, roots) implies has_item(items, summary.groups[g].paths[k]) by {
        let i = choose|i: int| 0 <= i < rest.len() && (#[trigger] rest[i]).path == summary.groups[g].paths[k];
        assert(items[roots.len() + i].path == summary.groups[g].paths[k]);
    }
}

proof fn lemma_one_spared(group: usize, g: GroupV, paths: Seq<PathV>, picks: Seq<Pick>, roots: Seq<PathV>)
    requires
        paths.len() <= usize::MAX,
    ensures
        forall|k: int| #[trigger]
            picked_at(paths, group as int, picks, k) && !in_folders(paths[k].parts, roots) ==> file_items(
                g,
                chosen(group, paths, picks),
                roots,
            ).len() > 0,
        forall|k: int, m: int|
            k < m && #[trigger] picked_at(paths, group as int, picks, k) && !in_folders(paths[k].parts, roots)
                && #[trigger] picked_at(paths, group as int, picks, m) && !in_folders(paths[m].parts, roots) ==> has_item(
                file_items(g, chosen(group, paths, picks), roots).skip(1),
                paths[m],
            ),
    decreases paths.len(),
{
    if paths.len() > 0 {
        let s = paths.drop_last();
        let n = paths.len() - 1;
        lemma_one_spared(group, g, s, picks, roots);
        let (list, shorter) = (chosen(group, paths, picks), chosen(group, s, picks));
        let (all, before) = (file_items(g, list, roots), file_items(g, shorter, roots));
        assert(in_folders(paths[n].parts, roots) == in_any(paths[n].parts, roots));
        let mine = picked_at(paths, group as int, picks, n);
        if mine {
            assert(list.drop_last() =~= shorter);
            assert(list.last() == paths[n]);
        }
        assert(mine && !in_folders(paths[n].parts, roots) ==> all.len() == before.len() + 1 && all.last().path == paths[n]
            && all.drop_last() =~= before);
        assert(!(mine && !in_folders(paths[n].parts, roots)) ==> all == before);
        assert forall|k: int| #[trigger]
            picked_at(paths, group as int, picks, k) && !in_folders(paths[k].parts, roots) implies all.len() > 0 by {
            if k < n {
                assert(picked_at(s, group as int, picks, k) && s[k] == paths[k]);
            }
        }
        assert forall|k: int, m: int|
            k < m && #[trigger] picked_at(paths, group as int, picks, k) && !in_folders(paths[k].parts, roots)
                && #[trigger] picked_at(paths, group as int, picks, m) && !in_folders(
                paths[m].parts,
                roots,
            ) implies has_item(all.skip(1), paths[m]) by {
            assert(picked_at(s, group as int, picks, k) && s[k] == paths[k]);
            if m < n {
                assert(picked_at(s, group as int, picks, m) && s[m] == paths[m]);
                assert(has_item(before.skip(1), s[m]));
                let i = choose|i: int| 0 <= i < before.skip(1).len() && (#[trigger] before.skip(1)[i]).path == s[m];
                assert(before.skip(1)[i] == before[i + 1]);
                assert(all.skip(1)[i] == all[i + 1]);
                assert(all[i + 1] == before[i + 1]);
            } else {
                assert(all.skip(1)[all.len() - 2] == all[all.len() - 1]);
            }
        }
    }
}

/// Of a group that would keep no copy, only the first of those to be acted on is spared.
pub proof fn law_only_one_is_spared(group: usize, g: GroupV, picks: Seq<Pick>, roots: Seq<PathV>, k: int, m: int)
    requires
        g.paths.len() <= usize::MAX,
        k < m,
        picked_at(g.paths, group as int, picks, k),
        picked_at(g.paths, group as int, picks, m),
        !in_folders(g.paths[k].parts, roots),
        !in_folders(g.paths[m].parts, roots),
    ensures
        has_item(group_picks(group, g, picks, roots), g.paths[m]),
{
    lemma_one_spared(group, g, g.paths, picks, roots);
    let items = file_items(g, chosen(group, g.paths, picks), roots);
    let i = choose|i: int| 0 <= i < items.skip(1).len() && (#[trigger] items.skip(1)[i]).path == g.paths[m];
    assert(items.skip(1)[i] == items[i + 1]);
}

} // verus!
