//! What a removal plan holds, and what becomes of each of its items.

use vstd::prelude::*;

use crate::actions::{ActionV, ItemStage, ItemV, KindV, RequestV, VerifiedV, Wording};
use crate::groups::{FolderV, GroupV};
use crate::paths::{is_under, PathId, PathV};
use crate::removal::{
    files_planned, folders_planned, group_items, in_any, law_only_confirmed_folders, left_over, removal_plan,
};

verus! {

// ------------------------------------------------------------------------- plans

/// Where the paths that are left over stood, and that all of them are there.
proof fn lemma_left_places(paths: Seq<PathV>, dirs: Seq<PathV>) -> (at: Seq<int>)
    ensures
        at.len() == left_over(paths, dirs).len(),
        forall|i: int|
            0 <= i < at.len() ==> 0 <= #[trigger] at[i] < paths.len() && paths[at[i]] == left_over(paths, dirs)[i],
        forall|i: int, j: int| 0 <= i < j < at.len() ==> #[trigger] at[i] < #[trigger] at[j],
        forall|k: int| 0 <= k < paths.len() && !in_any((#[trigger] paths[k]).parts, dirs) ==> at.contains(k),
        forall|i: int| 0 <= i < at.len() ==> !in_any(paths[#[trigger] at[i]].parts, dirs),
    decreases paths.len(),
{
    if paths.len() == 0 {
        Seq::empty()
    } else {
        let s = paths.drop_last();
        let n = paths.len() - 1;
        let before = lemma_left_places(s, dirs);
        let at = if in_any(paths.last().parts, dirs) {
            before
        } else {
            before.push(n)
        };
        assert forall|i: int| 0 <= i < at.len() implies 0 <= #[trigger] at[i] < paths.len() && paths[at[i]]
            == left_over(paths, dirs)[i] && !in_any(paths[at[i]].parts, dirs) by {
            if i < before.len() {
                assert(at[i] == before[i]);
                assert(s[before[i]] == paths[before[i]]);
            }
        }
        assert forall|i: int, j: int| 0 <= i < j < at.len() implies #[trigger] at[i] < #[trigger] at[j] by {
            assert(at[i] == before[i]);
            if j < before.len() {
                assert(at[j] == before[j]);
            }
        }
        assert forall|k: int| 0 <= k < paths.len() && !in_any((#[trigger] paths[k]).parts, dirs) implies at.contains(k) by {
            if k < n {
                assert(s[k] == paths[k]);
                assert(before.contains(k));
                let i = choose|i: int| 0 <= i < before.len() && before[i] == k;
                assert(at[i] == k);
            } else {
                assert(at[before.len() as int] == k);
            }
        }
        at
    }
}

/// Where the files of a plan come from.
proof fn lemma_planned_place(groups: Seq<GroupV>, dirs: Seq<PathV>, i: int) -> (r: (int, int))
    requires
        0 <= i < files_planned(groups, dirs).len(),
    ensures
        0 <= r.0 < groups.len(),
        0 <= r.1 < group_items(groups[r.0], dirs).len(),
        files_planned(groups, dirs)[i] == group_items(groups[r.0], dirs)[r.1],
    decreases groups.len(),
{
    let s = groups.drop_last();
    let before = files_planned(s, dirs);
    if i < before.len() {
        let r = lemma_planned_place(s, dirs, i);
        assert(s[r.0] == groups[r.0]);
        r
    } else {
        (groups.len() - 1, i - before.len())
    }
}

proof fn lemma_place_planned(groups: Seq<GroupV>, dirs: Seq<PathV>, g: int, j: int) -> (i: int)
    requires
        0 <= g < groups.len(),
        0 <= j < group_items(groups[g], dirs).len(),
    ensures
        0 <= i < files_planned(groups, dirs).len(),
        files_planned(groups, dirs)[i] == group_items(groups[g], dirs)[j],
    decreases groups.len(),
{
    let s = groups.drop_last();
    let before = files_planned(s, dirs);
    if g < s.len() {
        assert(s[g] == groups[g]);
        lemma_place_planned(s, dirs, g, j)
    } else {
        before.len() + j
    }
}

/// Whether a directory that is removed takes a path along.
pub open spec fn goes_with_folder(folders: Seq<ItemV>, id: PathId) -> bool {
    exists|f: int| 0 <= f < folders.len() && is_under(id, (#[trigger] folders[f]).path.parts)
}

proof fn lemma_goes_with(groups: Seq<GroupV>, folder_groups: Seq<FolderV>, id: PathId)
    ensures
        goes_with_folder(removal_plan(groups, folder_groups).folders, id) <==> in_any(
            id,
            folders_planned(folder_groups),
        ),
{
    let dirs = folders_planned(folder_groups);
    let folders = removal_plan(groups, folder_groups).folders;
    if in_any(id, dirs) {
        let f = choose|f: int| 0 <= f < dirs.len() && is_under(id, (#[trigger] dirs[f]).parts);
        assert(folders[f].path == dirs[f]);
    }
    if goes_with_folder(folders, id) {
        let f = choose|f: int| 0 <= f < folders.len() && is_under(id, (#[trigger] folders[f]).path.parts);
        assert(folders[f].path == dirs[f]);
    }
}

/// Every file of a plan is a further copy of a group of files, and no directory of the
/// plan takes it along. It is compared before it goes exactly where its group is not
/// confirmed, whatever the group, and it is the first copy of the group that it is
/// compared with. An earlier copy of the group stays: it is no file of the plan.
pub proof fn law_planned_files_are_further_copies(groups: Seq<GroupV>, folder_groups: Seq<FolderV>, i: int) -> (r: (
    int,
    int,
    int,
))
    requires
        0 <= i < removal_plan(groups, folder_groups).files.len(),
    ensures
        ({
            let plan = removal_plan(groups, folder_groups);
            let item = plan.files[i];
            let (g, k, kept) = r;
            &&& 0 <= g < groups.len()
            &&& 0 <= kept < k < groups[g].paths.len()
            &&& item.path == groups[g].paths[k]
            &&& !item.is_folder
            &&& item.needs_verify == !groups[g].confirmed
            &&& item.reference == groups[g].paths[0]
            &&& !goes_with_folder(plan.folders, groups[g].paths[k].parts)
            &&& !goes_with_folder(plan.folders, groups[g].paths[kept].parts)
        }),
{
    let dirs = folders_planned(folder_groups);
    let (g, j) = lemma_planned_place(groups, dirs, i);
    let at = lemma_left_places(groups[g].paths, dirs);
    let (k, kept) = (at[j + 1], at[0]);
    lemma_goes_with(groups, folder_groups, groups[g].paths[k].parts);
    lemma_goes_with(groups, folder_groups, groups[g].paths[kept].parts);
    (g, k, kept)
}

/// Of the copies of a group that no directory of the plan takes along, every one but the
/// first is a file of the plan.
pub proof fn law_further_copies_are_planned(
    groups: Seq<GroupV>,
    folder_groups: Seq<FolderV>,
    g: int,
    kept: int,
    k: int,
) -> (i: int)
    requires
        0 <= g < groups.len(),
        0 <= kept < k < groups[g].paths.len(),
        !goes_with_folder(removal_plan(groups, folder_groups).folders, groups[g].paths[kept].parts),
        !goes_with_folder(removal_plan(groups, folder_groups).folders, groups[g].paths[k].parts),
    ensures
        0 <= i < removal_plan(groups, folder_groups).files.len(),
        removal_plan(groups, folder_groups).files[i].path == groups[g].paths[k],
        removal_plan(groups, folder_groups).files[i].needs_verify == !groups[g].confirmed,
        removal_plan(groups, folder_groups).files[i].reference == groups[g].paths[0],
{
    let dirs = folders_planned(folder_groups);
    let paths = groups[g].paths;
    lemma_goes_with(groups, folder_groups, paths[kept].parts);
    lemma_goes_with(groups, folder_groups, paths[k].parts);
    let at = lemma_left_places(paths, dirs);
    assert(at.contains(kept) && at.contains(k));
    let a = choose|a: int| 0 <= a < at.len() && at[a] == kept;
    let b = choose|b: int| 0 <= b < at.len() && at[b] == k;
    if b <= a {
        if b < a {
            assert(at[b] < at[a]);
        }
    }
    lemma_place_planned(groups, dirs, g, b - 1)
}

/// The directories of a plan are the further copies of the confirmed groups of
/// directories, and no others; they go without a comparison.
pub proof fn law_planned_folders_are_further_copies(groups: Seq<GroupV>, folder_groups: Seq<FolderV>)
    ensures
        forall|f: int|
            0 <= f < removal_plan(groups, folder_groups).folders.len() ==> further_folder(
                folder_groups,
                (#[trigger] removal_plan(groups, folder_groups).folders[f]).path,
            ) && removal_plan(groups, folder_groups).folders[f].is_folder && !removal_plan(
                groups,
                folder_groups,
            ).folders[f].needs_verify,
        forall|g: int, k: int|
            #![trigger folder_groups[g].paths[k]]
            0 <= g < folder_groups.len() && folder_groups[g].confirmed && 1 <= k < folder_groups[g].paths.len()
                ==> goes_with_folder(
                removal_plan(groups, folder_groups).folders,
                folder_groups[g].paths[k].parts,
            ),
{
    let dirs = folders_planned(folder_groups);
    let folders = removal_plan(groups, folder_groups).folders;
    assert forall|f: int| 0 <= f < folders.len() implies further_folder(folder_groups, (#[trigger] folders[f]).path)
        && folders[f].is_folder && !folders[f].needs_verify by {
        assert(folders[f].path == dirs[f]);
        law_only_confirmed_folders(folder_groups, f);
    }
    assert forall|g: int, k: int|
        #![trigger folder_groups[g].paths[k]]
        0 <= g < folder_groups.len() && folder_groups[g].confirmed && 1 <= k
            < folder_groups[g].paths.len() implies goes_with_folder(folders, folder_groups[g].paths[k].parts) by {
        let f = lemma_folder_planned(folder_groups, g, k);
        let id = folder_groups[g].paths[k].parts;
        assert(folders[f].path == dirs[f]);
        assert(id.is_prefix_of(id));
        assert(is_under(id, folders[f].path.parts));
    }
}

/// Whether a directory is a copy, but the first one, of a confirmed group.
pub open spec fn further_folder(folder_groups: Seq<FolderV>, path: PathV) -> bool {
    exists|g: int, k: int|
        #![trigger folder_groups[g].paths[k]]
        0 <= g < folder_groups.len() && folder_groups[g].confirmed && 1 <= k < folder_groups[g].paths.len()
            && folder_groups[g].paths[k] == path
}

proof fn lemma_folder_planned(folder_groups: Seq<FolderV>, g: int, k: int) -> (f: int)
    requires
        0 <= g < folder_groups.len(),
        folder_groups[g].confirmed,
        1 <= k < folder_groups[g].paths.len(),
    ensures
        0 <= f < folders_planned(folder_groups).len(),
        folders_planned(folder_groups)[f] == folder_groups[g].paths[k],
    decreases folder_groups.len(),
{
    let s = folder_groups.drop_last();
    let before = folders_planned(s);
    if g < s.len() {
        assert(s[g] == folder_groups[g]);
        lemma_folder_planned(s, g, k)
    } else {
        before.len() + k - 1
    }
}

// ----------------------------------------------------------------------- actions

/// What is answered to a request of an action.
pub enum AnswerV {
    Verified(VerifiedV),
    Looked(bool),
    Noted,
    Acted(Option<Seq<char>>),
}

/// Whether an answer is one to the request that an action makes.
pub open spec fn answers(a: ActionV, answer: AnswerV) -> bool {
    match answer {
        AnswerV::Verified(_) => a.request() is Verify,
        AnswerV::Looked(_) => a.request() is LookAt,
        AnswerV::Noted => a.request() is Note,
        AnswerV::Acted(_) => a.request() is Trash || a.request() is Move,
    }
}

/// An action after an answer.
pub open spec fn answered_with(a: ActionV, answer: AnswerV) -> ActionV {
    match answer {
        AnswerV::Verified(outcome) => a.after_verify(outcome),
        AnswerV::Looked(exists) => a.after_look(exists),
        AnswerV::Noted => a.after_note(),
        AnswerV::Acted(error) => a.after_act(error),
    }
}

/// An action after a row of answers.
pub open spec fn after_answers(a: ActionV, row: Seq<AnswerV>) -> ActionV
    decreases row.len(),
{
    if row.len() == 0 {
        a
    } else {
        answered_with(after_answers(a, row.drop_last()), row.last())
    }
}

/// Whether each of a row of answers is one to the request made then.
pub open spec fn in_turn(a: ActionV, row: Seq<AnswerV>) -> bool
    decreases row.len(),
{
    row.len() == 0 || (in_turn(a, row.drop_last()) && answers(after_answers(a, row.drop_last()), row.last()))
}

/// Whether a comparison of an item with the copy that stays came out the same.
pub open spec fn found_same(a: ActionV, row: Seq<AnswerV>, item: int) -> bool {
    exists|n: int|
        0 <= n < row.len() && (#[trigger] row[n]) == AnswerV::Verified(VerifiedV::Same) && after_answers(
            a,
            row.take(n),
        ).at == item && after_answers(a, row.take(n)).request() == RequestV::Verify(
            a.items[item].reference,
            a.items[item].path,
        )
}

/// Whether the place to which an item goes was looked at and found free.
pub open spec fn found_free(a: ActionV, row: Seq<AnswerV>, item: int, place: PathV) -> bool {
    exists|n: int|
        0 <= n < row.len() && (#[trigger] row[n]) == AnswerV::Looked(false) && after_answers(a, row.take(n)).at
            == item && after_answers(a, row.take(n)).request() == RequestV::LookAt(place)
}

/// Whether an action is at its beginning.
pub open spec fn is_begun(a: ActionV) -> bool {
    a.at == 0 && a.stage == ItemStage::Start
}

proof fn lemma_answers_keep(a: ActionV, row: Seq<AnswerV>)
    ensures
        after_answers(a, row).items == a.items,
        after_answers(a, row).kind == a.kind,
        after_answers(a, row).dry_run == a.dry_run,
        after_answers(a, row).wording == a.wording,
    decreases row.len(),
{
    if row.len() > 0 {
        lemma_answers_keep(a, row.drop_last());
    }
}

proof fn lemma_longer(a: ActionV, row: Seq<AnswerV>, item: int, place: PathV)
    requires
        row.len() > 0,
    ensures
        found_same(a, row.drop_last(), item) ==> found_same(a, row, item),
        found_free(a, row.drop_last(), item, place) ==> found_free(a, row, item, place),
{
    let s = row.drop_last();
    if found_same(a, s, item) {
        let n = choose|n: int|
            0 <= n < s.len() && (#[trigger] s[n]) == AnswerV::Verified(VerifiedV::Same) && after_answers(a, s.take(n)).at
                == item && after_answers(a, s.take(n)).request() == RequestV::Verify(
                a.items[item].reference,
                a.items[item].path,
            );
        assert(s.take(n) =~= row.take(n));
        assert(row[n] == s[n]);
    }
    if found_free(a, s, item, place) {
        let n = choose|n: int|
            0 <= n < s.len() && (#[trigger] s[n]) == AnswerV::Looked(false) && after_answers(a, s.take(n)).at == item
                && after_answers(a, s.take(n)).request() == RequestV::LookAt(place);
        assert(s.take(n) =~= row.take(n));
        assert(row[n] == s[n]);
    }
}

proof fn lemma_stages(a: ActionV, row: Seq<AnswerV>, place: PathV)
    requires
        is_begun(a),
        in_turn(a, row),
        a.kind matches KindV::MoveTo(_) ==> (after_answers(a, row).at < a.items.len() ==> place
            == crate::removal::mirrored(a.items[after_answers(a, row).at as int].path.parts, a.kind->MoveTo_0)),
    ensures
        ({
            let b = after_answers(a, row);
            &&& b.at < a.items.len() && b.stage != ItemStage::Start && a.items[b.at as int].needs_verify ==> found_same(
                a,
                row,
                b.at as int,
            )
            &&& b.at < a.items.len() && b.stage == ItemStage::Clear && a.kind is MoveTo ==> found_free(
                a,
                row,
                b.at as int,
                place,
            )
            &&& b.stage != ItemStage::Start ==> b.at < a.items.len()
        }),
    decreases row.len(),
{
    lemma_answers_keep(a, row);
    if row.len() > 0 {
        let s = row.drop_last();
        let (before, b) = (after_answers(a, s), after_answers(a, row));
        lemma_answers_keep(a, s);
        assert(row.take(row.len() - 1) =~= s);
        let n = row.len() - 1;
        assert(row[n] == row.last());
        if b.at == before.at {
            lemma_stages(a, s, place);
            lemma_longer(a, row, b.at as int, place);
        }
    }
}

/// In whatever way an action runs: an item that is to be compared is trashed, moved or
/// noted only after it was compared with the copy that stays and found the same; and
/// nothing is moved to a place that was not looked at before and found free.
pub proof fn law_touched_only_if_found_the_same(a: ActionV, row: Seq<AnswerV>)
    requires
        is_begun(a),
        in_turn(a, row),
    ensures
        ({
            let b = after_answers(a, row);
            let touches = b.request() is Trash || b.request() is Move || b.request() is Note;
            &&& touches && a.items[b.at as int].needs_verify ==> found_same(a, row, b.at as int)
            &&& b.request() matches RequestV::Move(_, place) ==> found_free(a, row, b.at as int, place)
        }),
{
    let b = after_answers(a, row);
    lemma_answers_keep(a, row);
    let place = match b.request() {
        RequestV::Move(_, place) => place,
        _ => match a.kind {
            KindV::MoveTo(d) => crate::removal::mirrored(a.items[b.at as int].path.parts, d),
            KindV::Trash => PathV { text: Seq::empty(), parts: Seq::empty() },
        },
    };
    lemma_stages(a, row, place);
}

/// An item that turns out to differ from the copy that stays, or that cannot be compared
/// with it, is left alone: the action is at the next item, with one failure more that
/// begins with the path of the item, and nothing else of what is reported has changed.
pub proof fn law_unsure_item_is_left_alone(a: ActionV, outcome: VerifiedV)
    requires
        a.request() is Verify,
        outcome != VerifiedV::Same,
    ensures
        ({
            let b = a.after_verify(outcome);
            let path = a.items[a.at as int].path.text;
            &&& b.at == a.at + 1
            &&& b.stage == ItemStage::Start
            &&& b.report.failures.len() == a.report.failures.len() + 1
            &&& b.report.failures.drop_last() == a.report.failures
            &&& path.is_prefix_of(b.report.failures.last())
            &&& b.report.moved_files == a.report.moved_files
            &&& b.report.moved_folders == a.report.moved_folders
            &&& b.report.succeeded_paths == a.report.succeeded_paths
        }),
{
    let b = a.after_verify(outcome);
    let path = a.items[a.at as int].path.text;
    assert(b.report.failures.drop_last() =~= a.report.failures);
    let why = b.report.failures.last();
    assert(path =~= why.subrange(0, path.len() as int));
}

/// What is said of an item that differs from the copy that stays.
pub proof fn law_why_an_item_is_left_alone(a: ActionV)
    ensures
        ({
            let why = a.after_verify(VerifiedV::Different).report.failures.last();
            let start = a.items[a.at as int].path.text + ": not verified as an actual duplicate of the kept file -- "@;
            &&& a.wording == Wording::Window ==> why == start + "skipped rather than risk it"@
            &&& a.wording == Wording::Command && !a.dry_run && a.kind is Trash ==> why == start
                + "skipped rather than risk deleting a non-duplicate"@
            &&& a.wording == Wording::Command && !a.dry_run && a.kind is MoveTo ==> why == start
                + "skipped rather than risk moving a non-duplicate"@
            &&& a.wording == Wording::Command && a.dry_run && a.kind is Trash ==> why == start
                + "would be skipped rather than risk deleting a non-duplicate"@
            &&& a.wording == Wording::Command && a.dry_run && a.kind is MoveTo ==> why == start
                + "would be skipped rather than risk moving a non-duplicate"@
        }),
{
    let path = a.items[a.at as int].path.text;
    let why = a.after_verify(VerifiedV::Different).report.failures.last();
    reveal_strlit(": not verified as an actual duplicate of the kept file -- ");
    reveal_strlit(": not verified as an actual duplicate of the kept file -- skipped rather than risk it");
    reveal_strlit("skipped rather than risk it");
    reveal_strlit("skipped");
    reveal_strlit("would be skipped");
    reveal_strlit(" rather than risk deleting a non-duplicate");
    reveal_strlit(" rather than risk moving a non-duplicate");
    reveal_strlit("skipped rather than risk deleting a non-duplicate");
    reveal_strlit("skipped rather than risk moving a non-duplicate");
    reveal_strlit("would be skipped rather than risk deleting a non-duplicate");
    reveal_strlit("would be skipped rather than risk moving a non-duplicate");
    let start = path + ": not verified as an actual duplicate of the kept file -- "@;
    assert(": not verified as an actual duplicate of the kept file -- skipped rather than risk it"@
        =~= ": not verified as an actual duplicate of the kept file -- "@ + "skipped rather than risk it"@);
    if a.wording == Wording::Window {
        assert(why =~= start + "skipped rather than risk it"@);
    } else if a.kind is Trash {
        if a.dry_run {
            assert("would be skipped"@ + " rather than risk deleting a non-duplicate"@
                =~= "would be skipped rather than risk deleting a non-duplicate"@);
            assert(why =~= start + ("would be skipped"@ + " rather than risk deleting a non-duplicate"@));
        } else {
            assert("skipped"@ + " rather than risk deleting a non-duplicate"@
                =~= "skipped rather than risk deleting a non-duplicate"@);
            assert(why =~= start + ("skipped"@ + " rather than risk deleting a non-duplicate"@));
        }
    } else {
        if a.dry_run {
            assert("would be skipped"@ + " rather than risk moving a non-duplicate"@
                =~= "would be skipped rather than risk moving a non-duplicate"@);
            assert(why =~= start + ("would be skipped"@ + " rather than risk moving a non-duplicate"@));
        } else {
            assert("skipped"@ + " rather than risk moving a non-duplicate"@
                =~= "skipped rather than risk moving a non-duplicate"@);
            assert(why =~= start + ("skipped"@ + " rather than risk moving a non-duplicate"@));
        }
    }
}

/// An action asks for what its items and its kind call for, item by item, and for nothing
/// else: it compares those that are to be compared, with the copy that stays; it trashes
/// the item itself, or moves the item itself, and in a dry run it does neither; and it is
/// done when there is no item left, not before.
pub proof fn law_requests_are_those_of_the_item(a: ActionV)
    ensures
        a.request() is Done <==> a.at >= a.items.len(),
        a.request() is Verify <==> a.at < a.items.len() && a.items[a.at as int].needs_verify && a.stage
            == ItemStage::Start,
        a.request() matches RequestV::Verify(kept, path) ==> kept == a.items[a.at as int].reference && path
            == a.items[a.at as int].path,
        a.request() matches RequestV::Trash(path) ==> a.kind is Trash && !a.dry_run && path
            == a.items[a.at as int].path,
        a.request() matches RequestV::Move(path, place) ==> a.kind is MoveTo && !a.dry_run && path
            == a.items[a.at as int].path && is_under(place.parts, a.kind->MoveTo_0.parts),
        a.request() matches RequestV::LookAt(place) ==> a.kind is MoveTo && is_under(
            place.parts,
            a.kind->MoveTo_0.parts,
        ),
        a.request() is Note ==> a.dry_run,
        // What is sure, and where nothing is in the way, goes.
        a.at < a.items.len() && !(a.items[a.at as int].needs_verify && a.stage == ItemStage::Start) && a.kind is Trash
            ==> a.request() is Trash || a.dry_run && a.request() is Note,
        a.at < a.items.len() && a.stage == ItemStage::Clear && a.kind is MoveTo ==> a.request() is Move || a.dry_run
            && a.request() is Note,
{
    if a.at < a.items.len() && a.kind is MoveTo {
        crate::removal::law_mirror_stays_below(a.items[a.at as int].path.parts, a.kind->MoveTo_0);
    }
}

/// What an answer does to what is reported. An item that was trashed or moved is listed
/// and counted as the file or the directory that it is; one that could not be is listed as
/// a failure that begins with its path, and one in whose way something stands likewise; in
/// a dry run an item is counted and not listed. Each of these leads on to the next item.
pub proof fn law_answers_are_reported(a: ActionV, error: Option<Seq<char>>)
    requires
        a.at < a.items.len(),
    ensures
        ({
            let (item, old, acted, noted) = (
                a.items[a.at as int],
                a.report,
                a.after_act(error).report,
                a.after_note().report,
            );
            &&& a.after_act(error).at == a.at + 1 && a.after_note().at == a.at + 1
            &&& a.after_act(error).stage == ItemStage::Start && a.after_note().stage == ItemStage::Start
            &&& error is None ==> {
                &&& acted.succeeded_paths == old.succeeded_paths.push(item.path)
                &&& acted.failures == old.failures
                &&& acted.moved_files == old.moved_files + (if item.is_folder {
                    0int
                } else {
                    1
                })
                &&& acted.moved_folders == old.moved_folders + (if item.is_folder {
                    1int
                } else {
                    0
                })
            }
            &&& error is Some ==> {
                &&& acted.succeeded_paths == old.succeeded_paths
                &&& acted.failures.len() == old.failures.len() + 1
                &&& acted.failures.drop_last() == old.failures
                &&& acted.failures.last() == item.path.text + ": "@ + error.unwrap()
                &&& acted.moved_files == old.moved_files && acted.moved_folders == old.moved_folders
            }
            &&& noted.succeeded_paths == old.succeeded_paths && noted.failures == old.failures
            &&& noted.moved_files == old.moved_files + (if item.is_folder {
                0int
            } else {
                1
            })
            &&& noted.moved_folders == old.moved_folders + (if item.is_folder {
                1int
            } else {
                0
            })
        }),
{
    assert(a.after_act(error).report.failures.drop_last() =~= a.report.failures || error is None);
}

/// An item in whose way something stands is left alone: the action is at the next item,
/// with one failure more, which names the item and the place, and nothing else of what is
/// reported has changed. Where nothing is in the way, nothing is reported.
pub proof fn law_nothing_is_overwritten(a: ActionV)
    requires
        a.request() is LookAt,
    ensures
        ({
            let place = a.request()->LookAt_0;
            let (blocked, free) = (a.after_look(true), a.after_look(false));
            &&& blocked.at == a.at + 1 && blocked.stage == ItemStage::Start
            &&& blocked.report.failures.len() == a.report.failures.len() + 1
            &&& blocked.report.failures.drop_last() == a.report.failures
            &&& blocked.report.failures.last() == a.items[a.at as int].path.text + ": destination "@ + place.text
                + " already exists -- skipped"@
            &&& blocked.report.moved_files == a.report.moved_files
            &&& blocked.report.moved_folders == a.report.moved_folders
            &&& blocked.report.succeeded_paths == a.report.succeeded_paths
            &&& free.at == a.at && free.report == a.report
            &&& free.request() is Move || free.request() is Note
        }),
{
    assert(a.after_look(true).report.failures.drop_last() =~= a.report.failures);
}

/// An item that was found the same goes on, and nothing is reported of that.
pub proof fn law_same_item_goes_on(a: ActionV)
    requires
        a.request() is Verify,
    ensures
        a.after_verify(VerifiedV::Same).at == a.at,
        a.after_verify(VerifiedV::Same).report == a.report,
        !(a.after_verify(VerifiedV::Same).request() is Verify),
        !(a.after_verify(VerifiedV::Same).request() is Done),
{
}

} // verus!
