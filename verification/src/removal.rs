//! Which copies are removed, and where they go when they are moved.

use vstd::prelude::*;

use crate::actions::{ActionItem, ActionKind, ActionReport, ActionReportV, ItemV, KindV};
use crate::digest::{hex, hex_text, law_hex_injective};
use crate::groups::{DuplicateGroup, FolderGroup, FolderV, GroupV};
use crate::order::{lemma_lex_asymmetric, lemma_lex_transitive};
use crate::paths::{
    child_path, has_prefix, is_under, law_paths_sort_by_parts, path_before, path_code, FilePath, PartKind, PartV, PathId,
    PathPart, PathV,
};
use crate::text::{
    bytes_of, count_text, decimal, join, joined, lowercase, same_text, to_lower, trim, trimmed,
};

verus! {

// ------------------------------------------------------------------------ plan

/// Whether a path is one of these directories or lies in one of them.
pub open spec fn in_any(path: PathId, roots: Seq<PathV>) -> bool {
    exists|i: int| 0 <= i < roots.len() && is_under(path, (#[trigger] roots[i]).parts)
}

pub fn under_any(path: &FilePath, roots: &Vec<FilePath>) -> (r: bool)
    ensures
        r == in_any(path@.parts, roots.deep_view()),
{
    let mut i: usize = 0;
    while i < roots.len()
        invariant
            i <= roots@.len(),
            forall|j: int| 0 <= j < i ==> !is_under(path@.parts, (#[trigger] roots.deep_view()[j]).parts),
        decreases roots@.len() - i,
    {
        assert(roots.deep_view()[i as int] == roots@[i as int]@);
        if path.starts_with(&roots[i]) {
            return true;
        }
        i = i + 1;
    }
    false
}

/// All paths but the first.
pub open spec fn all_but_first(paths: Seq<PathV>) -> Seq<PathV> {
    if paths.len() == 0 {
        paths
    } else {
        paths.skip(1)
    }
}

/// The directories to remove: all but the first of each confirmed group.
pub open spec fn folders_planned(folder_groups: Seq<FolderV>) -> Seq<PathV>
    decreases folder_groups.len(),
{
    if folder_groups.len() == 0 {
        Seq::empty()
    } else {
        let before = folders_planned(folder_groups.drop_last());
        if folder_groups.last().confirmed {
            before + all_but_first(folder_groups.last().paths)
        } else {
            before
        }
    }
}

/// The paths that no removed directory takes along.
pub open spec fn left_over(paths: Seq<PathV>, dirs: Seq<PathV>) -> Seq<PathV>
    decreases paths.len(),
{
    if paths.len() == 0 {
        Seq::empty()
    } else if in_any(paths.last().parts, dirs) {
        left_over(paths.drop_last(), dirs)
    } else {
        left_over(paths.drop_last(), dirs).push(paths.last())
    }
}

pub open spec fn folder_item(path: PathV) -> ItemV {
    ItemV { path, is_folder: true, needs_verify: false, reference: no_path() }
}

pub open spec fn no_path() -> PathV {
    PathV { text: Seq::empty(), parts: Seq::empty() }
}

/// The files of a group to remove: all but the first that is left over. Those of
/// an unconfirmed group are compared with the first of the group before that.
pub open spec fn group_items(g: GroupV, dirs: Seq<PathV>) -> Seq<ItemV> {
    all_but_first(left_over(g.paths, dirs)).map_values(
        |p: PathV| ItemV { path: p, is_folder: false, needs_verify: !g.confirmed, reference: g.paths[0] },
    )
}

pub open spec fn files_planned(groups: Seq<GroupV>, dirs: Seq<PathV>) -> Seq<ItemV>
    decreases groups.len(),
{
    if groups.len() == 0 {
        Seq::empty()
    } else {
        files_planned(groups.drop_last(), dirs) + group_items(groups.last(), dirs)
    }
}

/// What to remove, directories first.
pub struct PlanV {
    pub folders: Seq<ItemV>,
    pub files: Seq<ItemV>,
}

pub open spec fn removal_plan(groups: Seq<GroupV>, folder_groups: Seq<FolderV>) -> PlanV {
    let dirs = folders_planned(folder_groups);
    PlanV { folders: dirs.map_values(|p: PathV| folder_item(p)), files: files_planned(groups, dirs) }
}

/// What to remove of duplicate groups.
#[derive(Debug)]
pub struct RemovalPlan {
    pub folders: Vec<ActionItem>,
    pub files: Vec<ActionItem>,
}

impl View for RemovalPlan {
    type V = PlanV;

    open spec fn view(&self) -> PlanV {
        PlanV { folders: self.folders.deep_view(), files: self.files.deep_view() }
    }
}

fn plan_folders(folder_groups: &Vec<FolderGroup>) -> (r: Vec<FilePath>)
    ensures
        r.deep_view() == folders_planned(folder_groups.deep_view()),
{
    let ghost all = folder_groups.deep_view();
    let mut r: Vec<FilePath> = Vec::new();
    let mut i: usize = 0;
    assert(all.take(0) =~= Seq::<FolderV>::empty());
    assert(r.deep_view() =~= Seq::<PathV>::empty());
    while i < folder_groups.len()
        invariant
            i <= folder_groups@.len(),
            all == folder_groups.deep_view(),
            r.deep_view() == folders_planned(all.take(i as int)),
        decreases folder_groups@.len() - i,
    {
        let ghost t = all.take(i + 1);
        assert(t.drop_last() =~= all.take(i as int));
        let g = &folder_groups[i];
        assert(t.last() == g@);
        if g.confirmed {
            let ghost before = r.deep_view();
            let ghost tail = all_but_first(g@.paths);
            let mut k: usize = 1;
            assert(r.deep_view() =~= before + tail.take(0));
            while k < g.paths.len()
                invariant
                    1 <= k,
                    tail == all_but_first(g@.paths),
                    k <= g.paths@.len() || (k == 1 && g.paths@.len() == 0),
                    r.deep_view() == before + tail.take(k - 1),
                decreases g.paths@.len() - k,
            {
                let ghost b2 = r.deep_view();
                r.push(g.paths[k].clone());
                assert(r.deep_view() =~= b2.push(g@.paths[k as int]));
                assert(tail[k - 1] == g@.paths[k as int]);
                assert(r.deep_view() =~= before + tail.take(k as int));
                k = k + 1;
            }
            assert(tail.take(k - 1) =~= tail);
        }
        i = i + 1;
    }
    assert(all.take(i as int) =~= all);
    r
}

fn keep_left_over(paths: &Vec<FilePath>, dirs: &Vec<FilePath>) -> (r: Vec<FilePath>)
    ensures
        r.deep_view() == left_over(paths.deep_view(), dirs.deep_view()),
{
    let ghost all = paths.deep_view();
    let mut r: Vec<FilePath> = Vec::new();
    let mut i: usize = 0;
    assert(all.take(0) =~= Seq::<PathV>::empty());
    assert(r.deep_view() =~= Seq::<PathV>::empty());
    while i < paths.len()
        invariant
            i <= paths@.len(),
            all == paths.deep_view(),
            r.deep_view() == left_over(all.take(i as int), dirs.deep_view()),
        decreases paths@.len() - i,
    {
        let ghost t = all.take(i + 1);
        assert(t.drop_last() =~= all.take(i as int));
        assert(t.last() == paths@[i as int]@);
        if !under_any(&paths[i], dirs) {
            let ghost before = r.deep_view();
            r.push(paths[i].clone());
            assert(r.deep_view() =~= before.push(t.last()));
        }
        i = i + 1;
    }
    assert(all.take(i as int) =~= all);
    r
}

pub proof fn lemma_left_over(paths: Seq<PathV>, dirs: Seq<PathV>)
    ensures
        left_over(paths, dirs).len() <= paths.len(),
        forall|i: int|
            0 <= i < left_over(paths, dirs).len() ==> paths.contains(#[trigger] left_over(paths, dirs)[i]) && !in_any(
                left_over(paths, dirs)[i].parts,
                dirs,
            ),
    decreases paths.len(),
{
    if paths.len() > 0 {
        let s = paths.drop_last();
        lemma_left_over(s, dirs);
        let before = left_over(s, dirs);
        let all = left_over(paths, dirs);
        assert forall|i: int| 0 <= i < all.len() implies paths.contains(#[trigger] all[i]) && !in_any(all[i].parts, dirs) by {
            if i < before.len() {
                assert(all[i] == before[i]);
                let j = choose|j: int| 0 <= j < s.len() && s[j] == before[i];
                assert(paths[j] == all[i]);
            } else {
                assert(paths[paths.len() - 1] == all[i]);
            }
        }
    }
}

fn push_group_items(out: &mut Vec<ActionItem>, g: &DuplicateGroup, dirs: &Vec<FilePath>)
    ensures
        final(out).deep_view() == old(out).deep_view() + group_items(g@, dirs.deep_view()),
{
    let rest = keep_left_over(&g.paths, dirs);
    let ghost items = group_items(g@, dirs.deep_view());
    proof {
        lemma_left_over(g@.paths, dirs.deep_view());
    }
    let mut k: usize = 1;
    assert(out.deep_view() =~= old(out).deep_view() + items.take(0));
    while k < rest.len()
        invariant
            1 <= k,
            rest.deep_view() == left_over(g@.paths, dirs.deep_view()),
            items == group_items(g@, dirs.deep_view()),
            rest@.len() <= g.paths@.len(),
            k <= rest@.len() || (k == 1 && rest@.len() == 0),
            out.deep_view() == old(out).deep_view() + items.take(k - 1),
        decreases rest@.len() - k,
    {
        let ghost before = out.deep_view();
        assert(g@.paths[0] == g.paths@[0]@);
        let item = ActionItem {
            path: rest[k].clone(),
            is_folder: false,
            needs_verify: !g.confirmed,
            reference: g.paths[0].clone(),
        };
        let ghost iv = item@;
        out.push(item);
        assert(out.deep_view() =~= before.push(iv));
        assert(rest.deep_view()[k as int] == rest@[k as int]@);
        assert(items[k - 1] == iv);
        assert(out.deep_view() =~= old(out).deep_view() + items.take(k as int));
        k = k + 1;
    }
    assert(items.take(k - 1) =~= items);
}

/// Picks what is removed of duplicate groups. Only a confirmed group of
/// directories is removed as such; of the files that then are left over, the
/// first of each group stays.
pub fn plan_duplicates_to_remove(groups: &Vec<DuplicateGroup>, folder_groups: &Vec<FolderGroup>) -> (r: RemovalPlan)
    ensures
        r@ == removal_plan(groups.deep_view(), folder_groups.deep_view()),
{
    let dirs = plan_folders(folder_groups);
    let ghost dv = dirs.deep_view();
    let mut folders: Vec<ActionItem> = Vec::new();
    let mut i: usize = 0;
    let ghost goal = dv.map_values(|p: PathV| folder_item(p));
    assert(folders.deep_view() =~= goal.take(0));
    while i < dirs.len()
        invariant
            i <= dirs@.len(),
            dv == dirs.deep_view(),
            goal == dv.map_values(|p: PathV| folder_item(p)),
            folders.deep_view() == goal.take(i as int),
        decreases dirs@.len() - i,
    {
        let ghost before = folders.deep_view();
        let item = ActionItem { path: dirs[i].clone(), is_folder: true, needs_verify: false, reference: empty_path() };
        let ghost iv = item@;
        folders.push(item);
        assert(folders.deep_view() =~= before.push(iv));
        assert(dv[i as int] == dirs@[i as int]@);
        assert(goal[i as int] == iv);
        assert(folders.deep_view() =~= goal.take(i + 1));
        i = i + 1;
    }
    assert(goal.take(i as int) =~= goal);
    let mut files: Vec<ActionItem> = Vec::new();
    let ghost gv = groups.deep_view();
    let mut k: usize = 0;
    assert(gv.take(0) =~= Seq::<GroupV>::empty());
    assert(files.deep_view() =~= Seq::<ItemV>::empty());
    while k < groups.len()
        invariant
            k <= groups@.len(),
            gv == groups.deep_view(),
            dv == dirs.deep_view(),
            files.deep_view() == files_planned(gv.take(k as int), dv),
        decreases groups@.len() - k,
    {
        let ghost t = gv.take(k + 1);
        assert(t.drop_last() =~= gv.take(k as int));
        assert(t.last() == groups@[k as int]@);
        push_group_items(&mut files, &groups[k], &dirs);
        k = k + 1;
    }
    assert(gv.take(k as int) =~= gv);
    RemovalPlan { folders, files }
}

pub fn empty_path() -> (r: FilePath)
    ensures
        r@ == no_path(),
{
    let parts: Vec<PathPart> = Vec::new();
    let text = String::new();
    assert(parts.deep_view() =~= Seq::<PartV>::empty());
    assert(text@ =~= Seq::<char>::empty());
    FilePath { text, parts }
}

/// Of each group whose copies are not all taken along by removed directories,
/// one copy that none of them holds stays: the plan removes no file of the group
/// that is this one.
pub proof fn law_a_copy_stays(g: GroupV, dirs: Seq<PathV>, i: int)
    requires
        forall|a: int, b: int|
            0 <= a < b < g.paths.len() ==> (#[trigger] g.paths[a]).parts != (#[trigger] g.paths[b]).parts,
        0 <= i < group_items(g, dirs).len(),
    ensures
        !in_any(left_over(g.paths, dirs)[0].parts, dirs),
        g.paths.contains(left_over(g.paths, dirs)[0]),
        group_items(g, dirs)[i].path.parts != left_over(g.paths, dirs)[0].parts,
{
    lemma_left_over(g.paths, dirs);
    lemma_left_over_unique(g.paths, dirs);
    let rest = left_over(g.paths, dirs);
    assert(group_items(g, dirs)[i].path == rest[i + 1]);
    assert(rest[0].parts != rest[i + 1].parts);
}

proof fn lemma_left_over_unique(paths: Seq<PathV>, dirs: Seq<PathV>)
    requires
        forall|a: int, b: int| 0 <= a < b < paths.len() ==> (#[trigger] paths[a]).parts != (#[trigger] paths[b]).parts,
    ensures
        forall|a: int, b: int|
            0 <= a < b < left_over(paths, dirs).len() ==> (#[trigger] left_over(paths, dirs)[a]).parts
                != (#[trigger] left_over(paths, dirs)[b]).parts,
    decreases paths.len(),
{
    if paths.len() > 0 {
        let s = paths.drop_last();
        assert forall|a: int, b: int| 0 <= a < b < s.len() implies (#[trigger] s[a]).parts != (#[trigger] s[b]).parts by {
            assert(paths[a].parts != paths[b].parts);
        }
        lemma_left_over_unique(s, dirs);
        lemma_left_over(s, dirs);
        let before = left_over(s, dirs);
        let all = left_over(paths, dirs);
        assert forall|a: int, b: int| 0 <= a < b < all.len() implies (#[trigger] all[a]).parts != (#[trigger] all[b]).parts by {
            assert(all[a] == before[a]);
            if b < before.len() {
                assert(all[b] == before[b]);
            } else {
                assert(s.contains(before[a]));
                let j = choose|j: int| 0 <= j < s.len() && s[j] == before[a];
                assert(paths[j].parts != paths[paths.len() - 1].parts);
            }
        }
    }
}

/// Whether an item of a plan takes a path along: it is the path, or a directory that
/// holds it.
pub open spec fn takes_along(item: ItemV, id: PathId) -> bool {
    if item.is_folder {
        is_under(id, item.path.parts)
    } else {
        item.path.parts == id
    }
}

/// Whether a plan leaves a path where it is.
pub open spec fn leaves(plan: PlanV, id: PathId) -> bool {
    &&& forall|i: int| 0 <= i < plan.folders.len() ==> !takes_along(#[trigger] plan.folders[i], id)
    &&& forall|i: int| 0 <= i < plan.files.len() ==> !takes_along(#[trigger] plan.files[i], id)
}

/// Whether each path stands in one group, once.
pub open spec fn paths_once(groups: Seq<GroupV>) -> bool {
    forall|a: int, i: int, b: int, j: int|
        #![trigger groups[a].paths[i], groups[b].paths[j]]
        0 <= a < groups.len() && 0 <= i < groups[a].paths.len() && 0 <= b < groups.len() && 0 <= j
            < groups[b].paths.len() && groups[a].paths[i].parts == groups[b].paths[j].parts ==> a == b && i == j
}

proof fn lemma_planned_from(groups: Seq<GroupV>, dirs: Seq<PathV>, i: int) -> (r: (int, int))
    requires
        0 <= i < files_planned(groups, dirs).len(),
    ensures
        0 <= r.0 < groups.len(),
        0 <= r.1 < group_items(groups[r.0], dirs).len(),
        files_planned(groups, dirs)[i] == group_items(groups[r.0], dirs)[r.1],
    decreases groups.len(),
{
    let s = groups.drop_last();
    let before = files_planned(s, dirs);
    if i < before.len() {
        let r = lemma_planned_from(s, dirs, i);
        assert(s[r.0] == groups[r.0]);
        r
    } else {
        (groups.len() - 1, i - before.len())
    }
}

/// A plan leaves a copy of every group that removed directories do not take along
/// as a whole.
pub proof fn law_plan_leaves_a_copy(groups: Seq<GroupV>, folder_groups: Seq<FolderV>, a: int) -> (m: int)
    requires
        paths_once(groups),
        0 <= a < groups.len(),
        left_over(groups[a].paths, folders_planned(folder_groups)).len() > 0,
    ensures
        0 <= m < groups[a].paths.len(),
        leaves(removal_plan(groups, folder_groups), groups[a].paths[m].parts),
{
    let dirs = folders_planned(folder_groups);
    let plan = removal_plan(groups, folder_groups);
    let g = groups[a];
    let stays = left_over(g.paths, dirs)[0];
    lemma_left_over(g.paths, dirs);
    assert(g.paths.contains(stays));
    let m = choose|m: int| 0 <= m < g.paths.len() && g.paths[m] == stays;
    assert forall|i: int| 0 <= i < plan.folders.len() implies !takes_along(#[trigger] plan.folders[i], stays.parts) by {
        assert(plan.folders[i] == folder_item(dirs[i]));
        assert(!in_any(stays.parts, dirs));
        assert(!is_under(stays.parts, dirs[i].parts));
    }
    assert forall|i: int| 0 <= i < plan.files.len() implies !takes_along(#[trigger] plan.files[i], stays.parts) by {
        let (b, k) = lemma_planned_from(groups, dirs, i);
        let item = group_items(groups[b], dirs)[k];
        let rest = left_over(groups[b].paths, dirs);
        lemma_left_over(groups[b].paths, dirs);
        assert(item.path == rest[k + 1]);
        assert(groups[b].paths.contains(rest[k + 1]));
        let x = choose|x: int| 0 <= x < groups[b].paths.len() && groups[b].paths[x] == rest[k + 1];
        if item.path.parts == stays.parts {
            assert(groups[a].paths[m].parts == groups[b].paths[x].parts);
            assert forall|c: int, d: int| 0 <= c < d < g.paths.len() implies (#[trigger] g.paths[c]).parts != (
            #[trigger] g.paths[d]).parts by {
                assert(groups[a].paths[c] == g.paths[c] && groups[a].paths[d] == g.paths[d]);
            }
            lemma_left_over_unique(g.paths, dirs);
            assert(rest[0].parts != rest[k + 1].parts);
        }
    }
    m
}

proof fn lemma_planned_filter(groups: Seq<GroupV>, keep: spec_fn(GroupV) -> bool, dirs: Seq<PathV>, i: int) -> (j: int)
    requires
        0 <= i < files_planned(groups.filter(keep), dirs).len(),
    ensures
        0 <= j < files_planned(groups, dirs).len(),
        files_planned(groups, dirs)[j] == files_planned(groups.filter(keep), dirs)[i],
    decreases groups.len(),
{
    reveal(Seq::filter);
    let s = groups.drop_last();
    let (some, all) = (s.filter(keep), files_planned(s, dirs));
    let before = files_planned(some, dirs);
    if keep(groups.last()) {
        assert(groups.filter(keep).drop_last() =~= some);
    }
    if i < before.len() {
        lemma_planned_filter(s, keep, dirs, i)
    } else {
        all.len() + i - before.len()
    }
}

/// A plan for some of the groups leaves all that the plan for all of them leaves.
pub proof fn law_smaller_plan_leaves_more(
    groups: Seq<GroupV>,
    folder_groups: Seq<FolderV>,
    keep: spec_fn(GroupV) -> bool,
    id: PathId,
)
    requires
        leaves(removal_plan(groups, folder_groups), id),
    ensures
        leaves(removal_plan(groups.filter(keep), folder_groups), id),
{
    let dirs = folders_planned(folder_groups);
    let (all, some) = (removal_plan(groups, folder_groups), removal_plan(groups.filter(keep), folder_groups));
    assert(some.folders == all.folders);
    assert forall|i: int| 0 <= i < some.files.len() implies !takes_along(#[trigger] some.files[i], id) by {
        let j = lemma_planned_filter(groups, keep, dirs, i);
        assert(!takes_along(all.files[j], id));
    }
}

/// A directory is removed as such only as a further copy of a confirmed group.
pub proof fn law_only_confirmed_folders(folder_groups: Seq<FolderV>, i: int)
    requires
        0 <= i < folders_planned(folder_groups).len(),
    ensures
        exists|g: int, k: int|
            #![trigger folder_groups[g].paths[k]]
            0 <= g < folder_groups.len() && folder_groups[g].confirmed && 1 <= k < folder_groups[g].paths.len()
                && folder_groups[g].paths[k] == folders_planned(folder_groups)[i],
    decreases folder_groups.len(),
{
    let s = folder_groups.drop_last();
    let before = folders_planned(s);
    let n = folder_groups.len() - 1;
    if i < before.len() {
        law_only_confirmed_folders(s, i);
        let (g, k) = choose|g: int, k: int|
            #![trigger s[g].paths[k]]
            0 <= g < s.len() && s[g].confirmed && 1 <= k < s[g].paths.len() && s[g].paths[k] == before[i];
        assert(folder_groups[g].paths[k] == folders_planned(folder_groups)[i]);
    } else {
        let k = i - before.len() + 1;
        assert(folder_groups[n].paths[k] == folders_planned(folder_groups)[i]);
    }
}

/// Whether the first directory of a group sorts before the others and holds none
/// of them.
pub open spec fn first_apart(fg: FolderV) -> bool {
    forall|k: int|
        1 <= k < fg.paths.len() ==> path_before(fg.paths[0].parts, (#[trigger] fg.paths[k]).parts) && !is_under(
            fg.paths[k].parts,
            fg.paths[0].parts,
        )
}

/// Whether a group of files has a path.
pub open spec fn has_copy(g: GroupV, id: PathId) -> bool {
    exists|m: int| 0 <= m < g.paths.len() && (#[trigger] g.paths[m]).parts == id
}

/// Whether what a directory of a group holds of some equal files, the first
/// directory holds too, at the same place.
pub open spec fn mirrored_in_first(fg: FolderV, g: GroupV) -> bool {
    forall|k: int, j: int|
        #![trigger fg.paths[k], g.paths[j]]
        1 <= k < fg.paths.len() && 0 <= j < g.paths.len() && is_under(g.paths[j].parts, fg.paths[k].parts) ==> has_copy(
            g,
            fg.paths[0].parts + g.paths[j].parts.skip(fg.paths[k].parts.len() as int),
        )
}

/// A path of a list before which none of the others sorts.
proof fn lemma_least(paths: Seq<PathV>) -> (m: int)
    requires
        paths.len() > 0,
    ensures
        0 <= m < paths.len(),
        forall|j: int| 0 <= j < paths.len() ==> !path_before((#[trigger] paths[j]).parts, paths[m].parts),
    decreases paths.len(),
{
    let n = paths.len() - 1;
    let last = paths[n].parts;
    if n == 0 {
        law_paths_sort_by_parts(last, last);
        lemma_lex_asymmetric(path_code(last), path_code(last));
        0
    } else {
        let s = paths.drop_last();
        let m = lemma_least(s);
        let least = paths[m].parts;
        law_paths_sort_by_parts(last, least);
        law_paths_sort_by_parts(last, last);
        lemma_lex_asymmetric(path_code(last), path_code(last));
        if path_before(last, least) {
            assert forall|j: int| 0 <= j < paths.len() implies !path_before((#[trigger] paths[j]).parts, last) by {
                if j < n {
                    assert(s[j] == paths[j]);
                    law_paths_sort_by_parts(paths[j].parts, last);
                    law_paths_sort_by_parts(paths[j].parts, least);
                    if path_before(paths[j].parts, last) {
                        lemma_lex_transitive(path_code(paths[j].parts), path_code(last), path_code(least));
                    }
                }
            }
            n
        } else {
            assert forall|j: int| 0 <= j < paths.len() implies !path_before((#[trigger] paths[j]).parts, least) by {
                if j < n {
                    assert(s[j] == paths[j]);
                }
            }
            m
        }
    }
}

/// Directories that are apart stay in order with the same path below both.
pub proof fn lemma_below_in_order(a: PathId, b: PathId, rest: PathId)
    requires
        path_before(a, b),
        !a.is_prefix_of(b),
    ensures
        path_before(a + rest, b + rest),
    decreases a.len(),
{
    if a.len() == 0 {
        assert(a =~= b.subrange(0, 0));
    } else {
        assert((a + rest).skip(1) =~= a.skip(1) + rest);
        assert((b + rest).skip(1) =~= b.skip(1) + rest);
        assert((a + rest)[0] == a[0] && (b + rest)[0] == b[0]);
        if a[0] == b[0] {
            if a.skip(1).is_prefix_of(b.skip(1)) {
                assert(a =~= b.subrange(0, a.len() as int)) by {
                    assert forall|i: int| 0 <= i < a.len() implies a[i] == b[i] by {
                        if i > 0 {
                            assert(a.skip(1)[i - 1] == b.skip(1).subrange(0, a.len() - 1)[i - 1]);
                        }
                    }
                }
            }
            lemma_below_in_order(a.skip(1), b.skip(1), rest);
        }
    }
}

/// Removed directories never take all copies of a file along: where each of them
/// is a copy of the first of its group, which stays, a copy is left over.
pub proof fn law_no_content_is_lost(g: GroupV, folder_groups: Seq<FolderV>)
    requires
        g.paths.len() > 0,
        forall|f: int|
            0 <= f < folder_groups.len() && (#[trigger] folder_groups[f]).confirmed ==> first_apart(folder_groups[f])
                && mirrored_in_first(folder_groups[f], g),
    ensures
        left_over(g.paths, folders_planned(folder_groups)).len() > 0,
{
    let dirs = folders_planned(folder_groups);
    let m = lemma_least(g.paths);
    let least = g.paths[m].parts;
    if in_any(least, dirs) {
        let i = choose|i: int| 0 <= i < dirs.len() && is_under(least, (#[trigger] dirs[i]).parts);
        law_only_confirmed_folders(folder_groups, i);
        let (f, k) = choose|f: int, k: int|
            #![trigger folder_groups[f].paths[k]]
            0 <= f < folder_groups.len() && folder_groups[f].confirmed && 1 <= k < folder_groups[f].paths.len()
                && folder_groups[f].paths[k] == dirs[i];
        let fg = folder_groups[f];
        let (a, b) = (fg.paths[0].parts, fg.paths[k].parts);
        let rest = least.skip(b.len() as int);
        assert(is_under(g.paths[m].parts, fg.paths[k].parts));
        assert(has_copy(g, a + rest));
        let c = choose|c: int| 0 <= c < g.paths.len() && (#[trigger] g.paths[c]).parts == a + rest;
        lemma_below_in_order(a, b, rest);
        assert(b + rest =~= least);
        assert(path_before(g.paths[c].parts, least));
    }
    lemma_left_over_has(g.paths, dirs, m);
}

pub proof fn lemma_left_over_has(paths: Seq<PathV>, dirs: Seq<PathV>, m: int)
    requires
        0 <= m < paths.len(),
        !in_any(paths[m].parts, dirs),
    ensures
        left_over(paths, dirs).len() > 0,
    decreases paths.len(),
{
    if m < paths.len() - 1 {
        lemma_left_over_has(paths.drop_last(), dirs, m);
    }
}

// ---------------------------------------------------------------------- mirror

/// Whether a name is made of dots alone, three or more.
pub open spec fn all_dots(name: Seq<u8>) -> bool {
    name.len() >= 3 && forall|i: int| 0 <= i < name.len() ==> #[trigger] name[i] == 46u8
}

/// What stands for `..` in a mirrored path.
pub open spec fn up_name() -> Seq<u8> {
    seq![46u8, 46u8, 46u8]
}

/// The name of a directory for a drive or a share: a drive loses its colon, of
/// anything else the bytes are spelled out.
pub open spec fn drive_dir(name: Seq<u8>) -> Seq<u8> {
    if name.len() == 2 && name[1] == 58u8 {
        name.take(1)
    } else {
        seq![61u8, 61u8] + hex_bytes(name)
    }
}

/// Bytes in hexadecimal, as bytes.
pub open spec fn hex_bytes(name: Seq<u8>) -> Seq<u8> {
    vstd::utf8::encode_utf8(hex(name))
}

/// The name that a part of a path has below a destination. A name stays as it is,
/// but for one more dot on names of dots alone, which keeps them apart from what
/// stands for `..`.
pub open spec fn part_dir(part: PartV) -> Option<Seq<u8>> {
    match part.kind {
        PartKind::Normal => Some(
            if all_dots(part.name) {
                part.name.push(46u8)
            } else {
                part.name
            },
        ),
        PartKind::Prefix => Some(drive_dir(part.name)),
        PartKind::ParentDir => Some(up_name()),
        PartKind::RootDir | PartKind::CurDir => None,
    }
}

/// A path with one part of another put under it.
pub open spec fn with_part(dest: PathV, part: PartV) -> PathV {
    match part_dir(part) {
        Some(name) => child_path(dest, name),
        None => dest,
    }
}

/// Where a path lands under a destination: with all its directories.
pub open spec fn mirrored(parts: PathId, dest: PathV) -> PathV
    decreases parts.len(),
{
    if parts.len() == 0 {
        dest
    } else {
        with_part(mirrored(parts.drop_last(), dest), parts.last())
    }
}

fn is_all_dots(name: &Vec<u8>) -> (r: bool)
    ensures
        r == all_dots(name@),
{
    let mut i: usize = 0;
    while i < name.len()
        invariant
            i <= name@.len(),
            forall|j: int| 0 <= j < i ==> #[trigger] name@[j] == 46u8,
        decreases name@.len() - i,
    {
        if name[i] != 46u8 {
            assert(name@[i as int] != 46u8);
            return false;
        }
        i = i + 1;
    }
    name.len() >= 3
}

fn dir_of_part(part: &PathPart) -> (r: Option<Vec<u8>>)
    ensures
        match r {
            Some(name) => part_dir(part@) == Some(name@),
            None => part_dir(part@) is None,
        },
{
    match part.kind {
        PartKind::Normal => {
            let mut name = part.name.clone();
            assert(name@ =~= part.name@);
            if is_all_dots(&part.name) {
                name.push(46u8);
            }
            Some(name)
        },
        PartKind::Prefix => {
            let mut name: Vec<u8> = Vec::new();
            if part.name.len() == 2 && part.name[1] == 58u8 {
                name.push(part.name[0]);
                assert(name@ =~= part.name@.take(1));
            } else {
                name.push(61u8);
                name.push(61u8);
                let mut spelled = bytes_of(hex_text(&part.name).as_str());
                name.append(&mut spelled);
                assert(name@ =~= drive_dir(part.name@));
            }
            Some(name)
        },
        PartKind::ParentDir => {
            let mut name: Vec<u8> = Vec::new();
            name.push(46u8);
            name.push(46u8);
            name.push(46u8);
            assert(name@ =~= up_name());
            Some(name)
        },
        PartKind::RootDir | PartKind::CurDir => None,
    }
}

pub fn mirrored_path(path: &FilePath, dest_root: &FilePath) -> (r: FilePath)
    ensures
        r@ == mirrored(path@.parts, dest_root@),
{
    let mut r = dest_root.clone();
    let ghost all = path@.parts;
    let mut i: usize = 0;
    assert(all.take(0) =~= Seq::<PartV>::empty());
    while i < path.parts.len()
        invariant
            i <= path.parts@.len(),
            all == path@.parts,
            r@ == mirrored(all.take(i as int), dest_root@),
        decreases path.parts@.len() - i,
    {
        let ghost t = all.take(i + 1);
        assert(t.drop_last() =~= all.take(i as int));
        let part = &path.parts[i];
        assert(t.last() == part@);
        match dir_of_part(part) {
            Some(name) => {
                r = r.child(name);
            },
            None => {},
        }
        i = i + 1;
    }
    assert(all.take(i as int) =~= all);
    r
}

/// How many parts of an absolute path come before its names: the root, behind a
/// drive or share if it has one.
pub open spec fn root_parts(parts: PathId) -> int {
    if has_prefix(parts) {
        2
    } else {
        1
    }
}

/// Whether a path is absolute: a root, behind a drive or share or not, then names
/// and `..`.
pub open spec fn is_absolute(parts: PathId) -> bool {
    let n = root_parts(parts);
    &&& parts.len() >= n
    &&& parts[n - 1] == (PartV { kind: PartKind::RootDir, name: Seq::empty() })
    &&& forall|i: int|
        n <= i < parts.len() ==> (#[trigger] parts[i]).kind == PartKind::Normal || parts[i] == (PartV {
            kind: PartKind::ParentDir,
            name: Seq::empty(),
        })
}

/// The names that a path has below a destination.
spec fn dirs_below(parts: PathId) -> Seq<PartV>
    decreases parts.len(),
{
    if parts.len() == 0 {
        Seq::empty()
    } else {
        match part_dir(parts.last()) {
            Some(name) => dirs_below(parts.drop_last()).push(PartV { kind: PartKind::Normal, name }),
            None => dirs_below(parts.drop_last()),
        }
    }
}

proof fn lemma_mirror_parts(parts: PathId, dest: PathV)
    ensures
        mirrored(parts, dest).parts == dest.parts + dirs_below(parts),
    decreases parts.len(),
{
    if parts.len() == 0 {
        assert(dest.parts + dirs_below(parts) =~= dest.parts);
    } else {
        lemma_mirror_parts(parts.drop_last(), dest);
        match part_dir(parts.last()) {
            Some(name) => {
                assert((dest.parts + dirs_below(parts.drop_last())).push(PartV { kind: PartKind::Normal, name })
                    =~= dest.parts + dirs_below(parts));
            },
            None => {},
        }
    }
}

proof fn lemma_part_dir(p: PartV, q: PartV)
    requires
        part_dir(p) == part_dir(q),
        p.kind == PartKind::Normal || p == (PartV { kind: PartKind::ParentDir, name: Seq::empty() }),
        q.kind == PartKind::Normal || q == (PartV { kind: PartKind::ParentDir, name: Seq::empty() }),
    ensures
        p == q,
{
    let a = part_dir(p)->Some_0;
    let b = part_dir(q)->Some_0;
    assert(all_dots(up_name()));
    if p.kind == PartKind::Normal {
        if all_dots(p.name) {
            assert(all_dots(a)) by {
                assert forall|i: int| 0 <= i < a.len() implies #[trigger] a[i] == 46u8 by {
                    if i < p.name.len() {
                        assert(p.name[i] == 46u8);
                    }
                }
            }
            assert(a.len() >= 4);
            assert(a.drop_last() =~= p.name);
        }
    }
    if q.kind == PartKind::Normal {
        if all_dots(q.name) {
            assert(all_dots(b)) by {
                assert forall|i: int| 0 <= i < b.len() implies #[trigger] b[i] == 46u8 by {
                    if i < q.name.len() {
                        assert(q.name[i] == 46u8);
                    }
                }
            }
            assert(b.len() >= 4);
            assert(b.drop_last() =~= q.name);
        }
    }
}

proof fn lemma_drive_dir(p: Seq<u8>, q: Seq<u8>)
    requires
        drive_dir(p) == drive_dir(q),
    ensures
        p == q,
{
    let a = drive_dir(p);
    let b = drive_dir(q);
    let drive = |n: Seq<u8>| n.len() == 2 && n[1] == 58u8;
    if drive(p) && drive(q) {
        assert(a[0] == p[0] && b[0] == q[0]);
        assert(p =~= q);
    } else if !drive(p) && !drive(q) {
        assert(a.skip(2) =~= hex_bytes(p));
        assert(b.skip(2) =~= hex_bytes(q));
        vstd::utf8::encode_utf8_decode_utf8(hex(p));
        vstd::utf8::encode_utf8_decode_utf8(hex(q));
        law_hex_injective(p, q);
    } else {
        assert(a.len() == 1 || b.len() == 1);
        assert(a.len() >= 2 || b.len() >= 2);
    }
}

/// The names of an absolute path: one for its drive, if it has one, and one for
/// each part after the root.
proof fn lemma_dirs_below(parts: PathId)
    requires
        is_absolute(parts),
    ensures
        dirs_below(parts).len() == parts.len() - 1,
        has_prefix(parts) ==> dirs_below(parts)[0].name == drive_dir(parts[0].name),
        forall|i: int|
            root_parts(parts) <= i < parts.len() ==> part_dir(#[trigger] parts[i]) == Some(
                dirs_below(parts)[i - 1].name,
            ),
    decreases parts.len(),
{
    let n = root_parts(parts);
    let s = parts.drop_last();
    if parts.len() == n {
        if has_prefix(parts) {
            assert(s.drop_last() =~= Seq::<PartV>::empty());
            assert(s.last() == parts[0]);
            assert(dirs_below(s.drop_last()) =~= Seq::<PartV>::empty());
            assert(dirs_below(s).len() == 1);
        } else {
            assert(s =~= Seq::<PartV>::empty());
            assert(dirs_below(s) =~= Seq::<PartV>::empty());
        }
        assert(parts.last() == parts[n - 1]);
        assert(dirs_below(parts) == dirs_below(s));
    } else {
        assert(s[0] == parts[0]);
        assert(is_absolute(s)) by {
            assert(s[n - 1] == parts[n - 1]);
            assert forall|i: int| n <= i < s.len() implies (#[trigger] s[i]).kind == PartKind::Normal || s[i] == (PartV {
                kind: PartKind::ParentDir,
                name: Seq::empty(),
            }) by {
                assert(s[i] == parts[i]);
            }
        }
        lemma_dirs_below(s);
        let last = parts[parts.len() - 1];
        assert(last.kind == PartKind::Normal || last.kind == PartKind::ParentDir);
        assert(dirs_below(parts).drop_last() =~= dirs_below(s));
        assert forall|i: int| n <= i < parts.len() implies part_dir(#[trigger] parts[i]) == Some(
            dirs_below(parts)[i - 1].name,
        ) by {
            if i < s.len() {
                assert(s[i] == parts[i]);
                assert(dirs_below(parts)[i - 1] == dirs_below(s)[i - 1]);
            }
        }
    }
}

/// Everything lands under the destination.
pub proof fn law_mirror_stays_below(a: PathId, dest: PathV)
    ensures
        is_under(mirrored(a, dest).parts, dest.parts),
    decreases a.len(),
{
    let x = dest.parts;
    if a.len() == 0 {
        assert(x =~= x.subrange(0, x.len() as int));
    } else {
        law_mirror_stays_below(a.drop_last(), dest);
        let p = mirrored(a.drop_last(), dest).parts;
        let q = mirrored(a, dest).parts;
        assert(x == p.subrange(0, x.len() as int));
        assert(x =~= q.subrange(0, x.len() as int));
    }
}

/// Different absolute paths land in different places. Of two paths of one system, both have a drive or share in front,
/// or neither has.
pub proof fn law_mirror_keeps_apart(a: PathId, b: PathId, dest: PathV)
    requires
        is_absolute(a),
        is_absolute(b),
        has_prefix(a) == has_prefix(b),
        mirrored(a, dest).parts == mirrored(b, dest).parts,
    ensures
        a == b,
{
    lemma_mirror_parts(a, dest);
    lemma_mirror_parts(b, dest);
    let x = dest.parts + dirs_below(a);
    let y = dest.parts + dirs_below(b);
    assert(dest.parts =~= x.subrange(0, dest.parts.len() as int));
    assert(x.skip(dest.parts.len() as int) =~= dirs_below(a));
    assert(y.skip(dest.parts.len() as int) =~= dirs_below(b));
    lemma_dirs_below(a);
    lemma_dirs_below(b);
    let n = root_parts(a);
    assert forall|i: int| 0 <= i < a.len() implies a[i] == b[i] by {
        if i >= n {
            assert(part_dir(a[i]) == part_dir(b[i]));
            lemma_part_dir(a[i], b[i]);
        } else if has_prefix(a) && i == 0 {
            lemma_drive_dir(a[0].name, b[0].name);
            assert(a[0] == b[0]);
        } else {
            assert(i == n - 1);
        }
    }
    assert(a =~= b);
}

// --------------------------------------------------------------------- prompts

/// What is about to be removed, in words.
pub open spec fn amounts(folders: int, files: int) -> Seq<char> {
    let a = if folders > 0 {
        seq![decimal(folders as nat) + " folder(s)"@]
    } else {
        Seq::empty()
    };
    let b = if files > 0 {
        seq![decimal(files as nat) + " file(s)"@]
    } else {
        Seq::empty()
    };
    joined(a + b, " and "@)
}

pub fn amounts_text(folders: usize, files: usize) -> (r: String)
    ensures
        r@ == amounts(folders as int, files as int),
{
    let mut parts: Vec<String> = Vec::new();
    if folders > 0 {
        let mut s = count_text(folders);
        s.append(" folder(s)");
        parts.push(s);
    }
    if files > 0 {
        let mut s = count_text(files);
        s.append(" file(s)");
        parts.push(s);
    }
    proof {
        let a = if folders > 0 {
            seq![decimal(folders as nat) + " folder(s)"@]
        } else {
            Seq::empty()
        };
        let b = if files > 0 {
            seq![decimal(files as nat) + " file(s)"@]
        } else {
            Seq::empty()
        };
        assert(parts.deep_view() =~= a + b);
    }
    join(&parts, " and ")
}

/// Whether a word in lower case agrees.
pub fn is_yes(word: &str) -> (r: bool)
    ensures
        r == (word@ == "y"@ || word@ == "yes"@),
{
    same_text(word, "y") || same_text(word, "yes")
}

/// Whether an answer agrees: `y` or `yes`, in any case, with space around it.
pub open spec fn agrees(answer: Seq<char>) -> bool {
    lowercase(trimmed(answer)) == "y"@ || lowercase(trimmed(answer)) == "yes"@
}

pub fn answer_agrees(answer: &str) -> (r: bool)
    ensures
        r == agrees(answer@),
{
    is_yes(to_lower(trim(answer).as_str()).as_str())
}

/// How a removal begins.
#[derive(Debug)]
pub enum Opening {
    /// There is nothing to remove.
    Nothing,
    /// It goes on after this is said.
    Say(String),
    /// It goes on if this is agreed to.
    Ask(String),
    /// It goes on.
    Go,
}

pub enum OpeningV {
    Nothing,
    Say(Seq<char>),
    Ask(Seq<char>),
    Go,
}

impl View for Opening {
    type V = OpeningV;

    open spec fn view(&self) -> OpeningV {
        match self {
            Opening::Nothing => OpeningV::Nothing,
            Opening::Say(s) => OpeningV::Say(s@),
            Opening::Ask(s) => OpeningV::Ask(s@),
            Opening::Go => OpeningV::Go,
        }
    }
}

pub open spec fn opening(folders: int, files: int, kind: KindV, skip_confirmation: bool, dry_run: bool) -> OpeningV {
    if folders == 0 && files == 0 {
        OpeningV::Nothing
    } else if dry_run {
        OpeningV::Say(
            match kind {
                KindV::Trash => "\nDry run -- nothing will actually be deleted."@,
                KindV::MoveTo(d) => "\nDry run -- nothing will actually be moved to "@ + d.text + "."@,
            },
        )
    } else if !skip_confirmation {
        OpeningV::Ask(
            "\nMove "@ + amounts(folders, files) + " to "@ + (match kind {
                KindV::Trash => "Trash"@,
                KindV::MoveTo(d) => d.text,
            }) + "? [y/N] "@,
        )
    } else {
        OpeningV::Go
    }
}

/// How the removal of a plan begins: with a question, unless it is a dry run or
/// the question is to be skipped.
pub fn open_removal(plan: &RemovalPlan, kind: &ActionKind, skip_confirmation: bool, dry_run: bool) -> (r: Opening)
    ensures
        r@ == opening(
            plan@.folders.len() as int,
            plan@.files.len() as int,
            kind@,
            skip_confirmation,
            dry_run,
        ),
{
    if plan.folders.len() == 0 && plan.files.len() == 0 {
        return Opening::Nothing;
    }
    if dry_run {
        return match kind {
            ActionKind::Trash => Opening::Say("\nDry run -- nothing will actually be deleted.".to_string()),
            ActionKind::MoveTo(d) => {
                let mut s = "\nDry run -- nothing will actually be moved to ".to_string();
                s.append(d.text.as_str());
                s.append(".");
                Opening::Say(s)
            },
        };
    }
    if !skip_confirmation {
        let mut s = "\nMove ".to_string();
        s.append(amounts_text(plan.folders.len(), plan.files.len()).as_str());
        s.append(" to ");
        match kind {
            ActionKind::Trash => {
                s.append("Trash");
            },
            ActionKind::MoveTo(d) => {
                s.append(d.text.as_str());
            },
        }
        s.append("? [y/N] ");
        return Opening::Ask(s);
    }
    Opening::Go
}

/// What is said when the question was not agreed to.
pub fn abort_text(kind: &ActionKind) -> (r: String)
    ensures
        r@ == (match kind@ {
            KindV::Trash => "Aborted -- nothing deleted."@,
            KindV::MoveTo(_) => "Aborted -- nothing moved."@,
        }),
{
    (match kind {
        ActionKind::Trash => "Aborted -- nothing deleted.",
        ActionKind::MoveTo(_) => "Aborted -- nothing moved.",
    }).to_string()
}

pub open spec fn done_verb(kind: KindV, dry_run: bool) -> Seq<char> {
    match kind {
        KindV::Trash => if dry_run {
            "Would delete"@
        } else {
            "Deleted"@
        },
        KindV::MoveTo(_) => if dry_run {
            "Would move"@
        } else {
            "Moved"@
        },
    }
}

pub open spec fn not_done_label(kind: KindV, dry_run: bool) -> Seq<char> {
    match kind {
        KindV::Trash => if dry_run {
            "would not be deleted"@
        } else {
            "were not deleted"@
        },
        KindV::MoveTo(_) => if dry_run {
            "would not be moved"@
        } else {
            "were not moved"@
        },
    }
}

/// What is said at the end: how much was removed, and what was not and why.
pub open spec fn closing(report: ActionReportV, kind: KindV, dry_run: bool) -> Seq<Seq<char>> {
    let total = "\n"@ + done_verb(kind, dry_run) + " "@ + decimal(report.moved_folders) + " folder(s) and "@ + decimal(
        report.moved_files,
    ) + " file(s) to "@ + (match kind {
        KindV::Trash => "Trash"@,
        KindV::MoveTo(d) => d.text,
    }) + "."@;
    if report.failures.len() == 0 {
        seq![total]
    } else {
        seq![total, decimal(report.failures.len()) + " item(s) "@ + not_done_label(kind, dry_run) + ":"@]
            + report.failures.map_values(|f: Seq<char>| "  "@ + f)
    }
}

pub fn close_removal(report: &ActionReport, kind: &ActionKind, dry_run: bool) -> (r: Vec<String>)
    ensures
        r.deep_view() == closing(report@, kind@, dry_run),
{
    let mut lines: Vec<String> = Vec::new();
    let mut s = "\n".to_string();
    s.append(
        match kind {
            ActionKind::Trash => if dry_run {
                "Would delete"
            } else {
                "Deleted"
            },
            ActionKind::MoveTo(_) => if dry_run {
                "Would move"
            } else {
                "Moved"
            },
        },
    );
    s.append(" ");
    s.append(count_text(report.moved_folders).as_str());
    s.append(" folder(s) and ");
    s.append(count_text(report.moved_files).as_str());
    s.append(" file(s) to ");
    match kind {
        ActionKind::Trash => {
            s.append("Trash");
        },
        ActionKind::MoveTo(d) => {
            s.append(d.text.as_str());
        },
    }
    s.append(".");
    lines.push(s);
    let ghost first = seq![s@];
    assert(lines.deep_view() =~= first);
    if report.failures.len() > 0 {
        let mut h = count_text(report.failures.len());
        h.append(" item(s) ");
        h.append(
            match kind {
                ActionKind::Trash => if dry_run {
                    "would not be deleted"
                } else {
                    "were not deleted"
                },
                ActionKind::MoveTo(_) => if dry_run {
                    "would not be moved"
                } else {
                    "were not moved"
                },
            },
        );
        h.append(":");
        lines.push(h);
        let ghost head = seq![s@, h@];
        let ghost rest = report@.failures.map_values(|f: Seq<char>| "  "@ + f);
        assert(lines.deep_view() =~= head + rest.take(0));
        let mut i: usize = 0;
        while i < report.failures.len()
            invariant
                i <= report.failures@.len(),
                rest == report@.failures.map_values(|f: Seq<char>| "  "@ + f),
                lines.deep_view() == head + rest.take(i as int),
            decreases report.failures@.len() - i,
        {
            let ghost before = lines.deep_view();
            let mut line = "  ".to_string();
            line.append(report.failures[i].as_str());
            let ghost lv = line@;
            lines.push(line);
            assert(lines.deep_view() =~= before.push(lv));
            assert(report@.failures[i as int] == report.failures@[i as int]@);
            assert(rest[i as int] == lv);
            assert(lines.deep_view() =~= head + rest.take(i + 1));
            i = i + 1;
        }
        assert(rest.take(i as int) =~= rest);
    }
    lines
}

} // verus!
