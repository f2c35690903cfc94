//! What holds of what is picked in the window, and of what follows from it.

use vstd::prelude::*;

use crate::actions::ItemV;
use crate::folder_copies::searchable;
use crate::folder_laws::no_collisions;
use crate::folders::{dirs_of, has_dir, ids_unique, top_roots, tree_of};
use crate::groups::{FolderV, GroupV};
use crate::guarantees::{files_found, law_removal_loses_no_content, lemma_scan_apart, scanned, DiskV, FoundV};
use crate::paths::{is_under, PathId, PathV};
use crate::picks::Pick;
use crate::removal::{
    folder_item, folders_planned, in_any, left_over, lemma_left_over, lemma_left_over_has, paths_once, removal_plan,
    takes_along,
};
use crate::resume::RootKeyV;
use crate::resuming::distinct_ids;
use crate::scan::{confirmed_groups, file_sizes, ScanV};
use crate::session::{
    all_file_items, chosen, chosen_folders, file_items, group_picks, one_stays, pruned_groups, selected_items,
    still_there, AppV, MessageV, PendingAction, Phase, Sizes,
};
use crate::summary::SummaryV;
use crate::tables::all_paths;
use crate::walk::ids_of;

verus! {

/// Whether a path is a further copy of a list.
spec fn is_further(paths: Seq<PathV>, path: PathV) -> bool {
    exists|k: int| 1 <= k < paths.len() && #[trigger] paths[k] == path
}

proof fn lemma_chosen_further(group: usize, paths: Seq<PathV>, picks: Seq<Pick>)
    requires
        paths.len() <= usize::MAX,
    ensures
        forall|i: int|
            0 <= i < chosen(group, paths, picks).len() ==> is_further(paths, #[trigger] chosen(group, paths, picks)[i]),
    decreases paths.len(),
{
    if paths.len() > 0 {
        let s = paths.drop_last();
        lemma_chosen_further(group, s, picks);
        let before = chosen(group, s, picks);
        let all = chosen(group, paths, picks);
        assert forall|i: int| 0 <= i < all.len() implies is_further(paths, #[trigger] all[i]) by {
            if i < before.len() {
                assert(all[i] == before[i]);
                assert(is_further(s, before[i]));
                let k = choose|k: int| 1 <= k < s.len() && #[trigger] s[k] == before[i];
                assert(paths[k] == all[i]);
            } else {
                assert(paths[paths.len() - 1] == all[i]);
            }
        }
    }
}

/// Whatever is picked, the first copy of a group is not acted on.
pub proof fn law_first_copy_stays(group: usize, paths: Seq<PathV>, picks: Seq<Pick>, i: int)
    requires
        paths.len() <= usize::MAX,
        forall|a: int, b: int| 0 <= a < b < paths.len() ==> (#[trigger] paths[a]).parts != (#[trigger] paths[b]).parts,
        0 <= i < chosen(group, paths, picks).len(),
    ensures
        chosen(group, paths, picks)[i].parts != paths[0].parts,
{
    lemma_chosen_further(group, paths, picks);
    assert(is_further(paths, chosen(group, paths, picks)[i]));
    let k = choose|k: int| 1 <= k < paths.len() && #[trigger] paths[k] == chosen(group, paths, picks)[i];
    assert(paths[0].parts != paths[k].parts);
}

proof fn lemma_file_items_outside(g: GroupV, paths: Seq<PathV>, roots: Seq<PathV>)
    ensures
        forall|i: int|
            0 <= i < file_items(g, paths, roots).len() ==> !in_any(
                (#[trigger] file_items(g, paths, roots)[i]).path.parts,
                roots,
            ),
    decreases paths.len(),
{
    if paths.len() > 0 {
        lemma_file_items_outside(g, paths.drop_last(), roots);
        let before = file_items(g, paths.drop_last(), roots);
        let all = file_items(g, paths, roots);
        assert forall|i: int| 0 <= i < all.len() implies !in_any((#[trigger] all[i]).path.parts, roots) by {
            if i < before.len() {
                assert(all[i] == before[i]);
            }
        }
    }
}

/// No file that is acted on lies in a directory that is acted on: nothing is
/// touched twice.
pub proof fn law_nothing_touched_twice(groups: Seq<GroupV>, picks: Seq<Pick>, roots: Seq<PathV>)
    ensures
        forall|i: int|
            0 <= i < all_file_items(groups, picks, roots).len() ==> !in_any(
                (#[trigger] all_file_items(groups, picks, roots)[i]).path.parts,
                roots,
            ),
    decreases groups.len(),
{
    if groups.len() > 0 {
        let s = groups.drop_last();
        let g = groups.last();
        let n = (groups.len() - 1) as usize;
        let own = chosen(n, g.paths, picks);
        law_nothing_touched_twice(s, picks, roots);
        lemma_file_items_outside(g, own, roots);
        let before = all_file_items(s, picks, roots);
        let items = file_items(g, own, roots);
        let more = group_picks(n, g, picks, roots);
        let all = all_file_items(groups, picks, roots);
        assert forall|i: int| 0 <= i < all.len() implies !in_any((#[trigger] all[i]).path.parts, roots) by {
            if i < before.len() {
                assert(all[i] == before[i]);
            } else {
                assert(all[i] == more[i - before.len()]);
                assert(more == items || more[i - before.len()] == items[i - before.len() + 1]);
            }
        }
    }
}

/// Whether a path is a further copy of a group that is picked.
spec fn is_picked(group: usize, paths: Seq<PathV>, picks: Seq<Pick>, path: PathV) -> bool {
    exists|k: int|
        1 <= k < paths.len() && #[trigger] paths[k] == path && picks.contains(Pick { group, copy: k as usize })
}

/// The copies that are chosen are picked, and each is chosen once.
proof fn lemma_chosen_picked(group: usize, paths: Seq<PathV>, picks: Seq<Pick>)
    requires
        paths.len() <= usize::MAX,
        ids_unique(paths),
    ensures
        ids_unique(chosen(group, paths, picks)),
        forall|i: int|
            0 <= i < chosen(group, paths, picks).len() ==> is_picked(
                group,
                paths,
                picks,
                #[trigger] chosen(group, paths, picks)[i],
            ),
    decreases paths.len(),
{
    if paths.len() > 0 {
        let s = paths.drop_last();
        let n = paths.len() - 1;
        assert(ids_unique(s)) by {
            assert forall|i: int, j: int| 0 <= i < j < s.len() implies (#[trigger] s[i]).parts != (#[trigger] s[j]).parts by {
                assert(s[i] == paths[i] && s[j] == paths[j]);
            }
        }
        lemma_chosen_picked(group, s, picks);
        let before = chosen(group, s, picks);
        let all = chosen(group, paths, picks);
        assert forall|i: int| 0 <= i < all.len() implies is_picked(group, paths, picks, #[trigger] all[i]) by {
            if i < before.len() {
                assert(all[i] == before[i]);
                assert(is_picked(group, s, picks, before[i]));
                let k = choose|k: int|
                    1 <= k < s.len() && #[trigger] s[k] == before[i] && picks.contains(Pick { group, copy: k as usize });
                assert(paths[k] == all[i]);
            } else {
                assert(paths[n] == all[i]);
            }
        }
        assert forall|i: int, j: int| 0 <= i < j < all.len() implies (#[trigger] all[i]).parts != (#[trigger] all[j]).parts by {
            assert(all[i] == before[i]);
            if j < before.len() {
                assert(all[j] == before[j]);
            } else {
                assert(is_picked(group, s, picks, before[i]));
                let k = choose|k: int|
                    1 <= k < s.len() && #[trigger] s[k] == before[i] && picks.contains(Pick { group, copy: k as usize });
                assert(paths[k].parts != paths[n].parts);
            }
        }
    }
}

proof fn lemma_chosen_has(group: usize, paths: Seq<PathV>, picks: Seq<Pick>, k: int)
    requires
        1 <= k < paths.len() <= usize::MAX,
        picks.contains(Pick { group, copy: k as usize }),
    ensures
        chosen(group, paths, picks).contains(paths[k]),
    decreases paths.len(),
{
    let s = paths.drop_last();
    let all = chosen(group, paths, picks);
    if k == paths.len() - 1 {
        assert(all.last() == paths[k]);
    } else {
        lemma_chosen_has(group, s, picks, k);
        let before = chosen(group, s, picks);
        let i = choose|i: int| 0 <= i < before.len() && before[i] == s[k];
        assert(all[i] == paths[k]);
    }
}

/// The items are of the paths that no picked directory holds, one of each.
proof fn lemma_file_items_of(g: GroupV, paths: Seq<PathV>, roots: Seq<PathV>)
    requires
        ids_unique(paths),
    ensures
        forall|i: int|
            0 <= i < file_items(g, paths, roots).len() ==> !(#[trigger] file_items(g, paths, roots)[i]).is_folder
                && paths.contains(file_items(g, paths, roots)[i].path),
        forall|i: int, j: int|
            0 <= i < j < file_items(g, paths, roots).len() ==> (#[trigger] file_items(g, paths, roots)[i]).path.parts != (
            #[trigger] file_items(g, paths, roots)[j]).path.parts,
        forall|x: int|
            0 <= x < paths.len() && !in_any((#[trigger] paths[x]).parts, roots) ==> file_items(g, paths, roots).len() > 0,
    decreases paths.len(),
{
    if paths.len() > 0 {
        let s = paths.drop_last();
        let n = paths.len() - 1;
        assert(ids_unique(s)) by {
            assert forall|i: int, j: int| 0 <= i < j < s.len() implies (#[trigger] s[i]).parts != (#[trigger] s[j]).parts by {
                assert(s[i] == paths[i] && s[j] == paths[j]);
            }
        }
        lemma_file_items_of(g, s, roots);
        let before = file_items(g, s, roots);
        let all = file_items(g, paths, roots);
        assert forall|i: int| 0 <= i < all.len() implies !(#[trigger] all[i]).is_folder && paths.contains(all[i].path) by {
            if i < before.len() {
                assert(all[i] == before[i]);
                let x = choose|x: int| 0 <= x < s.len() && s[x] == before[i].path;
                assert(paths[x] == all[i].path);
            } else {
                assert(paths[n] == all[i].path);
            }
        }
        assert forall|i: int, j: int| 0 <= i < j < all.len() implies (#[trigger] all[i]).path.parts != (
        #[trigger] all[j]).path.parts by {
            assert(all[i] == before[i]);
            if j < before.len() {
                assert(all[j] == before[j]);
            } else {
                let x = choose|x: int| 0 <= x < s.len() && s[x] == before[i].path;
                assert(paths[x].parts != paths[n].parts);
            }
        }
        assert forall|x: int| 0 <= x < paths.len() && !in_any((#[trigger] paths[x]).parts, roots) implies all.len() > 0 by {
            if x < s.len() {
                assert(s[x] == paths[x]);
            }
        }
    }
}

proof fn lemma_item_from(groups: Seq<GroupV>, picks: Seq<Pick>, roots: Seq<PathV>, i: int) -> (r: (int, int))
    requires
        groups.len() <= usize::MAX,
        0 <= i < all_file_items(groups, picks, roots).len(),
    ensures
        0 <= r.0 < groups.len(),
        0 <= r.1 < group_picks(r.0 as usize, groups[r.0], picks, roots).len(),
        all_file_items(groups, picks, roots)[i] == group_picks(r.0 as usize, groups[r.0], picks, roots)[r.1],
    decreases groups.len(),
{
    let s = groups.drop_last();
    let before = all_file_items(s, picks, roots);
    if i < before.len() {
        let r = lemma_item_from(s, picks, roots, i);
        assert(s[r.0] == groups[r.0]);
        r
    } else {
        (groups.len() - 1, i - before.len())
    }
}

/// Whether items leave a path where it is.
pub open spec fn items_leave(items: Seq<ItemV>, id: PathId) -> bool {
    forall|i: int| 0 <= i < items.len() ==> !takes_along(#[trigger] items[i], id)
}

/// The copy of a group that stays where it is, whatever is picked.
proof fn lemma_spared(group: usize, g: GroupV, picks: Seq<Pick>, roots: Seq<PathV>, n: int) -> (m: int)
    requires
        g.paths.len() <= usize::MAX,
        ids_unique(g.paths),
        0 <= n < g.paths.len(),
        !in_any(g.paths[n].parts, roots),
    ensures
        0 <= m < g.paths.len(),
        !in_any(g.paths[m].parts, roots),
        items_leave(group_picks(group, g, picks, roots), g.paths[m].parts),
{
    let own = chosen(group, g.paths, picks);
    let items = file_items(g, own, roots);
    let all = group_picks(group, g, picks, roots);
    lemma_chosen_picked(group, g.paths, picks);
    lemma_file_items_of(g, own, roots);
    lemma_file_items_outside(g, own, roots);
    if one_stays(group, g.paths, picks, roots) {
        let m = choose|i: int|
            0 <= i < g.paths.len() && !in_any((#[trigger] g.paths[i]).parts, roots) && !(i > 0 && picks.contains(
                Pick { group, copy: i as usize },
            ));
        assert forall|i: int| 0 <= i < all.len() implies !takes_along(#[trigger] all[i], g.paths[m].parts) by {
            assert(all[i] == items[i]);
            let x = choose|x: int| 0 <= x < own.len() && own[x] == items[i].path;
            assert(is_picked(group, g.paths, picks, own[x]));
            let k = choose|k: int|
                1 <= k < g.paths.len() && #[trigger] g.paths[k] == own[x] && picks.contains(
                    Pick { group, copy: k as usize },
                );
            if g.paths[k].parts == g.paths[m].parts {
                assert(k == m);
            }
        }
        m
    } else {
        assert(n > 0 && picks.contains(Pick { group, copy: n as usize }));
        lemma_chosen_has(group, g.paths, picks, n);
        let y = choose|y: int| 0 <= y < own.len() && own[y] == g.paths[n];
        assert(items.len() > 0);
        let x = choose|x: int| 0 <= x < own.len() && own[x] == items[0].path;
        assert(is_picked(group, g.paths, picks, own[x]));
        let m = choose|k: int|
            1 <= k < g.paths.len() && #[trigger] g.paths[k] == own[x] && picks.contains(Pick { group, copy: k as usize });
        assert forall|i: int| 0 <= i < all.len() implies !takes_along(#[trigger] all[i], g.paths[m].parts) by {
            assert(all[i] == items[i + 1]);
            assert(items[0].path.parts != items[i + 1].path.parts);
        }
        m
    }
}

/// A copy of every group stays where it is, whatever is picked, unless picked directories
/// hold all of its copies.
pub proof fn law_picked_items_leave_a_copy(summary: SummaryV, files: Seq<Pick>, folders: Seq<Pick>, a: int) -> (m: int)
    requires
        summary.groups.len() <= usize::MAX,
        paths_once(summary.groups),
        0 <= a < summary.groups.len(),
        summary.groups[a].paths.len() <= usize::MAX,
        left_over(summary.groups[a].paths, chosen_folders(summary.folder_groups, folders)).len() > 0,
    ensures
        0 <= m < summary.groups[a].paths.len(),
        items_leave(selected_items(summary, files, folders), summary.groups[a].paths[m].parts),
{
    let groups = summary.groups;
    let roots = chosen_folders(summary.folder_groups, folders);
    let g = groups[a];
    lemma_left_over(g.paths, roots);
    let rest = left_over(g.paths, roots);
    assert(g.paths.contains(rest[0]));
    let n = choose|n: int| 0 <= n < g.paths.len() && g.paths[n] == rest[0];
    assert(ids_unique(g.paths)) by {
        assert forall|i: int, j: int| 0 <= i < j < g.paths.len() implies (#[trigger] g.paths[i]).parts != (
        #[trigger] g.paths[j]).parts by {
            assert(groups[a].paths[i] == g.paths[i] && groups[a].paths[j] == g.paths[j]);
        }
    }
    let m = lemma_spared(a as usize, g, files, roots, n);
    let id = g.paths[m].parts;
    let dirs = roots.map_values(|p: PathV| folder_item(p));
    let all = selected_items(summary, files, folders);
    assert forall|i: int| 0 <= i < all.len() implies !takes_along(#[trigger] all[i], id) by {
        if i < dirs.len() {
            assert(all[i] == folder_item(roots[i]));
            assert(!is_under(id, roots[i].parts));
        } else {
            let (b, k) = lemma_item_from(groups, files, roots, i - dirs.len());
            let picked = group_picks(b as usize, groups[b], files, roots);
            assert(all[i] == picked[k]);
            if b == a {
                assert(!takes_along(picked[k], id));
            } else {
                lemma_item_path(b as usize, groups[b], files, roots, k);
                let x = choose|x: int| 0 <= x < groups[b].paths.len() && groups[b].paths[x] == picked[k].path;
                assert(groups[a].paths[m].parts != groups[b].paths[x].parts);
            }
        }
    }
    m
}

proof fn lemma_chosen_member(group: usize, paths: Seq<PathV>, picks: Seq<Pick>, path: PathV)
    requires
        chosen(group, paths, picks).contains(path),
    ensures
        paths.contains(path),
    decreases paths.len(),
{
    let s = paths.drop_last();
    let all = chosen(group, paths, picks);
    let i = choose|i: int| 0 <= i < all.len() && all[i] == path;
    if i < chosen(group, s, picks).len() {
        assert(chosen(group, s, picks)[i] == path);
        lemma_chosen_member(group, s, picks, path);
        let k = choose|k: int| 0 <= k < s.len() && s[k] == path;
        assert(paths[k] == path);
    } else {
        assert(paths[paths.len() - 1] == path);
    }
}

proof fn lemma_item_member(g: GroupV, paths: Seq<PathV>, roots: Seq<PathV>, i: int)
    requires
        0 <= i < file_items(g, paths, roots).len(),
    ensures
        !file_items(g, paths, roots)[i].is_folder,
        paths.contains(file_items(g, paths, roots)[i].path),
    decreases paths.len(),
{
    let s = paths.drop_last();
    let before = file_items(g, s, roots);
    let path = file_items(g, paths, roots)[i].path;
    if i < before.len() {
        assert(file_items(g, paths, roots)[i] == before[i]);
        lemma_item_member(g, s, roots, i);
        let k = choose|k: int| 0 <= k < s.len() && s[k] == path;
        assert(paths[k] == path);
    } else {
        assert(paths[paths.len() - 1] == path);
    }
}

proof fn lemma_item_path(group: usize, g: GroupV, picks: Seq<Pick>, roots: Seq<PathV>, k: int)
    requires
        0 <= k < group_picks(group, g, picks, roots).len(),
    ensures
        !group_picks(group, g, picks, roots)[k].is_folder,
        g.paths.contains(group_picks(group, g, picks, roots)[k].path),
{
    let own = chosen(group, g.paths, picks);
    let items = file_items(g, own, roots);
    let all = group_picks(group, g, picks, roots);
    let i = if all == items {
        k
    } else {
        k + 1
    };
    assert(all[k] == items[i]);
    lemma_item_member(g, own, roots, i);
    lemma_chosen_member(group, g.paths, picks, items[i].path);
}

/// A directory is acted on only as a further copy of a confirmed group.
pub proof fn law_picked_folders_are_further_copies(groups: Seq<FolderV>, picks: Seq<Pick>, x: int)
    requires
        0 <= x < chosen_folders(groups, picks).len(),
        forall|g: int| 0 <= g < groups.len() ==> (#[trigger] groups[g]).paths.len() <= usize::MAX,
    ensures
        folders_planned(groups).contains(chosen_folders(groups, picks)[x]),
    decreases groups.len(),
{
    let s = groups.drop_last();
    let before = chosen_folders(s, picks);
    let path = chosen_folders(groups, picks)[x];
    assert forall|g: int| 0 <= g < s.len() implies (#[trigger] s[g]).paths.len() <= usize::MAX by {
        assert(s[g] == groups[g]);
    }
    let (all, some) = (folders_planned(groups), folders_planned(s));
    if x < before.len() {
        law_picked_folders_are_further_copies(s, picks, x);
        let k = choose|k: int| 0 <= k < some.len() && some[k] == path;
        assert(all[k] == path);
    } else {
        let last = groups.last();
        assert(groups[groups.len() - 1] == last);
        lemma_chosen_further((groups.len() - 1) as usize, last.paths, picks);
        let own = chosen((groups.len() - 1) as usize, last.paths, picks);
        assert(own[x - before.len()] == path);
        assert(is_further(last.paths, own[x - before.len()]));
        let k = choose|k: int| 1 <= k < last.paths.len() && #[trigger] last.paths[k] == path;
        assert(all[some.len() + k - 1] == path);
    }
}

/// What stays where all duplicate folders of confirmed groups go stays where some of
/// them do.
pub proof fn law_fewer_folders_leave_more(paths: Seq<PathV>, groups: Seq<FolderV>, picks: Seq<Pick>)
    requires
        forall|g: int| 0 <= g < groups.len() ==> (#[trigger] groups[g]).paths.len() <= usize::MAX,
        left_over(paths, folders_planned(groups)).len() > 0,
    ensures
        left_over(paths, chosen_folders(groups, picks)).len() > 0,
{
    let (all, some) = (folders_planned(groups), chosen_folders(groups, picks));
    lemma_left_over(paths, all);
    let stays = left_over(paths, all)[0];
    assert(paths.contains(stays));
    let m = choose|m: int| 0 <= m < paths.len() && paths[m] == stays;
    if in_any(stays.parts, some) {
        let x = choose|x: int| 0 <= x < some.len() && is_under(stays.parts, (#[trigger] some[x]).parts);
        law_picked_folders_are_further_copies(groups, picks, x);
        let k = choose|k: int| 0 <= k < all.len() && all[k] == some[x];
        assert(is_under(stays.parts, all[k].parts));
    }
    lemma_left_over_has(paths, some, m);
}

/// Whatever is picked of what a scan found loses no content: of every group one copy
/// stays where it is, under the conditions of `law_removal_loses_no_content`.
pub proof fn law_picking_loses_no_content(
    s: ScanV,
    roots: Seq<RootKeyV>,
    threshold: u64,
    found: Seq<FoundV>,
    disk: DiskV,
    h: nat,
    k: nat,
    scanned_roots: Seq<PathV>,
    summary: SummaryV,
    files: Seq<Pick>,
    folders: Seq<Pick>,
    a: int,
) -> (m: int)
    requires
        scanned(s, roots, threshold, found, disk, h, k),
        distinct_ids(files_found(found)),
        confirmed_groups(s.by_full, file_sizes(s.by_partial)).len() + s.deferred.len() <= usize::MAX,
        searchable(all_paths(s.by_size), s.skipped, ids_of(scanned_roots)),
        no_collisions(tree_of(all_paths(s.by_size), s.skipped, s.groups_found(), ids_of(scanned_roots))),
        forall|i: int|
            0 <= i < all_paths(s.by_size).len() ==> !has_dir(
                dirs_of(all_paths(s.by_size) + s.skipped, top_roots(ids_of(scanned_roots))),
                (#[trigger] all_paths(s.by_size)[i]).parts,
            ),
        summary.groups == s.groups_found(),
        summary.folder_groups == s.result(scanned_roots, roots).folder_groups,
        forall|g: int| 0 <= g < summary.groups.len() ==> (#[trigger] summary.groups[g]).paths.len() <= usize::MAX,
        forall|g: int|
            0 <= g < summary.folder_groups.len() ==> (#[trigger] summary.folder_groups[g]).paths.len() <= usize::MAX,
        0 <= a < summary.groups.len(),
    ensures
        0 <= m < summary.groups[a].paths.len(),
        items_leave(selected_items(summary, files, folders), summary.groups[a].paths[m].parts),
{
    let all = summary.folder_groups;
    assert forall|c: int| 0 <= c < all.len() implies s.result(scanned_roots, roots).folder_groups.contains(
        #[trigger] all[c],
    ) by {
        assert(s.result(scanned_roots, roots).folder_groups[c] == all[c]);
    }
    lemma_scan_apart(s, roots, threshold, found, disk, h, k);
    let n = law_removal_loses_no_content(s, roots, threshold, found, disk, h, k, scanned_roots, all, 0, a);
    let dirs = folders_planned(all);
    let paths = summary.groups[a].paths;
    let plan = removal_plan(summary.groups, all);
    if in_any(paths[n].parts, dirs) {
        let i = choose|i: int| 0 <= i < dirs.len() && is_under(paths[n].parts, (#[trigger] dirs[i]).parts);
        assert(plan.folders[i] == folder_item(dirs[i]));
        assert(takes_along(plan.folders[i], paths[n].parts));
    }
    lemma_left_over_has(paths, dirs, n);
    law_fewer_folders_leave_more(paths, all, folders);
    law_picked_items_leave_a_copy(summary, files, folders, a)
}

proof fn lemma_still_there(paths: Seq<PathV>, gone: Set<PathId>)
    ensures
        forall|i: int|
            0 <= i < still_there(paths, gone).len() ==> !gone.contains((#[trigger] still_there(paths, gone)[i]).parts),
    decreases paths.len(),
{
    if paths.len() > 0 {
        lemma_still_there(paths.drop_last(), gone);
        let before = still_there(paths.drop_last(), gone);
        let all = still_there(paths, gone);
        assert forall|i: int| 0 <= i < all.len() implies !gone.contains((#[trigger] all[i]).parts) by {
            if i < before.len() {
                assert(all[i] == before[i]);
            }
        }
    }
}

/// What is left of a group after an action.
pub open spec fn left_in_order(paths: Seq<PathV>, gone: Set<PathId>) -> bool {
    paths.len() >= 2 && forall|i: int| 0 <= i < paths.len() ==> !gone.contains((#[trigger] paths[i]).parts)
}

/// After an action every group that is still shown has two or more copies, and
/// none of them is gone.
pub proof fn law_pruned_groups(groups: Seq<GroupV>, gone: Set<PathId>)
    ensures
        forall|i: int|
            0 <= i < pruned_groups(groups, gone).len() ==> left_in_order(
                (#[trigger] pruned_groups(groups, gone)[i]).paths,
                gone,
            ),
    decreases groups.len(),
{
    if groups.len() > 0 {
        let s = groups.drop_last();
        law_pruned_groups(s, gone);
        lemma_still_there(groups.last().paths, gone);
        let before = pruned_groups(s, gone);
        let all = pruned_groups(groups, gone);
        assert forall|i: int| 0 <= i < all.len() implies left_in_order((#[trigger] all[i]).paths, gone) by {
            if i < before.len() {
                assert(all[i] == before[i]);
            }
        }
    }
}

/// A scan is started only with a directory or a run to resume, and while one
/// runs the window waits for it.
pub proof fn law_scan_needs_something(a: AppV, m: MessageV, sizes: Sizes)
    requires
        a.updated(m, sizes).1 is StartScan,
    ensures
        a.updated(m, sizes).0.phase == Phase::Scanning,
        a.updated(m, sizes).0.scan_handle is Some,
        ({
            let request = a.updated(m, sizes).1->StartScan_0;
            request.directories.len() > 0 || request.resume_run_id is Some
        }),
{
}

/// Nothing is moved to the trash that was not confirmed.
pub proof fn law_trash_needs_confirmation(a: AppV, m: MessageV, sizes: Sizes)
    requires
        a.updated(m, sizes).1 is StartAction,
        a.updated(m, sizes).1->StartAction_1 is Trash,
    ensures
        m is ConfirmAction,
        a.confirm == Some(PendingAction::Trash),
        a.updated(m, sizes).0.confirm is None,
{
}

} // verus!
