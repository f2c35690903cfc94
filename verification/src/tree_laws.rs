//! What a scan of a directory tree at rest comes to.

use vstd::prelude::*;

use crate::folder_copies::searchable;
use crate::folder_laws::no_collisions;
use crate::folders::{dirs_of, has_dir, top_roots, tree_of};
use crate::groups::{groups_of_size, FolderV};
use crate::guarantees::{
    files_found, law_duplicates_are_found, law_every_file_once, law_removal_loses_no_content,
    law_unreadable_file_changes_no_group, scanned, together_in, twins, DiskV,
};
use crate::paths::{PathId, PathV};
use crate::removal::{leaves, removal_plan};
use crate::resume::RootKeyV;
use crate::scan::{confirmed_groups, file_sizes, ScanV};
use crate::tables::all_paths;
use crate::walk::{ids_of, EntryKind, WalkV};
use crate::walk_laws::{
    has_keys, is_new_walk, law_no_file_under_two_paths, law_walk_reports_once, law_walk_without_a_file,
    law_whole_walk, lemma_found_but, listed, opens_each, walk_found, without_entry, ListingV,
};

verus! {

/// Files of one content are found together wherever in a tree they are: in a directory
/// to scan, or in one that such a directory leads on to, by links too, as long as they
/// are wanted. What is returned are the paths at which those directories are opened.
pub proof fn law_duplicates_in_a_tree_are_found(
    s: ScanV,
    roots: Seq<RootKeyV>,
    threshold: u64,
    w: WalkV,
    dirs: Seq<PathV>,
    tree: ListingV,
    keys: Set<Seq<char>>,
    disk: DiskV,
    h: nat,
    k: nat,
) -> (opened: Seq<PathV>)
    requires
        disk.wf(),
        is_new_walk(w),
        has_keys(tree, keys),
        tree.consistent(),
        scanned(s, roots, threshold, walk_found(w, dirs, tree), disk, h, k),
        confirmed_groups(s.by_full, file_sizes(s.by_partial)).len() + s.deferred.len() <= usize::MAX,
    ensures
        opens_each(w, dirs, tree, opened),
        forall|x: PathV, y: PathV|
            listed(w, tree, opened, x) && listed(w, tree, opened, y) && #[trigger] twins(x, y, disk) ==> together_in(
                s.groups_found(),
                x,
                y,
            ),
{
    let found = walk_found(w, dirs, tree);
    let opened = law_whole_walk(w, dirs, tree, keys).1;
    assert forall|x: PathV, y: PathV|
        listed(w, tree, opened, x) && listed(w, tree, opened, y) && #[trigger] twins(x, y, disk) implies together_in(
        s.groups_found(),
        x,
        y,
    ) by {
        assert(files_found(found).contains(x) && files_found(found).contains(y));
        law_duplicates_are_found(s, roots, threshold, found, disk, h, k, x, y);
    }
    opened
}

/// A file of a tree that cannot be read is in no group, and the other files are grouped
/// as they are on the tree without that file, whatever their digests. The file is one
/// that the walk reports, and stands in the listing of its directory at `j`.
pub proof fn law_unreadable_file_in_a_tree(
    s: ScanV,
    t: ScanV,
    roots: Seq<RootKeyV>,
    threshold: u64,
    w: WalkV,
    dirs: Seq<PathV>,
    tree: ListingV,
    keys: Set<Seq<char>>,
    disk: DiskV,
    hs: nat,
    ks: nat,
    ht: nat,
    kt: nat,
    dir: PathV,
    j: int,
    unreadable: PathV,
    x: PathV,
    y: PathV,
)
    requires
        disk.wf(),
        is_new_walk(w),
        has_keys(tree, keys),
        tree.names_once(),
        tree.readable((tree.key)(dir.parts)),
        0 <= j < tree.list((tree.key)(dir.parts)).len(),
        tree.list((tree.key)(dir.parts))[j].kind == EntryKind::File,
        unreadable == tree.entry_path(dir, tree.list((tree.key)(dir.parts))[j].name),
        (disk.content)(unreadable.parts) is None,
        files_found(walk_found(w, dirs, tree)).contains(unreadable),
        scanned(s, roots, threshold, walk_found(w, dirs, tree), disk, hs, ks),
        scanned(
            t,
            roots,
            threshold,
            walk_found(w, dirs, without_entry(tree, (tree.key)(dir.parts), j)),
            disk,
            ht,
            kt,
        ),
        confirmed_groups(s.by_full, file_sizes(s.by_partial)).len() + s.deferred.len() <= usize::MAX,
        confirmed_groups(t.by_full, file_sizes(t.by_partial)).len() + t.deferred.len() <= usize::MAX,
        files_found(walk_found(w, dirs, tree)).contains(x),
        files_found(walk_found(w, dirs, tree)).contains(y),
        x != unreadable,
        y != unreadable,
        x != y,
    ensures
        together_in(s.groups_found(), x, y) <==> together_in(t.groups_found(), x, y),
        forall|g: int| 0 <= g < s.groups_found().len() ==> !(#[trigger] s.groups_found()[g]).paths.contains(unreadable),
{
    let less = without_entry(tree, (tree.key)(dir.parts), j);
    let (found, rest) = (walk_found(w, dirs, tree), walk_found(w, dirs, less));
    law_walk_without_a_file(w, dirs, tree, keys, j, dir, unreadable);
    law_walk_reports_once(w, dirs, tree, keys);
    law_walk_reports_once(w, dirs, less, keys);
    assert forall|p: PathV| #[trigger] files_found(found).contains(p) <==> files_found(rest).contains(p) || p
        == unreadable by {
        lemma_found_but(found, unreadable, p);
    }
    law_unreadable_file_changes_no_group(
        s,
        t,
        roots,
        threshold,
        found,
        rest,
        disk,
        hs,
        ks,
        ht,
        kt,
        unreadable,
        x,
        y,
    );
}

/// Removing what a scan of a tree found loses no content: of every group one copy stays
/// where it is, and no other path that the scan found is a path of that copy. The
/// conditions are those of [`law_removal_loses_no_content`], but that each file is
/// reported once.
pub proof fn law_removal_from_a_tree_loses_no_content(
    s: ScanV,
    roots: Seq<RootKeyV>,
    threshold: u64,
    w: WalkV,
    dirs: Seq<PathV>,
    tree: ListingV,
    keys: Set<Seq<char>>,
    disk: DiskV,
    h: nat,
    k: nat,
    chosen: Seq<FolderV>,
    min_size: u64,
    a: int,
) -> (m: int)
    requires
        is_new_walk(w),
        has_keys(tree, keys),
        tree.names_once(),
        scanned(s, roots, threshold, walk_found(w, dirs, tree), disk, h, k),
        confirmed_groups(s.by_full, file_sizes(s.by_partial)).len() + s.deferred.len() <= usize::MAX,
        searchable(all_paths(s.by_size), s.skipped, ids_of(dirs)),
        no_collisions(tree_of(all_paths(s.by_size), s.skipped, s.groups_found(), ids_of(dirs))),
        forall|i: int|
            0 <= i < all_paths(s.by_size).len() ==> !has_dir(
                dirs_of(all_paths(s.by_size) + s.skipped, top_roots(ids_of(dirs))),
                (#[trigger] all_paths(s.by_size)[i]).parts,
            ),
        forall|c: int| 0 <= c < chosen.len() ==> s.result(dirs, roots).folder_groups.contains(#[trigger] chosen[c]),
        0 <= a < s.groups_found().len(),
    ensures
        0 <= m < s.groups_found()[a].paths.len(),
        leaves(removal_plan(s.groups_found(), chosen), s.groups_found()[a].paths[m].parts),
        leaves(
            removal_plan(groups_of_size(s.groups_found(), min_size), chosen),
            s.groups_found()[a].paths[m].parts,
        ),
        forall|q: PathV| #[trigger]
            files_found(walk_found(w, dirs, tree)).contains(q) && same_entry(
                tree,
                q.parts,
                s.groups_found()[a].paths[m].parts,
            ) ==> q.parts == s.groups_found()[a].paths[m].parts,
{
    let found = walk_found(w, dirs, tree);
    law_walk_reports_once(w, dirs, tree, keys);
    let m = law_removal_loses_no_content(s, roots, threshold, found, disk, h, k, dirs, chosen, min_size, a);
    let kept = s.groups_found()[a].paths[m];
    assert forall|q: PathV| #[trigger] files_found(found).contains(q) && same_entry(tree, q.parts, kept.parts) implies q.parts
        == kept.parts by {
        law_every_file_once(s, roots, threshold, found, disk, h, k, a, m, a, m);
        let f = choose|f: int| 0 <= f < files_found(found).len() && (#[trigger] files_found(found)[f]).parts == kept.parts;
        law_no_file_under_two_paths(w, dirs, tree, keys, q, files_found(found)[f]);
    }
    m
}

/// Whether two paths lead to one entry of one real directory.
pub open spec fn same_entry(tree: ListingV, p: PathId, q: PathId) -> bool {
    (tree.key)(p.drop_last()) == (tree.key)(q.drop_last()) && p.last() == q.last()
}

} // verus!
