//! What holds of the duplicate folders that are reported.

use vstd::prelude::*;

use crate::command_laws::law_folders_are_ranked;
use crate::digest::content_digest;
use crate::folders::{
    by_name, closed_but, deepest, description, dirs_of, has_dir, ids_unique, in_order, info_of, least_depth, lemma_classes_known,
    lemma_deepest, lemma_dirs, lemma_files_cut, lemma_filter_member, lemma_has_dir_push, lemma_linked, lemma_repeated,
    lemma_subs_cut, lies_in, linked,
    name_key, repeated, sub_of, SignedV, TallyV, TreeV,
};
use crate::groups::{folder_weight, heaviest_first, FolderV};
use crate::order::{
    is_stable_order, lemma_arranged, lemma_lex_asymmetric, lemma_order_exists, lemma_order_no_duplicates, precedes,
    stable_order_of,
};
use crate::paths::{
    law_paths_order_total, law_paths_sort_by_parts, name_of, parent_of, parent_path, path_before, path_code, PathId, PathV,
};
use crate::tables::{keys_unique, lemma_added_unique, lemma_pos, lemma_pos_is, pos, TableV};
use crate::walk::lemma_ids_has;

verus! {

/// Linking a directory in puts it there, and linking it in again changes nothing.
pub proof fn law_linking_again_changes_nothing(dirs: Seq<PathV>, d: PathV, roots: Set<PathId>)
    ensures
        has_dir(linked(dirs, d, roots), d.parts),
        linked(linked(dirs, d, roots), d, roots) == linked(dirs, d, roots),
{
    lemma_linked_has(dirs, d, roots, d.parts);
}

proof fn lemma_linked_has(dirs: Seq<PathV>, d: PathV, roots: Set<PathId>, x: PathId)
    requires
        has_dir(dirs, x) || x == d.parts,
    ensures
        has_dir(linked(dirs, d, roots), x),
    decreases d.parts.len(),
{
    if !has_dir(dirs, d.parts) {
        let n = dirs.push(d);
        if has_dir(dirs, x) {
            let i = choose|i: int| 0 <= i < dirs.len() && (#[trigger] dirs[i]).parts == x;
            assert(n[i].parts == x);
        } else {
            assert(n[dirs.len() as int].parts == x);
        }
        if !roots.contains(d.parts) {
            match parent_path(d) {
                Some(p) => lemma_linked_has(n, p, roots, x),
                None => {},
            }
        }
    }
}

/// Whether a path is a directory or one that holds it, up to and with the first root.
pub open spec fn on_way_up(d: PathId, roots: Set<PathId>, x: PathId) -> bool
    decreases d.len(),
{
    x == d || (!roots.contains(d) && match parent_of(d) {
        Some(p) => on_way_up(p, roots, x),
        None => false,
    })
}

/// Whether a directory of a list counts as lying directly in another.
pub open spec fn is_edge(dirs: Seq<PathV>, roots: Set<PathId>, p: PathId, c: PathId) -> bool {
    has_dir(dirs, c) && !roots.contains(c) && parent_of(c) == Some(p)
}

proof fn lemma_way_known(dirs: Seq<PathV>, d: PathId, roots: Set<PathId>, x: PathId)
    requires
        closed_but(dirs, roots, None),
        has_dir(dirs, d),
        on_way_up(d, roots, x),
    ensures
        has_dir(dirs, x),
    decreases d.len(),
{
    if x != d {
        let i = choose|i: int| 0 <= i < dirs.len() && (#[trigger] dirs[i]).parts == d;
        assert(!roots.contains(dirs[i].parts));
        lemma_way_known(dirs, parent_of(d).unwrap(), roots, x);
    }
}

proof fn lemma_linked_is(dirs: Seq<PathV>, d: PathV, roots: Set<PathId>, x: PathId)
    requires
        closed_but(dirs, roots, Some(d.parts)),
    ensures
        has_dir(linked(dirs, d, roots), x) <==> has_dir(dirs, x) || on_way_up(d.parts, roots, x),
    decreases d.parts.len(),
{
    if has_dir(dirs, d.parts) {
        assert(closed_but(dirs, roots, None));
        if on_way_up(d.parts, roots, x) {
            lemma_way_known(dirs, d.parts, roots, x);
        }
    } else {
        let n = dirs.push(d);
        lemma_has_dir_push(dirs, d);
        if !roots.contains(d.parts) {
            match parent_path(d) {
                Some(p) => {
                    assert(closed_but(n, roots, Some(p.parts))) by {
                        assert forall|i: int| 0 <= i < n.len() && !roots.contains((#[trigger] n[i]).parts) implies match parent_of(
                            n[i].parts,
                        ) {
                            Some(q) => has_dir(n, q) || Some(p.parts) == Some(q),
                            None => true,
                        } by {
                            if i < dirs.len() {
                                assert(n[i] == dirs[i]);
                            }
                        }
                    }
                    lemma_linked_is(n, p, roots, x);
                },
                None => {},
            }
        }
    }
}

/// Linking a directory in adds it and all that hold it, up to and with the first root,
/// and nothing else, each of them as an entry of the one that holds it unless it is a
/// root. Each directory is there once, and what holds one is there too.
pub proof fn law_linking_adds_the_way_up(dirs: Seq<PathV>, d: PathV, roots: Set<PathId>)
    requires
        ids_unique(dirs),
        closed_but(dirs, roots, None),
    ensures
        forall|x: PathId| #[trigger]
            has_dir(linked(dirs, d, roots), x) <==> has_dir(dirs, x) || on_way_up(d.parts, roots, x),
        forall|p: PathId, c: PathId| #[trigger]
            is_edge(linked(dirs, d, roots), roots, p, c) <==> is_edge(dirs, roots, p, c) || (on_way_up(d.parts, roots, c)
                && !roots.contains(c) && parent_of(c) == Some(p)),
        ids_unique(linked(dirs, d, roots)),
        closed_but(linked(dirs, d, roots), roots, None),
{
    assert(closed_but(dirs, roots, Some(d.parts)));
    lemma_linked(dirs, d, roots);
    assert forall|x: PathId| #[trigger]
        has_dir(linked(dirs, d, roots), x) <==> has_dir(dirs, x) || on_way_up(d.parts, roots, x) by {
        lemma_linked_is(dirs, d, roots, x);
    }
}

/// Whether a directory holds one of some files, directly or not, and no root stands
/// between them.
pub open spec fn leads_to_file(files: Seq<PathV>, roots: Set<PathId>, x: PathId) -> bool {
    exists|i: int| 0 <= i < files.len() && leads_to((#[trigger] files[i]).parts, roots, x)
}

pub open spec fn leads_to(f: PathId, roots: Set<PathId>, x: PathId) -> bool {
    match parent_of(f) {
        Some(p) => on_way_up(p, roots, x),
        None => false,
    }
}

/// The directories that are looked at are those that hold files, directly or not, up
/// to the first root above each file, or all the way up where there is none.
pub proof fn law_folders_are_those_of_the_files(files: Seq<PathV>, roots: Set<PathId>, x: PathId)
    ensures
        has_dir(dirs_of(files, roots), x) <==> leads_to_file(files, roots, x),
    decreases files.len(),
{
    if files.len() > 0 {
        let s = files.drop_last();
        let n = files.len() - 1;
        law_folders_are_those_of_the_files(s, roots, x);
        lemma_dirs(s, roots);
        match parent_path(files.last()) {
            Some(p) => law_linking_adds_the_way_up(dirs_of(s, roots), p, roots),
            None => {},
        }
        assert(files[n] == files.last());
        if leads_to_file(s, roots, x) {
            let i = choose|i: int| 0 <= i < s.len() && leads_to((#[trigger] s[i]).parts, roots, x);
            assert(files[i] == s[i]);
        }
        if leads_to_file(files, roots, x) && !leads_to(files[n].parts, roots, x) {
            let i = choose|i: int| 0 <= i < files.len() && leads_to((#[trigger] files[i]).parts, roots, x);
            assert(s[i] == files[i]);
        }
    }
}

/// A directory that holds a file without a duplicate, or one that could not be
/// read, has no signature, and so is no duplicate of another.
pub proof fn law_unmatched_file_disqualifies(tree: TreeV, d: PathId, f: PathV)
    requires
        tree.files.len() <= usize::MAX,
        tree.files_in(d).contains(f),
        !tree.at.contains_key(f.parts),
    ensures
        tree.info(d).signature is None,
{
    let list = tree.files_in(d);
    lemma_filter_bounded(tree.files, lies_in(d));
    let keys = list.map_values(|p: PathV| name_key(p.parts));
    crate::order::lemma_order_exists(keys);
    let perm = stable_order_of(keys);
    let x = choose|x: int| 0 <= x < list.len() && list[x] == f;
    crate::order::lemma_order_covers(keys, perm, x as usize);
    let i = choose|i: int| 0 <= i < perm.len() && perm[i] == x as usize;
    let sorted = by_name(list);
    assert(sorted[i] == f);
    assert(sorted.take(i + 1).last() == f);
    lemma_files_cut(tree, sorted, i + 1);
}

/// A directory in which another has no signature has none either.
pub proof fn law_unmatched_folder_disqualifies(tree: TreeV, d: PathId, s: PathV)
    requires
        tree.dirs.len() <= usize::MAX,
        tree.subs_in(d).contains(s),
        tree.info(s.parts).signature is None,
    ensures
        tree.info(d).signature is None,
{
    let list = tree.subs_in(d);
    lemma_filter_bounded(tree.dirs, sub_of(d, tree.roots));
    let keys = list.map_values(|p: PathV| name_key(p.parts));
    crate::order::lemma_order_exists(keys);
    let perm = stable_order_of(keys);
    let x = choose|x: int| 0 <= x < list.len() && list[x] == s;
    crate::order::lemma_order_covers(keys, perm, x as usize);
    let i = choose|i: int| 0 <= i < perm.len() && perm[i] == x as usize;
    let sorted = by_name(list);
    assert(sorted[i] == s);
    assert(sorted.take(i + 1).last() == s);
    lemma_filter_member(tree.dirs, sub_of(d, tree.roots), s);
    lemma_deepest(tree.dirs);
    assert(s.parts.len() == d.len() + 1);
    let j = choose|j: int| 0 <= j < tree.dirs.len() && tree.dirs[j] == s;
    assert(tree.dirs[j].parts.len() <= deepest(tree.dirs));
    let height = (deepest(tree.dirs) - d.len()) as nat;
    match tree.tally_files(by_name(tree.files_in(d))) {
        None => {},
        Some(t) => {
            assert(tree.tally_subs(t, sorted.take(i + 1), height) is None);
            lemma_subs_cut(tree, t, sorted, height, i + 1);
        },
    }
}

/// Whether all directories of a class have the same signature.
pub open spec fn alike(signed: SignedV, sig: Seq<char>, paths: Seq<PathV>) -> bool {
    forall|i: int| 0 <= i < paths.len() ==> (signed.info)((#[trigger] paths[i]).parts).signature == Some(sig)
}

proof fn lemma_classes_bounded(signed: SignedV, dirs: Seq<PathV>)
    ensures
        signed.classes(dirs).len() <= dirs.len(),
        repeated(signed.classes(dirs)).len() <= dirs.len(),
        forall|b: int|
            0 <= b < signed.classes(dirs).len() ==> (#[trigger] signed.classes(dirs)[b]).paths.len() <= dirs.len(),
    decreases dirs.len(),
{
    lemma_repeated_bounded(signed.classes(dirs));
    if dirs.len() > 0 {
        let s = dirs.drop_last();
        lemma_classes_bounded(signed, s);
        let before = signed.classes(s);
        match (signed.info)(dirs.last().parts).signature {
            Some(sig) => {
                crate::tables::lemma_pos(before, sig);
                let t = signed.classes(dirs);
                assert forall|b: int| 0 <= b < t.len() implies (#[trigger] t[b]).paths.len() <= dirs.len() by {
                    if b < before.len() {
                        assert(before[b].paths.len() <= s.len());
                    }
                }
            },
            None => {},
        }
    }
}

proof fn lemma_repeated_bounded(classes: TableV)
    ensures
        repeated(classes).len() <= classes.len(),
    decreases classes.len(),
{
    if classes.len() > 0 {
        lemma_repeated_bounded(classes.drop_last());
    }
}

pub proof fn lemma_filter_bounded(s: Seq<PathV>, keep: spec_fn(PathV) -> bool)
    ensures
        s.filter(keep).len() <= s.len(),
    decreases s.len(),
{
    reveal(Seq::filter);
    if s.len() > 0 {
        lemma_filter_bounded(s.drop_last(), keep);
    }
}

pub proof fn lemma_classes_alike(signed: SignedV, dirs: Seq<PathV>)
    ensures
        forall|b: int|
            0 <= b < signed.classes(dirs).len() ==> alike(
                signed,
                (#[trigger] signed.classes(dirs)[b]).key,
                signed.classes(dirs)[b].paths,
            ),
    decreases dirs.len(),
{
    if dirs.len() > 0 {
        let s = dirs.drop_last();
        lemma_classes_alike(signed, s);
        let before = signed.classes(s);
        match (signed.info)(dirs.last().parts).signature {
            Some(sig) => {
                crate::tables::lemma_pos(before, sig);
                let t = signed.classes(dirs);
                assert forall|b: int| 0 <= b < t.len() implies alike(signed, (#[trigger] t[b]).key, t[b].paths) by {
                    if b < before.len() {
                        assert(alike(signed, before[b].key, before[b].paths));
                    }
                }
            },
            None => {},
        }
    }
}

/// Of the directories of a class, in order, those whose match is not implied.
pub open spec fn kept_of(signed: SignedV, class: Seq<PathV>) -> Seq<PathV> {
    signed.not_implied(signed.further(), in_order(class))
}

/// Whether what is left of a class is reported.
pub open spec fn is_reported(signed: SignedV, class: Seq<PathV>) -> bool {
    kept_of(signed, class).len() >= 2 && signed.stands_out(signed.matched(), kept_of(signed, class))
}

spec fn from_class(signed: SignedV, classes: Seq<Seq<PathV>>, group: FolderV) -> bool {
    exists|c: int|
        0 <= c < classes.len() && is_reported(signed, #[trigger] classes[c]) && signed.folder_group(
            kept_of(signed, classes[c]),
        ) == group
}

spec fn report_of(signed: SignedV, classes: Seq<Seq<PathV>>) -> Seq<FolderV> {
    signed.reported(signed.further(), signed.matched(), classes)
}

proof fn lemma_reported(signed: SignedV, classes: Seq<Seq<PathV>>)
    ensures
        report_of(signed, classes).len() <= classes.len(),
        forall|g: int|
            0 <= g < report_of(signed, classes).len() ==> from_class(
                signed,
                classes,
                #[trigger] report_of(signed, classes)[g],
            ),
    decreases classes.len(),
{
    if classes.len() > 0 {
        let s = classes.drop_last();
        lemma_reported(signed, s);
        let r = report_of(signed, classes);
        let b = report_of(signed, s);
        assert forall|g: int| 0 <= g < r.len() implies from_class(signed, classes, #[trigger] r[g]) by {
            if g < b.len() {
                assert(r[g] == b[g]);
                assert(from_class(signed, s, b[g]));
                let c = choose|c: int|
                    0 <= c < s.len() && is_reported(signed, #[trigger] s[c]) && signed.folder_group(
                        kept_of(signed, s[c]),
                    ) == b[g];
                assert(classes[c] == s[c]);
            } else {
                assert(classes[classes.len() - 1] == classes.last());
            }
        }
    }
}

proof fn lemma_reported_has(signed: SignedV, classes: Seq<Seq<PathV>>, c: int)
    requires
        0 <= c < classes.len(),
        is_reported(signed, classes[c]),
    ensures
        report_of(signed, classes).contains(signed.folder_group(kept_of(signed, classes[c]))),
    decreases classes.len(),
{
    let s = classes.drop_last();
    let r = report_of(signed, classes);
    let group = signed.folder_group(kept_of(signed, classes[c]));
    if c == classes.len() - 1 {
        assert(r.last() == group);
    } else {
        assert(s[c] == classes[c]);
        lemma_reported_has(signed, s, c);
        let k = choose|k: int| 0 <= k < report_of(signed, s).len() && report_of(signed, s)[k] == group;
        assert(r[k] == group);
    }
}

/// Each reported group comes from a class of directories with one signature.
pub proof fn lemma_group_class(signed: SignedV, g: int) -> (b: int)
    requires
        signed.dirs.len() <= usize::MAX,
        0 <= g < signed.duplicate_folders().len(),
    ensures
        0 <= b < signed.classes(signed.dirs).len(),
        2 <= signed.classes(signed.dirs)[b].paths.len() <= signed.dirs.len(),
        is_reported(signed, signed.classes(signed.dirs)[b].paths),
        signed.duplicate_folders()[g] == signed.folder_group(kept_of(signed, signed.classes(signed.dirs)[b].paths)),
{
    let classes = signed.classes(signed.dirs);
    let rep = repeated(classes);
    let first = signed.candidates();
    let found = report_of(signed, first);
    lemma_classes_bounded(signed, signed.dirs);
    lemma_repeated(classes);
    lemma_arranged(rep, rep.map_values(|c: Seq<PathV>| seq![least_depth(c) as u64]));
    lemma_reported(signed, first);
    lemma_arranged(found, found.map_values(|g: FolderV| heaviest_first(folder_weight(g))));
    let group = signed.duplicate_folders()[g];
    assert(found.contains(group));
    let h = choose|h: int| 0 <= h < found.len() && found[h] == group;
    assert(from_class(signed, first, found[h]));
    let c = choose|c: int|
        0 <= c < first.len() && is_reported(signed, #[trigger] first[c]) && signed.folder_group(
            kept_of(signed, first[c]),
        ) == group;
    assert(rep.contains(first[c]));
    let r = choose|r: int| 0 <= r < rep.len() && rep[r] == first[c];
    let b = choose|b: int| 0 <= b < classes.len() && (#[trigger] classes[b]).paths == rep[r];
    b
}

/// The groups come with those first that take up most, all copies counted.
pub proof fn law_largest_folders_come_first(signed: SignedV, i: int, j: int)
    requires
        signed.dirs.len() <= usize::MAX,
        0 <= i < j < signed.duplicate_folders().len(),
    ensures
        ({
            let (a, b) = (signed.duplicate_folders()[i], signed.duplicate_folders()[j]);
            a.size * a.paths.len() % 0x1_0000_0000_0000_0000 >= b.size * b.paths.len() % 0x1_0000_0000_0000_0000
        }),
{
    let classes = signed.classes(signed.dirs);
    let rep = repeated(classes);
    let first = signed.candidates();
    let found = report_of(signed, first);
    lemma_classes_bounded(signed, signed.dirs);
    lemma_repeated(classes);
    lemma_arranged(rep, rep.map_values(|c: Seq<PathV>| seq![least_depth(c) as u64]));
    lemma_reported(signed, first);
    law_folders_are_ranked(found);
}

/// A class is reported where the match of two of its directories is not implied, and
/// one of them lies in no other that matches.
pub proof fn lemma_class_reported(signed: SignedV, b: int) -> (g: int)
    requires
        signed.dirs.len() <= usize::MAX,
        0 <= b < signed.classes(signed.dirs).len(),
        signed.classes(signed.dirs)[b].paths.len() >= 2,
        is_reported(signed, signed.classes(signed.dirs)[b].paths),
    ensures
        0 <= g < signed.duplicate_folders().len(),
        signed.duplicate_folders()[g].paths == kept_of(signed, signed.classes(signed.dirs)[b].paths),
{
    let first = signed.candidates();
    let found = report_of(signed, first);
    let class = signed.classes(signed.dirs)[b].paths;
    let c = lemma_candidate(signed, b);
    lemma_reported_has(signed, first, c);
    let group = signed.folder_group(kept_of(signed, class));
    lemma_classes_bounded(signed, signed.dirs);
    let rep = repeated(signed.classes(signed.dirs));
    lemma_arranged(rep, rep.map_values(|c: Seq<PathV>| seq![least_depth(c) as u64]));
    lemma_reported(signed, first);
    lemma_arranged(found, found.map_values(|g: FolderV| heaviest_first(folder_weight(g))));
    assert(signed.duplicate_folders().contains(group));
    choose|g: int| 0 <= g < signed.duplicate_folders().len() && signed.duplicate_folders()[g] == group
}

/// Every class of two or more directories is a candidate.
pub proof fn lemma_candidate(signed: SignedV, b: int) -> (c: int)
    requires
        signed.dirs.len() <= usize::MAX,
        0 <= b < signed.classes(signed.dirs).len(),
        signed.classes(signed.dirs)[b].paths.len() >= 2,
    ensures
        0 <= c < signed.candidates().len(),
        signed.candidates()[c] == signed.classes(signed.dirs)[b].paths,
{
    let classes = signed.classes(signed.dirs);
    let rep = repeated(classes);
    lemma_classes_bounded(signed, signed.dirs);
    lemma_repeated_has(classes, b);
    lemma_arranged(rep, rep.map_values(|c: Seq<PathV>| seq![least_depth(c) as u64]));
    assert(signed.candidates().contains(classes[b].paths));
    choose|c: int| 0 <= c < signed.candidates().len() && signed.candidates()[c] == classes[b].paths
}

/// Every candidate is a class of two or more directories.
pub proof fn lemma_candidate_class(signed: SignedV, c: int) -> (b: int)
    requires
        signed.dirs.len() <= usize::MAX,
        0 <= c < signed.candidates().len(),
    ensures
        0 <= b < signed.classes(signed.dirs).len(),
        2 <= signed.classes(signed.dirs)[b].paths.len() <= signed.dirs.len(),
        signed.candidates()[c] == signed.classes(signed.dirs)[b].paths,
{
    let classes = signed.classes(signed.dirs);
    let rep = repeated(classes);
    lemma_classes_bounded(signed, signed.dirs);
    lemma_repeated(classes);
    lemma_arranged(rep, rep.map_values(|c: Seq<PathV>| seq![least_depth(c) as u64]));
    assert(rep.contains(signed.candidates()[c]));
    let r = choose|r: int| 0 <= r < rep.len() && rep[r] == signed.candidates()[c];
    choose|b: int| 0 <= b < classes.len() && (#[trigger] classes[b]).paths == rep[r]
}

/// What is kept of a list is of the list, and not implied.
pub proof fn lemma_not_implied(signed: SignedV, further: Set<PathId>, paths: Seq<PathV>)
    ensures
        signed.not_implied(further, paths).len() <= paths.len(),
        forall|i: int|
            0 <= i < signed.not_implied(further, paths).len() ==> paths.contains(
                #[trigger] signed.not_implied(further, paths)[i],
            ) && !signed.lies_below(further, signed.not_implied(further, paths)[i].parts),
        forall|i: int|
            0 <= i < paths.len() && !signed.lies_below(further, (#[trigger] paths[i]).parts) ==> signed.not_implied(
                further,
                paths,
            ).contains(paths[i]),
    decreases paths.len(),
{
    if paths.len() > 0 {
        let s = paths.drop_last();
        lemma_not_implied(signed, further, s);
        let (before, r) = (signed.not_implied(further, s), signed.not_implied(further, paths));
        assert forall|i: int| 0 <= i < r.len() implies paths.contains(#[trigger] r[i]) && !signed.lies_below(
            further,
            r[i].parts,
        ) by {
            if i < before.len() {
                assert(r[i] == before[i]);
                assert(s.contains(before[i]));
                let j = choose|j: int| 0 <= j < s.len() && s[j] == before[i];
                assert(paths[j] == r[i]);
            } else {
                assert(paths[paths.len() - 1] == r[i]);
            }
        }
        assert forall|i: int| 0 <= i < paths.len() && !signed.lies_below(further, (#[trigger] paths[i]).parts) implies r.contains(
            paths[i],
        ) by {
            if i < s.len() {
                assert(s[i] == paths[i]);
                let j = choose|j: int| 0 <= j < before.len() && before[j] == paths[i];
                assert(r[j] == paths[i]);
            } else {
                assert(r[r.len() - 1] == paths[i]);
            }
        }
    }
}

/// Whether paths stand in ascending order, each once.
pub open spec fn ascending(paths: Seq<PathV>) -> bool {
    forall|i: int, j: int|
        0 <= i < j < paths.len() ==> path_before((#[trigger] paths[i]).parts, (#[trigger] paths[j]).parts)
}

proof fn lemma_not_implied_ascending(signed: SignedV, further: Set<PathId>, paths: Seq<PathV>)
    requires
        ascending(paths),
    ensures
        ascending(signed.not_implied(further, paths)),
    decreases paths.len(),
{
    if paths.len() > 0 {
        let s = paths.drop_last();
        assert(ascending(s)) by {
            assert forall|i: int, j: int| 0 <= i < j < s.len() implies path_before(
                (#[trigger] s[i]).parts,
                (#[trigger] s[j]).parts,
            ) by {
                assert(s[i] == paths[i] && s[j] == paths[j]);
            }
        }
        lemma_not_implied_ascending(signed, further, s);
        lemma_not_implied(signed, further, s);
        let (before, r) = (signed.not_implied(further, s), signed.not_implied(further, paths));
        assert forall|i: int, j: int| 0 <= i < j < r.len() implies path_before(
            (#[trigger] r[i]).parts,
            (#[trigger] r[j]).parts,
        ) by {
            assert(r[i] == before[i]);
            if j < before.len() {
                assert(r[j] == before[j]);
            } else {
                assert(s.contains(before[i]));
                let x = choose|x: int| 0 <= x < s.len() && s[x] == before[i];
                assert(paths[x] == r[i] && paths[paths.len() - 1] == r[j]);
            }
        }
    }
}

/// The directories of a class, put in order, ascend.
pub proof fn lemma_class_ascends(signed: SignedV, b: int)
    requires
        signed.dirs.len() <= usize::MAX,
        ids_unique(signed.dirs),
        0 <= b < signed.classes(signed.dirs).len(),
    ensures
        in_order(signed.classes(signed.dirs)[b].paths).len() == signed.classes(signed.dirs)[b].paths.len(),
        forall|x: PathV|
            in_order(signed.classes(signed.dirs)[b].paths).contains(x) <==> #[trigger] signed.classes(
                signed.dirs,
            )[b].paths.contains(x),
        ascending(in_order(signed.classes(signed.dirs)[b].paths)),
        ascending(kept_of(signed, signed.classes(signed.dirs)[b].paths)),
{
    let class = signed.classes(signed.dirs)[b].paths;
    lemma_classes_bounded(signed, signed.dirs);
    lemma_classes_once(signed, signed.dirs);
    assert(ids_unique(class));
    let keys = class.map_values(|p: PathV| path_code(p.parts));
    lemma_arranged(class, keys);
    lemma_order_exists(keys);
    let perm = stable_order_of(keys);
    let out = in_order(class);
    assert(is_stable_order(keys, perm));
    assert forall|i: int, j: int| 0 <= i < j < out.len() implies path_before(
        (#[trigger] out[i]).parts,
        (#[trigger] out[j]).parts,
    ) by {
        let (x, y) = (perm[i] as int, perm[j] as int);
        assert(precedes(keys, x, y));
        assert(out[i] == class[x] && out[j] == class[y]);
        assert(keys[x] == path_code(class[x].parts) && keys[y] == path_code(class[y].parts));
        law_paths_sort_by_parts(class[x].parts, class[y].parts);
        if keys[x] == keys[y] {
            lemma_lex_asymmetric(keys[x], keys[y]);
            law_paths_sort_by_parts(class[y].parts, class[x].parts);
            law_paths_order_total(class[x].parts, class[y].parts);
            assert(x < y && class[x].parts != class[y].parts);
        }
    }
    lemma_not_implied_ascending(signed, signed.further(), out);
}

proof fn lemma_classes_once(signed: SignedV, dirs: Seq<PathV>)
    requires
        ids_unique(dirs),
    ensures
        forall|b: int| 0 <= b < signed.classes(dirs).len() ==> ids_unique((#[trigger] signed.classes(dirs)[b]).paths),
    decreases dirs.len(),
{
    if dirs.len() > 0 {
        let s = dirs.drop_last();
        assert(ids_unique(s)) by {
            assert forall|i: int, j: int| 0 <= i < j < s.len() implies (#[trigger] s[i]).parts != (#[trigger] s[j]).parts by {
                assert(s[i] == dirs[i] && s[j] == dirs[j]);
            }
        }
        lemma_classes_once(signed, s);
        lemma_classes_known(signed, s);
        let before = signed.classes(s);
        match (signed.info)(dirs.last().parts).signature {
            Some(sig) => {
                lemma_pos(before, sig);
                let t = signed.classes(dirs);
                assert forall|b: int| 0 <= b < t.len() implies ids_unique((#[trigger] t[b]).paths) by {
                    if b < before.len() {
                        assert(ids_unique(before[b].paths));
                        let (p, q) = (before[b].paths, t[b].paths);
                        assert forall|i: int, j: int| 0 <= i < j < q.len() implies (#[trigger] q[i]).parts != (
                        #[trigger] q[j]).parts by {
                            assert(q[i] == p[i]);
                            if j < p.len() {
                                assert(q[j] == p[j]);
                            } else {
                                assert(s.contains(before[b].paths[i]));
                                let x = choose|x: int| 0 <= x < s.len() && s[x] == p[i];
                                assert(dirs[x].parts != dirs[dirs.len() - 1].parts);
                            }
                        }
                    }
                }
            },
            None => {},
        }
    }
}

/// Every reported group holds two or more directories, all with the same
/// signature.
pub proof fn law_reported_groups_match(signed: SignedV, g: int)
    requires
        signed.dirs.len() <= usize::MAX,
        0 <= g < signed.duplicate_folders().len(),
    ensures
        signed.duplicate_folders()[g].paths.len() >= 2,
        exists|sig: Seq<char>| #[trigger] alike(signed, sig, signed.duplicate_folders()[g].paths),
{
    let b = lemma_group_class(signed, g);
    let classes = signed.classes(signed.dirs);
    let class = classes[b].paths;
    let group = signed.duplicate_folders()[g];
    lemma_classes_alike(signed, signed.dirs);
    assert(alike(signed, classes[b].key, class));
    lemma_arranged(class, class.map_values(|p: PathV| path_code(p.parts)));
    lemma_not_implied(signed, signed.further(), in_order(class));
    assert forall|i: int| 0 <= i < group.paths.len() implies (signed.info)((#[trigger] group.paths[i]).parts).signature
        == Some(classes[b].key) by {
        assert(in_order(class).contains(group.paths[i]));
        assert(class.contains(group.paths[i]));
        let k = choose|k: int| 0 <= k < class.len() && class[k] == group.paths[i];
        assert((signed.info)(class[k].parts).signature == Some(classes[b].key));
    }
    assert(alike(signed, classes[b].key, group.paths));
}

/// The directories of a reported group ascend, each is there once, and each is one
/// of the directories that were looked at. The first is the one that is kept.
pub proof fn law_kept_folder_sorts_first(signed: SignedV, g: int)
    requires
        signed.dirs.len() <= usize::MAX,
        ids_unique(signed.dirs),
        0 <= g < signed.duplicate_folders().len(),
    ensures
        ascending(signed.duplicate_folders()[g].paths),
        forall|k: int|
            0 <= k < signed.duplicate_folders()[g].paths.len() ==> signed.dirs.contains(
                #[trigger] signed.duplicate_folders()[g].paths[k],
            ),
{
    let b = lemma_group_class(signed, g);
    let class = signed.classes(signed.dirs)[b].paths;
    lemma_class_ascends(signed, b);
    lemma_classes_known(signed, signed.dirs);
    lemma_not_implied(signed, signed.further(), in_order(class));
    let paths = signed.duplicate_folders()[g].paths;
    assert forall|k: int| 0 <= k < paths.len() implies signed.dirs.contains(#[trigger] paths[k]) by {
        assert(in_order(class).contains(paths[k]));
        assert(class.contains(paths[k]));
        let i = choose|i: int| 0 <= i < class.len() && class[i] == paths[k];
        assert(signed.dirs.contains(signed.classes(signed.dirs)[b].paths[i]));
    }
}

/// No directory that is reported lies in a further copy of another: there its match
/// is implied.
pub proof fn law_nested_folders_not_reported(signed: SignedV, g: int, k: int)
    requires
        signed.dirs.len() <= usize::MAX,
        0 <= g < signed.duplicate_folders().len(),
        0 <= k < signed.duplicate_folders()[g].paths.len(),
    ensures
        !signed.lies_below(signed.further(), signed.duplicate_folders()[g].paths[k].parts),
{
    let b = lemma_group_class(signed, g);
    let class = signed.classes(signed.dirs)[b].paths;
    lemma_not_implied(signed, signed.further(), in_order(class));
}

/// What is in the set of directories whose match is not implied.
pub proof fn lemma_matched_is(signed: SignedV, further: Set<PathId>, classes: Seq<Seq<PathV>>, q: PathId) -> (r: (int, int))
    requires
        signed.matched_dirs(further, classes).contains(q),
    ensures
        0 <= r.0 < classes.len(),
        signed.not_implied(further, in_order(classes[r.0])).len() >= 2,
        0 <= r.1 < signed.not_implied(further, in_order(classes[r.0])).len(),
        signed.not_implied(further, in_order(classes[r.0]))[r.1].parts == q,
    decreases classes.len(),
{
    let s = classes.drop_last();
    if signed.matched_dirs(further, s).contains(q) {
        let r = lemma_matched_is(signed, further, s, q);
        assert(s[r.0] == classes[r.0]);
        r
    } else {
        let kept = signed.not_implied(further, in_order(classes.last()));
        lemma_ids_has(kept, q);
        let k = choose|k: int| 0 <= k < kept.len() && (#[trigger] kept[k]).parts == q;
        assert(classes[classes.len() - 1] == classes.last());
        (classes.len() - 1, k)
    }
}

pub proof fn lemma_matched_has(signed: SignedV, further: Set<PathId>, classes: Seq<Seq<PathV>>, c: int, i: int)
    requires
        0 <= c < classes.len(),
        signed.not_implied(further, in_order(classes[c])).len() >= 2,
        0 <= i < signed.not_implied(further, in_order(classes[c])).len(),
    ensures
        signed.matched_dirs(further, classes).contains(signed.not_implied(further, in_order(classes[c]))[i].parts),
    decreases classes.len(),
{
    let kept = signed.not_implied(further, in_order(classes[c]));
    if c == classes.len() - 1 {
        lemma_ids_has(kept, kept[i].parts);
        assert(classes[classes.len() - 1] == classes.last());
    } else {
        assert(classes.drop_last()[c] == classes[c]);
        lemma_matched_has(signed, further, classes.drop_last(), c, i);
    }
}

// ------------------------------------------------------------- each in one group

/// Whether no path is in two of these lists.
spec fn apart(lists: Seq<Seq<PathV>>) -> bool {
    forall|c: int, d: int, x: PathV|
        #![trigger lists[c].contains(x), lists[d].contains(x)]
        0 <= c < lists.len() && 0 <= d < lists.len() && lists[c].contains(x) && lists[d].contains(x) ==> c == d
}

proof fn lemma_classes_apart(signed: SignedV, dirs: Seq<PathV>, b: int, c: int, x: PathV)
    requires
        0 <= b < signed.classes(dirs).len(),
        0 <= c < signed.classes(dirs).len(),
        signed.classes(dirs)[b].paths.contains(x),
        signed.classes(dirs)[c].paths.contains(x),
    ensures
        b == c,
{
    let t = signed.classes(dirs);
    lemma_classes_unique(signed, dirs);
    lemma_classes_alike(signed, dirs);
    assert(alike(signed, t[b].key, t[b].paths));
    assert(alike(signed, t[c].key, t[c].paths));
    let i = choose|i: int| 0 <= i < t[b].paths.len() && t[b].paths[i] == x;
    let j = choose|j: int| 0 <= j < t[c].paths.len() && t[c].paths[j] == x;
    assert((signed.info)(t[b].paths[i].parts).signature == Some(t[b].key));
    assert((signed.info)(t[c].paths[j].parts).signature == Some(t[c].key));
}

proof fn lemma_repeated_apart(classes: TableV)
    requires
        forall|b: int, c: int, x: PathV|
            #![trigger classes[b].paths.contains(x), classes[c].paths.contains(x)]
            0 <= b < classes.len() && 0 <= c < classes.len() && classes[b].paths.contains(x) && classes[c].paths.contains(x)
                ==> b == c,
    ensures
        apart(repeated(classes)),
    decreases classes.len(),
{
    if classes.len() > 0 {
        let s = classes.drop_last();
        let n = classes.len() - 1;
        assert forall|b: int, c: int, x: PathV|
            #![trigger s[b].paths.contains(x), s[c].paths.contains(x)]
            0 <= b < s.len() && 0 <= c < s.len() && s[b].paths.contains(x) && s[c].paths.contains(x) implies b == c by {
            assert(classes[b].paths.contains(x) && classes[c].paths.contains(x));
        }
        lemma_repeated_apart(s);
        lemma_repeated(s);
        let (before, r) = (repeated(s), repeated(classes));
        assert forall|c: int, d: int, x: PathV|
            #![trigger r[c].contains(x), r[d].contains(x)]
            0 <= c < r.len() && 0 <= d < r.len() && r[c].contains(x) && r[d].contains(x) implies c == d by {
            if c < before.len() {
                assert(r[c] == before[c]);
                let b = choose|b: int| 0 <= b < s.len() && (#[trigger] s[b]).paths == before[c];
                assert(classes[b].paths.contains(x));
                if d >= before.len() {
                    assert(classes[n].paths.contains(x));
                }
            }
            if d < before.len() {
                assert(r[d] == before[d]);
                let b = choose|b: int| 0 <= b < s.len() && (#[trigger] s[b]).paths == before[d];
                assert(classes[b].paths.contains(x));
                if c >= before.len() {
                    assert(classes[n].paths.contains(x));
                }
            }
            if c < before.len() && d < before.len() {
                assert(before[c].contains(x) && before[d].contains(x));
            }
        }
    }
}

proof fn lemma_candidates_apart(signed: SignedV)
    requires
        signed.dirs.len() <= usize::MAX,
    ensures
        apart(signed.candidates()),
        forall|c: int| 0 <= c < signed.candidates().len() ==> (#[trigger] signed.candidates()[c]).len() <= usize::MAX,
{
    let classes = signed.classes(signed.dirs);
    let rep = repeated(classes);
    let all = signed.candidates();
    assert forall|b: int, c: int, x: PathV|
        #![trigger classes[b].paths.contains(x), classes[c].paths.contains(x)]
        0 <= b < classes.len() && 0 <= c < classes.len() && classes[b].paths.contains(x) && classes[c].paths.contains(
            x,
        ) implies b == c by {
        lemma_classes_apart(signed, signed.dirs, b, c, x);
    }
    lemma_repeated_apart(classes);
    lemma_classes_bounded(signed, signed.dirs);
    let keys = rep.map_values(|c: Seq<PathV>| seq![least_depth(c) as u64]);
    lemma_order_exists(keys);
    let perm = stable_order_of(keys);
    lemma_order_no_duplicates(keys, perm);
    assert forall|c: int, d: int, x: PathV|
        #![trigger all[c].contains(x), all[d].contains(x)]
        0 <= c < all.len() && 0 <= d < all.len() && all[c].contains(x) && all[d].contains(x) implies c == d by {
        assert(all[c] == rep[perm[c] as int] && all[d] == rep[perm[d] as int]);
        assert(rep[perm[c] as int].contains(x) && rep[perm[d] as int].contains(x));
        assert(perm[c] == perm[d]);
    }
    assert forall|c: int| 0 <= c < all.len() implies (#[trigger] all[c]).len() <= usize::MAX by {
        let b = lemma_candidate_class(signed, c);
    }
}

proof fn lemma_kept_member(signed: SignedV, class: Seq<PathV>, x: PathV)
    requires
        class.len() <= usize::MAX,
        kept_of(signed, class).contains(x),
    ensures
        class.contains(x),
{
    let kept = kept_of(signed, class);
    lemma_not_implied(signed, signed.further(), in_order(class));
    lemma_arranged(class, class.map_values(|p: PathV| path_code(p.parts)));
    let i = choose|i: int| 0 <= i < kept.len() && kept[i] == x;
    assert(in_order(class).contains(kept[i]));
}

proof fn lemma_report_apart(signed: SignedV, classes: Seq<Seq<PathV>>)
    requires
        apart(classes),
        forall|c: int| 0 <= c < classes.len() ==> (#[trigger] classes[c]).len() <= usize::MAX,
    ensures
        apart(report_of(signed, classes).map_values(|g: FolderV| g.paths)),
    decreases classes.len(),
{
    let lists = report_of(signed, classes).map_values(|g: FolderV| g.paths);
    if classes.len() > 0 {
        let s = classes.drop_last();
        let n = classes.len() - 1;
        assert(apart(s)) by {
            assert forall|c: int, d: int, x: PathV|
                #![trigger s[c].contains(x), s[d].contains(x)]
                0 <= c < s.len() && 0 <= d < s.len() && s[c].contains(x) && s[d].contains(x) implies c == d by {
                assert(classes[c].contains(x) && classes[d].contains(x));
            }
        }
        assert forall|c: int| 0 <= c < s.len() implies (#[trigger] s[c]).len() <= usize::MAX by {
            assert(s[c] == classes[c]);
        }
        lemma_report_apart(signed, s);
        lemma_reported(signed, s);
        let groups = report_of(signed, s);
        let before = groups.map_values(|g: FolderV| g.paths);
        assert forall|c: int, d: int, x: PathV|
            #![trigger lists[c].contains(x), lists[d].contains(x)]
            0 <= c < lists.len() && 0 <= d < lists.len() && lists[c].contains(x) && lists[d].contains(x) implies c == d by {
            if c < before.len() && d < before.len() {
                assert(lists[c] == before[c] && lists[d] == before[d]);
                assert(before[c].contains(x) && before[d].contains(x));
            } else if c < before.len() || d < before.len() {
                let e = if c < before.len() {
                    c
                } else {
                    d
                };
                assert(lists[e] == before[e]);
                assert(before[e] == groups[e].paths);
                assert(from_class(signed, s, groups[e]));
                let b = choose|b: int|
                    0 <= b < s.len() && is_reported(signed, #[trigger] s[b]) && signed.folder_group(
                        kept_of(signed, s[b]),
                    ) == groups[e];
                lemma_kept_member(signed, s[b], x);
                assert(classes[b].contains(x));
                assert(classes[n].len() <= usize::MAX);
                lemma_kept_member(signed, classes[n], x);
                assert(classes[n].contains(x));
            }
        }
    }
}

/// Each directory is in at most one reported group, and there once.
pub proof fn law_each_folder_in_one_group(signed: SignedV, g: int, i: int, h: int, j: int)
    requires
        signed.dirs.len() <= usize::MAX,
        ids_unique(signed.dirs),
        0 <= g < signed.duplicate_folders().len(),
        0 <= i < signed.duplicate_folders()[g].paths.len(),
        0 <= h < signed.duplicate_folders().len(),
        0 <= j < signed.duplicate_folders()[h].paths.len(),
        signed.duplicate_folders()[g].paths[i].parts == signed.duplicate_folders()[h].paths[j].parts,
    ensures
        g == h,
        i == j,
{
    let all = signed.duplicate_folders();
    let found = report_of(signed, signed.candidates());
    lemma_candidates_apart(signed);
    lemma_report_apart(signed, signed.candidates());
    lemma_reported(signed, signed.candidates());
    lemma_classes_bounded(signed, signed.dirs);
    let rep = repeated(signed.classes(signed.dirs));
    lemma_arranged(rep, rep.map_values(|c: Seq<PathV>| seq![least_depth(c) as u64]));
    let keys = found.map_values(|g: FolderV| heaviest_first(folder_weight(g)));
    lemma_order_exists(keys);
    let perm = stable_order_of(keys);
    lemma_order_no_duplicates(keys, perm);
    law_kept_folder_sorts_first(signed, g);
    law_kept_folder_sorts_first(signed, h);
    let (p, q) = (all[g].paths[i], all[h].paths[j]);
    assert(signed.dirs.contains(p) && signed.dirs.contains(q));
    let x = choose|x: int| 0 <= x < signed.dirs.len() && signed.dirs[x] == p;
    let y = choose|y: int| 0 <= y < signed.dirs.len() && signed.dirs[y] == q;
    assert(signed.dirs[x].parts == signed.dirs[y].parts);
    assert(x == y);
    let lists = found.map_values(|g: FolderV| g.paths);
    let (c, d) = (perm[g] as int, perm[h] as int);
    assert(all[g] == found[c] && all[h] == found[d]);
    assert(lists[c] == all[g].paths && lists[d] == all[h].paths);
    assert(lists[c].contains(p) && lists[d].contains(p));
    assert(perm[g] == perm[h]);
    let paths = all[g].paths;
    law_paths_sort_by_parts(p.parts, p.parts);
    lemma_lex_asymmetric(path_code(p.parts), path_code(p.parts));
    if i < j {
        assert(path_before(paths[i].parts, paths[j].parts));
    } else if j < i {
        assert(path_before(paths[j].parts, paths[i].parts));
    }
}

pub proof fn lemma_class_of(signed: SignedV, dirs: Seq<PathV>, i: int, sig: Seq<char>)
    requires
        0 <= i < dirs.len(),
        (signed.info)(dirs[i].parts).signature == Some(sig),
    ensures
        keys_unique(signed.classes(dirs)),
        pos(signed.classes(dirs), sig) < signed.classes(dirs).len(),
        signed.classes(dirs)[pos(signed.classes(dirs), sig)].paths.contains(dirs[i]),
    decreases dirs.len(),
{
    let s = dirs.drop_last();
    let before = signed.classes(s);
    let t = signed.classes(dirs);
    lemma_classes_unique(signed, s);
    lemma_pos(before, sig);
    match (signed.info)(dirs.last().parts).signature {
        Some(last) => {
            lemma_pos(before, last);
            lemma_added_unique(before, last, 0, dirs.last());
            let p = pos(before, last);
            if i == dirs.len() - 1 {
                assert(t[p].key == sig);
                lemma_pos_is(t, p);
                assert(t[p].paths.last() == dirs[i]);
                assert(t[p].paths.contains(dirs[i]));
            } else {
                lemma_class_of(signed, s, i, sig);
                let q = pos(before, sig);
                let k = choose|k: int| 0 <= k < before[q].paths.len() && before[q].paths[k] == dirs[i];
                assert(t[q].key == sig);
                lemma_pos_is(t, q);
                assert(t[q].paths[k] == dirs[i]);
            }
        },
        None => {
            lemma_class_of(signed, s, i, sig);
        },
    }
}

proof fn lemma_classes_unique(signed: SignedV, dirs: Seq<PathV>)
    ensures
        keys_unique(signed.classes(dirs)),
    decreases dirs.len(),
{
    if dirs.len() > 0 {
        let s = dirs.drop_last();
        lemma_classes_unique(signed, s);
        match (signed.info)(dirs.last().parts).signature {
            Some(sig) => lemma_added_unique(signed.classes(s), sig, 0, dirs.last()),
            None => {},
        }
    }
}

proof fn lemma_repeated_has(classes: TableV, b: int)
    requires
        0 <= b < classes.len(),
        classes[b].paths.len() >= 2,
    ensures
        repeated(classes).contains(classes[b].paths),
    decreases classes.len(),
{
    let s = classes.drop_last();
    let r = repeated(classes);
    if b == classes.len() - 1 {
        assert(r.last() == classes[b].paths);
    } else {
        lemma_repeated_has(s, b);
        let k = choose|k: int| 0 <= k < repeated(s).len() && repeated(s)[k] == classes[b].paths;
        assert(r[k] == classes[b].paths);
    }
}

// ------------------------------------------------- what makes directories copies

/// Whether two lists of files pair up: the same name, and both in one group.
pub open spec fn files_pair(tree: TreeV, a: Seq<PathV>, b: Seq<PathV>) -> bool {
    &&& a.len() == b.len()
    &&& forall|i: int|
        0 <= i < a.len() ==> name_of((#[trigger] a[i]).parts) == name_of(b[i].parts) && tree.at.contains_key(
            a[i].parts,
        ) && tree.at.contains_key(b[i].parts) && tree.at[a[i].parts] == tree.at[b[i].parts]
}

/// Whether two directories hold the same, all the way down: the files pair up,
/// and so do the directories, by name and by what they hold.
pub open spec fn same_contents(tree: TreeV, d: PathId, e: PathId, height: nat) -> bool
    decreases height,
{
    let (a, b) = (by_name(tree.subs_in(d)), by_name(tree.subs_in(e)));
    &&& tree.unread.contains(d) == tree.unread.contains(e)
    &&& files_pair(tree, by_name(tree.files_in(d)), by_name(tree.files_in(e)))
    &&& a.len() == b.len()
    &&& forall|i: int|
        0 <= i < a.len() ==> name_of((#[trigger] a[i]).parts) == name_of(b[i].parts) && height > 0
            && same_contents(tree, a[i].parts, b[i].parts, (height - 1) as nat)
}

proof fn lemma_files_alike(tree: TreeV, a: Seq<PathV>, b: Seq<PathV>)
    requires
        files_pair(tree, a, b),
    ensures
        tree.tally_files(a) == tree.tally_files(b),
    decreases a.len(),
{
    if a.len() > 0 {
        let (s, t) = (a.drop_last(), b.drop_last());
        assert(files_pair(tree, s, t)) by {
            assert forall|i: int| 0 <= i < s.len() implies name_of((#[trigger] s[i]).parts) == name_of(t[i].parts)
                && tree.at.contains_key(s[i].parts) && tree.at.contains_key(t[i].parts) && tree.at[s[i].parts]
                == tree.at[t[i].parts] by {
                assert(s[i] == a[i] && t[i] == b[i]);
            }
        }
        lemma_files_alike(tree, s, t);
        assert(name_of(a[a.len() - 1].parts) == name_of(b[a.len() - 1].parts));
    }
}

proof fn lemma_subs_alike(tree: TreeV, start: TallyV, a: Seq<PathV>, b: Seq<PathV>, height: nat)
    requires
        a.len() == b.len(),
        forall|i: int|
            0 <= i < a.len() ==> name_of((#[trigger] a[i]).parts) == name_of(b[i].parts) && height > 0
                && same_contents(tree, a[i].parts, b[i].parts, (height - 1) as nat),
    ensures
        tree.tally_subs(start, a, height) == tree.tally_subs(start, b, height),
    decreases height, 0int, a.len(),
{
    if a.len() > 0 {
        let (s, t) = (a.drop_last(), b.drop_last());
        let n = a.len() - 1;
        assert forall|i: int| 0 <= i < s.len() implies name_of((#[trigger] s[i]).parts) == name_of(t[i].parts)
            && height > 0 && same_contents(tree, s[i].parts, t[i].parts, (height - 1) as nat) by {
            assert(s[i] == a[i] && t[i] == b[i]);
        }
        lemma_subs_alike(tree, start, s, t, height);
        assert(same_contents(tree, a[n].parts, b[n].parts, (height - 1) as nat));
        lemma_alike_at(tree, a[n].parts, b[n].parts, (height - 1) as nat);
    }
}

proof fn lemma_alike_at(tree: TreeV, d: PathId, e: PathId, height: nat)
    requires
        same_contents(tree, d, e, height),
    ensures
        tree.info_at(d, height) == tree.info_at(e, height),
    decreases height, 1int, 0nat,
{
    lemma_files_alike(tree, by_name(tree.files_in(d)), by_name(tree.files_in(e)));
    match tree.tally_files(by_name(tree.files_in(d))) {
        Some(t) => lemma_subs_alike(tree, t, by_name(tree.subs_in(d)), by_name(tree.subs_in(e)), height),
        None => {},
    }
}

/// Whether directories lie directly in one that is `depth` parts long, and are
/// no deeper than a tree is.
spec fn one_level(tree: TreeV, list: Seq<PathV>, depth: nat) -> bool {
    forall|i: int|
        0 <= i < list.len() ==> (#[trigger] list[i]).parts.len() == depth + 1 && depth + 1 <= deepest(tree.dirs)
}

proof fn lemma_subs_level(tree: TreeV, d: PathId)
    requires
        tree.dirs.len() <= usize::MAX,
    ensures
        one_level(tree, by_name(tree.subs_in(d)), d.len()),
{
    let list = tree.subs_in(d);
    lemma_filter_bounded(tree.dirs, sub_of(d, tree.roots));
    lemma_arranged(list, list.map_values(|p: PathV| name_key(p.parts)));
    lemma_deepest(tree.dirs);
    let sorted = by_name(list);
    assert forall|i: int| 0 <= i < sorted.len() implies (#[trigger] sorted[i]).parts.len() == d.len() + 1 && d.len() + 1
        <= deepest(tree.dirs) by {
        assert(list.contains(sorted[i]));
        lemma_filter_member(tree.dirs, sub_of(d, tree.roots), sorted[i]);
        let j = choose|j: int| 0 <= j < tree.dirs.len() && tree.dirs[j] == sorted[i];
        assert(tree.dirs[j].parts.len() <= deepest(tree.dirs));
    }
}

proof fn lemma_subs_height(tree: TreeV, start: TallyV, list: Seq<PathV>, depth: nat, h: nat, k: nat)
    requires
        tree.dirs.len() <= usize::MAX,
        one_level(tree, list, depth),
        h + depth >= deepest(tree.dirs),
        k + depth >= deepest(tree.dirs),
    ensures
        tree.tally_subs(start, list, h) == tree.tally_subs(start, list, k),
    decreases h, 0int, list.len(),
{
    if list.len() > 0 {
        let s = list.drop_last();
        assert(one_level(tree, s, depth)) by {
            assert forall|i: int| 0 <= i < s.len() implies (#[trigger] s[i]).parts.len() == depth + 1 && depth + 1
                <= deepest(tree.dirs) by {
                assert(s[i] == list[i]);
            }
        }
        lemma_subs_height(tree, start, s, depth, h, k);
        assert(list[list.len() - 1].parts.len() == depth + 1);
        lemma_height(tree, list.last().parts, (h - 1) as nat, (k - 1) as nat);
    }
}

/// What a directory amounts to does not depend on the height that is allowed
/// for, as long as it is enough.
proof fn lemma_height(tree: TreeV, d: PathId, h: nat, k: nat)
    requires
        tree.dirs.len() <= usize::MAX,
        h + d.len() >= deepest(tree.dirs),
        k + d.len() >= deepest(tree.dirs),
    ensures
        tree.info_at(d, h) == tree.info_at(d, k),
    decreases h, 1int, 0nat,
{
    lemma_subs_level(tree, d);
    match tree.tally_files(by_name(tree.files_in(d))) {
        Some(t) => lemma_subs_height(tree, t, by_name(tree.subs_in(d)), d.len(), h, k),
        None => {},
    }
}

/// Directories that hold the same, all the way down, amount to the same: they
/// have the same signature, if any.
pub proof fn law_equal_folders_match(tree: TreeV, d: PathId, e: PathId, height: nat)
    requires
        tree.dirs.len() <= usize::MAX,
        d.len() <= deepest(tree.dirs),
        e.len() <= deepest(tree.dirs),
        height + d.len() >= deepest(tree.dirs),
        height + e.len() >= deepest(tree.dirs),
        same_contents(tree, d, e, height),
    ensures
        tree.info(d) == tree.info(e),
{
    lemma_alike_at(tree, d, e, height);
    lemma_height(tree, d, height, (deepest(tree.dirs) - d.len()) as nat);
    lemma_height(tree, e, height, (deepest(tree.dirs) - e.len()) as nat);
}

/// The bytes that the signature of a directory is the digest of.
pub open spec fn described(tree: TreeV, d: PathId) -> Option<Seq<u8>> {
    if tree.unread.contains(d) {
        None
    } else {
        match tree.tally_files(by_name(tree.files_in(d))) {
            None => None,
            Some(t) => match tree.tally_subs(t, by_name(tree.subs_in(d)), (deepest(tree.dirs) - d.len()) as nat) {
                None => None,
                Some(t2) => if info_of(t2).signature is None {
                    None
                } else {
                    Some(vstd::utf8::encode_utf8(description(t2.entries)))
                },
            },
        }
    }
}

/// Whether different descriptions of directories have different digests.
pub open spec fn no_collisions(tree: TreeV) -> bool {
    forall|d: PathId, e: PathId|
        (#[trigger] described(tree, d)) is Some && (#[trigger] described(tree, e)) is Some && content_digest(
            described(tree, d).unwrap(),
        ) == content_digest(described(tree, e).unwrap()) ==> described(tree, d) == described(tree, e)
}

/// The directories of a reported group have the same description, entry by
/// entry, all the way down, unless digests collide.
pub proof fn law_reported_folders_read_alike(tree: TreeV, g: int, i: int, j: int)
    requires
        tree.dirs.len() <= usize::MAX,
        no_collisions(tree),
        0 <= g < tree.duplicate_folders().len(),
        0 <= i < tree.duplicate_folders()[g].paths.len(),
        0 <= j < tree.duplicate_folders()[g].paths.len(),
    ensures
        described(tree, tree.duplicate_folders()[g].paths[i].parts) is Some,
        described(tree, tree.duplicate_folders()[g].paths[i].parts) == described(
            tree,
            tree.duplicate_folders()[g].paths[j].parts,
        ),
{
    let signed = tree.signed();
    law_reported_groups_match(signed, g);
    let paths = tree.duplicate_folders()[g].paths;
    let sig = choose|sig: Seq<char>| #[trigger] alike(signed, sig, paths);
    assert((signed.info)(paths[i].parts).signature == Some(sig));
    assert((signed.info)(paths[j].parts).signature == Some(sig));
    assert(tree.info(paths[i].parts).signature == Some(sig));
    assert(tree.info(paths[j].parts).signature == Some(sig));
    assert(content_digest(described(tree, paths[i].parts).unwrap()) == sig);
    assert(content_digest(described(tree, paths[j].parts).unwrap()) == sig);
}

} // verus!
