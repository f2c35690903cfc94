//! What is told of a duplicate folder: how many files lie in it, what they take up, and
//! whether all of them are sure to be duplicates.

use vstd::prelude::*;

use crate::folder_copies::{
    groups_apart, law_signed_folders_are_complete, lemma_chain, lemma_depth, lemma_file_dir, lemma_filter_has,
    lemma_position_has, lemma_position_is, lemma_sorted, lemma_step, lemma_well_built, searchable, sorted_files,
    sorted_subs, well_built, well_split,
};
use crate::folder_laws::{
    alike, kept_of, law_kept_folder_sorts_first, law_largest_folders_come_first, law_reported_groups_match,
    lemma_filter_bounded, lemma_group_class,
};
use crate::folders::{
    by_name, deepest, has_dir, ids_unique, info_of, lemma_dirs, lemma_filter_member, lies_in, name_key, sub_of,
    tree_of, wrapped_count, TallyV, TreeV,
};
use crate::groups::{wrapped, GroupV};
use crate::order::{arranged, is_stable_order, lemma_covers, lemma_order_exists, lemma_order_no_duplicates, stable_order_of};
use crate::paths::{is_under, parent_of, PathId, PathV};

verus! {

// -------------------------------------------------------------------------- sums

/// The sum of what the items of a list weigh.
pub open spec fn total<T>(list: Seq<T>, weight: spec_fn(T) -> int) -> int
    decreases list.len(),
{
    if list.len() == 0 {
        0
    } else {
        total(list.drop_last(), weight) + weight(list.last())
    }
}

proof fn lemma_total_same<T>(list: Seq<T>, a: spec_fn(T) -> int, b: spec_fn(T) -> int)
    requires
        forall|i: int| 0 <= i < list.len() ==> a(#[trigger] list[i]) == b(list[i]),
    ensures
        total(list, a) == total(list, b),
    decreases list.len(),
{
    if list.len() > 0 {
        let s = list.drop_last();
        assert forall|i: int| 0 <= i < s.len() implies a(#[trigger] s[i]) == b(s[i]) by {
            assert(s[i] == list[i]);
        }
        lemma_total_same(s, a, b);
        assert(a(list[list.len() - 1]) == b(list[list.len() - 1]));
    }
}

proof fn lemma_total_plus<T>(list: Seq<T>, a: spec_fn(T) -> int, b: spec_fn(T) -> int, c: spec_fn(T) -> int)
    requires
        forall|i: int| 0 <= i < list.len() ==> c(#[trigger] list[i]) == a(list[i]) + b(list[i]),
    ensures
        total(list, c) == total(list, a) + total(list, b),
    decreases list.len(),
{
    if list.len() > 0 {
        let s = list.drop_last();
        assert forall|i: int| 0 <= i < s.len() implies c(#[trigger] s[i]) == a(s[i]) + b(s[i]) by {
            assert(s[i] == list[i]);
        }
        lemma_total_plus(s, a, b, c);
        let n = list.len() - 1;
        assert(c(list[n]) == a(list[n]) + b(list[n]));
    }
}

/// Where one item weighs something and the others nothing.
proof fn lemma_total_one<T>(list: Seq<T>, a: spec_fn(T) -> int, x: int)
    requires
        0 <= x < list.len(),
        forall|i: int| 0 <= i < list.len() && i != x ==> a(#[trigger] list[i]) == 0,
    ensures
        total(list, a) == a(list[x]),
    decreases list.len(),
{
    let s = list.drop_last();
    let n = list.len() - 1;
    if x == n {
        assert forall|i: int| 0 <= i < s.len() implies a(#[trigger] s[i]) == 0 by {
            assert(s[i] == list[i]);
        }
        lemma_total_none(s, a);
    } else {
        assert forall|i: int| 0 <= i < s.len() && i != x implies a(#[trigger] s[i]) == 0 by {
            assert(s[i] == list[i]);
        }
        lemma_total_one(s, a, x);
        assert(a(list[n]) == 0);
    }
}

proof fn lemma_total_none<T>(list: Seq<T>, a: spec_fn(T) -> int)
    requires
        forall|i: int| 0 <= i < list.len() ==> a(#[trigger] list[i]) == 0,
    ensures
        total(list, a) == 0,
    decreases list.len(),
{
    if list.len() > 0 {
        let s = list.drop_last();
        assert forall|i: int| 0 <= i < s.len() implies a(#[trigger] s[i]) == 0 by {
            assert(s[i] == list[i]);
        }
        lemma_total_none(s, a);
        assert(a(list[list.len() - 1]) == 0);
    }
}

proof fn lemma_total_not_negative<T>(list: Seq<T>, a: spec_fn(T) -> int)
    requires
        forall|x: T| #[trigger] a(x) >= 0,
    ensures
        total(list, a) >= 0,
    decreases list.len(),
{
    if list.len() > 0 {
        lemma_total_not_negative(list.drop_last(), a);
    }
}

proof fn lemma_total_remove<T>(list: Seq<T>, a: spec_fn(T) -> int, k: int)
    requires
        0 <= k < list.len(),
    ensures
        total(list.remove(k), a) == total(list, a) - a(list[k]),
    decreases list.len(),
{
    if k == list.len() - 1 {
        assert(list.remove(k) =~= list.drop_last());
    } else {
        lemma_total_remove(list.drop_last(), a, k);
        assert(list.remove(k).drop_last() =~= list.drop_last().remove(k));
        assert(list.remove(k).last() == list.last());
    }
}

/// The order of a list makes no difference to its sum.
proof fn lemma_total_arranged<T>(items: Seq<T>, perm: Seq<usize>, a: spec_fn(T) -> int)
    requires
        perm.len() == items.len(),
        perm.no_duplicates(),
        forall|i: int| 0 <= i < perm.len() ==> (#[trigger] perm[i]) < perm.len(),
    ensures
        total(arranged(items, perm), a) == total(items, a),
    decreases items.len(),
{
    let out = arranged(items, perm);
    if items.len() > 0 {
        let n = items.len() - 1;
        let k = lemma_covers(perm, n);
        let rest = perm.remove(k);
        let was = |i: int|
            if i < k {
                i
            } else {
                i + 1
            };
        assert forall|i: int| 0 <= i < rest.len() implies (#[trigger] rest[i]) < rest.len() by {
            assert(rest[i] == perm[was(i)]);
            assert(perm[was(i)] != perm[k]);
        }
        assert forall|i: int, j: int| 0 <= i < rest.len() && 0 <= j < rest.len() && i != j implies rest[i] != rest[j] by {
            assert(rest[i] == perm[was(i)] && rest[j] == perm[was(j)]);
        }
        lemma_total_arranged(items.drop_last(), rest, a);
        assert(out.remove(k) =~= arranged(items.drop_last(), rest));
        lemma_total_remove(out, a, k);
        assert(out[k] == items[n]);
    }
}

// ------------------------------------------------------------------ what is told

/// Whether a path lies in a directory, at whatever depth.
pub open spec fn inside(path: PathId, d: PathId) -> bool {
    is_under(path, d) && path.len() > d.len()
}

/// The sum of what those of some files weigh that lie in a directory, at whatever depth.
pub open spec fn sum_inside(files: Seq<PathV>, d: PathId, weight: spec_fn(PathV) -> int) -> int {
    total(
        files,
        |f: PathV|
            if inside(f.parts, d) {
                weight(f)
            } else {
                0
            },
    )
}

proof fn lemma_filter_once(list: Seq<PathV>, keep: spec_fn(PathV) -> bool)
    requires
        ids_unique(list),
    ensures
        ids_unique(list.filter(keep)),
    decreases list.len(),
{
    reveal(Seq::filter);
    if list.len() > 0 {
        let s = list.drop_last();
        assert(ids_unique(s)) by {
            assert forall|i: int, j: int| 0 <= i < j < s.len() implies (#[trigger] s[i]).parts != (#[trigger] s[j]).parts by {
                assert(list[i].parts != list[j].parts);
            }
        }
        lemma_filter_once(s, keep);
        let (before, all) = (s.filter(keep), list.filter(keep));
        assert forall|i: int, j: int| 0 <= i < j < all.len() implies (#[trigger] all[i]).parts != (#[trigger] all[j]).parts by {
            assert(all[i] == before[i]);
            if j < before.len() {
                assert(all[j] == before[j]);
            } else {
                lemma_filter_member(s, keep, before[i]);
                let k = choose|k: int| 0 <= k < s.len() && s[k] == before[i];
                assert(list[k].parts != list[list.len() - 1].parts);
            }
        }
    }
}

/// A file that lies in a directory but not directly lies in exactly one of the directories
/// that lie directly in it.
proof fn lemma_in_one_sub(tree: TreeV, d: PathId, x: int, weight: spec_fn(PathV) -> int)
    requires
        well_built(tree),
        has_dir(tree.dirs, d),
        !tree.unread.contains(d),
        0 <= x < tree.files.len(),
    ensures
        total(
            tree.subs_in(d),
            |s: PathV|
                if inside(tree.files[x].parts, s.parts) {
                    weight(tree.files[x])
                } else {
                    0
                },
        ) == (if inside(tree.files[x].parts, d) && parent_of(tree.files[x].parts) != Some(d) {
            weight(tree.files[x])
        } else {
            0
        }),
        parent_of(tree.files[x].parts) == Some(d) ==> inside(tree.files[x].parts, d),
{
    let f = tree.files[x];
    let p = f.parts;
    let subs = tree.subs_in(d);
    let a = |s: PathV|
        if inside(p, s.parts) {
            weight(f)
        } else {
            0
        };
    lemma_dirs(tree.files, tree.roots);
    lemma_filter_once(tree.dirs, sub_of(d, tree.roots));
    if parent_of(p) == Some(d) {
        assert(d =~= p.subrange(0, d.len() as int));
    }
    let deep = inside(p, d) && parent_of(p) != Some(d);
    assert forall|i: int| 0 <= i < subs.len() && inside(p, (#[trigger] subs[i]).parts) implies deep && subs[i].parts
        == p.take(d.len() as int + 1) by {
        let s = subs[i];
        lemma_filter_member(tree.dirs, sub_of(d, tree.roots), s);
        assert(s.parts == p.subrange(0, s.parts.len() as int));
        assert(d == s.parts.drop_last());
        assert(d =~= p.subrange(0, d.len() as int));
        assert(s.parts =~= p.take(d.len() as int + 1));
        if parent_of(p) == Some(d) {
            assert(p.len() == d.len() + 1);
        }
    }
    if deep {
        lemma_file_dir(tree, d, x);
        let n = p.len() - 1;
        let q = p.take(d.len() as int + 1);
        assert(p.take(n) =~= p.drop_last());
        assert(well_split(tree.files[x].parts));
        if n == d.len() {
            assert(d == p.subrange(0, d.len() as int));
            assert(p.drop_last() =~= d);
        }
        lemma_chain(tree, d, p, n, d.len() as int + 1);
        lemma_step(tree, d, p, d.len() as int + 1);
        assert(p.take(d.len() as int) =~= d) by {
            assert(d == p.subrange(0, d.len() as int));
        }
        let y = choose|y: int| 0 <= y < tree.dirs.len() && (#[trigger] tree.dirs[y]).parts == q;
        lemma_filter_has(tree.dirs, sub_of(d, tree.roots), y);
        let k = choose|k: int| 0 <= k < subs.len() && subs[k] == tree.dirs[y];
        assert(q =~= p.subrange(0, q.len() as int));
        assert(inside(p, subs[k].parts));
        assert forall|i: int| 0 <= i < subs.len() && i != k implies a(#[trigger] subs[i]) == 0 by {
            if inside(p, subs[i].parts) {
                if i < k {
                    assert(subs[i].parts != subs[k].parts);
                } else {
                    assert(subs[k].parts != subs[i].parts);
                }
            }
        }
        lemma_total_one(subs, a, k);
    } else {
        lemma_total_none(subs, a);
    }
}

/// What lies in a directory lies directly in it, or in one of the directories that do.
proof fn lemma_split(tree: TreeV, d: PathId, weight: spec_fn(PathV) -> int, n: int)
    requires
        well_built(tree),
        has_dir(tree.dirs, d),
        !tree.unread.contains(d),
        0 <= n <= tree.files.len(),
    ensures
        sum_inside(tree.files.take(n), d, weight) == total(tree.files.take(n).filter(lies_in(d)), weight) + total(
            tree.subs_in(d),
            |s: PathV| sum_inside(tree.files.take(n), s.parts, weight),
        ),
    decreases n,
{
    let part = tree.files.take(n);
    let subs = tree.subs_in(d);
    let sums = |s: PathV| sum_inside(part, s.parts, weight);
    reveal(Seq::filter);
    if n == 0 {
        assert forall|i: int| 0 <= i < subs.len() implies sums(#[trigger] subs[i]) == 0 by {}
        lemma_total_none(subs, sums);
    } else {
        lemma_split(tree, d, weight, n - 1);
        let before = tree.files.take(n - 1);
        let f = tree.files[n - 1];
        assert(part.drop_last() =~= before);
        assert(part.last() == f);
        let old = |s: PathV| sum_inside(before, s.parts, weight);
        let more = |s: PathV|
            if inside(tree.files[n - 1].parts, s.parts) {
                weight(tree.files[n - 1])
            } else {
                0
            };
        assert forall|i: int| 0 <= i < subs.len() implies sums(#[trigger] subs[i]) == old(subs[i]) + more(subs[i]) by {}
        lemma_total_plus(subs, old, more, sums);
        lemma_in_one_sub(tree, d, n - 1, weight);
        let listed = before.filter(lies_in(d));
        if lies_in(d)(f) {
            assert(listed.push(f).drop_last() =~= listed);
            assert(d =~= f.parts.subrange(0, d.len() as int));
        }
    }
}

// -------------------------------------------------------------------- one tally

spec fn size_in(tree: TreeV) -> spec_fn(PathV) -> int {
    |f: PathV| tree.groups[tree.at[f.parts] as int].size as int
}

spec fn once() -> spec_fn(PathV) -> int {
    |f: PathV| 1int
}

spec fn sure(tree: TreeV, f: PathV) -> bool {
    tree.groups[tree.at[f.parts] as int].confirmed
}

/// What is told of a directory is what the files in it add up to.
spec fn told_right(tree: TreeV, d: PathId) -> bool {
    &&& tree.info(d).size == wrapped(sum_inside(tree.files, d, size_in(tree)))
    &&& tree.info(d).count == wrapped_count(sum_inside(tree.files, d, once()))
    &&& tree.info(d).confirmed <==> all_sure(tree, d)
}

spec fn all_sure(tree: TreeV, d: PathId) -> bool {
    forall|x: int| 0 <= x < tree.files.len() && inside((#[trigger] tree.files[x]).parts, d) ==> sure(tree, tree.files[x])
}

proof fn lemma_mod_plus(a: int, b: int)
    requires
        a >= 0,
        b >= 0,
    ensures
        wrapped(wrapped(a) + wrapped(b)) == wrapped(a + b),
        wrapped_count(wrapped_count(a) + wrapped_count(b)) == wrapped_count(a + b),
        0 <= a < 0x1_0000_0000_0000_0000 ==> wrapped(a) == a,
        0 <= a <= usize::MAX ==> wrapped_count(a) == a,
{
    vstd::arithmetic::div_mod::lemma_add_mod_noop(a, b, 0x1_0000_0000_0000_0000);
    vstd::arithmetic::div_mod::lemma_add_mod_noop(a, b, usize::MAX + 1);
    vstd::arithmetic::div_mod::lemma_mod_bound(a, usize::MAX + 1);
    vstd::arithmetic::div_mod::lemma_mod_bound(b, usize::MAX + 1);
    if 0 <= a <= usize::MAX {
        vstd::arithmetic::div_mod::lemma_small_mod(a as nat, (usize::MAX + 1) as nat);
    }
}

proof fn lemma_files_told(tree: TreeV, list: Seq<PathV>)
    requires
        tree.tally_files(list) is Some,
    ensures
        tree.tally_files(list).unwrap().size == wrapped(total(list, size_in(tree))),
        tree.tally_files(list).unwrap().count == wrapped_count(total(list, once())),
        tree.tally_files(list).unwrap().confirmed <==> forall|i: int|
            0 <= i < list.len() ==> sure(tree, #[trigger] list[i]),
    decreases list.len(),
{
    lemma_mod_plus(0, 0);
    if list.len() > 0 {
        let s = list.drop_last();
        let n = list.len() - 1;
        lemma_files_told(tree, s);
        let (a, b) = (total(s, size_in(tree)), size_in(tree)(list.last()));
        lemma_total_not_negative(s, size_in(tree));
        lemma_total_not_negative(s, once());
        lemma_mod_plus(a, b);
        lemma_mod_plus(b, 0);
        lemma_mod_plus(total(s, once()), 1);
        lemma_mod_plus(1, 0);
        let t = tree.tally_files(list).unwrap();
        if t.confirmed {
            assert forall|i: int| 0 <= i < list.len() implies sure(tree, #[trigger] list[i]) by {
                if i < n {
                    assert(s[i] == list[i]);
                }
            }
        }
        if forall|i: int| 0 <= i < list.len() ==> sure(tree, #[trigger] list[i]) {
            assert forall|i: int| 0 <= i < s.len() implies sure(tree, #[trigger] s[i]) by {
                assert(s[i] == list[i]);
            }
            assert(sure(tree, list[n]));
        }
    }
}

proof fn lemma_subs_told(tree: TreeV, start: TallyV, list: Seq<PathV>, height: nat, a: int, b: int)
    requires
        tree.tally_subs(start, list, height) is Some,
        forall|i: int|
            0 <= i < list.len() ==> height > 0 && (#[trigger] list[i]).parts.len() <= deepest(tree.dirs)
                && height - 1 == deepest(tree.dirs) - list[i].parts.len() && (tree.info(list[i].parts).signature is Some
                ==> told_right(tree, list[i].parts)),
        a >= 0,
        b >= 0,
        start.size == wrapped(a),
        start.count == wrapped_count(b),
    ensures
        ({
            let t = tree.tally_subs(start, list, height).unwrap();
            &&& t.size == wrapped(a + total(list, |s: PathV| sum_inside(tree.files, s.parts, size_in(tree))))
            &&& t.count == wrapped_count(b + total(list, |s: PathV| sum_inside(tree.files, s.parts, once())))
            &&& t.confirmed <==> start.confirmed && forall|i: int|
                0 <= i < list.len() ==> all_sure(tree, (#[trigger] list[i]).parts)
        }),
    decreases list.len(),
{
    let sizes = |s: PathV| sum_inside(tree.files, s.parts, size_in(tree));
    let counts = |s: PathV| sum_inside(tree.files, s.parts, once());
    if list.len() > 0 {
        let s = list.drop_last();
        let n = list.len() - 1;
        assert forall|i: int| 0 <= i < s.len() implies height > 0 && (#[trigger] s[i]).parts.len() <= deepest(tree.dirs)
            && height - 1 == deepest(tree.dirs) - s[i].parts.len() && (tree.info(s[i].parts).signature is Some
            ==> told_right(tree, s[i].parts)) by {
            assert(s[i] == list[i]);
        }
        lemma_subs_told(tree, start, s, height, a, b);
        let last = list[n];
        assert(last == list.last());
        assert(tree.info(last.parts) == tree.info_at(last.parts, (height - 1) as nat));
        assert(told_right(tree, last.parts));
        let (x, y) = (sizes(last), counts(last));
        lemma_inside_not_negative(tree, last.parts);
        assert forall|q: PathV| #[trigger] sizes(q) >= 0 by {
            lemma_inside_not_negative(tree, q.parts);
        }
        assert forall|q: PathV| #[trigger] counts(q) >= 0 by {
            lemma_inside_not_negative(tree, q.parts);
        }
        lemma_total_not_negative(s, sizes);
        lemma_total_not_negative(s, counts);
        lemma_mod_plus(a + total(s, sizes), x);
        lemma_mod_plus(b + total(s, counts), y);
        let t = tree.tally_subs(start, list, height).unwrap();
        if t.confirmed {
            assert forall|i: int| 0 <= i < list.len() implies all_sure(tree, (#[trigger] list[i]).parts) by {
                if i < n {
                    assert(s[i] == list[i]);
                }
            }
        }
        if forall|i: int| 0 <= i < list.len() ==> all_sure(tree, (#[trigger] list[i]).parts) {
            assert forall|i: int| 0 <= i < s.len() implies all_sure(tree, (#[trigger] s[i]).parts) by {
                assert(s[i] == list[i]);
            }
            assert(all_sure(tree, list[n].parts));
        }
    }
}

proof fn lemma_inside_not_negative(tree: TreeV, d: PathId)
    ensures
        sum_inside(tree.files, d, size_in(tree)) >= 0,
        sum_inside(tree.files, d, once()) >= 0,
{
    let a = |f: PathV|
        if inside(f.parts, d) {
            size_in(tree)(f)
        } else {
            0
        };
    let b = |f: PathV|
        if inside(f.parts, d) {
            once()(f)
        } else {
            0
        };
    lemma_total_not_negative(tree.files, a);
    lemma_total_not_negative(tree.files, b);
}

proof fn lemma_total_by_name(paths: Seq<PathV>, a: spec_fn(PathV) -> int)
    requires
        paths.len() <= usize::MAX,
    ensures
        total(by_name(paths), a) == total(paths, a),
{
    let keys = paths.map_values(|p: PathV| name_key(p.parts));
    lemma_order_exists(keys);
    let perm = stable_order_of(keys);
    assert(is_stable_order(keys, perm));
    lemma_order_no_duplicates(keys, perm);
    lemma_total_arranged(paths, perm, a);
}

/// Whether a file is sure tells the same of the directories on the way to it.
proof fn lemma_sure_split(tree: TreeV, d: PathId)
    requires
        well_built(tree),
        has_dir(tree.dirs, d),
        !tree.unread.contains(d),
    ensures
        all_sure(tree, d) <==> (forall|i: int|
            0 <= i < sorted_files(tree, d).len() ==> sure(tree, #[trigger] sorted_files(tree, d)[i])) && (forall|i: int|
            0 <= i < sorted_subs(tree, d).len() ==> all_sure(tree, (#[trigger] sorted_subs(tree, d)[i]).parts)),
{
    lemma_depth(tree, d);
    lemma_sorted(tree, d);
    let (files, subs) = (sorted_files(tree, d), sorted_subs(tree, d));
    if all_sure(tree, d) {
        assert forall|i: int| 0 <= i < files.len() implies sure(tree, #[trigger] files[i]) by {
            let f = files[i];
            let x = choose|x: int| 0 <= x < tree.files.len() && tree.files[x] == f;
            assert(d =~= f.parts.subrange(0, d.len() as int));
            assert(inside(tree.files[x].parts, d));
        }
        assert forall|i: int| 0 <= i < subs.len() implies all_sure(tree, (#[trigger] subs[i]).parts) by {
            let s = subs[i].parts;
            assert forall|x: int| 0 <= x < tree.files.len() && inside((#[trigger] tree.files[x]).parts, s) implies sure(
                tree,
                tree.files[x],
            ) by {
                let p = tree.files[x].parts;
                assert(s == p.subrange(0, s.len() as int));
                assert(d == s.drop_last());
                assert(d =~= p.subrange(0, d.len() as int));
                assert(inside(tree.files[x].parts, d));
            }
        }
    }
    if (forall|i: int| 0 <= i < files.len() ==> sure(tree, #[trigger] files[i])) && (forall|i: int|
        0 <= i < subs.len() ==> all_sure(tree, (#[trigger] subs[i]).parts)) {
        assert forall|x: int| 0 <= x < tree.files.len() && inside((#[trigger] tree.files[x]).parts, d) implies sure(
            tree,
            tree.files[x],
        ) by {
            let p = tree.files[x].parts;
            if parent_of(p) == Some(d) {
                lemma_filter_has(tree.files, lies_in(d), x);
                assert(files.contains(tree.files[x]));
                let i = choose|i: int| 0 <= i < files.len() && files[i] == tree.files[x];
                assert(sure(tree, files[i]));
            } else {
                lemma_file_dir(tree, d, x);
                let n = p.len() - 1;
                let q = p.take(d.len() as int + 1);
                assert(p.take(n) =~= p.drop_last());
                assert(well_split(tree.files[x].parts));
                if n == d.len() {
                    assert(d == p.subrange(0, d.len() as int));
                    assert(p.drop_last() =~= d);
                }
                lemma_chain(tree, d, p, n, d.len() as int + 1);
                lemma_step(tree, d, p, d.len() as int + 1);
                assert(p.take(d.len() as int) =~= d) by {
                    assert(d == p.subrange(0, d.len() as int));
                }
                let y = choose|y: int| 0 <= y < tree.dirs.len() && (#[trigger] tree.dirs[y]).parts == q;
                lemma_filter_has(tree.dirs, sub_of(d, tree.roots), y);
                assert(subs.contains(tree.dirs[y]));
                let k = choose|k: int| 0 <= k < subs.len() && subs[k] == tree.dirs[y];
                assert(all_sure(tree, subs[k].parts));
                assert(q =~= p.subrange(0, q.len() as int));
                assert(inside(tree.files[x].parts, subs[k].parts));
            }
        }
    }
}

proof fn lemma_told_right(tree: TreeV, d: PathId)
    requires
        well_built(tree),
        has_dir(tree.dirs, d),
        tree.info(d).signature is Some,
    ensures
        told_right(tree, d),
    decreases deepest(tree.dirs) - d.len(),
{
    lemma_depth(tree, d);
    lemma_sorted(tree, d);
    let (files, subs) = (sorted_files(tree, d), sorted_subs(tree, d));
    let height = (deepest(tree.dirs) - d.len()) as nat;
    let t = tree.tally_files(files).unwrap();
    let t2 = tree.tally_subs(t, subs, height).unwrap();
    assert(tree.info(d) == info_of(t2));
    lemma_files_told(tree, files);
    let (a, b) = (total(files, size_in(tree)), total(files, once()));
    lemma_total_not_negative(files, size_in(tree));
    lemma_total_not_negative(files, once());
    assert forall|i: int| 0 <= i < subs.len() implies height > 0 && (#[trigger] subs[i]).parts.len() <= deepest(
        tree.dirs,
    ) && height - 1 == deepest(tree.dirs) - subs[i].parts.len() && (tree.info(subs[i].parts).signature is Some
        ==> told_right(tree, subs[i].parts)) by {
        let s = subs[i];
        assert(tree.dirs.contains(s));
        let y = choose|y: int| 0 <= y < tree.dirs.len() && tree.dirs[y] == s;
        assert(has_dir(tree.dirs, s.parts)) by {
            assert(tree.dirs[y].parts == s.parts);
        }
        lemma_depth(tree, s.parts);
        if tree.info(s.parts).signature is Some {
            lemma_told_right(tree, s.parts);
        }
    }
    lemma_subs_told(tree, t, subs, height, a, b);
    let n = tree.files.len() as int;
    assert(tree.files.take(n) =~= tree.files);
    lemma_split(tree, d, size_in(tree), n);
    lemma_split(tree, d, once(), n);
    lemma_filter_bounded(tree.files, lies_in(d));
    lemma_filter_bounded(tree.dirs, sub_of(d, tree.roots));
    lemma_total_by_name(tree.files_in(d), size_in(tree));
    lemma_total_by_name(tree.files_in(d), once());
    let sizes = |s: PathV| sum_inside(tree.files, s.parts, size_in(tree));
    let counts = |s: PathV| sum_inside(tree.files, s.parts, once());
    lemma_total_by_name(tree.subs_in(d), sizes);
    lemma_total_by_name(tree.subs_in(d), counts);
    lemma_sure_split(tree, d);
}

// ------------------------------------------------------------------------- laws

/// Whether files have these sizes: each that is in a group has the size of its group.
pub open spec fn sizes_of_groups(groups: Seq<GroupV>, size: spec_fn(PathV) -> int) -> bool {
    forall|a: int, i: int, f: PathV|
        #![trigger groups[a].paths[i], size(f)]
        0 <= a < groups.len() && 0 <= i < groups[a].paths.len() && groups[a].paths[i].parts == f.parts ==> size(f)
            == groups[a].size
}

/// Whether a file is in a confirmed group.
pub open spec fn in_confirmed_group(groups: Seq<GroupV>, id: PathId) -> bool {
    exists|a: int, i: int|
        #![trigger groups[a].paths[i]]
        0 <= a < groups.len() && groups[a].confirmed && 0 <= i < groups[a].paths.len() && groups[a].paths[i].parts == id
}

/// The size of a reported folder is the sum of the sizes of all files that lie in it, at
/// every depth, each with the size of the group that it stands in, and the count is their
/// number, as far as machine numbers go. A reported group is confirmed exactly where each
/// file that lies in one of its folders is in a confirmed group.
pub proof fn law_reported_folders_add_up(
    files: Seq<PathV>,
    skipped: Seq<PathV>,
    groups: Seq<GroupV>,
    roots: Set<PathId>,
    size: spec_fn(PathV) -> int,
    g: int,
)
    requires
        searchable(files, skipped, roots),
        groups.len() <= usize::MAX,
        groups_apart(groups),
        sizes_of_groups(groups, size),
        0 <= g < tree_of(files, skipped, groups, roots).duplicate_folders().len(),
    ensures
        ({
            let folder = tree_of(files, skipped, groups, roots).duplicate_folders()[g];
            let first = folder.paths[0].parts;
            &&& folder.size == sum_inside(files + skipped, first, size) % 0x1_0000_0000_0000_0000
            &&& folder.file_count == sum_inside(files + skipped, first, |f: PathV| 1int) % (usize::MAX + 1)
            &&& folder.confirmed <==> forall|k: int, x: int|
                #![trigger folder.paths[k], (files + skipped)[x]]
                0 <= k < folder.paths.len() && 0 <= x < (files + skipped).len() && inside(
                    (files + skipped)[x].parts,
                    folder.paths[k].parts,
                ) ==> in_confirmed_group(groups, (files + skipped)[x].parts)
        }),
{
    let tree = tree_of(files, skipped, groups, roots);
    let all = files + skipped;
    let signed = tree.signed();
    lemma_well_built(files, skipped, groups, roots);
    lemma_dirs(tree.files, tree.roots);
    law_reported_groups_match(signed, g);
    law_kept_folder_sorts_first(signed, g);
    let folder = tree.duplicate_folders()[g];
    assert(folder == signed.duplicate_folders()[g]);
    let sig = choose|sig: Seq<char>| #[trigger] alike(signed, sig, folder.paths);
    let b = lemma_group_class(signed, g);
    assert(folder == signed.folder_group(kept_of(signed, signed.classes(signed.dirs)[b].paths)));
    assert forall|k: int| 0 <= k < folder.paths.len() implies told_right(tree, (#[trigger] folder.paths[k]).parts)
        && tree.info(folder.paths[k].parts).signature is Some && has_dir(tree.dirs, folder.paths[k].parts) by {
        let d = folder.paths[k];
        assert(signed.dirs.contains(d));
        let y = choose|y: int| 0 <= y < tree.dirs.len() && tree.dirs[y] == d;
        assert(tree.dirs[y].parts == d.parts);
        assert((signed.info)(folder.paths[k].parts).signature == Some(sig));
        lemma_told_right(tree, d.parts);
    }
    let first = folder.paths[0].parts;
    assert(told_right(tree, first));
    // Each file that lies in one of the folders is in a group.
    assert forall|k: int, x: int|
        #![trigger folder.paths[k], all[x]]
        0 <= k < folder.paths.len() && 0 <= x < all.len() && inside(all[x].parts, folder.paths[k].parts) implies size_in(
        tree,
    )(all[x]) == size(all[x]) && (sure(tree, all[x]) <==> in_confirmed_group(groups, all[x].parts)) by {
        let p = all[x].parts;
        law_signed_folders_are_complete(tree, folder.paths[k].parts, x);
        assert(tree.at.contains_key(p));
        lemma_position_has(groups, p);
        let c = tree.at[p] as int;
        let j = choose|j: int| 0 <= j < groups[c].paths.len() && (#[trigger] groups[c].paths[j]).parts == p;
        assert(size(all[x]) == groups[c].size);
        assert(groups[c].paths[j].parts == p);
        if in_confirmed_group(groups, p) {
            let (e, i) = choose|e: int, i: int|
                #![trigger groups[e].paths[i]]
                0 <= e < groups.len() && groups[e].confirmed && 0 <= i < groups[e].paths.len()
                    && groups[e].paths[i].parts == p;
            lemma_position_is(groups, e, i);
        }
    }
    let mine = |f: PathV|
        if inside(f.parts, first) {
            size(f)
        } else {
            0
        };
    let theirs = |f: PathV|
        if inside(f.parts, first) {
            size_in(tree)(f)
        } else {
            0
        };
    assert forall|i: int| 0 <= i < all.len() implies theirs(#[trigger] all[i]) == mine(all[i]) by {
        assert(folder.paths[0].parts == first);
    }
    lemma_total_same(all, theirs, mine);
    let ones = |f: PathV| 1int;
    let n1 = |f: PathV|
        if inside(f.parts, first) {
            ones(f)
        } else {
            0
        };
    let n2 = |f: PathV|
        if inside(f.parts, first) {
            once()(f)
        } else {
            0
        };
    lemma_total_same(all, n2, n1);
    lemma_inside_not_negative(tree, first);
    vstd::arithmetic::div_mod::lemma_mod_bound(sum_inside(all, first, once()), usize::MAX + 1);
    if folder.confirmed {
        assert forall|k: int, x: int|
            #![trigger folder.paths[k], all[x]]
            0 <= k < folder.paths.len() && 0 <= x < all.len() && inside(
                all[x].parts,
                folder.paths[k].parts,
            ) implies in_confirmed_group(groups, all[x].parts) by {
            assert((signed.info)(folder.paths[k].parts).confirmed);
            assert(told_right(tree, folder.paths[k].parts));
            assert(sure(tree, tree.files[x]));
        }
    }
    if forall|k: int, x: int|
        #![trigger folder.paths[k], all[x]]
        0 <= k < folder.paths.len() && 0 <= x < all.len() && inside(all[x].parts, folder.paths[k].parts)
            ==> in_confirmed_group(groups, all[x].parts) {
        assert forall|k: int| 0 <= k < folder.paths.len() implies (signed.info)(
            (#[trigger] folder.paths[k]).parts,
        ).confirmed by {
            let d = folder.paths[k].parts;
            assert(told_right(tree, folder.paths[k].parts));
            assert forall|x: int| 0 <= x < tree.files.len() && inside((#[trigger] tree.files[x]).parts, d) implies sure(
                tree,
                tree.files[x],
            ) by {
                assert(folder.paths[k].parts == d && all[x] == tree.files[x]);
            }
        }
    }
}

/// The duplicate folders of a scan come with those first that take up most, all copies
/// counted.
pub proof fn law_reported_folders_are_ranked(
    files: Seq<PathV>,
    skipped: Seq<PathV>,
    groups: Seq<GroupV>,
    roots: Set<PathId>,
    i: int,
    j: int,
)
    requires
        searchable(files, skipped, roots),
        0 <= i < j < tree_of(files, skipped, groups, roots).duplicate_folders().len(),
    ensures
        ({
            let found = tree_of(files, skipped, groups, roots).duplicate_folders();
            found[i].size * found[i].paths.len() % 0x1_0000_0000_0000_0000 >= found[j].size * found[j].paths.len()
                % 0x1_0000_0000_0000_0000
        }),
{
    lemma_well_built(files, skipped, groups, roots);
    law_largest_folders_come_first(tree_of(files, skipped, groups, roots).signed(), i, j);
}

} // verus!
