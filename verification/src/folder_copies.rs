//! Directories with the same signature hold the same files, all the way down, and
//! every directory that has a copy is reported or lies in one that is.

use vstd::prelude::*;

use crate::digest::{content_digest, hex, hex_digit, law_hex_injective, DIGEST_LIMIT};
use crate::folder_laws::{
    alike, ascending, described, kept_of, law_kept_folder_sorts_first, law_reported_groups_match,
    lemma_candidate, lemma_candidate_class, lemma_class_ascends, lemma_class_of, lemma_class_reported,
    lemma_classes_alike, lemma_filter_bounded, lemma_group_class, lemma_matched_has, lemma_matched_is,
    lemma_not_implied, no_collisions,
};
use crate::folders::{
    above_root, after_first, by_name, closed_but, deepest, description, dirs_of, entry_text, further_copies, group_positions,
    has_dir, ids_unique, in_order, lemma_classes_known, lemma_deepest, lemma_dirs, lemma_filter_member, lies_in, linked, name_key,
    roots_above, sub_of, tally_start, top_roots, tree_of, SignedV, TallyV, TreeV,
};
use crate::groups::{FolderV, GroupV};
use crate::order::{
    is_stable_order, lemma_arranged, lemma_lex_asymmetric, lemma_order_exists, lex_before, precedes, stable_order_of,
};
use crate::paths::{
    is_under, law_paths_sort_by_parts, name_of, parent_of, parent_path, path_before, path_code, PartKind, PathId, PathV,
};
use crate::removal::{
    first_apart, folders_planned, has_copy, law_no_content_is_lost, left_over, lemma_below_in_order, mirrored_in_first,
};
use crate::tables::{keys_unique, lemma_marked, lemma_pos, lemma_pos_is, pos};
use crate::walk::{ids_of, lemma_ids_has};

verus! {

// --------------------------------------------------- a description reads back

/// Whether a text ends in a semicolon and holds no other.
spec fn is_entry(e: Seq<char>) -> bool {
    e.len() > 0 && e.last() == ';' && forall|i: int| 0 <= i < e.len() - 1 ==> #[trigger] e[i] != ';'
}

proof fn lemma_hex_plain(bytes: Seq<u8>)
    ensures
        forall|i: int| 0 <= i < hex(bytes).len() ==> #[trigger] hex(bytes)[i] != ':' && hex(bytes)[i] != ';',
{
    let h = hex(bytes);
    assert forall|i: int| 0 <= i < h.len() implies #[trigger] h[i] != ':' && h[i] != ';' by {
        let b = bytes[i / 2] as int;
        assert(0 <= b / 16 < 16 && 0 <= b % 16 < 16);
        assert(h[i] == hex_digit(b / 16) || h[i] == hex_digit(b % 16));
    }
}

proof fn lemma_entry_closed(kind: char, name: Seq<u8>, id: Seq<char>)
    requires
        kind != ';',
    ensures
        is_entry(entry_text(kind, name, id)),
{
    let e = entry_text(kind, name, id);
    let (h, k) = (hex(name), hex(vstd::utf8::encode_utf8(id)));
    lemma_hex_plain(name);
    lemma_hex_plain(vstd::utf8::encode_utf8(id));
    assert(e.len() == h.len() + k.len() + 3);
    assert forall|i: int| 0 <= i < e.len() - 1 implies #[trigger] e[i] != ';' by {
        if 1 <= i < h.len() + 1 {
            assert(e[i] == h[i - 1]);
        } else if i >= h.len() + 2 {
            assert(e[i] == k[i - h.len() - 2]);
        }
    }
}

/// An entry tells its kind, its name and its digest.
proof fn lemma_entry_injective(ka: char, na: Seq<u8>, ia: Seq<char>, kb: char, nb: Seq<u8>, ib: Seq<char>)
    requires
        entry_text(ka, na, ia) == entry_text(kb, nb, ib),
    ensures
        ka == kb,
        na == nb,
        ia == ib,
{
    let (a, b) = (entry_text(ka, na, ia), entry_text(kb, nb, ib));
    let (ha, hb) = (hex(na), hex(nb));
    let (ua, ub) = (vstd::utf8::encode_utf8(ia), vstd::utf8::encode_utf8(ib));
    let (ga, gb) = (hex(ua), hex(ub));
    lemma_hex_plain(na);
    lemma_hex_plain(nb);
    assert(a[0] == ka && b[0] == kb);
    assert(a.len() == ha.len() + ga.len() + 3 && b.len() == hb.len() + gb.len() + 3);
    assert(a[1 + ha.len() as int] == ':' && b[1 + hb.len() as int] == ':');
    if ha.len() < hb.len() {
        assert(b[1 + ha.len() as int] == hb[ha.len() as int]);
    }
    if hb.len() < ha.len() {
        assert(a[1 + hb.len() as int] == ha[hb.len() as int]);
    }
    assert forall|i: int| 0 <= i < ha.len() implies ha[i] == hb[i] by {
        assert(a[i + 1] == ha[i] && b[i + 1] == hb[i]);
    }
    assert(ha =~= hb);
    assert forall|i: int| 0 <= i < ga.len() implies ga[i] == gb[i] by {
        assert(a[i + ha.len() + 2] == ga[i] && b[i + ha.len() + 2] == gb[i]);
    }
    assert(ga =~= gb);
    law_hex_injective(na, nb);
    law_hex_injective(ua, ub);
    vstd::utf8::encode_utf8_decode_utf8(ia);
    vstd::utf8::encode_utf8_decode_utf8(ib);
}

proof fn lemma_description_end(a: Seq<Seq<char>>)
    requires
        forall|i: int| 0 <= i < a.len() ==> is_entry(#[trigger] a[i]),
    ensures
        a.len() > 0 ==> description(a).len() > 0 && description(a).last() == ';',
        a.len() == 0 ==> description(a).len() == 0,
{
    if a.len() > 0 {
        assert(is_entry(a[a.len() - 1]));
        assert(description(a).last() == a.last().last());
    }
}

/// A description tells its entries.
proof fn lemma_description_injective(a: Seq<Seq<char>>, b: Seq<Seq<char>>)
    requires
        forall|i: int| 0 <= i < a.len() ==> is_entry(#[trigger] a[i]),
        forall|i: int| 0 <= i < b.len() ==> is_entry(#[trigger] b[i]),
        description(a) == description(b),
    ensures
        a == b,
    decreases a.len(),
{
    lemma_description_end(a);
    lemma_description_end(b);
    if a.len() == 0 || b.len() == 0 {
        assert(a =~= b);
    } else {
        let (s, t) = (a.drop_last(), b.drop_last());
        let (x, y) = (a.last(), b.last());
        assert forall|i: int| 0 <= i < s.len() implies is_entry(#[trigger] s[i]) by {
            assert(s[i] == a[i]);
        }
        assert forall|i: int| 0 <= i < t.len() implies is_entry(#[trigger] t[i]) by {
            assert(t[i] == b[i]);
        }
        assert(is_entry(a[a.len() - 1]) && is_entry(b[b.len() - 1]));
        lemma_description_end(s);
        lemma_description_end(t);
        let (p, q) = (description(s), description(t));
        let whole = description(a);
        assert(whole == p + x && whole == q + y);
        if x.len() < y.len() {
            assert(p.len() > 0);
            assert(whole[p.len() - 1] == ';');
            assert(whole[p.len() - 1] == y[p.len() - 1 - q.len()]);
        }
        if y.len() < x.len() {
            assert(q.len() > 0);
            assert(whole[q.len() - 1] == ';');
            assert(whole[q.len() - 1] == x[q.len() - 1 - p.len()]);
        }
        assert(p =~= whole.take(p.len() as int));
        assert(q =~= whole.take(p.len() as int));
        assert(x =~= whole.skip(p.len() as int));
        assert(y =~= whole.skip(p.len() as int));
        lemma_description_injective(s, t);
        assert(a =~= s.push(x));
        assert(b =~= t.push(y));
    }
}

// ------------------------------------------------------------------ one level

/// The digest of the group that holds a file.
pub open spec fn hash_of(tree: TreeV, f: PathId) -> Seq<char> {
    tree.groups[tree.at[f] as int].file_hash
}

/// Whether a tree holds a file with this digest at a place.
pub open spec fn holds_file(tree: TreeV, id: PathId, hash: Seq<char>) -> bool {
    ids_of(tree.files).contains(id) && tree.at.contains_key(id) && hash_of(tree, id) == hash
}

/// Whether a tree holds a directory with this signature at a place.
pub open spec fn holds_dir(tree: TreeV, id: PathId, sig: Seq<char>) -> bool {
    has_dir(tree.dirs, id) && tree.info(id).signature == Some(sig)
}

spec fn file_entry(tree: TreeV, f: PathV) -> Seq<char> {
    entry_text('F', name_of(f.parts).unwrap(), hash_of(tree, f.parts))
}

spec fn dir_entry(tree: TreeV, s: PathV) -> Seq<char> {
    entry_text('D', name_of(s.parts).unwrap(), tree.info(s.parts).signature.unwrap())
}

spec fn file_counts(tree: TreeV, f: PathId) -> bool {
    tree.at.contains_key(f) && name_of(f) is Some
}

spec fn dir_counts(tree: TreeV, s: PathId) -> bool {
    tree.info(s).signature is Some && name_of(s) is Some
}

proof fn lemma_files_tallied(tree: TreeV, list: Seq<PathV>)
    requires
        tree.tally_files(list) is Some,
    ensures
        tree.tally_files(list).unwrap().entries == list.map_values(|f: PathV| file_entry(tree, f)),
        list.len() == 0 ==> tree.tally_files(list) == Some(tally_start()),
        forall|i: int|
            0 <= i < list.len() ==> file_counts(tree, (#[trigger] list[i]).parts) && (tree.tally_files(
                list,
            ).unwrap().confirmed ==> tree.groups[tree.at[list[i].parts] as int].confirmed),
    decreases list.len(),
{
    let e = tree.tally_files(list).unwrap().entries;
    let m = list.map_values(|f: PathV| file_entry(tree, f));
    if list.len() == 0 {
        assert(e =~= m);
    } else {
        let s = list.drop_last();
        lemma_files_tallied(tree, s);
        assert(m =~= s.map_values(|f: PathV| file_entry(tree, f)).push(file_entry(tree, list.last())));
        assert forall|i: int| 0 <= i < list.len() implies file_counts(tree, (#[trigger] list[i]).parts) && (tree.tally_files(
            list,
        ).unwrap().confirmed ==> tree.groups[tree.at[list[i].parts] as int].confirmed) by {
            if i < s.len() {
                assert(s[i] == list[i]);
            }
        }
    }
}

proof fn lemma_subs_tallied(tree: TreeV, start: TallyV, list: Seq<PathV>, height: nat)
    requires
        tree.tally_subs(start, list, height) is Some,
        forall|i: int|
            0 <= i < list.len() ==> height > 0 && (#[trigger] list[i]).parts.len() <= deepest(tree.dirs)
                && height - 1 == deepest(tree.dirs) - list[i].parts.len(),
    ensures
        tree.tally_subs(start, list, height).unwrap().entries == start.entries + list.map_values(
            |s: PathV| dir_entry(tree, s),
        ),
        list.len() == 0 ==> tree.tally_subs(start, list, height) == Some(start),
        tree.tally_subs(start, list, height).unwrap().confirmed ==> start.confirmed,
        forall|i: int|
            0 <= i < list.len() ==> dir_counts(tree, (#[trigger] list[i]).parts) && (tree.tally_subs(
                start,
                list,
                height,
            ).unwrap().confirmed ==> tree.info(list[i].parts).confirmed),
    decreases list.len(),
{
    let e = tree.tally_subs(start, list, height).unwrap().entries;
    let m = list.map_values(|s: PathV| dir_entry(tree, s));
    if list.len() == 0 {
        assert(e =~= start.entries + m);
    } else {
        let s = list.drop_last();
        assert forall|i: int| 0 <= i < s.len() implies height > 0 && (#[trigger] s[i]).parts.len() <= deepest(tree.dirs)
            && height - 1 == deepest(tree.dirs) - s[i].parts.len() by {
            assert(s[i] == list[i]);
        }
        lemma_subs_tallied(tree, start, s, height);
        assert(list[list.len() - 1] == list.last());
        assert(tree.info(list.last().parts) == tree.info_at(list.last().parts, (height - 1) as nat));
        assert(m =~= s.map_values(|s: PathV| dir_entry(tree, s)).push(dir_entry(tree, list.last())));
        assert(e =~= start.entries + m);
        assert forall|i: int| 0 <= i < list.len() implies dir_counts(tree, (#[trigger] list[i]).parts) && (tree.tally_subs(
            start,
            list,
            height,
        ).unwrap().confirmed ==> tree.info(list[i].parts).confirmed) by {
            if i < s.len() {
                assert(s[i] == list[i]);
            }
        }
    }
}

pub proof fn lemma_filter_has(s: Seq<PathV>, keep: spec_fn(PathV) -> bool, i: int)
    requires
        0 <= i < s.len(),
        keep(s[i]),
    ensures
        s.filter(keep).contains(s[i]),
    decreases s.len(),
{
    reveal(Seq::filter);
    let t = s.drop_last();
    if i == s.len() - 1 {
        assert(s.filter(keep).last() == s[i]);
    } else {
        lemma_filter_has(t, keep, i);
        let k = choose|k: int| 0 <= k < t.filter(keep).len() && t.filter(keep)[k] == s[i];
        assert(s.filter(keep)[k] == s[i]);
    }
}

pub open spec fn sorted_files(tree: TreeV, d: PathId) -> Seq<PathV> {
    by_name(tree.files_in(d))
}

pub open spec fn sorted_subs(tree: TreeV, d: PathId) -> Seq<PathV> {
    by_name(tree.subs_in(d))
}

pub proof fn lemma_sorted(tree: TreeV, d: PathId)
    requires
        tree.files.len() <= usize::MAX,
        tree.dirs.len() <= usize::MAX,
        d.len() <= deepest(tree.dirs),
    ensures
        forall|x: PathV| sorted_files(tree, d).contains(x) <==> #[trigger] tree.files_in(d).contains(x),
        forall|x: PathV| sorted_subs(tree, d).contains(x) <==> #[trigger] tree.subs_in(d).contains(x),
        forall|i: int|
            0 <= i < sorted_files(tree, d).len() ==> tree.files.contains(#[trigger] sorted_files(tree, d)[i]) && parent_of(
                sorted_files(tree, d)[i].parts,
            ) == Some(d),
        forall|i: int|
            0 <= i < sorted_subs(tree, d).len() ==> tree.dirs.contains(#[trigger] sorted_subs(tree, d)[i]) && parent_of(
                sorted_subs(tree, d)[i].parts,
            ) == Some(d) && !tree.roots.contains(sorted_subs(tree, d)[i].parts)
                && d.len() + 1 <= deepest(tree.dirs),
{
    let (f, s) = (tree.files_in(d), tree.subs_in(d));
    lemma_filter_bounded(tree.files, lies_in(d));
    lemma_filter_bounded(tree.dirs, sub_of(d, tree.roots));
    lemma_arranged(f, f.map_values(|p: PathV| name_key(p.parts)));
    lemma_arranged(s, s.map_values(|p: PathV| name_key(p.parts)));
    lemma_deepest(tree.dirs);
    assert forall|i: int| 0 <= i < sorted_files(tree, d).len() implies tree.files.contains(
        #[trigger] sorted_files(tree, d)[i],
    ) && parent_of(sorted_files(tree, d)[i].parts) == Some(d) by {
        lemma_filter_member(tree.files, lies_in(d), sorted_files(tree, d)[i]);
    }
    assert forall|i: int| 0 <= i < sorted_subs(tree, d).len() implies tree.dirs.contains(
        #[trigger] sorted_subs(tree, d)[i],
    ) && parent_of(sorted_subs(tree, d)[i].parts) == Some(d) && !tree.roots.contains(sorted_subs(tree, d)[i].parts)
        && d.len() + 1 <= deepest(tree.dirs) by {
        let x = sorted_subs(tree, d)[i];
        lemma_filter_member(tree.dirs, sub_of(d, tree.roots), x);
        let j = choose|j: int| 0 <= j < tree.dirs.len() && tree.dirs[j] == x;
        assert(tree.dirs[j].parts.len() <= deepest(tree.dirs));
    }
}

/// What stands in the description of a directory with a signature.
proof fn lemma_described(tree: TreeV, d: PathId) -> (entries: Seq<Seq<char>>)
    requires
        tree.files.len() <= usize::MAX,
        tree.dirs.len() <= usize::MAX,
        d.len() <= deepest(tree.dirs),
        tree.info(d).signature is Some,
    ensures
        entries == sorted_files(tree, d).map_values(|f: PathV| file_entry(tree, f)) + sorted_subs(tree, d).map_values(
            |s: PathV| dir_entry(tree, s),
        ),
        described(tree, d) == Some(vstd::utf8::encode_utf8(description(entries))),
        tree.info(d).signature == Some(content_digest(vstd::utf8::encode_utf8(description(entries)))),
        forall|i: int| 0 <= i < entries.len() ==> is_entry(#[trigger] entries[i]),
        entries.len() > 0,
        forall|i: int|
            0 <= i < sorted_files(tree, d).len() ==> file_counts(tree, (#[trigger] sorted_files(tree, d)[i]).parts) && (
            tree.info(d).confirmed ==> tree.groups[tree.at[sorted_files(tree, d)[i].parts] as int].confirmed),
        forall|i: int|
            0 <= i < sorted_subs(tree, d).len() ==> dir_counts(tree, (#[trigger] sorted_subs(tree, d)[i]).parts) && (
            tree.info(d).confirmed ==> tree.info(sorted_subs(tree, d)[i].parts).confirmed),
{
    lemma_sorted(tree, d);
    let (files, subs) = (sorted_files(tree, d), sorted_subs(tree, d));
    let height = (deepest(tree.dirs) - d.len()) as nat;
    let t = tree.tally_files(files).unwrap();
    lemma_files_tallied(tree, files);
    let t2 = tree.tally_subs(t, subs, height).unwrap();
    lemma_subs_tallied(tree, t, subs, height);
    let (a, b) = (files.map_values(|f: PathV| file_entry(tree, f)), subs.map_values(|s: PathV| dir_entry(tree, s)));
    let entries = a + b;
    assert(t2.entries == entries);
    assert(t2.entries.len() != 0);
    assert forall|i: int| 0 <= i < entries.len() implies is_entry(#[trigger] entries[i]) by {
        if i < a.len() {
            assert(entries[i] == file_entry(tree, files[i]));
            lemma_entry_closed('F', name_of(files[i].parts).unwrap(), hash_of(tree, files[i].parts));
        } else {
            let s = subs[i - a.len()];
            assert(entries[i] == dir_entry(tree, s));
            lemma_entry_closed('D', name_of(s.parts).unwrap(), tree.info(s.parts).signature.unwrap());
        }
    }
    entries
}

/// Whether a directory holds, one level down, what another does.
spec fn level_alike(tree: TreeV, d: PathId, e: PathId) -> bool {
    &&& forall|x: int|
        0 <= x < tree.files.len() && parent_of((#[trigger] tree.files[x]).parts) == Some(d) ==> tree.at.contains_key(
            tree.files[x].parts,
        ) && holds_file(tree, e.push(tree.files[x].parts.last()), hash_of(tree, tree.files[x].parts))
    &&& forall|x: int|
        0 <= x < tree.dirs.len() && parent_of((#[trigger] tree.dirs[x]).parts) == Some(d) && !tree.roots.contains(
            tree.dirs[x].parts,
        ) ==> tree.info(tree.dirs[x].parts).signature is Some && holds_dir(
            tree,
            e.push(tree.dirs[x].parts.last()),
            tree.info(tree.dirs[x].parts).signature.unwrap(),
        )
}

/// Two directories with one signature have the same entries.
proof fn lemma_same_entries(tree: TreeV, d: PathId, e: PathId)
    requires
        tree.files.len() <= usize::MAX,
        tree.dirs.len() <= usize::MAX,
        no_collisions(tree),
        d.len() <= deepest(tree.dirs),
        e.len() <= deepest(tree.dirs),
        tree.info(d).signature is Some,
        tree.info(d).signature == tree.info(e).signature,
    ensures
        sorted_files(tree, d).len() == sorted_files(tree, e).len(),
        sorted_subs(tree, d).len() == sorted_subs(tree, e).len(),
        forall|i: int|
            0 <= i < sorted_files(tree, d).len() ==> name_of((#[trigger] sorted_files(tree, d)[i]).parts) == name_of(
                sorted_files(tree, e)[i].parts,
            ) && hash_of(tree, sorted_files(tree, d)[i].parts) == hash_of(tree, sorted_files(tree, e)[i].parts),
        forall|i: int|
            0 <= i < sorted_subs(tree, d).len() ==> name_of((#[trigger] sorted_subs(tree, d)[i]).parts) == name_of(
                sorted_subs(tree, e)[i].parts,
            ) && tree.info(sorted_subs(tree, d)[i].parts).signature == tree.info(
                sorted_subs(tree, e)[i].parts,
            ).signature,
{
    let x = lemma_described(tree, d);
    let y = lemma_described(tree, e);
    let (fd, fe) = (sorted_files(tree, d), sorted_files(tree, e));
    let (sd, se) = (sorted_subs(tree, d), sorted_subs(tree, e));
    assert(described(tree, d) == described(tree, e));
    vstd::utf8::encode_utf8_decode_utf8(description(x));
    vstd::utf8::encode_utf8_decode_utf8(description(y));
    assert(description(x) == description(y));
    lemma_description_injective(x, y);
    if fd.len() < fe.len() {
        let (s, f) = (sd[0], fe[fd.len() as int]);
        assert(x[fd.len() as int] == dir_entry(tree, s));
        assert(y[fd.len() as int] == file_entry(tree, f));
        lemma_entry_injective(
            'D',
            name_of(s.parts).unwrap(),
            tree.info(s.parts).signature.unwrap(),
            'F',
            name_of(f.parts).unwrap(),
            hash_of(tree, f.parts),
        );
    }
    if fe.len() < fd.len() {
        let (s, f) = (se[0], fd[fe.len() as int]);
        assert(y[fe.len() as int] == dir_entry(tree, s));
        assert(x[fe.len() as int] == file_entry(tree, f));
        lemma_entry_injective(
            'D',
            name_of(s.parts).unwrap(),
            tree.info(s.parts).signature.unwrap(),
            'F',
            name_of(f.parts).unwrap(),
            hash_of(tree, f.parts),
        );
    }
    assert forall|i: int| 0 <= i < fd.len() implies name_of((#[trigger] fd[i]).parts) == name_of(fe[i].parts) && hash_of(
        tree,
        fd[i].parts,
    ) == hash_of(tree, fe[i].parts) by {
        assert(x[i] == file_entry(tree, fd[i]) && y[i] == file_entry(tree, fe[i]));
        lemma_entry_injective(
            'F',
            name_of(fd[i].parts).unwrap(),
            hash_of(tree, fd[i].parts),
            'F',
            name_of(fe[i].parts).unwrap(),
            hash_of(tree, fe[i].parts),
        );
        assert(file_counts(tree, fe[i].parts));
    }
    assert forall|i: int| 0 <= i < sd.len() implies name_of((#[trigger] sd[i]).parts) == name_of(se[i].parts)
        && tree.info(sd[i].parts).signature == tree.info(se[i].parts).signature by {
        assert(x[fd.len() + i] == dir_entry(tree, sd[i]) && y[fd.len() + i] == dir_entry(tree, se[i]));
        lemma_entry_injective(
            'D',
            name_of(sd[i].parts).unwrap(),
            tree.info(sd[i].parts).signature.unwrap(),
            'D',
            name_of(se[i].parts).unwrap(),
            tree.info(se[i].parts).signature.unwrap(),
        );
        assert(dir_counts(tree, se[i].parts));
    }
}

/// Two paths with the same name lie in their directories at the same place.
proof fn lemma_same_place(f: PathId, g: PathId, e: PathId)
    requires
        name_of(f) is Some,
        name_of(f) == name_of(g),
        parent_of(g) == Some(e),
    ensures
        g == e.push(f.last()),
{
    assert(f.last() == g.last());
    assert(g =~= g.drop_last().push(g.last()));
}

proof fn lemma_level(tree: TreeV, d: PathId, e: PathId)
    requires
        tree.files.len() <= usize::MAX,
        tree.dirs.len() <= usize::MAX,
        no_collisions(tree),
        d.len() <= deepest(tree.dirs),
        e.len() <= deepest(tree.dirs),
        tree.info(d).signature is Some,
        tree.info(d).signature == tree.info(e).signature,
    ensures
        level_alike(tree, d, e),
{
    lemma_same_entries(tree, d, e);
    let _ = lemma_described(tree, d);
    let _ = lemma_described(tree, e);
    lemma_sorted(tree, d);
    lemma_sorted(tree, e);
    let (fd, fe) = (sorted_files(tree, d), sorted_files(tree, e));
    let (sd, se) = (sorted_subs(tree, d), sorted_subs(tree, e));
    assert forall|x: int|
        0 <= x < tree.files.len() && parent_of((#[trigger] tree.files[x]).parts) == Some(
            d,
        ) implies tree.at.contains_key(tree.files[x].parts) && holds_file(
        tree,
        e.push(tree.files[x].parts.last()),
        hash_of(tree, tree.files[x].parts),
    ) by {
        let f = tree.files[x];
        lemma_filter_has(tree.files, lies_in(d), x);
        assert(fd.contains(f));
        let i = choose|i: int| 0 <= i < fd.len() && fd[i] == f;
        assert(file_counts(tree, fd[i].parts) && file_counts(tree, fe[i].parts));
        lemma_same_place(f.parts, fe[i].parts, e);
        assert(tree.files.contains(fe[i]));
        let y = choose|y: int| 0 <= y < tree.files.len() && tree.files[y] == fe[i];
        lemma_ids_has(tree.files, fe[i].parts);
        assert(tree.files[y].parts == fe[i].parts);
    }
    assert forall|x: int|
        0 <= x < tree.dirs.len() && parent_of((#[trigger] tree.dirs[x]).parts) == Some(d) && !tree.roots.contains(
            tree.dirs[x].parts,
        ) implies tree.info(tree.dirs[x].parts).signature is Some && holds_dir(
        tree,
        e.push(tree.dirs[x].parts.last()),
        tree.info(tree.dirs[x].parts).signature.unwrap(),
    ) by {
        let s = tree.dirs[x];
        lemma_filter_has(tree.dirs, sub_of(d, tree.roots), x);
        assert(sd.contains(s));
        let i = choose|i: int| 0 <= i < sd.len() && sd[i] == s;
        assert(dir_counts(tree, sd[i].parts) && dir_counts(tree, se[i].parts));
        lemma_same_place(s.parts, se[i].parts, e);
        assert(tree.dirs.contains(se[i]));
        let y = choose|y: int| 0 <= y < tree.dirs.len() && tree.dirs[y] == se[i];
        assert(tree.dirs[y].parts == se[i].parts);
    }
}

// ------------------------------------------------------------- all the way down

/// Whether a path is split as paths are: a drive only stands first, and a root
/// first or behind a drive.
pub open spec fn well_split(p: PathId) -> bool {
    forall|i: int|
        1 <= i < p.len() ==> (#[trigger] p[i]).kind != PartKind::Prefix && (p[i].kind == PartKind::RootDir ==> i == 1
            && p[0].kind == PartKind::Prefix)
}

/// Whether a tree is one of files and of the outermost of some roots, none of its
/// directories is an empty path or a bare drive, those that a root lies in count as
/// unread, and it is no larger than memory.
pub open spec fn well_built(tree: TreeV) -> bool {
    &&& tree.dirs == dirs_of(tree.files, tree.roots)
    &&& forall|i: int| 0 <= i < tree.files.len() ==> well_split((#[trigger] tree.files[i]).parts)
    &&& forall|i: int|
        0 <= i < tree.dirs.len() ==> (#[trigger] tree.dirs[i]).parts.len() > 0 && tree.dirs[i].parts.last().kind
            != PartKind::Prefix
    &&& forall|d: PathId| #[trigger] roots_above(tree.dirs, tree.roots).contains(d) ==> tree.unread.contains(d)
    &&& tree.files.len() <= usize::MAX
    &&& tree.dirs.len() <= usize::MAX
}

/// Whether a path is absolute.
pub open spec fn is_absolute(p: PathId) -> bool {
    ||| p.len() > 0 && p[0].kind == PartKind::RootDir
    ||| p.len() > 1 && p[0].kind == PartKind::Prefix && p[1].kind == PartKind::RootDir
}

/// Whether a path lies in a root.
pub open spec fn in_root(roots: Set<PathId>, p: PathId) -> bool {
    exists|r: PathId| #[trigger] roots.contains(r) && is_under(p, r) && p.len() > r.len()
}

/// Whether a directory is absolute, a root, or in one.
spec fn grounded(roots: Set<PathId>, d: PathId) -> bool {
    is_absolute(d) || roots.contains(d) || in_root(roots, d)
}

/// Whether all of these directories are grounded, and are split as paths are.
spec fn dirs_sound(dirs: Seq<PathV>, roots: Set<PathId>) -> bool {
    forall|i: int| 0 <= i < dirs.len() ==> grounded(roots, (#[trigger] dirs[i]).parts) && well_split(dirs[i].parts)
}

spec fn dirs_split(dirs: Seq<PathV>) -> bool {
    forall|i: int| 0 <= i < dirs.len() ==> well_split((#[trigger] dirs[i]).parts)
}

/// What holds a grounded path is grounded.
proof fn lemma_parent_grounded(roots: Set<PathId>, p: PathId)
    requires
        is_absolute(p) || in_root(roots, p),
        parent_of(p) is Some,
    ensures
        grounded(roots, p.drop_last()),
{
    let q = p.drop_last();
    if in_root(roots, p) {
        let r = choose|r: PathId| #[trigger] roots.contains(r) && is_under(p, r) && p.len() > r.len();
        assert(r == p.subrange(0, r.len() as int));
        assert(r =~= q.subrange(0, r.len() as int));
        if q.len() == r.len() {
            assert(q =~= r);
        }
    }
}

proof fn lemma_parent_split(p: PathId)
    requires
        well_split(p),
        p.len() > 0,
    ensures
        well_split(p.drop_last()),
{
    let q = p.drop_last();
    assert forall|i: int| 1 <= i < q.len() implies (#[trigger] q[i]).kind != PartKind::Prefix && (q[i].kind
        == PartKind::RootDir ==> i == 1 && q[0].kind == PartKind::Prefix) by {
        assert(q[i] == p[i]);
    }
}

proof fn lemma_linked_sound(dirs: Seq<PathV>, d: PathV, roots: Set<PathId>)
    requires
        dirs_sound(dirs, roots),
        grounded(roots, d.parts),
        well_split(d.parts),
    ensures
        dirs_sound(linked(dirs, d, roots), roots),
    decreases d.parts.len(),
{
    if !has_dir(dirs, d.parts) {
        let n = dirs.push(d);
        assert(dirs_sound(n, roots)) by {
            assert forall|i: int| 0 <= i < n.len() implies grounded(roots, (#[trigger] n[i]).parts) && well_split(
                n[i].parts,
            ) by {
                if i < dirs.len() {
                    assert(n[i] == dirs[i]);
                }
            }
        }
        if !roots.contains(d.parts) {
            match parent_path(d) {
                Some(p) => {
                    lemma_parent_split(d.parts);
                    lemma_parent_grounded(roots, d.parts);
                    lemma_linked_sound(n, p, roots);
                },
                None => {},
            }
        }
    }
}

proof fn lemma_dirs_sound(files: Seq<PathV>, roots: Set<PathId>)
    requires
        forall|i: int|
            0 <= i < files.len() ==> well_split((#[trigger] files[i]).parts) && (is_absolute(files[i].parts) || in_root(
                roots,
                files[i].parts,
            )),
    ensures
        dirs_sound(dirs_of(files, roots), roots),
    decreases files.len(),
{
    if files.len() > 0 {
        let s = files.drop_last();
        assert forall|i: int| 0 <= i < s.len() implies well_split((#[trigger] s[i]).parts) && (is_absolute(s[i].parts)
            || in_root(roots, s[i].parts)) by {
            assert(s[i] == files[i]);
        }
        lemma_dirs_sound(s, roots);
        match parent_path(files.last()) {
            Some(p) => {
                assert(well_split(files[files.len() - 1].parts));
                lemma_parent_split(files.last().parts);
                lemma_parent_grounded(roots, files.last().parts);
                lemma_linked_sound(dirs_of(s, roots), p, roots);
            },
            None => {},
        }
    }
}

proof fn lemma_linked_split(dirs: Seq<PathV>, d: PathV, roots: Set<PathId>)
    requires
        dirs_split(dirs),
        well_split(d.parts),
    ensures
        dirs_split(linked(dirs, d, roots)),
    decreases d.parts.len(),
{
    if !has_dir(dirs, d.parts) {
        let n = dirs.push(d);
        assert(dirs_split(n)) by {
            assert forall|i: int| 0 <= i < n.len() implies well_split((#[trigger] n[i]).parts) by {
                if i < dirs.len() {
                    assert(n[i] == dirs[i]);
                }
            }
        }
        if !roots.contains(d.parts) {
            match parent_path(d) {
                Some(p) => {
                    lemma_parent_split(d.parts);
                    lemma_linked_split(n, p, roots);
                },
                None => {},
            }
        }
    }
}

proof fn lemma_dirs_split(files: Seq<PathV>, roots: Set<PathId>)
    requires
        forall|i: int| 0 <= i < files.len() ==> well_split((#[trigger] files[i]).parts),
    ensures
        dirs_split(dirs_of(files, roots)),
    decreases files.len(),
{
    if files.len() > 0 {
        let s = files.drop_last();
        assert forall|i: int| 0 <= i < s.len() implies well_split((#[trigger] s[i]).parts) by {
            assert(s[i] == files[i]);
        }
        lemma_dirs_split(s, roots);
        match parent_path(files.last()) {
            Some(p) => {
                assert(well_split(files[files.len() - 1].parts));
                lemma_parent_split(files.last().parts);
                lemma_linked_split(dirs_of(s, roots), p, roots);
            },
            None => {},
        }
    }
}

/// A path below a directory of the tree leads down to it by names alone.
pub proof fn lemma_step(tree: TreeV, d: PathId, p: PathId, n: int)
    requires
        well_built(tree),
        has_dir(tree.dirs, d),
        well_split(p),
        is_under(p, d),
        d.len() < n <= p.len(),
    ensures
        parent_of(p.take(n)) == Some(p.take(n - 1)),
        is_under(p.take(n), d),
        p.take(n) != d,
{
    let i = choose|i: int| 0 <= i < tree.dirs.len() && (#[trigger] tree.dirs[i]).parts == d;
    assert(tree.dirs[i].parts.len() > 0);
    let q = p.take(n);
    assert(q.drop_last() =~= p.take(n - 1));
    assert(q.last() == p[n - 1]);
    assert(d == p.subrange(0, d.len() as int));
    assert(d =~= q.subrange(0, d.len() as int));
    assert(p[n - 1].kind != PartKind::Prefix);
    if p[n - 1].kind == PartKind::RootDir {
        assert(d.last() == p[0]);
    }
}

/// A directory that was read has no root in it.
proof fn lemma_no_root_below(tree: TreeV, d: PathId, q: PathId)
    requires
        well_built(tree),
        has_dir(tree.dirs, d),
        !tree.unread.contains(d),
        has_dir(tree.dirs, q),
        is_under(q, d),
        q != d,
    ensures
        !tree.roots.contains(q),
{
    assert(!roots_above(tree.dirs, tree.roots).contains(d));
    assert(!above_root(tree.dirs, tree.roots, d));
}

/// What leads from a directory of the tree up to another are directories of it.
pub proof fn lemma_chain(tree: TreeV, d: PathId, p: PathId, n: int, m: int)
    requires
        well_built(tree),
        has_dir(tree.dirs, d),
        !tree.unread.contains(d),
        well_split(p),
        is_under(p, d),
        d.len() <= m <= n <= p.len(),
        has_dir(tree.dirs, p.take(n)),
    ensures
        has_dir(tree.dirs, p.take(m)),
        m > d.len() ==> !tree.roots.contains(p.take(m)),
    decreases n - m,
{
    if n > d.len() {
        lemma_step(tree, d, p, n);
        lemma_no_root_below(tree, d, p.take(n));
    }
    if m < n {
        lemma_dirs(tree.files, tree.roots);
        let q = p.take(n);
        let i = choose|i: int| 0 <= i < tree.dirs.len() && (#[trigger] tree.dirs[i]).parts == q;
        assert(closed_but(tree.dirs, tree.roots, None));
        assert(!tree.roots.contains(tree.dirs[i].parts));
        assert(has_dir(tree.dirs, p.take(n - 1)));
        lemma_chain(tree, d, p, n - 1, m);
    }
}

/// The directory of a file below a directory of the tree is one of the tree.
pub proof fn lemma_file_dir(tree: TreeV, d: PathId, x: int)
    requires
        well_built(tree),
        has_dir(tree.dirs, d),
        0 <= x < tree.files.len(),
        is_under(tree.files[x].parts, d),
        tree.files[x].parts.len() > d.len(),
    ensures
        parent_of(tree.files[x].parts) == Some(tree.files[x].parts.drop_last()),
        has_dir(tree.dirs, tree.files[x].parts.drop_last()),
        is_under(tree.files[x].parts.drop_last(), d),
{
    let p = tree.files[x].parts;
    let n = p.len() as int;
    assert(well_split(p));
    assert(p.take(n) =~= p);
    assert(p.take(n - 1) =~= p.drop_last());
    lemma_step(tree, d, p, n);
    lemma_dirs(tree.files, tree.roots);
    assert(d =~= p.drop_last().subrange(0, d.len() as int)) by {
        assert(d == p.subrange(0, d.len() as int));
    }
}

pub proof fn lemma_depth(tree: TreeV, d: PathId)
    requires
        has_dir(tree.dirs, d),
    ensures
        d.len() <= deepest(tree.dirs),
{
    lemma_deepest(tree.dirs);
    let i = choose|i: int| 0 <= i < tree.dirs.len() && (#[trigger] tree.dirs[i]).parts == d;
    assert(tree.dirs[i].parts.len() <= deepest(tree.dirs));
}

/// The part of a path that lies below a directory.
pub open spec fn below(p: PathId, d: PathId) -> PathId {
    p.skip(d.len() as int)
}

/// Of two directories with one signature, the second holds a copy of each directory
/// of the first, at the same place, unless digests collide.
pub proof fn law_equal_folders_hold_the_same_folders(tree: TreeV, d: PathId, e: PathId, s: PathId)
    requires
        well_built(tree),
        no_collisions(tree),
        has_dir(tree.dirs, d),
        has_dir(tree.dirs, e),
        tree.info(d).signature is Some,
        tree.info(d).signature == tree.info(e).signature,
        has_dir(tree.dirs, s),
        is_under(s, d),
    ensures
        tree.info(s).signature is Some,
        holds_dir(tree, e + below(s, d), tree.info(s).signature.unwrap()),
    decreases s.len(),
{
    assert(d == s.subrange(0, d.len() as int));
    if s.len() == d.len() {
        assert(s =~= d);
        assert(e + below(s, d) =~= e);
    } else {
        lemma_dirs_split(tree.files, tree.roots);
        let x = choose|x: int| 0 <= x < tree.dirs.len() && (#[trigger] tree.dirs[x]).parts == s;
        assert(well_split(tree.dirs[x].parts));
        let n = s.len() as int;
        let up = s.take(n - 1);
        assert(s.take(n) =~= s);
        lemma_step(tree, d, s, n);
        lemma_chain(tree, d, s, n, n);
        lemma_chain(tree, d, s, n, n - 1);
        assert(d =~= up.subrange(0, d.len() as int));
        law_equal_folders_hold_the_same_folders(tree, d, e, up);
        let twin = e + below(up, d);
        lemma_depth(tree, up);
        lemma_depth(tree, twin);
        lemma_level(tree, up, twin);
        assert(parent_of(tree.dirs[x].parts) == Some(up));
        assert(e + below(s, d) =~= twin.push(s.last()));
    }
}

/// Of two directories with one signature, the second holds a file of the same
/// content for each file of the first, at the same place, unless digests collide.
pub proof fn law_equal_folders_hold_the_same_files(tree: TreeV, d: PathId, e: PathId, x: int)
    requires
        well_built(tree),
        no_collisions(tree),
        has_dir(tree.dirs, d),
        has_dir(tree.dirs, e),
        tree.info(d).signature is Some,
        tree.info(d).signature == tree.info(e).signature,
        0 <= x < tree.files.len(),
        is_under(tree.files[x].parts, d),
        tree.files[x].parts.len() > d.len(),
    ensures
        tree.at.contains_key(tree.files[x].parts),
        holds_file(tree, e + below(tree.files[x].parts, d), hash_of(tree, tree.files[x].parts)),
{
    let f = tree.files[x].parts;
    let up = f.drop_last();
    lemma_file_dir(tree, d, x);
    law_equal_folders_hold_the_same_folders(tree, d, e, up);
    let twin = e + below(up, d);
    lemma_depth(tree, up);
    lemma_depth(tree, twin);
    lemma_level(tree, up, twin);
    assert(e + below(f, d) =~= twin.push(f.last()));
}

/// A directory with a signature holds, all the way down, only directories with one,
/// and of a confirmed directory they are confirmed.
proof fn lemma_signed_below(tree: TreeV, d: PathId, s: PathId)
    requires
        well_built(tree),
        has_dir(tree.dirs, d),
        tree.info(d).signature is Some,
        has_dir(tree.dirs, s),
        is_under(s, d),
    ensures
        tree.info(s).signature is Some,
        tree.info(d).confirmed ==> tree.info(s).confirmed,
    decreases s.len(),
{
    assert(d == s.subrange(0, d.len() as int));
    if s.len() == d.len() {
        assert(s =~= d);
    } else {
        lemma_dirs_split(tree.files, tree.roots);
        let x = choose|x: int| 0 <= x < tree.dirs.len() && (#[trigger] tree.dirs[x]).parts == s;
        assert(well_split(tree.dirs[x].parts));
        let n = s.len() as int;
        let up = s.take(n - 1);
        assert(s.take(n) =~= s);
        lemma_step(tree, d, s, n);
        lemma_chain(tree, d, s, n, n);
        lemma_chain(tree, d, s, n, n - 1);
        assert(d =~= up.subrange(0, d.len() as int));
        lemma_signed_below(tree, d, up);
        lemma_depth(tree, up);
        let _ = lemma_described(tree, up);
        lemma_sorted(tree, up);
        lemma_filter_has(tree.dirs, sub_of(up, tree.roots), x);
        let list = sorted_subs(tree, up);
        assert(list.contains(tree.dirs[x]));
        let i = choose|i: int| 0 <= i < list.len() && list[i] == tree.dirs[x];
        assert(dir_counts(tree, list[i].parts));
    }
}

/// Every file below a directory with a signature, however deep, has a duplicate. A
/// file that was not read is none, so that the directory holds no such file. Of a
/// confirmed directory each file is in a confirmed group.
pub proof fn law_signed_folders_are_complete(tree: TreeV, d: PathId, x: int)
    requires
        well_built(tree),
        has_dir(tree.dirs, d),
        tree.info(d).signature is Some,
        0 <= x < tree.files.len(),
        is_under(tree.files[x].parts, d),
        tree.files[x].parts.len() > d.len(),
    ensures
        tree.at.contains_key(tree.files[x].parts),
        tree.info(d).confirmed ==> tree.groups[tree.at[tree.files[x].parts] as int].confirmed,
{
    let f = tree.files[x].parts;
    let up = f.drop_last();
    lemma_file_dir(tree, d, x);
    lemma_signed_below(tree, d, up);
    lemma_depth(tree, up);
    let _ = lemma_described(tree, up);
    lemma_sorted(tree, up);
    lemma_filter_has(tree.files, lies_in(up), x);
    let list = sorted_files(tree, up);
    assert(list.contains(tree.files[x]));
    let i = choose|i: int| 0 <= i < list.len() && list[i] == tree.files[x];
    assert(file_counts(tree, list[i].parts));
}

// ------------------------------------------------------------------ kept apart

/// A directory with a signature holds a file.
proof fn lemma_holds_some_file(tree: TreeV, d: PathId) -> (x: int)
    requires
        well_built(tree),
        has_dir(tree.dirs, d),
        tree.info(d).signature is Some,
    ensures
        0 <= x < tree.files.len(),
        is_under(tree.files[x].parts, d),
        tree.files[x].parts.len() > d.len(),
    decreases deepest(tree.dirs) - d.len(),
{
    lemma_depth(tree, d);
    let _ = lemma_described(tree, d);
    lemma_sorted(tree, d);
    let (files, subs) = (sorted_files(tree, d), sorted_subs(tree, d));
    if files.len() > 0 {
        let f = files[0];
        assert(tree.files.contains(f));
        let x = choose|x: int| 0 <= x < tree.files.len() && tree.files[x] == f;
        assert(parent_of(f.parts) == Some(d));
        assert(d =~= f.parts.subrange(0, d.len() as int));
        x
    } else {
        assert(subs.len() > 0);
        let s = subs[0];
        assert(dir_counts(tree, s.parts));
        assert(tree.dirs.contains(s) && parent_of(s.parts) == Some(d));
        let y = choose|y: int| 0 <= y < tree.dirs.len() && tree.dirs[y] == s;
        assert(tree.dirs[y].parts == s.parts);
        let x = lemma_holds_some_file(tree, s.parts);
        let p = tree.files[x].parts;
        assert(s.parts == p.subrange(0, s.parts.len() as int));
        assert(d =~= p.subrange(0, d.len() as int)) by {
            assert(d == s.parts.drop_last());
        }
        x
    }
}

proof fn lemma_ever_longer(tree: TreeV, a: PathId, b: PathId, n: nat) -> (x: int)
    requires
        well_built(tree),
        no_collisions(tree),
        has_dir(tree.dirs, a),
        has_dir(tree.dirs, b),
        tree.info(a).signature is Some,
        tree.info(a).signature == tree.info(b).signature,
        is_under(b, a),
        a != b,
    ensures
        0 <= x < tree.files.len(),
        is_under(tree.files[x].parts, a),
        tree.files[x].parts.len() > a.len(),
        tree.files[x].parts.len() >= n,
    decreases n,
{
    if n == 0 {
        lemma_holds_some_file(tree, a)
    } else {
        let x = lemma_ever_longer(tree, a, b, (n - 1) as nat);
        let f = tree.files[x].parts;
        law_equal_folders_hold_the_same_files(tree, a, b, x);
        let id = b + below(f, a);
        lemma_ids_has(tree.files, id);
        let y = choose|y: int| 0 <= y < tree.files.len() && (#[trigger] tree.files[y]).parts == id;
        assert(a == b.subrange(0, a.len() as int));
        if a.len() == b.len() {
            assert(a =~= b);
        }
        assert(a =~= id.subrange(0, a.len() as int));
        y
    }
}

/// No directory lies in a copy of itself.
pub proof fn law_copies_lie_apart(tree: TreeV, a: PathId, b: PathId)
    requires
        well_built(tree),
        no_collisions(tree),
        has_dir(tree.dirs, a),
        has_dir(tree.dirs, b),
        tree.info(a).signature is Some,
        tree.info(a).signature == tree.info(b).signature,
        a != b,
    ensures
        !is_under(b, a),
{
    if is_under(b, a) {
        lemma_deepest(tree.files);
        let x = lemma_ever_longer(tree, a, b, deepest(tree.files) + 1);
        assert(tree.files[x].parts.len() <= deepest(tree.files));
    }
}

// ------------------------------------------------------------- copies are found

/// Whether a directory is reported or lies in one that is.
pub open spec fn inside_reported(tree: TreeV, d: PathId) -> bool {
    exists|g: int, k: int|
        #![trigger tree.duplicate_folders()[g].paths[k]]
        0 <= g < tree.duplicate_folders().len() && 0 <= k < tree.duplicate_folders()[g].paths.len() && is_under(
            d,
            tree.duplicate_folders()[g].paths[k].parts,
        )
}

proof fn lemma_path_order(a: PathId, b: PathId)
    ensures
        !(path_before(a, b) && path_before(b, a)),
        !path_before(a, a),
{
    law_paths_sort_by_parts(a, b);
    law_paths_sort_by_parts(b, a);
    law_paths_sort_by_parts(a, a);
    lemma_lex_asymmetric(path_code(a), path_code(b));
    lemma_lex_asymmetric(path_code(a), path_code(a));
}

/// The outermost of some directories that another lies in.
proof fn lemma_outermost(signed: SignedV, dirs: Set<PathId>, d: PathId) -> (q: PathId)
    requires
        signed.lies_below(dirs, d),
    ensures
        dirs.contains(q),
        is_under(d, q),
        q.len() < d.len(),
        !signed.lies_below(dirs, q),
    decreases d.len(),
{
    let p = parent_of(d).unwrap();
    if signed.lies_below(dirs, p) {
        let q = lemma_outermost(signed, dirs, p);
        assert(q == p.subrange(0, q.len() as int));
        assert(q =~= d.subrange(0, q.len() as int));
        q
    } else {
        assert(p =~= d.subrange(0, p.len() as int));
        p
    }
}

proof fn lemma_further(classes: Seq<Seq<PathV>>, q: PathId) -> (r: (int, int))
    requires
        further_copies(classes).contains(q),
    ensures
        0 <= r.0 < classes.len(),
        1 <= r.1 < in_order(classes[r.0]).len(),
        in_order(classes[r.0])[r.1].parts == q,
    decreases classes.len(),
{
    let s = classes.drop_last();
    if further_copies(s).contains(q) {
        let r = lemma_further(s, q);
        assert(s[r.0] == classes[r.0]);
        r
    } else {
        let o = in_order(classes.last());
        let rest = after_first(o);
        lemma_ids_has(rest, q);
        let k = choose|k: int| 0 <= k < rest.len() && (#[trigger] rest[k]).parts == q;
        assert(rest[k] == o[k + 1]);
        assert(classes[classes.len() - 1] == classes.last());
        (classes.len() - 1, k + 1)
    }
}

/// What is known of the class of a directory that has a copy.
proof fn lemma_home(tree: TreeV, d: PathId) -> (b: int)
    requires
        well_built(tree),
        has_dir(tree.dirs, d),
        tree.info(d).signature is Some,
    ensures
        0 <= b < tree.signed().classes(tree.dirs).len(),
        tree.signed().classes(tree.dirs)[b].key == tree.info(d).signature.unwrap(),
        b == pos(tree.signed().classes(tree.dirs), tree.info(d).signature.unwrap()),
        exists|i: int|
            0 <= i < in_order(tree.signed().classes(tree.dirs)[b].paths).len() && (#[trigger] in_order(
                tree.signed().classes(tree.dirs)[b].paths,
            )[i]).parts == d,
{
    let signed = tree.signed();
    lemma_dirs(tree.files, tree.roots);
    let x = choose|x: int| 0 <= x < tree.dirs.len() && (#[trigger] tree.dirs[x]).parts == d;
    let sig = tree.info(d).signature.unwrap();
    assert((signed.info)(tree.dirs[x].parts) == tree.info(d));
    lemma_class_of(signed, tree.dirs, x, sig);
    let classes = signed.classes(tree.dirs);
    lemma_pos(classes, sig);
    let b = pos(classes, sig);
    lemma_class_ascends(signed, b);
    let o = in_order(classes[b].paths);
    assert(o.contains(tree.dirs[x]));
    let i = choose|i: int| 0 <= i < o.len() && o[i] == tree.dirs[x];
    assert(o[i].parts == d);
    b
}

/// The directories of a class are directories of the tree with its signature.
proof fn lemma_members(tree: TreeV, b: int)
    requires
        well_built(tree),
        0 <= b < tree.signed().classes(tree.dirs).len(),
    ensures
        in_order(tree.signed().classes(tree.dirs)[b].paths).len() == tree.signed().classes(tree.dirs)[b].paths.len(),
        ascending(in_order(tree.signed().classes(tree.dirs)[b].paths)),
        forall|i: int|
            0 <= i < in_order(tree.signed().classes(tree.dirs)[b].paths).len() ==> holds_dir(
                tree,
                (#[trigger] in_order(tree.signed().classes(tree.dirs)[b].paths)[i]).parts,
                tree.signed().classes(tree.dirs)[b].key,
            ),
{
    let signed = tree.signed();
    lemma_dirs(tree.files, tree.roots);
    lemma_class_ascends(signed, b);
    lemma_classes_alike(signed, tree.dirs);
    lemma_classes_known(signed, tree.dirs);
    let class = signed.classes(tree.dirs)[b];
    let o = in_order(class.paths);
    assert(alike(signed, class.key, class.paths));
    assert forall|i: int| 0 <= i < o.len() implies holds_dir(tree, (#[trigger] o[i]).parts, class.key) by {
        assert(o.contains(o[i]));
        assert(class.paths.contains(o[i]));
        let k = choose|k: int| 0 <= k < class.paths.len() && class.paths[k] == o[i];
        assert((signed.info)(class.paths[k].parts).signature == Some(class.key));
        assert(tree.dirs.contains(signed.classes(tree.dirs)[b].paths[k]));
        let y = choose|y: int| 0 <= y < tree.dirs.len() && tree.dirs[y] == o[i];
        assert(tree.dirs[y].parts == o[i].parts);
    }
}

/// A directory in a further copy of another has a twin in the first copy, which
/// sorts before it. The copies lie in none, and so are told apart at once.
proof fn lemma_twin(tree: TreeV, d: PathId) -> (r: (int, int))
    requires
        well_built(tree),
        no_collisions(tree),
        has_dir(tree.dirs, d),
        tree.info(d).signature is Some,
        tree.signed().lies_below(tree.signed().further(), d),
    ensures
        0 <= r.0 < tree.signed().classes(tree.dirs).len(),
        tree.signed().classes(tree.dirs)[r.0].paths.len() >= 2,
        1 <= r.1 < in_order(tree.signed().classes(tree.dirs)[r.0].paths).len(),
        is_under(d, in_order(tree.signed().classes(tree.dirs)[r.0].paths)[r.1].parts),
        !tree.signed().lies_below(
            tree.signed().further(),
            in_order(tree.signed().classes(tree.dirs)[r.0].paths)[r.1].parts,
        ),
        ({
            let o = in_order(tree.signed().classes(tree.dirs)[r.0].paths);
            let twin = o[0].parts + below(d, o[r.1].parts);
            holds_dir(tree, twin, tree.info(d).signature.unwrap()) && path_before(twin, d) && is_under(twin, o[0].parts)
        }),
{
    let signed = tree.signed();
    let all = signed.candidates();
    let q = lemma_outermost(signed, further_copies(all), d);
    let (c, k) = lemma_further(all, q);
    let b = lemma_candidate_class(signed, c);
    lemma_members(tree, b);
    let class = signed.classes(tree.dirs)[b];
    let o = in_order(class.paths);
    let first = o[0].parts;
    assert(holds_dir(tree, o[0].parts, class.key));
    assert(holds_dir(tree, o[k].parts, class.key));
    assert(path_before(o[0].parts, o[k].parts));
    lemma_path_order(first, q);
    law_copies_lie_apart(tree, first, q);
    law_equal_folders_hold_the_same_folders(tree, q, first, d);
    let rest = below(d, q);
    assert(q == d.subrange(0, q.len() as int));
    assert(q + rest =~= d);
    lemma_below_in_order(first, q, rest);
    assert(first =~= (first + rest).subrange(0, first.len() as int));
    (b, k)
}

/// The first of equal directories lies in no further copy of another.
proof fn lemma_first_stays(tree: TreeV, b: int)
    requires
        well_built(tree),
        no_collisions(tree),
        0 <= b < tree.signed().classes(tree.dirs).len(),
        tree.signed().classes(tree.dirs)[b].paths.len() >= 1,
    ensures
        !tree.signed().lies_below(
            tree.signed().further(),
            in_order(tree.signed().classes(tree.dirs)[b].paths)[0].parts,
        ),
{
    let signed = tree.signed();
    let o = in_order(signed.classes(tree.dirs)[b].paths);
    lemma_members(tree, b);
    let d = o[0].parts;
    assert(holds_dir(tree, o[0].parts, signed.classes(tree.dirs)[b].key));
    if signed.lies_below(signed.further(), d) {
        let (c, k) = lemma_twin(tree, d);
        let p = in_order(signed.classes(tree.dirs)[c].paths);
        let twin = p[0].parts + below(d, p[k].parts);
        lemma_same_home(tree, b, d, twin);
        let i = choose|i: int| 0 <= i < o.len() && (#[trigger] o[i]).parts == twin;
        lemma_path_order(twin, d);
        if i > 0 {
            assert(path_before(o[0].parts, o[i].parts));
        }
    }
}

/// A directory with the signature of a class is in it.
proof fn lemma_same_home(tree: TreeV, b: int, d: PathId, e: PathId)
    requires
        well_built(tree),
        0 <= b < tree.signed().classes(tree.dirs).len(),
        tree.info(d).signature == Some(tree.signed().classes(tree.dirs)[b].key),
        has_dir(tree.dirs, e),
        tree.info(e).signature == tree.info(d).signature,
    ensures
        exists|i: int|
            0 <= i < in_order(tree.signed().classes(tree.dirs)[b].paths).len() && (#[trigger] in_order(
                tree.signed().classes(tree.dirs)[b].paths,
            )[i]).parts == e,
{
    let signed = tree.signed();
    let classes = signed.classes(tree.dirs);
    let home = lemma_home(tree, e);
    let x = choose|x: int| 0 <= x < tree.dirs.len() && (#[trigger] tree.dirs[x]).parts == e;
    assert((signed.info)(tree.dirs[x].parts) == tree.info(e));
    lemma_class_of(signed, tree.dirs, x, classes[b].key);
    assert(keys_unique(classes));
    lemma_pos_is(classes, b);
    assert(home == b);
}

/// What lies in a directory that is inside a reported one is so too.
proof fn lemma_inside_under(tree: TreeV, d: PathId, e: PathId)
    requires
        inside_reported(tree, e),
        is_under(d, e),
    ensures
        inside_reported(tree, d),
{
    let all = tree.duplicate_folders();
    let (g, k) = choose|g: int, k: int|
        #![trigger all[g].paths[k]]
        0 <= g < all.len() && 0 <= k < all[g].paths.len() && is_under(e, all[g].paths[k].parts);
    let q = all[g].paths[k].parts;
    assert(q == e.subrange(0, q.len() as int));
    assert(e == d.subrange(0, e.len() as int));
    assert(q =~= d.subrange(0, q.len() as int));
}

/// A directory whose match is not implied, and that lies in no other such directory,
/// is reported.
proof fn lemma_outer_reported(tree: TreeV, b: int, i: int)
    requires
        well_built(tree),
        0 <= b < tree.signed().classes(tree.dirs).len(),
        tree.signed().classes(tree.dirs)[b].paths.len() >= 2,
        kept_of(tree.signed(), tree.signed().classes(tree.dirs)[b].paths).len() >= 2,
        0 <= i < kept_of(tree.signed(), tree.signed().classes(tree.dirs)[b].paths).len(),
        !tree.signed().lies_below(
            tree.signed().matched(),
            kept_of(tree.signed(), tree.signed().classes(tree.dirs)[b].paths)[i].parts,
        ),
    ensures
        inside_reported(tree, kept_of(tree.signed(), tree.signed().classes(tree.dirs)[b].paths)[i].parts),
{
    let signed = tree.signed();
    let kept = kept_of(signed, signed.classes(tree.dirs)[b].paths);
    assert(signed.stands_out(signed.matched(), kept));
    let g = lemma_class_reported(signed, b);
    let d = kept[i].parts;
    assert(d =~= d.subrange(0, d.len() as int));
    assert(is_under(d, tree.duplicate_folders()[g].paths[i].parts));
}

/// A directory whose match is not implied is reported, or lies in one that is.
proof fn lemma_kept_inside(tree: TreeV, b: int, i: int)
    requires
        well_built(tree),
        0 <= b < tree.signed().classes(tree.dirs).len(),
        tree.signed().classes(tree.dirs)[b].paths.len() >= 2,
        kept_of(tree.signed(), tree.signed().classes(tree.dirs)[b].paths).len() >= 2,
        0 <= i < kept_of(tree.signed(), tree.signed().classes(tree.dirs)[b].paths).len(),
    ensures
        inside_reported(tree, kept_of(tree.signed(), tree.signed().classes(tree.dirs)[b].paths)[i].parts),
{
    let signed = tree.signed();
    let kept = kept_of(signed, signed.classes(tree.dirs)[b].paths);
    let d = kept[i].parts;
    if signed.lies_below(signed.matched(), d) {
        let q = lemma_outermost(signed, signed.matched(), d);
        let (c, k) = lemma_matched_is(signed, signed.further(), signed.candidates(), q);
        let home = lemma_candidate_class(signed, c);
        lemma_outer_reported(tree, home, k);
        lemma_inside_under(tree, d, q);
    } else {
        lemma_outer_reported(tree, b, i);
    }
}

/// The first of equal directories, and each other that lies in no further copy of
/// another, is reported or lies in one that is.
proof fn lemma_reported_with_first(tree: TreeV, b: int, k: int)
    requires
        well_built(tree),
        no_collisions(tree),
        0 <= b < tree.signed().classes(tree.dirs).len(),
        tree.signed().classes(tree.dirs)[b].paths.len() >= 2,
        1 <= k < in_order(tree.signed().classes(tree.dirs)[b].paths).len(),
        !tree.signed().lies_below(
            tree.signed().further(),
            in_order(tree.signed().classes(tree.dirs)[b].paths)[k].parts,
        ),
    ensures
        inside_reported(tree, in_order(tree.signed().classes(tree.dirs)[b].paths)[0].parts),
        inside_reported(tree, in_order(tree.signed().classes(tree.dirs)[b].paths)[k].parts),
{
    let signed = tree.signed();
    let class = signed.classes(tree.dirs)[b].paths;
    let o = in_order(class);
    lemma_first_stays(tree, b);
    lemma_members(tree, b);
    lemma_not_implied(signed, signed.further(), o);
    let kept = kept_of(signed, class);
    assert(kept.contains(o[0]) && kept.contains(o[k]));
    let i = choose|i: int| 0 <= i < kept.len() && kept[i] == o[0];
    let j = choose|j: int| 0 <= j < kept.len() && kept[j] == o[k];
    lemma_path_order(o[0].parts, o[k].parts);
    assert(path_before(o[0].parts, o[k].parts));
    assert(i != j);
    lemma_kept_inside(tree, b, i);
    lemma_kept_inside(tree, b, j);
}

/// A directory that lies in a further copy of another lies in a reported one, and
/// so does its twin in the first copy.
proof fn lemma_inside(tree: TreeV, d: PathId)
    requires
        well_built(tree),
        no_collisions(tree),
        has_dir(tree.dirs, d),
        tree.info(d).signature is Some,
        tree.signed().lies_below(tree.signed().further(), d),
    ensures
        inside_reported(tree, d),
        exists|t: PathId| #[trigger]
            holds_dir(tree, t, tree.info(d).signature.unwrap()) && path_before(t, d) && inside_reported(tree, t),
{
    let (b, k) = lemma_twin(tree, d);
    lemma_reported_with_first(tree, b, k);
    let o = in_order(tree.signed().classes(tree.dirs)[b].paths);
    let twin = o[0].parts + below(d, o[k].parts);
    lemma_inside_under(tree, d, o[k].parts);
    lemma_inside_under(tree, twin, o[0].parts);
}

/// Every directory that has a copy is reported, or lies in one that is, unless
/// digests collide.
pub proof fn law_copies_are_found(tree: TreeV, d: PathId, e: PathId)
    requires
        well_built(tree),
        no_collisions(tree),
        has_dir(tree.dirs, d),
        has_dir(tree.dirs, e),
        d != e,
        tree.info(d).signature is Some,
        tree.info(d).signature == tree.info(e).signature,
    ensures
        inside_reported(tree, d),
        inside_reported(tree, e),
{
    lemma_copy_found(tree, d, e);
    lemma_copy_found(tree, e, d);
}

proof fn lemma_copy_found(tree: TreeV, d: PathId, e: PathId)
    requires
        well_built(tree),
        no_collisions(tree),
        has_dir(tree.dirs, d),
        has_dir(tree.dirs, e),
        d != e,
        tree.info(d).signature is Some,
        tree.info(d).signature == tree.info(e).signature,
    ensures
        inside_reported(tree, d),
{
    let signed = tree.signed();
    let further = signed.further();
    let b = lemma_home(tree, d);
    lemma_same_home(tree, b, d, e);
    lemma_members(tree, b);
    let o = in_order(signed.classes(tree.dirs)[b].paths);
    let i = choose|i: int| 0 <= i < o.len() && (#[trigger] o[i]).parts == d;
    let j = choose|j: int| 0 <= j < o.len() && (#[trigger] o[j]).parts == e;
    assert(i != j);
    if signed.lies_below(further, d) {
        lemma_inside(tree, d);
    } else if i > 0 {
        lemma_reported_with_first(tree, b, i);
    } else if !signed.lies_below(further, o[1].parts) {
        lemma_reported_with_first(tree, b, 1);
    } else {
        assert(holds_dir(tree, o[1].parts, signed.classes(tree.dirs)[b].key));
        lemma_inside(tree, o[1].parts);
        let t = choose|t: PathId| #[trigger]
            holds_dir(tree, t, tree.info(o[1].parts).signature.unwrap()) && path_before(t, o[1].parts)
                && inside_reported(tree, t);
        lemma_same_home(tree, b, d, t);
        let m = choose|m: int| 0 <= m < o.len() && (#[trigger] o[m]).parts == t;
        lemma_path_order(t, o[1].parts);
        if m > 1 {
            assert(path_before(o[1].parts, o[m].parts));
        }
        assert(m == 0);
    }
}

// ------------------------------------------------------ groups that stand out

/// A directory below another, one of some, lies below these.
proof fn lemma_covered(tree: TreeV, dirs: Set<PathId>, q: PathId, p: PathId, n: int)
    requires
        well_built(tree),
        has_dir(tree.dirs, q),
        !tree.unread.contains(q),
        has_dir(tree.dirs, p),
        is_under(p, q),
        dirs.contains(q),
        q.len() <= n <= p.len(),
    ensures
        tree.signed().covered(dirs, p.take(n)),
        n > q.len() ==> tree.signed().lies_below(dirs, p.take(n)),
    decreases n,
{
    assert(q == p.subrange(0, q.len() as int));
    if n == q.len() {
        assert(p.take(n) =~= q);
    } else {
        lemma_covered(tree, dirs, q, p, n - 1);
        lemma_dirs_split(tree.files, tree.roots);
        let x = choose|x: int| 0 <= x < tree.dirs.len() && (#[trigger] tree.dirs[x]).parts == p;
        assert(well_split(tree.dirs[x].parts));
        assert(p.take(p.len() as int) =~= p);
        lemma_step(tree, q, p, n);
        lemma_chain(tree, q, p, p.len() as int, n);
    }
}

/// Of every reported group a directory lies in no other directory that is reported:
/// no group is reported whose directories all lie in others.
pub proof fn law_reported_groups_stand_out(tree: TreeV, g: int) -> (k: int)
    requires
        well_built(tree),
        0 <= g < tree.duplicate_folders().len(),
    ensures
        0 <= k < tree.duplicate_folders()[g].paths.len(),
        forall|h: int, j: int|
            #![trigger tree.duplicate_folders()[h].paths[j]]
            0 <= h < tree.duplicate_folders().len() && 0 <= j < tree.duplicate_folders()[h].paths.len() && is_under(
                tree.duplicate_folders()[g].paths[k].parts,
                tree.duplicate_folders()[h].paths[j].parts,
            ) ==> tree.duplicate_folders()[h].paths[j].parts == tree.duplicate_folders()[g].paths[k].parts,
{
    let signed = tree.signed();
    let all = tree.duplicate_folders();
    let b = lemma_group_class(signed, g);
    let kept = kept_of(signed, signed.classes(tree.dirs)[b].paths);
    let k = choose|k: int| 0 <= k < kept.len() && !signed.lies_below(signed.matched(), (#[trigger] kept[k]).parts);
    assert(all[g].paths == kept);
    let p = kept[k].parts;
    lemma_group_dirs(tree, g);
    assert(has_dir(tree.dirs, all[g].paths[k].parts));
    assert forall|h: int, j: int|
        #![trigger all[h].paths[j]]
        0 <= h < all.len() && 0 <= j < all[h].paths.len() && is_under(p, all[h].paths[j].parts) implies all[h].paths[j].parts
        == p by {
        let q = all[h].paths[j].parts;
        lemma_group_dirs(tree, h);
        assert(has_dir(tree.dirs, all[h].paths[j].parts));
        let c = lemma_group_class(signed, h);
        let d = lemma_candidate(signed, c);
        lemma_matched_has(signed, signed.further(), signed.candidates(), d, j);
        assert(signed.matched().contains(q));
        assert(q == p.subrange(0, q.len() as int));
        if p.len() > q.len() {
            lemma_covered(tree, signed.matched(), q, p, p.len() as int);
            assert(p.take(p.len() as int) =~= p);
        } else {
            assert(q =~= p);
        }
    }
    k
}

// ---------------------------------------------------- what has a signature at all

/// Whether a list has a file in a directory, at any depth.
spec fn holds_some(files: Seq<PathV>, d: PathId) -> bool {
    exists|x: int| 0 <= x < files.len() && is_under((#[trigger] files[x]).parts, d) && files[x].parts.len() > d.len()
}

spec fn dirs_hold(dirs: Seq<PathV>, files: Seq<PathV>) -> bool {
    forall|i: int| 0 <= i < dirs.len() ==> holds_some(files, (#[trigger] dirs[i]).parts)
}

proof fn lemma_linked_hold(dirs: Seq<PathV>, d: PathV, roots: Set<PathId>, files: Seq<PathV>, x: int)
    requires
        dirs_hold(dirs, files),
        0 <= x < files.len(),
        is_under(files[x].parts, d.parts),
        files[x].parts.len() > d.parts.len(),
    ensures
        dirs_hold(linked(dirs, d, roots), files),
    decreases d.parts.len(),
{
    if !has_dir(dirs, d.parts) {
        let n = dirs.push(d);
        assert(holds_some(files, d.parts));
        assert(dirs_hold(n, files)) by {
            assert forall|i: int| 0 <= i < n.len() implies holds_some(files, (#[trigger] n[i]).parts) by {
                if i < dirs.len() {
                    assert(n[i] == dirs[i]);
                }
            }
        }
        if !roots.contains(d.parts) {
            match parent_path(d) {
                Some(p) => {
                    let f = files[x].parts;
                    assert(d.parts == f.subrange(0, d.parts.len() as int));
                    assert(p.parts =~= f.subrange(0, p.parts.len() as int));
                    lemma_linked_hold(n, p, roots, files, x);
                },
                None => {},
            }
        }
    }
}

proof fn lemma_dirs_hold(files: Seq<PathV>, roots: Set<PathId>)
    ensures
        dirs_hold(dirs_of(files, roots), files),
    decreases files.len(),
{
    if files.len() > 0 {
        let s = files.drop_last();
        lemma_dirs_hold(s, roots);
        let before = dirs_of(s, roots);
        assert(dirs_hold(before, files)) by {
            assert forall|i: int| 0 <= i < before.len() implies holds_some(files, (#[trigger] before[i]).parts) by {
                let d = before[i].parts;
                assert(holds_some(s, d));
                let x = choose|x: int|
                    0 <= x < s.len() && is_under((#[trigger] s[x]).parts, d) && s[x].parts.len() > d.len();
                assert(files[x] == s[x]);
            }
        }
        match parent_path(files.last()) {
            Some(p) => {
                let f = files[files.len() - 1].parts;
                assert(p.parts =~= f.subrange(0, p.parts.len() as int));
                lemma_linked_hold(before, p, roots, files, files.len() - 1);
            },
            None => {},
        }
    }
}

/// Whether the path from a directory down to a file is one of names.
pub open spec fn named_below(p: PathId, d: PathId) -> bool {
    forall|k: int| d.len() <= k < p.len() ==> (#[trigger] p[k]).kind == PartKind::Normal
}

/// Whether every file in a directory, at any depth, has a duplicate and was read.
pub open spec fn complete(tree: TreeV, d: PathId) -> bool {
    &&& forall|x: int|
        0 <= x < tree.files.len() && is_under((#[trigger] tree.files[x]).parts, d) && tree.files[x].parts.len() > d.len()
            ==> tree.at.contains_key(tree.files[x].parts) && named_below(tree.files[x].parts, d)
    &&& forall|i: int|
        0 <= i < tree.dirs.len() && is_under((#[trigger] tree.dirs[i]).parts, d) ==> !tree.unread.contains(
            tree.dirs[i].parts,
        )
}

/// The bytes that describe a directory, as far as its entries can be gone through.
pub open spec fn description_of(tree: TreeV, d: PathId) -> Seq<u8> {
    match tree.tally_files(by_name(tree.files_in(d))) {
        None => Seq::empty(),
        Some(t) => match tree.tally_subs(t, by_name(tree.subs_in(d)), (deepest(tree.dirs) - d.len()) as nat) {
            None => Seq::empty(),
            Some(t2) => vstd::utf8::encode_utf8(description(t2.entries)),
        },
    }
}

/// Whether no directory holds so much that its description cannot be hashed.
pub open spec fn describable(tree: TreeV) -> bool {
    forall|i: int|
        0 <= i < tree.dirs.len() ==> description_of(tree, (#[trigger] tree.dirs[i]).parts).len() < DIGEST_LIMIT
}

proof fn lemma_files_some(tree: TreeV, list: Seq<PathV>)
    requires
        forall|i: int| 0 <= i < list.len() ==> file_counts(tree, (#[trigger] list[i]).parts),
    ensures
        tree.tally_files(list) is Some,
    decreases list.len(),
{
    if list.len() > 0 {
        let s = list.drop_last();
        assert forall|i: int| 0 <= i < s.len() implies file_counts(tree, (#[trigger] s[i]).parts) by {
            assert(s[i] == list[i]);
        }
        lemma_files_some(tree, s);
        assert(file_counts(tree, list[list.len() - 1].parts));
    }
}

proof fn lemma_subs_some(tree: TreeV, start: TallyV, list: Seq<PathV>, height: nat)
    requires
        forall|i: int|
            0 <= i < list.len() ==> height > 0 && tree.info_at((#[trigger] list[i]).parts, (height - 1) as nat).signature
                is Some && name_of(list[i].parts) is Some,
    ensures
        tree.tally_subs(start, list, height) is Some,
    decreases list.len(),
{
    if list.len() > 0 {
        let s = list.drop_last();
        assert forall|i: int| 0 <= i < s.len() implies height > 0 && tree.info_at(
            (#[trigger] s[i]).parts,
            (height - 1) as nat,
        ).signature is Some && name_of(s[i].parts) is Some by {
            assert(s[i] == list[i]);
        }
        lemma_subs_some(tree, start, s, height);
        assert(name_of(list[list.len() - 1].parts) is Some);
    }
}

proof fn lemma_complete_below(tree: TreeV, d: PathId, s: PathId)
    requires
        complete(tree, d),
        is_under(s, d),
    ensures
        complete(tree, s),
{
    assert(d == s.subrange(0, d.len() as int));
    assert forall|p: PathId| #[trigger] is_under(p, s) implies is_under(p, d) by {
        assert(s == p.subrange(0, s.len() as int));
        assert(d =~= p.subrange(0, d.len() as int));
    }
}

/// The first step down from a directory to a file in it.
proof fn lemma_some_entry(tree: TreeV, d: PathId, x: int)
    requires
        well_built(tree),
        has_dir(tree.dirs, d),
        !tree.unread.contains(d),
        d.len() <= deepest(tree.dirs),
        0 <= x < tree.files.len(),
        is_under(tree.files[x].parts, d),
        tree.files[x].parts.len() > d.len(),
    ensures
        sorted_files(tree, d).len() + sorted_subs(tree, d).len() > 0,
{
    let f = tree.files[x].parts;
    lemma_sorted(tree, d);
    lemma_file_dir(tree, d, x);
    assert(d == f.subrange(0, d.len() as int));
    if f.len() == d.len() + 1 {
        assert(f.drop_last() =~= d);
        lemma_filter_has(tree.files, lies_in(d), x);
        assert(sorted_files(tree, d).contains(tree.files[x]));
    } else {
        let n = d.len() as int + 1;
        assert(well_split(f));
        assert(f.drop_last() =~= f.take(f.len() - 1));
        lemma_chain(tree, d, f, f.len() - 1, n);
        lemma_step(tree, d, f, n);
        assert(f.take(n - 1) =~= d);
        let y = choose|y: int| 0 <= y < tree.dirs.len() && (#[trigger] tree.dirs[y]).parts == f.take(n);
        lemma_filter_has(tree.dirs, sub_of(d, tree.roots), y);
        assert(sorted_subs(tree, d).contains(tree.dirs[y]));
    }
}

/// A directory has a signature where every file in it, at any depth, has a duplicate
/// and nothing in it was skipped.
pub proof fn law_complete_folders_are_signed(tree: TreeV, d: PathId)
    requires
        well_built(tree),
        describable(tree),
        has_dir(tree.dirs, d),
        complete(tree, d),
    ensures
        tree.info(d).signature is Some,
    decreases deepest(tree.dirs) - d.len(),
{
    lemma_depth(tree, d);
    lemma_sorted(tree, d);
    lemma_dirs_hold(tree.files, tree.roots);
    let (files, subs) = (sorted_files(tree, d), sorted_subs(tree, d));
    let height = (deepest(tree.dirs) - d.len()) as nat;
    let at = choose|i: int| 0 <= i < tree.dirs.len() && (#[trigger] tree.dirs[i]).parts == d;
    assert(d =~= d.subrange(0, d.len() as int));
    assert(is_under(tree.dirs[at].parts, d));
    assert forall|i: int| 0 <= i < files.len() implies file_counts(tree, (#[trigger] files[i]).parts) by {
        let f = files[i];
        assert(tree.files.contains(f) && parent_of(f.parts) == Some(d));
        let x = choose|x: int| 0 <= x < tree.files.len() && tree.files[x] == f;
        assert(d =~= f.parts.subrange(0, d.len() as int));
        assert(is_under(tree.files[x].parts, d));
        assert(f.parts[d.len() as int].kind == PartKind::Normal);
    }
    lemma_files_some(tree, files);
    lemma_files_tallied(tree, files);
    assert forall|i: int| 0 <= i < subs.len() implies height > 0 && tree.info_at(
        (#[trigger] subs[i]).parts,
        (height - 1) as nat,
    ).signature is Some && name_of(subs[i].parts) is Some by {
        let s = subs[i];
        assert(tree.dirs.contains(s) && parent_of(s.parts) == Some(d));
        let y = choose|y: int| 0 <= y < tree.dirs.len() && tree.dirs[y] == s;
        assert(tree.dirs[y].parts == s.parts);
        assert(d =~= s.parts.subrange(0, d.len() as int));
        lemma_complete_below(tree, d, s.parts);
        law_complete_folders_are_signed(tree, s.parts);
        assert(holds_some(tree.files, tree.dirs[y].parts));
        let x = choose|x: int|
            0 <= x < tree.files.len() && is_under((#[trigger] tree.files[x]).parts, s.parts) && tree.files[x].parts.len()
                > s.parts.len();
        let f = tree.files[x].parts;
        assert(s.parts == f.subrange(0, s.parts.len() as int));
        assert(d =~= f.subrange(0, d.len() as int));
        assert(is_under(tree.files[x].parts, d));
        assert(f[d.len() as int].kind == PartKind::Normal);
        assert(s.parts.last() == f[d.len() as int]);
    }
    let t = tree.tally_files(files).unwrap();
    lemma_subs_some(tree, t, subs, height);
    lemma_subs_tallied(tree, t, subs, height);
    assert(holds_some(tree.files, tree.dirs[at].parts));
    let x = choose|x: int|
        0 <= x < tree.files.len() && is_under((#[trigger] tree.files[x]).parts, d) && tree.files[x].parts.len() > d.len();
    lemma_some_entry(tree, d, x);
    assert(description_of(tree, tree.dirs[at].parts).len() < DIGEST_LIMIT);
}

// ----------------------------------------------------------- equal folders are found

/// Whether keys ascend, each once.
spec fn keys_ascend(keys: Seq<Seq<u64>>) -> bool {
    forall|i: int, j: int| 0 <= i < j < keys.len() ==> lex_before(#[trigger] keys[i], #[trigger] keys[j])
}

/// Keys that ascend are told by which they are.
proof fn lemma_ascending_unique(a: Seq<Seq<u64>>, b: Seq<Seq<u64>>)
    requires
        keys_ascend(a),
        keys_ascend(b),
        forall|k: Seq<u64>| #[trigger] a.contains(k) <==> b.contains(k),
    ensures
        a == b,
    decreases a.len(),
{
    if a.len() == 0 {
        if b.len() > 0 {
            assert(b.contains(b[0]));
            assert(a.contains(b[0]));
        }
        assert(a =~= b);
    } else {
        let x = a[a.len() - 1];
        assert(a.contains(x));
        assert(b.contains(x));
        let j = choose|j: int| 0 <= j < b.len() && b[j] == x;
        let y = b[b.len() - 1];
        assert(b.contains(y));
        assert(a.contains(y));
        let i = choose|i: int| 0 <= i < a.len() && a[i] == y;
        lemma_lex_asymmetric(x, y);
        lemma_lex_asymmetric(x, x);
        assert(x == y);
        let (s, t) = (a.drop_last(), b.drop_last());
        assert(keys_ascend(s)) by {
            assert forall|i: int, j: int| 0 <= i < j < s.len() implies lex_before(#[trigger] s[i], #[trigger] s[j]) by {
                assert(s[i] == a[i] && s[j] == a[j]);
            }
        }
        assert(keys_ascend(t)) by {
            assert forall|i: int, j: int| 0 <= i < j < t.len() implies lex_before(#[trigger] t[i], #[trigger] t[j]) by {
                assert(t[i] == b[i] && t[j] == b[j]);
            }
        }
        assert forall|k: Seq<u64>| #[trigger] s.contains(k) <==> t.contains(k) by {
            lemma_but_last(a, k);
            lemma_but_last(b, k);
            assert(a.contains(k) <==> b.contains(k));
        }
        lemma_ascending_unique(s, t);
        assert(a =~= s.push(x));
        assert(b =~= t.push(y));
    }
}

proof fn lemma_but_last(a: Seq<Seq<u64>>, k: Seq<u64>)
    requires
        keys_ascend(a),
        a.len() > 0,
    ensures
        a.drop_last().contains(k) <==> a.contains(k) && k != a.last(),
{
    let s = a.drop_last();
    if s.contains(k) {
        let i = choose|i: int| 0 <= i < s.len() && s[i] == k;
        assert(a[i] == k);
        assert(lex_before(a[i], a[a.len() - 1]));
        lemma_lex_asymmetric(k, k);
    }
    if a.contains(k) && k != a.last() {
        let i = choose|i: int| 0 <= i < a.len() && a[i] == k;
        assert(s[i] == k);
    }
}

proof fn lemma_filter_unique(s: Seq<PathV>, keep: spec_fn(PathV) -> bool)
    requires
        ids_unique(s),
    ensures
        ids_unique(s.filter(keep)),
    decreases s.len(),
{
    reveal(Seq::filter);
    if s.len() > 0 {
        let t = s.drop_last();
        assert(ids_unique(t)) by {
            assert forall|i: int, j: int| 0 <= i < j < t.len() implies (#[trigger] t[i]).parts != (#[trigger] t[j]).parts by {
                assert(t[i] == s[i] && t[j] == s[j]);
            }
        }
        lemma_filter_unique(t, keep);
        let (a, b) = (t.filter(keep), s.filter(keep));
        assert forall|i: int, j: int| 0 <= i < j < b.len() implies (#[trigger] b[i]).parts != (#[trigger] b[j]).parts by {
            assert(b[i] == a[i]);
            if j < a.len() {
                assert(b[j] == a[j]);
            } else {
                assert(a.contains(a[i]));
                lemma_filter_member(t, keep, a[i]);
                let x = choose|x: int| 0 <= x < t.len() && t[x] == a[i];
                assert(s[x] == a[i] && s[s.len() - 1] == b[j]);
            }
        }
    }
}

spec fn name_keys(list: Seq<PathV>) -> Seq<Seq<u64>> {
    list.map_values(|p: PathV| name_key(p.parts))
}

proof fn lemma_key_tells(a: PathId, b: PathId)
    requires
        name_of(a) is Some,
        name_of(b) is Some,
        name_key(a) == name_key(b),
    ensures
        name_of(a) == name_of(b),
{
    let (x, y) = (name_of(a).unwrap(), name_of(b).unwrap());
    let (k, l) = (name_key(a), name_key(b));
    assert(k.len() == x.len() + 1 && l.len() == y.len() + 1);
    assert forall|i: int| 0 <= i < x.len() implies x[i] == y[i] by {
        assert(k[i + 1] == x[i] as u64);
        assert(l[i + 1] == y[i] as u64);
    }
    assert(x =~= y);
}

/// Entries of one directory, each there once, ascend when they are put in the order of
/// their names.
proof fn lemma_names_ascend(list: Seq<PathV>, d: PathId)
    requires
        list.len() <= usize::MAX,
        ids_unique(list),
        forall|i: int|
            0 <= i < list.len() ==> parent_of((#[trigger] list[i]).parts) == Some(d) && name_of(list[i].parts) is Some,
    ensures
        keys_ascend(name_keys(by_name(list))),
{
    let keys = list.map_values(|p: PathV| name_key(p.parts));
    lemma_order_exists(keys);
    let perm = stable_order_of(keys);
    assert(is_stable_order(keys, perm));
    let out = by_name(list);
    let sorted = name_keys(out);
    assert forall|i: int, j: int| 0 <= i < j < sorted.len() implies lex_before(#[trigger] sorted[i], #[trigger] sorted[j]) by {
        let (x, y) = (perm[i] as int, perm[j] as int);
        assert(precedes(keys, x, y));
        assert(out[i] == list[x] && out[j] == list[y]);
        assert(keys[x] == name_key(list[x].parts) && keys[y] == name_key(list[y].parts));
        if !lex_before(keys[x], keys[y]) {
            lemma_key_tells(list[x].parts, list[y].parts);
            lemma_same_place(list[x].parts, list[y].parts, d);
            lemma_same_place(list[x].parts, list[x].parts, d);
            assert(x < y && list[x].parts != list[y].parts);
        }
    }
}

/// Whether a directory holds a file with the same digest for each file of another, at
/// the same place.
pub open spec fn holds_all_of(tree: TreeV, e: PathId, d: PathId) -> bool {
    forall|x: int|
        0 <= x < tree.files.len() && is_under((#[trigger] tree.files[x]).parts, d) && tree.files[x].parts.len() > d.len()
            ==> holds_file(tree, e + below(tree.files[x].parts, d), hash_of(tree, tree.files[x].parts))
}

/// What a directory holds directly, it holds as a name.
proof fn lemma_entries_named(tree: TreeV, d: PathId)
    requires
        well_built(tree),
        has_dir(tree.dirs, d),
        complete(tree, d),
    ensures
        forall|i: int|
            0 <= i < sorted_files(tree, d).len() ==> name_of((#[trigger] sorted_files(tree, d)[i]).parts) is Some,
        forall|i: int|
            0 <= i < sorted_subs(tree, d).len() ==> name_of((#[trigger] sorted_subs(tree, d)[i]).parts) is Some,
{
    lemma_depth(tree, d);
    lemma_sorted(tree, d);
    lemma_dirs_hold(tree.files, tree.roots);
    let (files, subs) = (sorted_files(tree, d), sorted_subs(tree, d));
    assert forall|i: int| 0 <= i < files.len() implies name_of((#[trigger] files[i]).parts) is Some by {
        let f = files[i];
        assert(tree.files.contains(f) && parent_of(f.parts) == Some(d));
        let x = choose|x: int| 0 <= x < tree.files.len() && tree.files[x] == f;
        assert(d =~= f.parts.subrange(0, d.len() as int));
        assert(is_under(tree.files[x].parts, d));
        assert(f.parts[d.len() as int].kind == PartKind::Normal);
    }
    assert forall|i: int| 0 <= i < subs.len() implies name_of((#[trigger] subs[i]).parts) is Some by {
        let s = subs[i];
        assert(tree.dirs.contains(s) && parent_of(s.parts) == Some(d));
        let y = choose|y: int| 0 <= y < tree.dirs.len() && tree.dirs[y] == s;
        assert(holds_some(tree.files, tree.dirs[y].parts));
        let x = choose|x: int|
            0 <= x < tree.files.len() && is_under((#[trigger] tree.files[x]).parts, s.parts) && tree.files[x].parts.len()
                > s.parts.len();
        let f = tree.files[x].parts;
        assert(s.parts == f.subrange(0, s.parts.len() as int));
        assert(d =~= f.subrange(0, d.len() as int));
        assert(is_under(tree.files[x].parts, d));
        assert(f[d.len() as int].kind == PartKind::Normal);
        assert(s.parts.last() == f[d.len() as int]);
    }
}

/// Where a directory holds all that another does, each file that lies directly in that
/// has a file of the same name and digest in this.
proof fn lemma_file_partner(tree: TreeV, d: PathId, e: PathId, f: PathV)
    requires
        well_built(tree),
        has_dir(tree.dirs, d),
        has_dir(tree.dirs, e),
        complete(tree, d),
        holds_all_of(tree, e, d),
        sorted_files(tree, d).contains(f),
    ensures
        name_of(f.parts) is Some,
        hash_of(tree, e.push(f.parts.last())) == hash_of(tree, f.parts),
        exists|g: PathV| #[trigger] sorted_files(tree, e).contains(g) && g.parts == e.push(f.parts.last()),
{
    lemma_depth(tree, d);
    lemma_depth(tree, e);
    lemma_sorted(tree, d);
    lemma_sorted(tree, e);
    lemma_entries_named(tree, d);
    let list = sorted_files(tree, d);
    let i = choose|i: int| 0 <= i < list.len() && list[i] == f;
    assert(tree.files.contains(list[i]) && parent_of(list[i].parts) == Some(d));
    assert(name_of(list[i].parts) is Some);
    let x = choose|x: int| 0 <= x < tree.files.len() && tree.files[x] == f;
    assert(d =~= f.parts.subrange(0, d.len() as int));
    assert(is_under(tree.files[x].parts, d));
    let id = e.push(f.parts.last());
    assert(e + below(f.parts, d) =~= id);
    lemma_ids_has(tree.files, id);
    let y = choose|y: int| 0 <= y < tree.files.len() && (#[trigger] tree.files[y]).parts == id;
    assert(id.drop_last() =~= e);
    lemma_filter_has(tree.files, lies_in(e), y);
    assert(sorted_files(tree, e).contains(tree.files[y]));
}

/// The same of directories: the partner holds all that the first does.
proof fn lemma_dir_partner(tree: TreeV, d: PathId, e: PathId, s: PathV)
    requires
        well_built(tree),
        has_dir(tree.dirs, d),
        has_dir(tree.dirs, e),
        complete(tree, d),
        !tree.unread.contains(e),
        holds_all_of(tree, e, d),
        sorted_subs(tree, d).contains(s),
    ensures
        name_of(s.parts) is Some,
        has_dir(tree.dirs, s.parts),
        is_under(s.parts, d),
        s.parts.len() == d.len() + 1,
        holds_all_of(tree, e.push(s.parts.last()), s.parts),
        exists|g: PathV| #[trigger] sorted_subs(tree, e).contains(g) && g.parts == e.push(s.parts.last()),
{
    lemma_depth(tree, d);
    lemma_depth(tree, e);
    lemma_sorted(tree, d);
    lemma_sorted(tree, e);
    lemma_entries_named(tree, d);
    lemma_dirs_hold(tree.files, tree.roots);
    let list = sorted_subs(tree, d);
    let i = choose|i: int| 0 <= i < list.len() && list[i] == s;
    assert(tree.dirs.contains(list[i]) && parent_of(list[i].parts) == Some(d));
    assert(name_of(list[i].parts) is Some);
    let z = choose|z: int| 0 <= z < tree.dirs.len() && tree.dirs[z] == s;
    assert(tree.dirs[z].parts == s.parts);
    assert(d =~= s.parts.subrange(0, d.len() as int));
    let twin = e.push(s.parts.last());
    assert forall|x: int|
        0 <= x < tree.files.len() && is_under((#[trigger] tree.files[x]).parts, s.parts) && tree.files[x].parts.len()
            > s.parts.len() implies holds_file(
        tree,
        twin + below(tree.files[x].parts, s.parts),
        hash_of(tree, tree.files[x].parts),
    ) by {
        let f = tree.files[x].parts;
        assert(s.parts == f.subrange(0, s.parts.len() as int));
        assert(d =~= f.subrange(0, d.len() as int));
        assert(is_under(tree.files[x].parts, d));
        assert(f[d.len() as int] == s.parts.last());
        assert(e + below(f, d) =~= twin + below(f, s.parts));
    }
    assert(holds_some(tree.files, tree.dirs[z].parts));
    let x = choose|x: int|
        0 <= x < tree.files.len() && is_under((#[trigger] tree.files[x]).parts, s.parts) && tree.files[x].parts.len()
            > s.parts.len();
    let id = twin + below(tree.files[x].parts, s.parts);
    lemma_ids_has(tree.files, id);
    let y = choose|y: int| 0 <= y < tree.files.len() && (#[trigger] tree.files[y]).parts == id;
    assert(e =~= id.subrange(0, e.len() as int));
    lemma_file_dir(tree, e, y);
    let n = e.len() as int + 1;
    assert(well_split(tree.files[y].parts));
    assert(id.drop_last() =~= id.take(id.len() - 1));
    lemma_chain(tree, e, id, id.len() - 1, n);
    lemma_step(tree, e, id, n);
    assert(id.take(n) =~= twin);
    assert(id.take(n - 1) =~= e);
    let v = choose|v: int| 0 <= v < tree.dirs.len() && (#[trigger] tree.dirs[v]).parts == twin;
    lemma_filter_has(tree.dirs, sub_of(e, tree.roots), v);
    assert(sorted_subs(tree, e).contains(tree.dirs[v]));
}

proof fn lemma_keys_known(list: Seq<PathV>, other: Seq<PathV>, k: Seq<u64>)
    requires
        name_keys(list).contains(k),
        forall|f: PathV| #[trigger]
            list.contains(f) ==> exists|g: PathV| #[trigger] other.contains(g) && name_key(g.parts) == name_key(f.parts),
    ensures
        name_keys(other).contains(k),
{
    let i = choose|i: int| 0 <= i < name_keys(list).len() && name_keys(list)[i] == k;
    let f = list[i];
    assert(list.contains(f));
    let g = choose|g: PathV| #[trigger] other.contains(g) && name_key(g.parts) == name_key(f.parts);
    let j = choose|j: int| 0 <= j < other.len() && other[j] == g;
    assert(name_keys(other)[j] == k);
}

proof fn lemma_same_files(tree: TreeV, d: PathId, e: PathId)
    requires
        well_built(tree),
        ids_unique(tree.files),
        has_dir(tree.dirs, d),
        has_dir(tree.dirs, e),
        complete(tree, d),
        complete(tree, e),
        holds_all_of(tree, e, d),
        holds_all_of(tree, d, e),
    ensures
        sorted_files(tree, d).map_values(|f: PathV| file_entry(tree, f)) == sorted_files(tree, e).map_values(
            |f: PathV| file_entry(tree, f),
        ),
{
    let (a, b) = (sorted_files(tree, d), sorted_files(tree, e));
    lemma_depth(tree, d);
    lemma_depth(tree, e);
    lemma_sorted(tree, d);
    lemma_sorted(tree, e);
    lemma_entries_named(tree, d);
    lemma_entries_named(tree, e);
    lemma_listed_ascend(tree.files, lies_in(d), d);
    lemma_listed_ascend(tree.files, lies_in(e), e);
    assert forall|f: PathV| #[trigger] a.contains(f) implies exists|g: PathV| #[trigger]
        b.contains(g) && name_key(g.parts) == name_key(f.parts) by {
        lemma_file_partner(tree, d, e, f);
        let g = choose|g: PathV| #[trigger] b.contains(g) && g.parts == e.push(f.parts.last());
        assert(name_of(g.parts) == name_of(f.parts));
    }
    assert forall|f: PathV| #[trigger] b.contains(f) implies exists|g: PathV| #[trigger]
        a.contains(g) && name_key(g.parts) == name_key(f.parts) by {
        lemma_file_partner(tree, e, d, f);
        let g = choose|g: PathV| #[trigger] a.contains(g) && g.parts == d.push(f.parts.last());
        assert(name_of(g.parts) == name_of(f.parts));
    }
    assert forall|k: Seq<u64>| #[trigger] name_keys(a).contains(k) <==> name_keys(b).contains(k) by {
        if name_keys(a).contains(k) {
            lemma_keys_known(a, b, k);
        }
        if name_keys(b).contains(k) {
            lemma_keys_known(b, a, k);
        }
    }
    lemma_ascending_unique(name_keys(a), name_keys(b));
    assert(a.len() == name_keys(a).len() && b.len() == name_keys(b).len());
    let (x, y) = (a.map_values(|f: PathV| file_entry(tree, f)), b.map_values(|f: PathV| file_entry(tree, f)));
    assert forall|i: int| 0 <= i < x.len() implies x[i] == y[i] by {
        assert(name_keys(a)[i] == name_keys(b)[i]);
        assert(name_of(a[i].parts) is Some && name_of(b[i].parts) is Some);
        lemma_key_tells(a[i].parts, b[i].parts);
        assert(parent_of(b[i].parts) == Some(e));
        lemma_same_place(a[i].parts, b[i].parts, e);
        assert(a.contains(a[i]));
        lemma_file_partner(tree, d, e, a[i]);
    }
    assert(x =~= y);
}

proof fn lemma_listed_ascend(all: Seq<PathV>, keep: spec_fn(PathV) -> bool, d: PathId)
    requires
        all.len() <= usize::MAX,
        ids_unique(all),
        forall|p: PathV| #[trigger] keep(p) ==> parent_of(p.parts) == Some(d),
        forall|i: int| 0 <= i < by_name(all.filter(keep)).len() ==> name_of((#[trigger] by_name(all.filter(keep))[i]).parts) is Some,
    ensures
        keys_ascend(name_keys(by_name(all.filter(keep)))),
{
    let list = all.filter(keep);
    lemma_filter_unique(all, keep);
    lemma_filter_bounded(all, keep);
    lemma_arranged(list, list.map_values(|p: PathV| name_key(p.parts)));
    let sorted = by_name(list);
    assert forall|i: int| 0 <= i < list.len() implies parent_of((#[trigger] list[i]).parts) == Some(d) && name_of(
        list[i].parts,
    ) is Some by {
        assert(list.contains(list[i]));
        lemma_filter_member(all, keep, list[i]);
        assert(sorted.contains(list[i]));
        let j = choose|j: int| 0 <= j < sorted.len() && sorted[j] == list[i];
        assert(name_of(sorted[j].parts) is Some);
    }
    lemma_names_ascend(list, d);
}

/// Directories that hold the same files, at the same places with the same digests, have
/// one signature, if all that they hold has duplicates and nothing was skipped.
pub proof fn law_same_files_same_signature(tree: TreeV, d: PathId, e: PathId)
    requires
        well_built(tree),
        describable(tree),
        ids_unique(tree.files),
        has_dir(tree.dirs, d),
        has_dir(tree.dirs, e),
        complete(tree, d),
        complete(tree, e),
        holds_all_of(tree, e, d),
        holds_all_of(tree, d, e),
    ensures
        tree.info(d).signature is Some,
        tree.info(d).signature == tree.info(e).signature,
    decreases deepest(tree.dirs) - d.len(),
{
    law_complete_folders_are_signed(tree, d);
    law_complete_folders_are_signed(tree, e);
    lemma_depth(tree, d);
    lemma_depth(tree, e);
    lemma_same_files(tree, d, e);
    let x = lemma_described(tree, d);
    let y = lemma_described(tree, e);
    let (a, b) = (sorted_subs(tree, d), sorted_subs(tree, e));
    lemma_sorted(tree, d);
    lemma_sorted(tree, e);
    lemma_dirs(tree.files, tree.roots);
    lemma_entries_named(tree, d);
    lemma_entries_named(tree, e);
    lemma_listed_ascend(tree.dirs, sub_of(d, tree.roots), d);
    lemma_listed_ascend(tree.dirs, sub_of(e, tree.roots), e);
    assert forall|s: PathV| #[trigger] a.contains(s) implies exists|g: PathV| #[trigger]
        b.contains(g) && name_key(g.parts) == name_key(s.parts) by {
        lemma_dir_partner(tree, d, e, s);
        let g = choose|g: PathV| #[trigger] b.contains(g) && g.parts == e.push(s.parts.last());
        assert(name_of(g.parts) == name_of(s.parts));
    }
    assert forall|s: PathV| #[trigger] b.contains(s) implies exists|g: PathV| #[trigger]
        a.contains(g) && name_key(g.parts) == name_key(s.parts) by {
        lemma_dir_partner(tree, e, d, s);
        let g = choose|g: PathV| #[trigger] a.contains(g) && g.parts == d.push(s.parts.last());
        assert(name_of(g.parts) == name_of(s.parts));
    }
    assert forall|k: Seq<u64>| #[trigger] name_keys(a).contains(k) <==> name_keys(b).contains(k) by {
        if name_keys(a).contains(k) {
            lemma_keys_known(a, b, k);
        }
        if name_keys(b).contains(k) {
            lemma_keys_known(b, a, k);
        }
    }
    lemma_ascending_unique(name_keys(a), name_keys(b));
    assert(a.len() == name_keys(a).len() && b.len() == name_keys(b).len());
    let (p, q) = (a.map_values(|s: PathV| dir_entry(tree, s)), b.map_values(|s: PathV| dir_entry(tree, s)));
    assert forall|i: int| 0 <= i < p.len() implies p[i] == q[i] by {
        assert(name_keys(a)[i] == name_keys(b)[i]);
        assert(name_of(a[i].parts) is Some && name_of(b[i].parts) is Some);
        lemma_key_tells(a[i].parts, b[i].parts);
        assert(parent_of(a[i].parts) == Some(d) && parent_of(b[i].parts) == Some(e));
        lemma_same_place(a[i].parts, b[i].parts, e);
        lemma_same_place(b[i].parts, a[i].parts, d);
        assert(a.contains(a[i]) && b.contains(b[i]));
        lemma_dir_partner(tree, d, e, a[i]);
        lemma_dir_partner(tree, e, d, b[i]);
        lemma_complete_below(tree, d, a[i].parts);
        lemma_complete_below(tree, e, b[i].parts);
        assert(a[i].parts.len() <= deepest(tree.dirs)) by {
            lemma_depth(tree, a[i].parts);
        }
        law_same_files_same_signature(tree, a[i].parts, b[i].parts);
    }
    assert(p =~= q);
    assert(x == y);
}

/// Two directories that hold the same files, at the same places with the same digests,
/// all of them in duplicate groups and none of them skipped, are reported, or lie in
/// directories that are, unless digests collide.
pub proof fn law_equal_folders_are_found(tree: TreeV, d: PathId, e: PathId)
    requires
        well_built(tree),
        describable(tree),
        no_collisions(tree),
        ids_unique(tree.files),
        has_dir(tree.dirs, d),
        has_dir(tree.dirs, e),
        d != e,
        complete(tree, d),
        complete(tree, e),
        holds_all_of(tree, e, d),
        holds_all_of(tree, d, e),
    ensures
        inside_reported(tree, d),
        inside_reported(tree, e),
{
    law_same_files_same_signature(tree, d, e);
    law_copies_are_found(tree, d, e);
}

// ------------------------------------------------------ what a search amounts to

/// Whether paths to search are split as paths are, each is absolute or lies in a
/// root, no root is an empty path or a bare drive, and all of it fits in memory.
pub open spec fn searchable(files: Seq<PathV>, skipped: Seq<PathV>, roots: Set<PathId>) -> bool {
    &&& forall|i: int|
        0 <= i < files.len() ==> well_split((#[trigger] files[i]).parts) && (is_absolute(files[i].parts) || in_root(
            roots,
            files[i].parts,
        ))
    &&& forall|i: int|
        0 <= i < skipped.len() ==> well_split((#[trigger] skipped[i]).parts) && (is_absolute(skipped[i].parts) || in_root(
            roots,
            skipped[i].parts,
        ))
    &&& forall|r: PathId| #[trigger] roots.contains(r) ==> r.len() > 0 && r.last().kind != PartKind::Prefix
    &&& files.len() + skipped.len() <= usize::MAX
    &&& dirs_of(files + skipped, top_roots(roots)).len() <= usize::MAX
}

/// Every root lies in an outermost one, or is one.
proof fn lemma_top_root(roots: Set<PathId>, r: PathId) -> (t: PathId)
    requires
        roots.contains(r),
    ensures
        top_roots(roots).contains(t),
        is_under(r, t),
    decreases r.len(),
{
    if top_roots(roots).contains(r) {
        assert(r =~= r.subrange(0, r.len() as int));
        r
    } else {
        let q = choose|q: PathId| #[trigger] roots.contains(q) && is_under(r, q) && q != r;
        assert(q == r.subrange(0, q.len() as int));
        if q.len() == r.len() {
            assert(q =~= r);
        }
        let t = lemma_top_root(roots, q);
        assert(t == q.subrange(0, t.len() as int));
        assert(t =~= r.subrange(0, t.len() as int));
        t
    }
}

proof fn lemma_in_top_root(roots: Set<PathId>, p: PathId)
    requires
        in_root(roots, p),
    ensures
        in_root(top_roots(roots), p),
{
    let r = choose|r: PathId| #[trigger] roots.contains(r) && is_under(p, r) && p.len() > r.len();
    let t = lemma_top_root(roots, r);
    assert(r == p.subrange(0, r.len() as int));
    assert(t == r.subrange(0, t.len() as int));
    assert(t =~= p.subrange(0, t.len() as int));
}

pub proof fn lemma_well_built(files: Seq<PathV>, skipped: Seq<PathV>, groups: Seq<GroupV>, roots: Set<PathId>)
    requires
        searchable(files, skipped, roots),
    ensures
        well_built(tree_of(files, skipped, groups, roots)),
{
    let tree = tree_of(files, skipped, groups, roots);
    let tops = top_roots(roots);
    let all = tree.files;
    assert forall|i: int| 0 <= i < all.len() implies well_split((#[trigger] all[i]).parts) && (is_absolute(all[i].parts)
        || in_root(tops, all[i].parts)) by {
        if i < files.len() {
            assert(all[i] == files[i]);
        } else {
            assert(all[i] == skipped[i - files.len()]);
        }
        if in_root(roots, all[i].parts) {
            lemma_in_top_root(roots, all[i].parts);
        }
    }
    lemma_dirs_sound(all, tops);
    assert forall|i: int| 0 <= i < tree.dirs.len() implies (#[trigger] tree.dirs[i]).parts.len() > 0
        && tree.dirs[i].parts.last().kind != PartKind::Prefix by {
        let d = tree.dirs[i].parts;
        assert(grounded(tops, d) && well_split(d));
        if in_root(tops, d) {
            let r = choose|r: PathId| #[trigger] tops.contains(r) && is_under(d, r) && d.len() > r.len();
            assert(roots.contains(r));
        } else if tops.contains(d) {
            assert(roots.contains(d));
        }
    }
}

/// A directory that is a root, or lies in one, is passed over as unread only where it
/// was skipped: no other root lies in it.
pub proof fn law_scanned_folders_count(
    files: Seq<PathV>,
    skipped: Seq<PathV>,
    groups: Seq<GroupV>,
    roots: Set<PathId>,
    r: PathId,
    d: PathId,
)
    requires
        roots.contains(r),
        is_under(d, r),
    ensures
        tree_of(files, skipped, groups, roots).unread.contains(d) <==> ids_of(skipped).contains(d),
{
    let tree = tree_of(files, skipped, groups, roots);
    if above_root(tree.dirs, tree.roots, d) {
        let q = choose|q: PathId| #[trigger] tree.roots.contains(q) && has_dir(tree.dirs, q) && q != d && is_under(q, d);
        assert(d == q.subrange(0, d.len() as int));
        assert(r == d.subrange(0, r.len() as int));
        assert(r =~= q.subrange(0, r.len() as int));
        assert(q == r);
        assert(d =~= q);
    }
}

/// A directory is no duplicate of another where something in it was skipped, at
/// any depth, or it was skipped itself.
pub proof fn law_skipped_paths_disqualify(
    files: Seq<PathV>,
    skipped: Seq<PathV>,
    groups: Seq<GroupV>,
    roots: Set<PathId>,
    d: PathId,
    x: int,
)
    requires
        searchable(files, skipped, roots),
        has_dir(tree_of(files, skipped, groups, roots).dirs, d),
        0 <= x < skipped.len(),
        is_under(skipped[x].parts, d),
    ensures
        tree_of(files, skipped, groups, roots).info(d).signature is None,
{
    let tree = tree_of(files, skipped, groups, roots);
    let p = skipped[x].parts;
    lemma_ids_has(skipped, p);
    assert(skipped[x].parts == p);
    if p.len() == d.len() {
        assert(p =~= d) by {
            assert(d == p.subrange(0, d.len() as int));
        }
    } else if tree.info(d).signature is Some {
        lemma_well_built(files, skipped, groups, roots);
        assert(tree.files[files.len() + x] == skipped[x]);
        law_signed_folders_are_complete(tree, d, files.len() + x);
    }
}

/// A directory is no duplicate of another where a file in it, at any depth, is in
/// no duplicate group. Directories that were roots themselves are no exception.
pub proof fn law_single_files_disqualify(
    files: Seq<PathV>,
    skipped: Seq<PathV>,
    groups: Seq<GroupV>,
    roots: Set<PathId>,
    d: PathId,
    x: int,
)
    requires
        searchable(files, skipped, roots),
        groups.len() <= usize::MAX,
        has_dir(tree_of(files, skipped, groups, roots).dirs, d),
        0 <= x < files.len(),
        is_under(files[x].parts, d),
        files[x].parts.len() > d.len(),
        forall|a: int| 0 <= a < groups.len() ==> !has_copy(#[trigger] groups[a], files[x].parts),
    ensures
        tree_of(files, skipped, groups, roots).info(d).signature is None,
{
    let tree = tree_of(files, skipped, groups, roots);
    if tree.info(d).signature is Some {
        lemma_well_built(files, skipped, groups, roots);
        assert(tree.files[x] == files[x]);
        law_signed_folders_are_complete(tree, d, x);
        lemma_position_has(groups, files[x].parts);
    }
}

// ------------------------------------------------------------- nothing is lost

/// Whether no path is in two groups, and no two confirmed groups have one digest.
pub open spec fn groups_apart(groups: Seq<GroupV>) -> bool {
    &&& forall|a: int, i: int, b: int, j: int|
        #![trigger groups[a].paths[i], groups[b].paths[j]]
        0 <= a < groups.len() && 0 <= i < groups[a].paths.len() && 0 <= b < groups.len() && 0 <= j
            < groups[b].paths.len() && groups[a].paths[i].parts == groups[b].paths[j].parts ==> a == b
    &&& forall|a: int, b: int|
        0 <= a < groups.len() && 0 <= b < groups.len() && (#[trigger] groups[a]).confirmed && (
        #[trigger] groups[b]).confirmed && groups[a].file_hash == groups[b].file_hash ==> a == b
}

/// Whether the paths of groups are files of a tree, and none of its directories.
pub open spec fn groups_of_tree(tree: TreeV) -> bool {
    forall|a: int, i: int|
        #![trigger tree.groups[a].paths[i]]
        0 <= a < tree.groups.len() && 0 <= i < tree.groups[a].paths.len() ==> ids_of(tree.files).contains(
            tree.groups[a].paths[i].parts,
        ) && !has_dir(tree.dirs, tree.groups[a].paths[i].parts)
}

pub proof fn lemma_position_has(groups: Seq<GroupV>, p: PathId)
    requires
        groups.len() <= usize::MAX,
        group_positions(groups).contains_key(p),
    ensures
        group_positions(groups)[p] < groups.len(),
        has_copy(groups[group_positions(groups)[p] as int], p),
    decreases groups.len(),
{
    if groups.len() > 0 {
        let s = groups.drop_last();
        let last = groups.last();
        lemma_marked(group_positions(s), last.paths, (groups.len() - 1) as usize, p);
        let ids = last.paths.map_values(|q: PathV| q.parts);
        if ids.contains(p) {
            let i = choose|i: int| 0 <= i < ids.len() && ids[i] == p;
            assert(last.paths[i].parts == p);
        } else {
            lemma_position_has(s, p);
            assert(groups[group_positions(s)[p] as int] == s[group_positions(s)[p] as int]);
        }
    }
}

pub proof fn lemma_position_is(groups: Seq<GroupV>, a: int, i: int)
    requires
        groups.len() <= usize::MAX,
        groups_apart(groups),
        0 <= a < groups.len(),
        0 <= i < groups[a].paths.len(),
    ensures
        group_positions(groups).contains_key(groups[a].paths[i].parts),
        group_positions(groups)[groups[a].paths[i].parts] == a,
{
    let p = groups[a].paths[i].parts;
    lemma_position_some(groups, a, i);
    lemma_position_has(groups, p);
    let b = group_positions(groups)[p] as int;
    let j = choose|j: int| 0 <= j < groups[b].paths.len() && (#[trigger] groups[b].paths[j]).parts == p;
    assert(groups[a].paths[i].parts == groups[b].paths[j].parts);
}

proof fn lemma_position_some(groups: Seq<GroupV>, a: int, i: int)
    requires
        0 <= a < groups.len(),
        0 <= i < groups[a].paths.len(),
    ensures
        group_positions(groups).contains_key(groups[a].paths[i].parts),
    decreases groups.len(),
{
    let s = groups.drop_last();
    let last = groups.last();
    let p = groups[a].paths[i].parts;
    lemma_marked(group_positions(s), last.paths, (groups.len() - 1) as usize, p);
    if a == groups.len() - 1 {
        assert(last.paths.map_values(|q: PathV| q.parts)[i] == p);
    } else {
        assert(s[a] == groups[a]);
        lemma_position_some(s, a, i);
    }
}

/// What is known of the directories of a reported group.
proof fn lemma_group_dirs(tree: TreeV, g: int)
    requires
        well_built(tree),
        0 <= g < tree.duplicate_folders().len(),
    ensures
        tree.duplicate_folders()[g].paths.len() >= 2,
        ascending(tree.duplicate_folders()[g].paths),
        forall|k: int|
            0 <= k < tree.duplicate_folders()[g].paths.len() ==> has_dir(
                tree.dirs,
                (#[trigger] tree.duplicate_folders()[g].paths[k]).parts,
            ) && tree.info(tree.duplicate_folders()[g].paths[k].parts).signature is Some && tree.info(
                tree.duplicate_folders()[g].paths[k].parts,
            ).signature == tree.info(tree.duplicate_folders()[g].paths[0].parts).signature && (
            tree.duplicate_folders()[g].confirmed ==> tree.info(tree.duplicate_folders()[g].paths[k].parts).confirmed),
{
    let signed = tree.signed();
    lemma_dirs(tree.files, tree.roots);
    law_reported_groups_match(signed, g);
    law_kept_folder_sorts_first(signed, g);
    let b = lemma_group_class(signed, g);
    let fg = tree.duplicate_folders()[g];
    let sig = choose|sig: Seq<char>| #[trigger] alike(signed, sig, fg.paths);
    assert forall|k: int| 0 <= k < fg.paths.len() implies has_dir(tree.dirs, (#[trigger] fg.paths[k]).parts) && tree.info(
        fg.paths[k].parts,
    ).signature is Some && tree.info(fg.paths[k].parts).signature == tree.info(fg.paths[0].parts).signature && (
    fg.confirmed ==> tree.info(fg.paths[k].parts).confirmed) by {
        assert((signed.info)(fg.paths[k].parts).signature == Some(sig));
        assert((signed.info)(fg.paths[0].parts).signature == Some(sig));
        assert(signed.dirs.contains(signed.duplicate_folders()[g].paths[k]));
        let x = choose|x: int| 0 <= x < tree.dirs.len() && tree.dirs[x] == fg.paths[k];
        assert(tree.dirs[x].parts == fg.paths[k].parts);
    }
}

/// The directories of a reported group hold the same files, all the way down: what
/// one holds, each other holds at the same place with the same digest, unless digests
/// collide.
pub proof fn law_reported_folders_hold_the_same(tree: TreeV, g: int, i: int, j: int, x: int)
    requires
        well_built(tree),
        no_collisions(tree),
        0 <= g < tree.duplicate_folders().len(),
        0 <= i < tree.duplicate_folders()[g].paths.len(),
        0 <= j < tree.duplicate_folders()[g].paths.len(),
        0 <= x < tree.files.len(),
        is_under(tree.files[x].parts, tree.duplicate_folders()[g].paths[i].parts),
        tree.files[x].parts.len() > tree.duplicate_folders()[g].paths[i].parts.len(),
    ensures
        tree.at.contains_key(tree.files[x].parts),
        holds_file(
            tree,
            tree.duplicate_folders()[g].paths[j].parts + below(
                tree.files[x].parts,
                tree.duplicate_folders()[g].paths[i].parts,
            ),
            hash_of(tree, tree.files[x].parts),
        ),
{
    lemma_group_dirs(tree, g);
    let (d, e) = (tree.duplicate_folders()[g].paths[i].parts, tree.duplicate_folders()[g].paths[j].parts);
    law_equal_folders_hold_the_same_files(tree, d, e, x);
}

/// The first directory of a reported group sorts before the others and holds none
/// of them, unless digests collide.
pub proof fn law_first_folder_stands_apart(tree: TreeV, g: int)
    requires
        well_built(tree),
        no_collisions(tree),
        0 <= g < tree.duplicate_folders().len(),
    ensures
        first_apart(tree.duplicate_folders()[g]),
{
    lemma_group_dirs(tree, g);
    let paths = tree.duplicate_folders()[g].paths;
    assert forall|k: int| 1 <= k < paths.len() implies path_before(paths[0].parts, (#[trigger] paths[k]).parts)
        && !is_under(paths[k].parts, paths[0].parts) by {
        assert(has_dir(tree.dirs, paths[0].parts) && has_dir(tree.dirs, paths[k].parts));
        lemma_path_order(paths[0].parts, paths[k].parts);
        law_copies_lie_apart(tree, paths[0].parts, paths[k].parts);
    }
}

/// Of equal files, what a directory of a confirmed group holds, the first directory
/// holds too, at the same place, unless digests collide.
pub proof fn law_first_folder_has_it_all(tree: TreeV, g: int, a: int)
    requires
        well_built(tree),
        no_collisions(tree),
        tree.groups.len() <= usize::MAX,
        forall|p: PathId| #[trigger]
            tree.at.contains_key(p) ==> group_positions(tree.groups).contains_key(p) && tree.at[p]
                == group_positions(tree.groups)[p],
        groups_apart(tree.groups),
        groups_of_tree(tree),
        0 <= g < tree.duplicate_folders().len(),
        tree.duplicate_folders()[g].confirmed,
        0 <= a < tree.groups.len(),
    ensures
        mirrored_in_first(tree.duplicate_folders()[g], tree.groups[a]),
{
    lemma_group_dirs(tree, g);
    let paths = tree.duplicate_folders()[g].paths;
    let files = tree.groups[a].paths;
    assert forall|k: int, j: int|
        #![trigger paths[k], files[j]]
        1 <= k < paths.len() && 0 <= j < files.len() && is_under(files[j].parts, paths[k].parts) implies has_copy(
        tree.groups[a],
        paths[0].parts + files[j].parts.skip(paths[k].parts.len() as int),
    ) by {
        let (d, e, p) = (paths[k].parts, paths[0].parts, files[j].parts);
        assert(has_dir(tree.dirs, paths[k].parts) && has_dir(tree.dirs, paths[0].parts));
        assert(tree.groups[a].paths[j].parts == p);
        lemma_ids_has(tree.files, p);
        let x = choose|x: int| 0 <= x < tree.files.len() && (#[trigger] tree.files[x]).parts == p;
        assert(d == p.subrange(0, d.len() as int));
        if p.len() == d.len() {
            assert(p =~= d);
        }
        law_signed_folders_are_complete(tree, d, x);
        lemma_position_is(tree.groups, a, j);
        assert(tree.at[p] == a);
        law_equal_folders_hold_the_same_files(tree, d, e, x);
        let id = e + below(p, d);
        lemma_ids_has(tree.files, id);
        let y = choose|y: int| 0 <= y < tree.files.len() && (#[trigger] tree.files[y]).parts == id;
        assert(e =~= id.subrange(0, e.len() as int));
        law_signed_folders_are_complete(tree, e, y);
        lemma_position_has(tree.groups, id);
        assert(tree.at.contains_key(id));
        let (b, c) = (tree.at[id] as int, tree.at[p] as int);
        assert(tree.groups[b].confirmed && tree.groups[c].confirmed);
        assert(tree.groups[b].file_hash == tree.groups[c].file_hash);
        assert(b == a);
    }
}

/// Of every group of files a copy is left over, whichever of the duplicate folders
/// of a search are removed, unless digests collide.
pub proof fn law_removed_folders_leave_a_copy(
    files: Seq<PathV>,
    skipped: Seq<PathV>,
    groups: Seq<GroupV>,
    roots: Set<PathId>,
    chosen: Seq<FolderV>,
    a: int,
)
    requires
        searchable(files, skipped, roots),
        groups.len() <= usize::MAX,
        no_collisions(tree_of(files, skipped, groups, roots)),
        groups_apart(groups),
        groups_of_tree(tree_of(files, skipped, groups, roots)),
        forall|c: int|
            0 <= c < chosen.len() ==> tree_of(files, skipped, groups, roots).duplicate_folders().contains(
                #[trigger] chosen[c],
            ),
        0 <= a < groups.len(),
        groups[a].paths.len() > 0,
    ensures
        left_over(groups[a].paths, folders_planned(chosen)).len() > 0,
{
    let tree = tree_of(files, skipped, groups, roots);
    lemma_well_built(files, skipped, groups, roots);
    let all = tree.duplicate_folders();
    assert forall|c: int| 0 <= c < chosen.len() && (#[trigger] chosen[c]).confirmed implies first_apart(chosen[c])
        && mirrored_in_first(chosen[c], groups[a]) by {
        assert(all.contains(chosen[c]));
        let g = choose|g: int| 0 <= g < all.len() && all[g] == chosen[c];
        law_first_folder_stands_apart(tree, g);
        law_first_folder_has_it_all(tree, g, a);
    }
    law_no_content_is_lost(groups[a], chosen);
}

} // verus!
