//! Groups of duplicates, and how they rank.

use vstd::prelude::*;

use crate::order::{arranged, is_stable_order, rows, stable_order, stable_order_of};
use crate::paths::{FilePath, PathV};
use crate::tables::copy_paths;
use crate::text::{
    concat3, decimal, decimal_text, law_decimal_round_trip, lemma_decimal_no_colon, lemma_split_of_concat,
    parsed_number, split_first,
};

verus! {

/// Files with the same content. An unconfirmed group holds very large files
/// that are only known to share a size and the hash of their beginnings; its
/// `file_hash` is then that size and hash, not a digest of the content.
#[derive(Debug)]
pub struct DuplicateGroup {
    pub file_hash: String,
    pub size: u64,
    pub paths: Vec<FilePath>,
    pub confirmed: bool,
}

pub struct GroupV {
    pub file_hash: Seq<char>,
    pub size: u64,
    pub paths: Seq<PathV>,
    pub confirmed: bool,
}

impl View for DuplicateGroup {
    type V = GroupV;

    open spec fn view(&self) -> GroupV {
        GroupV {
            file_hash: self.file_hash@,
            size: self.size,
            paths: self.paths.deep_view(),
            confirmed: self.confirmed,
        }
    }
}

impl DeepView for DuplicateGroup {
    type V = GroupV;

    open spec fn deep_view(&self) -> GroupV {
        self@
    }
}

impl Clone for DuplicateGroup {
    fn clone(&self) -> (r: Self)
        ensures
            r@ == self@,
    {
        DuplicateGroup {
            file_hash: self.file_hash.clone(),
            size: self.size,
            paths: copy_paths(&self.paths),
            confirmed: self.confirmed,
        }
    }
}

/// Directories whose whole contents are duplicates of each other. An
/// unconfirmed group rests on an unconfirmed match of files.
#[derive(Debug)]
pub struct FolderGroup {
    pub paths: Vec<FilePath>,
    pub file_count: usize,
    pub size: u64,
    pub confirmed: bool,
}

pub struct FolderV {
    pub paths: Seq<PathV>,
    pub file_count: usize,
    pub size: u64,
    pub confirmed: bool,
}

impl View for FolderGroup {
    type V = FolderV;

    open spec fn view(&self) -> FolderV {
        FolderV {
            paths: self.paths.deep_view(),
            file_count: self.file_count,
            size: self.size,
            confirmed: self.confirmed,
        }
    }
}

impl DeepView for FolderGroup {
    type V = FolderV;

    open spec fn deep_view(&self) -> FolderV {
        self@
    }
}

impl Clone for FolderGroup {
    fn clone(&self) -> (r: Self)
        ensures
            r@ == self@,
    {
        FolderGroup {
            paths: copy_paths(&self.paths),
            file_count: self.file_count,
            size: self.size,
            confirmed: self.confirmed,
        }
    }
}

// ----------------------------------------------------------------- arithmetic

/// A number cut to 64 bits.
pub open spec fn wrapped(n: int) -> u64 {
    (n % 0x1_0000_0000_0000_0000) as u64
}

/// A product that stops at the largest 64-bit number.
pub open spec fn saturating_product(a: u64, b: int) -> u64 {
    if a * b > u64::MAX {
        u64::MAX
    } else {
        (a * b) as u64
    }
}

/// `a` times `b`, or the largest number.
pub fn times_saturating(a: u64, b: usize) -> (r: u64)
    ensures
        r == saturating_product(a, b as int),
{
    let b: u64 = b as u64;
    assert(a * b >= 0) by (nonlinear_arith)
        requires
            a >= 0,
            b >= 0,
    ;
    match a.checked_mul(b) {
        Some(n) => n,
        None => u64::MAX,
    }
}

/// `a` times `b`, cut to 64 bits.
pub fn times_wrapping(a: u64, b: usize) -> (r: u64)
    ensures
        r == wrapped(a * b),
{
    let wide: u128 = a as u128;
    assert(a as int * b as int <= 0xffff_ffff_ffff_ffff * 0xffff_ffff_ffff_ffff) by (nonlinear_arith)
        requires
            a <= 0xffff_ffff_ffff_ffff,
            b <= 0xffff_ffff_ffff_ffff,
    ;
    assert(a as int * b as int >= 0) by (nonlinear_arith)
        requires
            a >= 0,
            b >= 0,
    ;
    let product: u128 = wide * (b as u128);
    (product % 0x1_0000_0000_0000_0000) as u64
}

/// The sum of two numbers, cut to 64 bits.
pub fn plus_wrapping(a: u64, b: u64) -> (r: u64)
    ensures
        r == wrapped(a + b),
{
    let wide: u128 = a as u128 + b as u128;
    (wide % 0x1_0000_0000_0000_0000) as u64
}

// ----------------------------------------------------------------------- keys

/// The key under which files of a size with a quick hash stand.
pub open spec fn partial_key_text(size: u64, hash: Seq<char>) -> Seq<char> {
    decimal(size as nat) + ":"@ + hash
}

pub fn partial_key(size: u64, partial_hash: &str) -> (r: String)
    ensures
        r@ == partial_key_text(size, partial_hash@),
{
    concat3(decimal_text(size).as_str(), ":", partial_hash)
}

/// A key splits back into the size and the hash that it was made of.
pub proof fn law_partial_key_splits(size: u64, hash: Seq<char>)
    ensures
        split_first(partial_key_text(size, hash), ':') == Some((decimal(size as nat), hash)),
        parsed_number(decimal(size as nat), u64::MAX as nat) == Some(size as nat),
{
    reveal_strlit(":");
    lemma_decimal_no_colon(size as nat);
    lemma_split_of_concat(decimal(size as nat), ':', hash);
    assert(partial_key_text(size, hash) =~= decimal(size as nat).push(':') + hash);
    law_decimal_round_trip(size as nat, u64::MAX as nat);
}

// -------------------------------------------------------------------- ranking

/// What a group takes up on disk, all copies together.
pub open spec fn group_weight(g: GroupV) -> u64 {
    saturating_product(g.size, g.paths.len() as int)
}

pub open spec fn heaviest_first(weight: u64) -> Seq<u64> {
    seq![(u64::MAX - weight) as u64]
}

/// Groups in descending order of what they take up.
pub open spec fn ranked(groups: Seq<GroupV>) -> Seq<GroupV> {
    arranged(groups, stable_order_of(groups.map_values(|g: GroupV| heaviest_first(group_weight(g)))))
}

fn weight_key(weight: u64) -> (r: Vec<u64>)
    ensures
        r@ == heaviest_first(weight),
{
    let mut key: Vec<u64> = Vec::new();
    key.push(u64::MAX - weight);
    assert(key@ =~= heaviest_first(weight));
    key
}

pub fn rank_groups(groups: &Vec<DuplicateGroup>) -> (r: Vec<DuplicateGroup>)
    ensures
        r.deep_view() == ranked(groups.deep_view()),
{
    let mut keys: Vec<Vec<u64>> = Vec::new();
    let mut i: usize = 0;
    while i < groups.len()
        invariant
            i <= groups@.len(),
            keys@.len() == i,
            forall|j: int| 0 <= j < i ==> (#[trigger] keys@[j])@ == heaviest_first(group_weight(groups@[j]@)),
        decreases groups@.len() - i,
    {
        keys.push(weight_key(times_saturating(groups[i].size, groups[i].paths.len())));
        i = i + 1;
    }
    assert(rows(keys@) =~= groups.deep_view().map_values(|g: GroupV| heaviest_first(group_weight(g))));
    let perm = stable_order(&keys);
    let mut r: Vec<DuplicateGroup> = Vec::new();
    let mut k: usize = 0;
    while k < perm.len()
        invariant
            k <= perm@.len(),
            is_stable_order(rows(keys@), perm@),
            keys@.len() == groups@.len(),
            r@.len() == k,
            forall|j: int| 0 <= j < k ==> (#[trigger] r@[j])@ == groups@[perm@[j] as int]@,
        decreases perm@.len() - k,
    {
        r.push(groups[perm[k]].clone());
        k = k + 1;
    }
    assert(r.deep_view() =~= arranged(groups.deep_view(), perm@));
    r
}

/// What a folder group takes up on disk, all copies together, cut to 64 bits.
pub open spec fn folder_weight(g: FolderV) -> u64 {
    wrapped(g.size * g.paths.len())
}

/// Folder groups in descending order of what they take up.
pub open spec fn ranked_folders(groups: Seq<FolderV>) -> Seq<FolderV> {
    arranged(groups, stable_order_of(groups.map_values(|g: FolderV| heaviest_first(folder_weight(g)))))
}

pub fn rank_folders(groups: &Vec<FolderGroup>) -> (r: Vec<FolderGroup>)
    ensures
        r.deep_view() == ranked_folders(groups.deep_view()),
{
    let mut keys: Vec<Vec<u64>> = Vec::new();
    let mut i: usize = 0;
    while i < groups.len()
        invariant
            i <= groups@.len(),
            keys@.len() == i,
            forall|j: int| 0 <= j < i ==> (#[trigger] keys@[j])@ == heaviest_first(folder_weight(groups@[j]@)),
        decreases groups@.len() - i,
    {
        keys.push(weight_key(times_wrapping(groups[i].size, groups[i].paths.len())));
        i = i + 1;
    }
    assert(rows(keys@) =~= groups.deep_view().map_values(|g: FolderV| heaviest_first(folder_weight(g))));
    let perm = stable_order(&keys);
    let mut r: Vec<FolderGroup> = Vec::new();
    let mut k: usize = 0;
    while k < perm.len()
        invariant
            k <= perm@.len(),
            is_stable_order(rows(keys@), perm@),
            keys@.len() == groups@.len(),
            r@.len() == k,
            forall|j: int| 0 <= j < k ==> (#[trigger] r@[j])@ == groups@[perm@[j] as int]@,
        decreases perm@.len() - k,
    {
        r.push(groups[perm[k]].clone());
        k = k + 1;
    }
    assert(r.deep_view() =~= arranged(groups.deep_view(), perm@));
    r
}

/// Ranked groups come heaviest first, and the ranking loses none and adds none.
pub proof fn law_ranking(groups: Seq<GroupV>)
    requires
        groups.len() <= usize::MAX,
    ensures
        ranked(groups).len() == groups.len(),
        forall|i: int, j: int|
            0 <= i < j < groups.len() ==> group_weight(#[trigger] ranked(groups)[i]) >= group_weight(
                #[trigger] ranked(groups)[j],
            ),
        forall|g: GroupV| ranked(groups).contains(g) <==> groups.contains(g),
{
    let keys = groups.map_values(|g: GroupV| heaviest_first(group_weight(g)));
    crate::order::lemma_order_exists(keys);
    let perm = stable_order_of(keys);
    assert(is_stable_order(keys, perm));
    let r = ranked(groups);
    assert forall|i: int, j: int| 0 <= i < j < groups.len() implies group_weight(#[trigger] r[i]) >= group_weight(
        #[trigger] r[j],
    ) by {
        assert(crate::order::precedes(keys, perm[i] as int, perm[j] as int));
        assert(r[i] == groups[perm[i] as int]);
        assert(r[j] == groups[perm[j] as int]);
        let a = keys[perm[i] as int];
        let b = keys[perm[j] as int];
        assert(a == heaviest_first(group_weight(r[i])));
        assert(b == heaviest_first(group_weight(r[j])));
        assert(!crate::order::lex_before(a.skip(1), b.skip(1)));
        if a == b {
            assert(a[0] == b[0]);
        }
    }
    assert forall|g: GroupV| ranked(groups).contains(g) <==> groups.contains(g) by {
        if r.contains(g) {
            let i = choose|i: int| 0 <= i < r.len() && r[i] == g;
            assert(groups[perm[i] as int] == g);
        }
        if groups.contains(g) {
            let x = choose|x: int| 0 <= x < groups.len() && groups[x] == g;
            crate::order::lemma_order_covers(keys, perm, x as usize);
            let i = choose|i: int| 0 <= i < perm.len() && perm[i] == x as usize;
            assert(r[i] == g);
        }
    }
}

/// The groups of files of a size or more.
pub open spec fn groups_of_size(groups: Seq<GroupV>, min_size: u64) -> Seq<GroupV> {
    groups.filter(|g: GroupV| g.size >= min_size)
}

/// The folder groups of a size or more.
pub open spec fn folders_of_size(groups: Seq<FolderV>, min_size: u64) -> Seq<FolderV> {
    groups.filter(|g: FolderV| g.size >= min_size)
}

pub fn keep_groups_of_size(groups: &Vec<DuplicateGroup>, min_size: u64) -> (r: Vec<DuplicateGroup>)
    ensures
        r.deep_view() == groups_of_size(groups.deep_view(), min_size),
{
    let mut r: Vec<DuplicateGroup> = Vec::new();
    let mut i: usize = 0;
    let ghost all = groups.deep_view();
    let ghost keep = |g: GroupV| g.size >= min_size;
    reveal(Seq::filter);
    assert(all.take(0).filter(keep) =~= Seq::<GroupV>::empty());
    assert(r.deep_view() =~= Seq::<GroupV>::empty());
    while i < groups.len()
        invariant
            i <= groups@.len(),
            all == groups.deep_view(),
            keep == (|g: GroupV| g.size >= min_size),
            r.deep_view() == all.take(i as int).filter(keep),
        decreases groups@.len() - i,
    {
        let ghost t = all.take(i + 1);
        assert(t.drop_last() =~= all.take(i as int));
        assert(t.last() == groups@[i as int]@);
        if groups[i].size >= min_size {
            let ghost before = r.deep_view();
            r.push(groups[i].clone());
            assert(r.deep_view() =~= before.push(groups@[i as int]@));
        }
        assert(r.deep_view() == t.filter(keep)) by {
            reveal(Seq::filter);
        }
        i = i + 1;
    }
    assert(all.take(i as int) =~= all);
    r
}

pub fn keep_folders_of_size(groups: &Vec<FolderGroup>, min_size: u64) -> (r: Vec<FolderGroup>)
    ensures
        r.deep_view() == folders_of_size(groups.deep_view(), min_size),
{
    let mut r: Vec<FolderGroup> = Vec::new();
    let mut i: usize = 0;
    let ghost all = groups.deep_view();
    let ghost keep = |g: FolderV| g.size >= min_size;
    reveal(Seq::filter);
    assert(all.take(0).filter(keep) =~= Seq::<FolderV>::empty());
    assert(r.deep_view() =~= Seq::<FolderV>::empty());
    while i < groups.len()
        invariant
            i <= groups@.len(),
            all == groups.deep_view(),
            keep == (|g: FolderV| g.size >= min_size),
            r.deep_view() == all.take(i as int).filter(keep),
        decreases groups@.len() - i,
    {
        let ghost t = all.take(i + 1);
        assert(t.drop_last() =~= all.take(i as int));
        assert(t.last() == groups@[i as int]@);
        if groups[i].size >= min_size {
            let ghost before = r.deep_view();
            r.push(groups[i].clone());
            assert(r.deep_view() =~= before.push(groups@[i as int]@));
        }
        assert(r.deep_view() == t.filter(keep)) by {
            reveal(Seq::filter);
        }
        i = i + 1;
    }
    assert(all.take(i as int) =~= all);
    r
}

} // verus!
