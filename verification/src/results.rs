//! The rows in which the groups of a finished run are kept.

use vstd::hash_set::StringHashSet;
use vstd::prelude::*;

use crate::groups::{DuplicateGroup, FolderGroup, FolderV, GroupV};
use crate::paths::{FilePath, PathV};
use crate::tables::{added, lemma_pos, pos, Table, TableV, paths_under};
use crate::text::{
    lemma_pair_key_injective, lemma_signed_injective, pair_key, pair_key_text, same_text, signed_decimal, signed_text,
};

verus! {

/// The row of one group. Numbers are kept as signed 64-bit numbers.
#[derive(Debug)]
pub struct GroupRow {
    pub idx: i64,
    pub kind: String,
    pub file_hash: Option<String>,
    pub file_count: Option<i64>,
    pub size: i64,
    pub confirmed: bool,
}

pub struct GroupRowV {
    pub idx: i64,
    pub kind: Seq<char>,
    pub file_hash: Option<Seq<char>>,
    pub file_count: Option<i64>,
    pub size: i64,
    pub confirmed: bool,
}

impl View for GroupRow {
    type V = GroupRowV;

    open spec fn view(&self) -> GroupRowV {
        GroupRowV {
            idx: self.idx,
            kind: self.kind@,
            file_hash: self.file_hash.deep_view(),
            file_count: self.file_count,
            size: self.size,
            confirmed: self.confirmed,
        }
    }
}

impl DeepView for GroupRow {
    type V = GroupRowV;

    open spec fn deep_view(&self) -> GroupRowV {
        self@
    }
}

/// The row of one path of a group.
#[derive(Debug)]
pub struct GroupPathRow {
    pub idx: i64,
    pub kind: String,
    pub seq: i64,
    pub path: FilePath,
}

pub struct PathRowV {
    pub idx: i64,
    pub kind: Seq<char>,
    pub seq: i64,
    pub path: PathV,
}

impl View for GroupPathRow {
    type V = PathRowV;

    open spec fn view(&self) -> PathRowV {
        PathRowV { idx: self.idx, kind: self.kind@, seq: self.seq, path: self.path@ }
    }
}

impl DeepView for GroupPathRow {
    type V = PathRowV;

    open spec fn deep_view(&self) -> PathRowV {
        self@
    }
}

/// The rows of a run.
#[derive(Debug)]
pub struct RunRows {
    pub groups: Vec<GroupRow>,
    pub paths: Vec<GroupPathRow>,
}

pub struct RunRowsV {
    pub groups: Seq<GroupRowV>,
    pub paths: Seq<PathRowV>,
}

impl View for RunRows {
    type V = RunRowsV;

    open spec fn view(&self) -> RunRowsV {
        RunRowsV { groups: self.groups.deep_view(), paths: self.paths.deep_view() }
    }
}

// ---------------------------------------------------------------------- saving

/// A position as it is kept.
pub open spec fn kept_index(i: int) -> i64 {
    (i as u64) as i64
}

pub open spec fn path_rows(kind: Seq<char>, idx: int, paths: Seq<PathV>) -> Seq<PathRowV> {
    Seq::new(
        paths.len(),
        |i: int| PathRowV { idx: kept_index(idx), kind, seq: kept_index(i), path: paths[i] },
    )
}

pub open spec fn file_group_row(idx: int, g: GroupV) -> GroupRowV {
    GroupRowV {
        idx: kept_index(idx),
        kind: "file"@,
        file_hash: Some(g.file_hash),
        file_count: None,
        size: g.size as i64,
        confirmed: g.confirmed,
    }
}

pub open spec fn folder_group_row(idx: int, g: FolderV) -> GroupRowV {
    GroupRowV {
        idx: kept_index(idx),
        kind: "folder"@,
        file_hash: None,
        file_count: Some(kept_index(g.file_count as int)),
        size: g.size as i64,
        confirmed: g.confirmed,
    }
}

/// The rows of file groups, in order.
pub open spec fn file_rows(groups: Seq<GroupV>) -> RunRowsV
    decreases groups.len(),
{
    if groups.len() == 0 {
        RunRowsV { groups: Seq::empty(), paths: Seq::empty() }
    } else {
        let r = file_rows(groups.drop_last());
        let n = groups.len() - 1;
        RunRowsV {
            groups: r.groups.push(file_group_row(n, groups.last())),
            paths: r.paths + path_rows("file"@, n, groups.last().paths),
        }
    }
}

/// The rows of folder groups, in order.
pub open spec fn folder_rows(groups: Seq<FolderV>) -> RunRowsV
    decreases groups.len(),
{
    if groups.len() == 0 {
        RunRowsV { groups: Seq::empty(), paths: Seq::empty() }
    } else {
        let r = folder_rows(groups.drop_last());
        let n = groups.len() - 1;
        RunRowsV {
            groups: r.groups.push(folder_group_row(n, groups.last())),
            paths: r.paths + path_rows("folder"@, n, groups.last().paths),
        }
    }
}

/// The rows in which the results of a run are kept.
pub open spec fn run_rows(groups: Seq<GroupV>, folders: Seq<FolderV>) -> RunRowsV {
    RunRowsV {
        groups: file_rows(groups).groups + folder_rows(folders).groups,
        paths: file_rows(groups).paths + folder_rows(folders).paths,
    }
}

fn index_number(i: usize) -> (r: i64)
    ensures
        r == kept_index(i as int),
{
    (i as u64) as i64
}

fn push_path_rows(out: &mut Vec<GroupPathRow>, kind: &str, idx: usize, paths: &Vec<FilePath>)
    ensures
        final(out).deep_view() == old(out).deep_view() + path_rows(kind@, idx as int, paths.deep_view()),
{
    let ghost all = path_rows(kind@, idx as int, paths.deep_view());
    let mut i: usize = 0;
    assert(out.deep_view() =~= old(out).deep_view() + all.take(0));
    while i < paths.len()
        invariant
            i <= paths@.len(),
            all == path_rows(kind@, idx as int, paths.deep_view()),
            out.deep_view() == old(out).deep_view() + all.take(i as int),
        decreases paths@.len() - i,
    {
        let ghost before = out.deep_view();
        let row = GroupPathRow {
            idx: index_number(idx),
            kind: kind.to_string(),
            seq: index_number(i),
            path: paths[i].clone(),
        };
        let ghost rv = row@;
        out.push(row);
        assert(out.deep_view() =~= before.push(rv));
        assert(paths.deep_view()[i as int] == paths@[i as int]@);
        assert(all[i as int] == rv);
        assert(out.deep_view() =~= old(out).deep_view() + all.take(i + 1));
        i = i + 1;
    }
    assert(all.take(i as int) =~= all);
}

/// The rows to keep for a run, in place of all that it had.
pub fn save_run_groups(groups: &Vec<DuplicateGroup>, folder_groups: &Vec<FolderGroup>) -> (r: RunRows)
    ensures
        r@ == run_rows(groups.deep_view(), folder_groups.deep_view()),
{
    let mut rows: Vec<GroupRow> = Vec::new();
    let mut paths: Vec<GroupPathRow> = Vec::new();
    let ghost gv = groups.deep_view();
    let ghost fv = folder_groups.deep_view();
    let mut i: usize = 0;
    assert(rows.deep_view() =~= Seq::<GroupRowV>::empty());
    assert(paths.deep_view() =~= Seq::<PathRowV>::empty());
    assert(gv.take(0) =~= Seq::<GroupV>::empty());
    while i < groups.len()
        invariant
            i <= groups@.len(),
            gv == groups.deep_view(),
            (RunRowsV { groups: rows.deep_view(), paths: paths.deep_view() }) == file_rows(gv.take(i as int)),
        decreases groups@.len() - i,
    {
        let ghost t = gv.take(i + 1);
        assert(t.drop_last() =~= gv.take(i as int));
        let g = &groups[i];
        assert(t.last() == g@);
        let ghost before = rows.deep_view();
        let row = GroupRow {
            idx: index_number(i),
            kind: "file".to_string(),
            file_hash: Some(g.file_hash.clone()),
            file_count: None,
            size: g.size as i64,
            confirmed: g.confirmed,
        };
        let ghost rv = row@;
        rows.push(row);
        assert(rows.deep_view() =~= before.push(rv));
        push_path_rows(&mut paths, "file", i, &g.paths);
        i = i + 1;
    }
    assert(gv.take(i as int) =~= gv);
    let ghost first = file_rows(gv);
    let mut k: usize = 0;
    assert(fv.take(0) =~= Seq::<FolderV>::empty());
    assert(rows.deep_view() =~= first.groups + folder_rows(fv.take(0)).groups);
    assert(paths.deep_view() =~= first.paths + folder_rows(fv.take(0)).paths);
    while k < folder_groups.len()
        invariant
            k <= folder_groups@.len(),
            fv == folder_groups.deep_view(),
            rows.deep_view() == first.groups + folder_rows(fv.take(k as int)).groups,
            paths.deep_view() == first.paths + folder_rows(fv.take(k as int)).paths,
        decreases folder_groups@.len() - k,
    {
        let ghost t = fv.take(k + 1);
        assert(t.drop_last() =~= fv.take(k as int));
        let g = &folder_groups[k];
        assert(t.last() == g@);
        let ghost before = rows.deep_view();
        let row = GroupRow {
            idx: index_number(k),
            kind: "folder".to_string(),
            file_hash: None,
            file_count: Some(index_number(g.file_count)),
            size: g.size as i64,
            confirmed: g.confirmed,
        };
        let ghost rv = row@;
        rows.push(row);
        assert(rows.deep_view() =~= before.push(rv));
        push_path_rows(&mut paths, "folder", k, &g.paths);
        assert(rows.deep_view() =~= first.groups + folder_rows(t).groups);
        assert(paths.deep_view() =~= first.paths + folder_rows(t).paths);
        k = k + 1;
    }
    assert(fv.take(k as int) =~= fv);
    RunRows { groups: rows, paths }
}

// --------------------------------------------------------------------- reading

/// Whether a row belongs to a group.
pub open spec fn of_group(kind: Seq<char>, idx: i64) -> spec_fn(PathRowV) -> bool {
    |r: PathRowV| r.kind == kind && r.idx == idx
}

/// The paths of a group, in the order of the rows.
pub open spec fn paths_of_group(rows: Seq<PathRowV>, kind: Seq<char>, idx: i64) -> Seq<PathV> {
    rows.filter(of_group(kind, idx)).map_values(|r: PathRowV| r.path)
}

/// Whether a group comes up among rows.
pub open spec fn has_group(rows: Seq<GroupRowV>, kind: Seq<char>, idx: i64) -> bool {
    exists|i: int| 0 <= i < rows.len() && (#[trigger] rows[i]).kind == kind && rows[i].idx == idx
}

/// What groups were read from rows. The first row of a group gets its paths.
pub struct LoadedV {
    pub groups: Seq<GroupV>,
    pub folder_groups: Seq<FolderV>,
}

/// A count as it is read back.
pub open spec fn read_count(n: Option<i64>) -> usize {
    match n {
        Some(c) => c as usize,
        None => 0,
    }
}

pub open spec fn loaded(rows: Seq<GroupRowV>, paths: Seq<PathRowV>) -> LoadedV
    decreases rows.len(),
{
    if rows.len() == 0 {
        LoadedV { groups: Seq::empty(), folder_groups: Seq::empty() }
    } else {
        let l = loaded(rows.drop_last(), paths);
        let row = rows.last();
        let own = if has_group(rows.drop_last(), row.kind, row.idx) {
            Seq::empty()
        } else {
            paths_of_group(paths, row.kind, row.idx)
        };
        if row.kind == "file"@ {
            LoadedV {
                groups: l.groups.push(
                    GroupV {
                        file_hash: match row.file_hash {
                            Some(h) => h,
                            None => Seq::empty(),
                        },
                        size: row.size as u64,
                        paths: own,
                        confirmed: row.confirmed,
                    },
                ),
                ..l
            }
        } else {
            LoadedV {
                folder_groups: l.folder_groups.push(
                    FolderV {
                        paths: own,
                        file_count: read_count(row.file_count),
                        size: row.size as u64,
                        confirmed: row.confirmed,
                    },
                ),
                ..l
            }
        }
    }
}

/// The key under which the paths of a group are collected.
spec fn group_key(kind: Seq<char>, idx: i64) -> Seq<char> {
    pair_key(kind, signed_decimal(idx as int))
}

proof fn lemma_group_key(kind: Seq<char>, idx: i64, kind2: Seq<char>, idx2: i64)
    requires
        group_key(kind, idx) == group_key(kind2, idx2),
    ensures
        kind == kind2,
        idx == idx2,
{
    lemma_pair_key_injective(kind, signed_decimal(idx as int), kind2, signed_decimal(idx2 as int));
    lemma_signed_injective(idx as int, idx2 as int);
}

fn group_key_text(kind: &str, idx: i64) -> (r: String)
    ensures
        r@ == group_key(kind@, idx),
{
    pair_key_text(kind, signed_text(idx).as_str())
}

/// The paths of rows, sorted by group.
spec fn collected(rows: Seq<PathRowV>) -> TableV
    decreases rows.len(),
{
    if rows.len() == 0 {
        Seq::empty()
    } else {
        added(collected(rows.drop_last()), group_key(rows.last().kind, rows.last().idx), 0, rows.last().path)
    }
}

proof fn lemma_paths_under(t: TableV, key: Seq<char>, size: u64, path: PathV, other: Seq<char>)
    ensures
        paths_under(added(t, key, size, path), other) == (if other == key {
            paths_under(t, other).push(path)
        } else {
            paths_under(t, other)
        }),
{
    let n = added(t, key, size, path);
    lemma_pos(t, key);
    lemma_pos(t, other);
    lemma_pos(n, other);
    let p = pos(t, other);
    let q = pos(n, other);
    if q < n.len() {
        if q < t.len() {
            assert(t[q].key == other);
        }
    }
    if p < t.len() {
        assert(n[p].key == other);
        if q < p {
            assert(t[q].key == other);
        }
        if p < q {
            assert(n[p].key != other);
        }
    } else if other == key {
        assert(n[t.len() as int].key == key);
        assert(paths_under(t, other).push(path) =~= seq![path]);
    }
}

proof fn lemma_collected(rows: Seq<PathRowV>, kind: Seq<char>, idx: i64)
    ensures
        paths_under(collected(rows), group_key(kind, idx)) == paths_of_group(rows, kind, idx),
    decreases rows.len(),
{
    reveal(Seq::filter);
    let key = group_key(kind, idx);
    if rows.len() > 0 {
        let s = rows.drop_last();
        let row = rows.last();
        lemma_collected(s, kind, idx);
        lemma_paths_under(collected(s), group_key(row.kind, row.idx), 0, row.path, key);
        if key == group_key(row.kind, row.idx) {
            lemma_group_key(kind, idx, row.kind, row.idx);
            assert(paths_of_group(rows, kind, idx) =~= paths_of_group(s, kind, idx).push(row.path));
        }
    } else {
        assert(paths_of_group(rows, kind, idx) =~= Seq::<PathV>::empty());
    }
}

fn collect_paths(rows: &Vec<GroupPathRow>) -> (r: Table)
    ensures
        r.wf(),
        r@ == collected(rows.deep_view()),
{
    let mut r = Table::new();
    let ghost all = rows.deep_view();
    let mut i: usize = 0;
    assert(all.take(0) =~= Seq::<PathRowV>::empty());
    while i < rows.len()
        invariant
            i <= rows@.len(),
            all == rows.deep_view(),
            r.wf(),
            r@ == collected(all.take(i as int)),
        decreases rows@.len() - i,
    {
        let ghost t = all.take(i + 1);
        assert(t.drop_last() =~= all.take(i as int));
        assert(t.last() == rows@[i as int]@);
        r.add(group_key_text(rows[i].kind.as_str(), rows[i].idx), 0, rows[i].path.clone());
        i = i + 1;
    }
    assert(all.take(i as int) =~= all);
    r
}

/// The groups of a finished run, put together from its rows; none where no group
/// is kept of it.
pub fn load_run_groups(rows: &Vec<GroupRow>, path_rows: &Vec<GroupPathRow>) -> (r: Option<
    (Vec<DuplicateGroup>, Vec<FolderGroup>),
>)
    ensures
        match r {
            Some((groups, folder_groups)) => rows@.len() > 0 && (LoadedV {
                groups: groups.deep_view(),
                folder_groups: folder_groups.deep_view(),
            }) == loaded(rows.deep_view(), path_rows.deep_view()),
            None => rows@.len() == 0,
        },
{
    if rows.len() == 0 {
        return None;
    }
    let table = collect_paths(path_rows);
    let mut used = StringHashSet::new();
    let mut groups: Vec<DuplicateGroup> = Vec::new();
    let mut folder_groups: Vec<FolderGroup> = Vec::new();
    let ghost all = rows.deep_view();
    let ghost pv = path_rows.deep_view();
    let mut i: usize = 0;
    assert(all.take(0) =~= Seq::<GroupRowV>::empty());
    assert(groups.deep_view() =~= Seq::<GroupV>::empty());
    assert(folder_groups.deep_view() =~= Seq::<FolderV>::empty());
    while i < rows.len()
        invariant
            i <= rows@.len(),
            all == rows.deep_view(),
            pv == path_rows.deep_view(),
            table.wf(),
            table@ == collected(pv),
            forall|kind: Seq<char>, idx: i64| #[trigger]
                used@.contains(group_key(kind, idx)) <==> has_group(all.take(i as int), kind, idx),
            (LoadedV { groups: groups.deep_view(), folder_groups: folder_groups.deep_view() }) == loaded(
                all.take(i as int),
                pv,
            ),
        decreases rows@.len() - i,
    {
        let ghost s = all.take(i as int);
        let ghost t = all.take(i + 1);
        assert(t.drop_last() =~= s);
        let row = &rows[i];
        assert(t.last() == row@);
        let key = group_key_text(row.kind.as_str(), row.idx);
        let paths = if used.contains(key.as_str()) {
            let none: Vec<FilePath> = Vec::new();
            assert(none.deep_view() =~= Seq::<PathV>::empty());
            none
        } else {
            proof {
                lemma_collected(pv, row.kind@, row.idx);
            }
            table.paths_of(key.as_str())
        };
        let ghost before_used = used@;
        used.insert(key);
        proof {
            assert forall|kind: Seq<char>, idx: i64| #[trigger]
                used@.contains(group_key(kind, idx)) <==> has_group(t, kind, idx) by {
                if group_key(kind, idx) == group_key(row.kind@, row.idx) {
                    lemma_group_key(kind, idx, row.kind@, row.idx);
                    assert(t[i as int].kind == kind && t[i as int].idx == idx);
                }
                if has_group(s, kind, idx) {
                    let j = choose|j: int| 0 <= j < s.len() && (#[trigger] s[j]).kind == kind && s[j].idx == idx;
                    assert(t[j].kind == kind);
                }
                if has_group(t, kind, idx) && !(kind == row.kind@ && idx == row.idx) {
                    let j = choose|j: int| 0 <= j < t.len() && (#[trigger] t[j]).kind == kind && t[j].idx == idx;
                    assert(s[j].kind == kind);
                }
                assert(before_used.contains(group_key(kind, idx)) <==> has_group(s, kind, idx));
            }
        }
        if same_text(row.kind.as_str(), "file") {
            let file_hash = match &row.file_hash {
                Some(h) => h.clone(),
                None => {
                    let none = String::new();
                    assert(none@ =~= Seq::<char>::empty());
                    none
                },
            };
            let ghost before = groups.deep_view();
            let g = DuplicateGroup { file_hash, size: row.size as u64, paths, confirmed: row.confirmed };
            let ghost gv = g@;
            groups.push(g);
            assert(groups.deep_view() =~= before.push(gv));
        } else {
            let file_count: usize = match row.file_count {
                Some(c) => c as usize,
                None => 0,
            };
            let ghost before = folder_groups.deep_view();
            let g = FolderGroup { paths, file_count, size: row.size as u64, confirmed: row.confirmed };
            let ghost gv = g@;
            folder_groups.push(g);
            assert(folder_groups.deep_view() =~= before.push(gv));
        }
        i = i + 1;
    }
    assert(all.take(i as int) =~= all);
    Some((groups, folder_groups))
}

// ----------------------------------------------------------------------- laws

proof fn lemma_indexes(a: usize, b: usize)
    ensures
        kept_index(a as int) == kept_index(b as int) ==> a == b,
        kept_index(a as int) as usize == a,
{
    let x = a as u64;
    let y = b as u64;
    assert(x as i64 == y as i64 ==> x == y) by (bit_vector);
    assert(((a as u64) as i64) as usize == a) by (bit_vector);
}

proof fn lemma_sizes(n: u64)
    ensures
        (n as i64) as u64 == n,
{
    assert((n as i64) as u64 == n) by (bit_vector);
}

proof fn lemma_filter_none(rows: Seq<PathRowV>, keep: spec_fn(PathRowV) -> bool)
    requires
        forall|i: int| 0 <= i < rows.len() ==> !keep(#[trigger] rows[i]),
    ensures
        rows.filter(keep) == Seq::<PathRowV>::empty(),
    decreases rows.len(),
{
    reveal(Seq::filter);
    if rows.len() > 0 {
        lemma_filter_none(rows.drop_last(), keep);
    } else {
        assert(rows.filter(keep) =~= Seq::<PathRowV>::empty());
    }
}

proof fn lemma_filter_all(rows: Seq<PathRowV>, keep: spec_fn(PathRowV) -> bool)
    requires
        forall|i: int| 0 <= i < rows.len() ==> keep(#[trigger] rows[i]),
    ensures
        rows.filter(keep) == rows,
    decreases rows.len(),
{
    reveal(Seq::filter);
    if rows.len() > 0 {
        lemma_filter_all(rows.drop_last(), keep);
        assert(rows.drop_last().push(rows.last()) =~= rows);
    } else {
        assert(rows.filter(keep) =~= rows);
    }
}

proof fn lemma_own_paths(kind: Seq<char>, n: usize, paths: Seq<PathV>, other: Seq<char>, k: usize)
    ensures
        paths_of_group(path_rows(kind, n as int, paths), other, kept_index(k as int)) == (if kind == other && n == k {
            paths
        } else {
            Seq::empty()
        }),
{
    let rows = path_rows(kind, n as int, paths);
    let keep = of_group(other, kept_index(k as int));
    lemma_indexes(n, k);
    if kind == other && n == k {
        lemma_filter_all(rows, keep);
        assert(paths_of_group(rows, other, kept_index(k as int)) =~= paths);
    } else {
        lemma_filter_none(rows, keep);
        assert(paths_of_group(rows, other, kept_index(k as int)) =~= Seq::<PathV>::empty());
    }
}

proof fn lemma_paths_concat(a: Seq<PathRowV>, b: Seq<PathRowV>, kind: Seq<char>, idx: i64)
    ensures
        paths_of_group(a + b, kind, idx) == paths_of_group(a, kind, idx) + paths_of_group(b, kind, idx),
{
    Seq::filter_distributes_over_add(a, b, of_group(kind, idx));
    assert(paths_of_group(a + b, kind, idx) =~= paths_of_group(a, kind, idx) + paths_of_group(b, kind, idx));
}

proof fn lemma_kinds_differ()
    ensures
        "file"@ != "folder"@,
{
    reveal_strlit("file");
    reveal_strlit("folder");
    assert("file"@.len() == 4 && "folder"@.len() == 6);
}

proof fn lemma_file_rows(groups: Seq<GroupV>, k: usize)
    requires
        groups.len() <= usize::MAX,
    ensures
        paths_of_group(file_rows(groups).paths, "file"@, kept_index(k as int)) == (if k < groups.len() {
            groups[k as int].paths
        } else {
            Seq::empty()
        }),
        paths_of_group(file_rows(groups).paths, "folder"@, kept_index(k as int)) == Seq::<PathV>::empty(),
        file_rows(groups).groups.len() == groups.len(),
        forall|i: int|
            0 <= i < groups.len() ==> #[trigger] file_rows(groups).groups[i] == file_group_row(i, groups[i]),
    decreases groups.len(),
{
    lemma_kinds_differ();
    if groups.len() > 0 {
        let s = groups.drop_last();
        lemma_file_rows(s, k);
        let n = (groups.len() - 1) as usize;
        let rows = path_rows("file"@, n as int, groups.last().paths);
        lemma_own_paths("file"@, n, groups.last().paths, "file"@, k);
        lemma_own_paths("file"@, n, groups.last().paths, "folder"@, k);
        lemma_paths_concat(file_rows(s).paths, rows, "file"@, kept_index(k as int));
        lemma_paths_concat(file_rows(s).paths, rows, "folder"@, kept_index(k as int));
        if k < n {
            assert(s[k as int].paths + Seq::<PathV>::empty() =~= s[k as int].paths);
        } else if k == n {
            assert(Seq::<PathV>::empty() + groups.last().paths =~= groups.last().paths);
        } else {
            assert(Seq::<PathV>::empty() + Seq::<PathV>::empty() =~= Seq::<PathV>::empty());
        }
        assert(Seq::<PathV>::empty() + Seq::<PathV>::empty() =~= Seq::<PathV>::empty());
        assert forall|i: int| 0 <= i < groups.len() implies #[trigger] file_rows(groups).groups[i] == file_group_row(
            i,
            groups[i],
        ) by {
            if i < s.len() {
                assert(file_rows(s).groups[i] == file_group_row(i, s[i]));
            }
        }
    } else {
        reveal(Seq::filter);
        assert(paths_of_group(file_rows(groups).paths, "file"@, kept_index(k as int)) =~= Seq::<PathV>::empty());
        assert(paths_of_group(file_rows(groups).paths, "folder"@, kept_index(k as int)) =~= Seq::<PathV>::empty());
    }
}

proof fn lemma_folder_rows(groups: Seq<FolderV>, k: usize)
    requires
        groups.len() <= usize::MAX,
    ensures
        paths_of_group(folder_rows(groups).paths, "folder"@, kept_index(k as int)) == (if k < groups.len() {
            groups[k as int].paths
        } else {
            Seq::empty()
        }),
        paths_of_group(folder_rows(groups).paths, "file"@, kept_index(k as int)) == Seq::<PathV>::empty(),
        folder_rows(groups).groups.len() == groups.len(),
        forall|i: int|
            0 <= i < groups.len() ==> #[trigger] folder_rows(groups).groups[i] == folder_group_row(i, groups[i]),
    decreases groups.len(),
{
    lemma_kinds_differ();
    if groups.len() > 0 {
        let s = groups.drop_last();
        lemma_folder_rows(s, k);
        let n = (groups.len() - 1) as usize;
        let rows = path_rows("folder"@, n as int, groups.last().paths);
        lemma_own_paths("folder"@, n, groups.last().paths, "file"@, k);
        lemma_own_paths("folder"@, n, groups.last().paths, "folder"@, k);
        lemma_paths_concat(folder_rows(s).paths, rows, "file"@, kept_index(k as int));
        lemma_paths_concat(folder_rows(s).paths, rows, "folder"@, kept_index(k as int));
        if k < n {
            assert(s[k as int].paths + Seq::<PathV>::empty() =~= s[k as int].paths);
        } else if k == n {
            assert(Seq::<PathV>::empty() + groups.last().paths =~= groups.last().paths);
        }
        assert(Seq::<PathV>::empty() + Seq::<PathV>::empty() =~= Seq::<PathV>::empty());
        assert forall|i: int| 0 <= i < groups.len() implies #[trigger] folder_rows(groups).groups[i]
            == folder_group_row(i, groups[i]) by {
            if i < s.len() {
                assert(folder_rows(s).groups[i] == folder_group_row(i, s[i]));
            }
        }
    } else {
        reveal(Seq::filter);
        assert(paths_of_group(folder_rows(groups).paths, "file"@, kept_index(k as int)) =~= Seq::<PathV>::empty());
        assert(paths_of_group(folder_rows(groups).paths, "folder"@, kept_index(k as int)) =~= Seq::<PathV>::empty());
    }
}

proof fn lemma_read_upto(groups: Seq<GroupV>, folders: Seq<FolderV>, k: int)
    requires
        groups.len() <= usize::MAX,
        folders.len() <= usize::MAX,
        0 <= k <= groups.len() + folders.len(),
    ensures
        run_rows(groups, folders).groups.len() == groups.len() + folders.len(),
        loaded(run_rows(groups, folders).groups.take(k), run_rows(groups, folders).paths) == (LoadedV {
            groups: groups.take(if k < groups.len() { k } else { groups.len() as int }),
            folder_groups: folders.take(if k < groups.len() { 0 } else { k - groups.len() }),
        }),
    decreases k,
{
    lemma_kinds_differ();
    lemma_file_rows(groups, 0);
    lemma_folder_rows(folders, 0);
    let rows = run_rows(groups, folders);
    let t = rows.groups.take(k);
    if k > 0 {
        lemma_read_upto(groups, folders, k - 1);
        let s = rows.groups.take(k - 1);
        assert(t.drop_last() =~= s);
        let row = t.last();
        let i = k - 1;
        assert(row == rows.groups[i]);
        let is_file = i < groups.len();
        let at = if is_file {
            i as usize
        } else {
            (i - groups.len()) as usize
        };
        if is_file {
            assert(row == file_group_row(i, groups[i]));
            lemma_sizes(groups[i].size);
        } else {
            assert(rows.groups[i] == folder_rows(folders).groups[i - groups.len()]);
            assert(row == folder_group_row(i - groups.len(), folders[i - groups.len()]));
            lemma_sizes(folders[i - groups.len()].size);
            lemma_indexes(folders[i - groups.len()].file_count, 0);
        }
        assert(!has_group(s, row.kind, row.idx)) by {
            if has_group(s, row.kind, row.idx) {
                let j = choose|j: int| 0 <= j < s.len() && (#[trigger] s[j]).kind == row.kind && s[j].idx == row.idx;
                assert(s[j] == rows.groups[j]);
                if j < groups.len() {
                    assert(rows.groups[j] == file_group_row(j, groups[j]));
                    lemma_indexes(j as usize, at);
                } else {
                    assert(rows.groups[j] == folder_rows(folders).groups[j - groups.len()]);
                    assert(rows.groups[j] == folder_group_row(j - groups.len(), folders[j - groups.len()]));
                    lemma_indexes((j - groups.len()) as usize, at);
                }
            }
        }
        lemma_file_rows(groups, at);
        lemma_folder_rows(folders, at);
        lemma_paths_concat(file_rows(groups).paths, folder_rows(folders).paths, row.kind, row.idx);
        if is_file {
            assert(groups[i].paths + Seq::<PathV>::empty() =~= groups[i].paths);
            assert(groups.take(k) =~= groups.take(i).push(groups[i]));
            assert(folders.take(0) =~= Seq::<FolderV>::empty());
            if k == groups.len() {
                assert(folders.take(k - groups.len()) =~= Seq::<FolderV>::empty());
            }
        } else {
            let f = i - groups.len();
            assert(Seq::<PathV>::empty() + folders[f].paths =~= folders[f].paths);
            assert(folders.take(f + 1) =~= folders.take(f).push(folders[f]));
        }
    } else {
        assert(t =~= Seq::<GroupRowV>::empty());
        assert(groups.take(0) =~= Seq::<GroupV>::empty());
        assert(folders.take(0) =~= Seq::<FolderV>::empty());
    }
}

/// The groups of a run read back as they were saved.
pub proof fn law_saved_groups_read_back(groups: Seq<GroupV>, folders: Seq<FolderV>)
    requires
        groups.len() <= usize::MAX,
        folders.len() <= usize::MAX,
    ensures
        loaded(run_rows(groups, folders).groups, run_rows(groups, folders).paths) == (LoadedV {
            groups,
            folder_groups: folders,
        }),
        run_rows(groups, folders).groups.len() == 0 <==> groups.len() == 0 && folders.len() == 0,
{
    let n = (groups.len() + folders.len()) as int;
    lemma_read_upto(groups, folders, n);
    let rows = run_rows(groups, folders).groups;
    assert(rows.take(n) =~= rows);
    assert(groups.take(groups.len() as int) =~= groups);
    assert(folders.take(folders.len() as int) =~= folders);
}

} // verus!
