//! What holds of a scan and of the look that later tells whether it still stands.

use vstd::prelude::*;

use crate::groups::{FolderV, GroupV};
use crate::guarantees::{files_found, walked_all, DiskV, FoundV};
use crate::manifest::{
    after_load_step, law_rows_pass_iff_nothing_changed, law_stamps_are_those_of_the_files,
    law_unchanged_tree_is_recognised, manifest_rows, reused_result, row_stands, rows_unique, same_files,
    stamp_of_file, stamp_pos, stamp_stands, stamped, stamps_of, stamps_unique, time_pairs, ManifestRowV, ReuseStepV,
    StampV,
};
use crate::paths::PathV;
use crate::resume::RootKeyV;
use crate::results::{law_saved_groups_read_back, loaded, run_rows, RunRowsV};
use crate::scan::scan_begun;
use crate::tables::{added, lemma_pos, pos, BucketV, TableV};
use crate::text::{decimal, law_decimal_injective};

verus! {

// --------------------------------------------------------- one look at the files

/// Whether a stamp shows a path with a size.
pub open spec fn stamped_with(stamps: Seq<StampV>, path: Seq<char>, size: u64) -> bool {
    exists|i: int| 0 <= i < stamps.len() && (#[trigger] stamps[i]).path == path && stamps[i].size == size
}

/// Whether a table of files by size has a path with a size.
pub open spec fn listed_with(t: TableV, path: Seq<char>, size: u64) -> bool {
    exists|b: int, j: int|
        #![trigger t[b].paths[j]]
        0 <= b < t.len() && 0 <= j < t[b].paths.len() && t[b].paths[j].text == path && t[b].size == size
}

/// Whether a walk reports a file that shows as a path and has a size.
spec fn found_with(found: Seq<FoundV>, disk: DiskV, path: Seq<char>, size: u64) -> bool {
    exists|i: int|
        0 <= i < files_found(found).len() && (#[trigger] files_found(found)[i]).text == path && (disk.size)(
            files_found(found)[i].parts,
        ) == Some(size)
}

/// Whether each bucket of a table stands under its size.
spec fn keys_sized(t: TableV) -> bool {
    forall|b: int| 0 <= b < t.len() ==> (#[trigger] t[b]).key == decimal(t[b].size as nat)
}

proof fn lemma_added_listed(t: TableV, n: u64, p: PathV, path: Seq<char>, size: u64)
    requires
        keys_sized(t),
    ensures
        keys_sized(added(t, decimal(n as nat), n, p)),
        listed_with(added(t, decimal(n as nat), n, p), path, size) <==> listed_with(t, path, size) || (p.text == path
            && n == size),
{
    let key = decimal(n as nat);
    let u = added(t, key, n, p);
    lemma_pos(t, key);
    let at = pos(t, key);
    if at < t.len() {
        law_decimal_injective(t[at].size as nat, n as nat);
        assert(t[at].size == n);
    }
    assert forall|b: int| 0 <= b < u.len() implies (#[trigger] u[b]).key == decimal(u[b].size as nat) by {
        if b < t.len() {
            assert(t[b].key == decimal(t[b].size as nat));
        }
    }
    if listed_with(t, path, size) {
        let (b, j) = choose|b: int, j: int|
            #![trigger t[b].paths[j]]
            0 <= b < t.len() && 0 <= j < t[b].paths.len() && t[b].paths[j].text == path && t[b].size == size;
        assert(u[b].paths[j] == t[b].paths[j]);
    }
    if p.text == path && n == size {
        let last = u[at].paths.len() - 1;
        assert(u[at].paths[last] == p);
    }
    if listed_with(u, path, size) {
        let (b, j) = choose|b: int, j: int|
            #![trigger u[b].paths[j]]
            0 <= b < u.len() && 0 <= j < u[b].paths.len() && u[b].paths[j].text == path && u[b].size == size;
        if b < t.len() && j < t[b].paths.len() {
            assert(t[b].paths[j] == u[b].paths[j]);
        } else {
            assert(u[b].paths[j] == p);
        }
    }
}

proof fn lemma_walk_lists(roots: Seq<RootKeyV>, threshold: u64, found: Seq<FoundV>, disk: DiskV, path: Seq<char>, size: u64)
    ensures
        keys_sized(walked_all(scan_begun(roots, threshold, None), found, disk).by_size),
        listed_with(walked_all(scan_begun(roots, threshold, None), found, disk).by_size, path, size) <==> found_with(
            found,
            disk,
            path,
            size,
        ),
    decreases found.len(),
{
    let begun = scan_begun(roots, threshold, None);
    let s = walked_all(begun, found, disk);
    if found.len() == 0 {
        assert(s.by_size =~= Seq::<BucketV>::empty());
    } else {
        let rest = found.drop_last();
        lemma_walk_lists(roots, threshold, rest, disk, path, size);
        let before = walked_all(begun, rest, disk);
        let (files, more) = (files_found(rest), files_found(found));
        match found.last() {
            FoundV::Dir(_) => {
                assert(s.by_size == before.by_size);
                assert(more == files);
            },
            FoundV::File(p) => {
                assert(more == files.push(p));
                match (disk.size)(p.parts) {
                    Some(n) => {
                        lemma_added_listed(before.by_size, n, p, path, size);
                        assert(s.by_size == added(before.by_size, decimal(n as nat), n, p));
                    },
                    None => {
                        assert(s.by_size == before.by_size);
                    },
                }
                if found_with(rest, disk, path, size) {
                    let i = choose|i: int|
                        0 <= i < files.len() && (#[trigger] files[i]).text == path && (disk.size)(files[i].parts) == Some(
                            size,
                        );
                    assert(more[i] == files[i]);
                }
                if p.text == path && (disk.size)(p.parts) == Some(size) {
                    assert(more[files.len() as int] == p);
                }
                if found_with(found, disk, path, size) {
                    let i = choose|i: int|
                        0 <= i < more.len() && (#[trigger] more[i]).text == path && (disk.size)(more[i].parts) == Some(size);
                    if i < files.len() {
                        assert(files[i] == more[i]);
                    } else {
                        assert(more[i] == p);
                    }
                }
            },
        }
    }
}

/// Whether a look at files shows what is on disk: each file that has a size under its
/// own path and with that size.
pub open spec fn looks_at(look: spec_fn(PathV) -> Option<StampV>, disk: DiskV) -> bool {
    forall|p: PathV|
        match #[trigger] look(p) {
            Some(stamp) => stamp.path == p.text && (disk.size)(p.parts) == Some(stamp.size),
            None => (disk.size)(p.parts) is None,
        }
}

/// The stamps of a directory tree are those of exactly the files, with their sizes, that
/// a new scan goes through on the same walk. No two files show as the same path.
pub proof fn law_stamps_are_those_of_the_scan(
    roots: Seq<RootKeyV>,
    threshold: u64,
    found: Seq<FoundV>,
    disk: DiskV,
    look: spec_fn(PathV) -> Option<StampV>,
    path: Seq<char>,
    size: u64,
)
    requires
        looks_at(look, disk),
        forall|i: int, j: int|
            0 <= i < files_found(found).len() && 0 <= j < files_found(found).len() && (#[trigger] files_found(found)[i]).text
                == (#[trigger] files_found(found)[j]).text ==> files_found(found)[i].parts == files_found(found)[j].parts,
    ensures
        stamped_with(stamps_of(found, look), path, size) <==> listed_with(
            walked_all(scan_begun(roots, threshold, None), found, disk).by_size,
            path,
            size,
        ),
{
    lemma_walk_lists(roots, threshold, found, disk, path, size);
    law_stamps_are_those_of_the_files(found, look);
    let stamps = stamps_of(found, look);
    let files = files_found(found);
    if stamped_with(stamps, path, size) {
        let i = choose|i: int| 0 <= i < stamps.len() && (#[trigger] stamps[i]).path == path && stamps[i].size == size;
        assert(stamp_of_file(found, look, stamps[i]));
        let k = choose|k: int| 0 <= k < files.len() && #[trigger] look(files[k]) == Some(stamps[i]);
        assert(files[k].text == path);
    }
    if found_with(found, disk, path, size) {
        let k = choose|k: int|
            0 <= k < files.len() && (#[trigger] files[k]).text == path && (disk.size)(files[k].parts) == Some(size);
        assert(look(files[k]) is Some);
        assert(stamped(stamps, path));
        let i = choose|i: int| 0 <= i < stamps.len() && (#[trigger] stamps[i]).path == path;
        assert(stamp_of_file(found, look, stamps[i]));
        let m = choose|m: int| 0 <= m < files.len() && #[trigger] look(files[m]) == Some(stamps[i]);
        assert(files[m].text == files[k].text);
    }
}

// ------------------------------------------------------------- reusing a scan

/// Whether a saved scan stands, for a way to compare modification times.
pub open spec fn scan_stands(rows: Seq<ManifestRowV>, stamps: Seq<StampV>, same_time: spec_fn(u64, u64) -> bool) -> bool {
    same_files(rows, stamps) && forall|i: int|
        0 <= i < rows.len() ==> same_time(
            (#[trigger] time_pairs(rows, stamps)[i]).current,
            time_pairs(rows, stamps)[i].saved,
        )
}

/// Whether a saved file is still there with its size and its time.
pub open spec fn row_unchanged(row: ManifestRowV, stamps: Seq<StampV>, same_time: spec_fn(u64, u64) -> bool) -> bool {
    row_stands(row, stamps) && same_time(stamps[stamp_pos(stamps, row.path)].mtime, row.mtime)
}

/// A saved scan stands exactly if every saved file is still there with its size and its
/// time, and every file that is there was saved.
pub proof fn law_scan_stands_iff_nothing_changed(
    rows: Seq<ManifestRowV>,
    stamps: Seq<StampV>,
    same_time: spec_fn(u64, u64) -> bool,
)
    requires
        rows_unique(rows),
        stamps_unique(stamps),
    ensures
        scan_stands(rows, stamps, same_time) <==> (forall|i: int|
            0 <= i < rows.len() ==> row_unchanged(#[trigger] rows[i], stamps, same_time)) && (forall|j: int|
            0 <= j < stamps.len() ==> stamp_stands(#[trigger] stamps[j], rows)),
{
    law_rows_pass_iff_nothing_changed(rows, stamps);
    let pairs = time_pairs(rows, stamps);
    if scan_stands(rows, stamps, same_time) {
        assert forall|i: int| 0 <= i < rows.len() implies row_unchanged(#[trigger] rows[i], stamps, same_time) by {
            assert(row_stands(rows[i], stamps));
            assert(same_time(pairs[i].current, pairs[i].saved));
        }
    }
    if (forall|i: int| 0 <= i < rows.len() ==> row_unchanged(#[trigger] rows[i], stamps, same_time)) && (forall|j: int|
        0 <= j < stamps.len() ==> stamp_stands(#[trigger] stamps[j], rows)) {
        assert forall|i: int| 0 <= i < rows.len() implies row_stands(#[trigger] rows[i], stamps) by {
            assert(row_unchanged(rows[i], stamps, same_time));
        }
        assert forall|i: int| 0 <= i < rows.len() implies same_time((#[trigger] pairs[i]).current, pairs[i].saved) by {
            assert(row_unchanged(rows[i], stamps, same_time));
        }
    }
}

/// What was loaded of the groups of a run.
pub open spec fn loaded_groups(rows: RunRowsV) -> Option<(Seq<GroupV>, Seq<FolderV>)> {
    if rows.groups.len() == 0 {
        None
    } else {
        let l = loaded(rows.groups, rows.paths);
        Some((l.groups, l.folder_groups))
    }
}

/// A scan whose files have not changed is reused: its stamps, read back, stand for those
/// of today, and what is replayed are its own groups. Each time agrees with itself.
pub proof fn law_unchanged_scan_is_reused(
    stamps: Seq<StampV>,
    same_time: spec_fn(u64, u64) -> bool,
    run_id: Seq<char>,
    groups: Seq<GroupV>,
    folder_groups: Seq<FolderV>,
)
    requires
        stamps_unique(stamps),
        forall|i: int| 0 <= i < stamps.len() ==> same_time((#[trigger] stamps[i]).mtime, stamps[i].mtime),
        groups.len() <= usize::MAX,
        groups.len() <= i64::MAX,
        folder_groups.len() <= usize::MAX,
    ensures
        scan_stands(manifest_rows(stamps), stamps, same_time),
        after_load_step(run_id, Some(groups.len() as i64), loaded_groups(run_rows(groups, folder_groups)))
            == ReuseStepV::Finish(reused_result(run_id, groups, folder_groups)),
{
    let rows = manifest_rows(stamps);
    law_unchanged_tree_is_recognised(stamps);
    assert forall|i: int| 0 <= i < rows.len() implies same_time(
        (#[trigger] time_pairs(rows, stamps)[i]).current,
        time_pairs(rows, stamps)[i].saved,
    ) by {
        assert(same_time(stamps[i].mtime, stamps[i].mtime));
        assert(time_pairs(rows, stamps)[i].saved == stamps[i].mtime);
    }
    law_saved_groups_read_back(groups, folder_groups);
    if groups.len() == 0 && folder_groups.len() == 0 {
        assert(groups =~= Seq::<GroupV>::empty());
        assert(folder_groups =~= Seq::<FolderV>::empty());
    }
}

/// Nothing is replayed of a run of which the groups are lost: it is scanned again.
pub proof fn law_lost_groups_are_not_replayed(run_id: Seq<char>, recorded: Option<i64>)
    ensures
        after_load_step(run_id, recorded, None) is Scan <==> recorded != Some(0i64),
{
}

} // verus!
