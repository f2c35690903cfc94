//! What holds of the report of a scan and of the picks that are made from it.

use vstd::prelude::*;

use crate::folder_sums::total;
use crate::formatting::shown_size;
use crate::groups::{wrapped, FolderV, GroupV};
use crate::paths::PathV;
use crate::picks::{
    all_picked, file_picks, folder_picks, further_copies, picked, picked_file_bytes, picked_folder_bytes, picks_in,
    unpicked, Pick,
};
use crate::report::{
    deferred_count, folder_lines, folders_part, group_lines, groups_part, leading, path_lines, scan_report, total_wasted,
    utf8_width,
};
use crate::text::decimal;

verus! {

// ----------------------------------------------------------------------- the report

/// How many lines tell of some groups: one for each, and one for each of its paths.
pub open spec fn lines_of_groups(groups: Seq<GroupV>) -> int {
    total(groups, |g: GroupV| 1 + g.paths.len() as int)
}

pub open spec fn lines_of_folders(groups: Seq<FolderV>) -> int {
    total(groups, |g: FolderV| 1 + g.paths.len() as int)
}

/// At which line of a report the groups of files begin: behind the groups of folders and
/// the note that follows them.
pub open spec fn groups_begin(folders: Seq<FolderV>) -> int {
    if folders.len() == 0 {
        0
    } else {
        lines_of_folders(folders) + 1
    }
}

/// Whether these lines show these paths, from a line on.
pub open spec fn shows_paths(lines: Seq<Seq<char>>, at: int, paths: Seq<PathV>) -> bool {
    &&& 0 <= at
    &&& at + paths.len() <= lines.len()
    &&& forall|k: int| 0 <= k < paths.len() ==> #[trigger] lines[at + k] == "  "@ + paths[k].text
}

proof fn lemma_group_lines(groups: Seq<GroupV>, g: int)
    requires
        0 <= g < groups.len(),
    ensures
        group_lines(groups).len() == lines_of_groups(groups),
        0 <= lines_of_groups(groups.take(g)),
        lines_of_groups(groups.take(g)) + 1 + groups[g].paths.len() <= group_lines(groups).len(),
        group_lines(groups)[lines_of_groups(groups.take(g))] == crate::report::group_head(groups[g]),
        shows_paths(group_lines(groups), lines_of_groups(groups.take(g)) + 1, groups[g].paths),
    decreases groups.len(),
{
    let s = groups.drop_last();
    let last = groups.last();
    let n = groups.len() - 1;
    lemma_group_count(s);
    lemma_group_count(groups);
    lemma_group_count(groups.take(g));
    let lines = group_lines(groups);
    let before = group_lines(s);
    let at = lines_of_groups(groups.take(g));
    if g == n {
        assert(groups.take(g) =~= s);
        assert forall|k: int| 0 <= k < groups[g].paths.len() implies #[trigger] lines[at + 1 + k] == "  "@
            + groups[g].paths[k].text by {
            assert(lines[at + 1 + k] == path_lines(last.paths)[k]);
        }
    } else {
        lemma_group_lines(s, g);
        assert(s.take(g) =~= groups.take(g));
        assert(lines[at] == before[at]);
        assert forall|k: int| 0 <= k < groups[g].paths.len() implies #[trigger] lines[at + 1 + k] == "  "@
            + groups[g].paths[k].text by {
            assert(lines[at + 1 + k] == before[at + 1 + k]);
        }
    }
}

proof fn lemma_group_count(groups: Seq<GroupV>)
    ensures
        group_lines(groups).len() == lines_of_groups(groups),
    decreases groups.len(),
{
    if groups.len() > 0 {
        lemma_group_count(groups.drop_last());
    }
}

proof fn lemma_folder_count(groups: Seq<FolderV>)
    ensures
        folder_lines(groups).len() == lines_of_folders(groups),
    decreases groups.len(),
{
    if groups.len() > 0 {
        lemma_folder_count(groups.drop_last());
    }
}

proof fn lemma_folder_lines(groups: Seq<FolderV>, g: int)
    requires
        0 <= g < groups.len(),
    ensures
        folder_lines(groups).len() == lines_of_folders(groups),
        0 <= lines_of_folders(groups.take(g)),
        lines_of_folders(groups.take(g)) + 1 + groups[g].paths.len() <= folder_lines(groups).len(),
        folder_lines(groups)[lines_of_folders(groups.take(g))] == crate::report::folder_head(groups[g]),
        shows_paths(folder_lines(groups), lines_of_folders(groups.take(g)) + 1, groups[g].paths),
    decreases groups.len(),
{
    let s = groups.drop_last();
    let last = groups.last();
    let n = groups.len() - 1;
    lemma_folder_count(s);
    lemma_folder_count(groups);
    lemma_folder_count(groups.take(g));
    let lines = folder_lines(groups);
    let before = folder_lines(s);
    let at = lines_of_folders(groups.take(g));
    if g == n {
        assert(groups.take(g) =~= s);
        assert forall|k: int| 0 <= k < groups[g].paths.len() implies #[trigger] lines[at + 1 + k] == "  "@
            + groups[g].paths[k].text by {
            assert(lines[at + 1 + k] == path_lines(last.paths)[k]);
        }
    } else {
        lemma_folder_lines(s, g);
        assert(s.take(g) =~= groups.take(g));
        assert(lines[at] == before[at]);
        assert forall|k: int| 0 <= k < groups[g].paths.len() implies #[trigger] lines[at + 1 + k] == "  "@
            + groups[g].paths[k].text by {
            assert(lines[at + 1 + k] == before[at + 1 + k]);
        }
    }
}

/// Every group of files is in the report, in its order: a line with the number of its
/// copies, their size and how sure the match is, and below it every path of the group.
pub proof fn law_report_tells_of_every_group(
    groups: Seq<GroupV>,
    folders: Seq<FolderV>,
    skipped: int,
    cancelled: bool,
    g: int,
)
    requires
        0 <= g < groups.len(),
    ensures
        ({
            let lines = scan_report(groups, folders, skipped, cancelled);
            let at = groups_begin(folders) + lines_of_groups(groups.take(g));
            &&& 0 <= at < lines.len()
            &&& groups[g].confirmed ==> lines[at] == "\n"@ + decimal(groups[g].paths.len()) + " copies, "@ + shown_size(
                groups[g].size as nat,
            ) + " each "@ + ("(sha256 "@ + leading(groups[g].file_hash, 12) + "...)"@) + ":"@
            &&& !groups[g].confirmed ==> lines[at] == "\n"@ + decimal(groups[g].paths.len()) + " copies, "@
                + shown_size(groups[g].size as nat) + " each "@
                + "(NOT VERIFIED -- large file, matched by size + partial hash only)"@ + ":"@
            &&& shows_paths(lines, at + 1, groups[g].paths)
        }),
{
    let lines = scan_report(groups, folders, skipped, cancelled);
    let mine = group_lines(groups);
    lemma_group_lines(groups, g);
    lemma_folder_count(folders);
    let first = groups_begin(folders);
    let at = lines_of_groups(groups.take(g));
    assert(folders_part(folders).len() == first);
    assert forall|i: int| 0 <= i < mine.len() implies #[trigger] lines[first + i] == mine[i] by {
        assert(groups_part(groups, cancelled)[i] == mine[i]);
    }
    assert(lines[first + at] == mine[at]);
    assert forall|k: int| 0 <= k < groups[g].paths.len() implies #[trigger] lines[first + at + 1 + k] == "  "@
        + groups[g].paths[k].text by {
        assert(lines[first + (at + 1 + k)] == mine[at + 1 + k]);
    }
}

/// Every group of folders is in the report, before the groups of files: a line with the
/// number of its copies, of the files in each and their size, and below it every path.
pub proof fn law_report_tells_of_every_folder(
    groups: Seq<GroupV>,
    folders: Seq<FolderV>,
    skipped: int,
    cancelled: bool,
    g: int,
)
    requires
        0 <= g < folders.len(),
    ensures
        ({
            let lines = scan_report(groups, folders, skipped, cancelled);
            let at = lines_of_folders(folders.take(g));
            &&& 0 <= at < lines_of_folders(folders) < lines.len()
            &&& lines[at] == "\nFolder duplicate: "@ + decimal(folders[g].paths.len()) + " copies ("@ + decimal(
                folders[g].file_count as nat,
            ) + " file(s), "@ + shown_size(folders[g].size as nat) + (if folders[g].confirmed {
                " each)"@
            } else {
                " each, NOT VERIFIED -- large file(s))"@
            }) + ":"@
            &&& shows_paths(lines, at + 1, folders[g].paths)
            &&& lines[lines_of_folders(folders)] == "\n"@ + decimal(folders.len())
                + " duplicate folder(s) found -- their files are also listed individually below. --delete removes a confirmed one as a single unit; an unverified (large-file) one is handled file by file instead."@
        }),
{
    let lines = scan_report(groups, folders, skipped, cancelled);
    let mine = folder_lines(folders);
    lemma_folder_lines(folders, g);
    let at = lines_of_folders(folders.take(g));
    assert forall|i: int| 0 <= i < mine.len() implies #[trigger] lines[i] == mine[i] by {
        assert(folders_part(folders)[i] == mine[i]);
    }
    assert(lines[at] == mine[at]);
    assert forall|k: int| 0 <= k < folders[g].paths.len() implies #[trigger] lines[at + 1 + k] == "  "@
        + folders[g].paths[k].text by {
        assert(lines[at + 1 + k] == mine[at + 1 + k]);
    }
    assert(lines[mine.len() as int] == folders_part(folders)[mine.len() as int]);
}

/// What could be freed by leaving one copy of a group, as far as it can be told.
pub open spec fn freed(g: GroupV) -> int {
    let n = if g.paths.len() > 0 {
        g.size * (g.paths.len() - 1)
    } else {
        0
    };
    if n > u64::MAX {
        u64::MAX as int
    } else {
        n
    }
}

proof fn lemma_freed(groups: Seq<GroupV>)
    ensures
        total(groups, |g: GroupV| freed(g)) >= 0,
        total_wasted(groups) == total(groups, |g: GroupV| freed(g)) % 0x1_0000_0000_0000_0000,
        deferred_count(groups) == total(
            groups,
            |g: GroupV|
                if g.confirmed {
                    0
                } else {
                    1
                },
        ),
    decreases groups.len(),
{
    if groups.len() > 0 {
        let s = groups.drop_last();
        let g = groups.last();
        lemma_freed(s);
        if g.paths.len() > 0 {
            assert(g.size * (g.paths.len() - 1) >= 0) by (nonlinear_arith)
                requires
                    g.size >= 0,
                    g.paths.len() > 0,
            ;
        } else {
            assert(g.size * 0 == 0);
        }
        let before = total(s, |g: GroupV| freed(g));
        vstd::arithmetic::div_mod::lemma_add_mod_noop(before, freed(g), 0x1_0000_0000_0000_0000);
        assert(crate::report::wasted(g) == freed(g));
        assert(wrapped(total_wasted(s) + freed(g)) == (before + freed(g)) % 0x1_0000_0000_0000_0000) by {
            vstd::arithmetic::div_mod::lemma_small_mod(freed(g) as nat, 0x1_0000_0000_0000_0000);
        }
    }
}

/// Behind the groups the report tells how many there are and what all copies but one of
/// each take up, then how many are unsure where some are, and then how many files could
/// not be read where some could not. Without groups it says so. It says nothing else.
pub proof fn law_report_sums_up(groups: Seq<GroupV>, folders: Seq<FolderV>, skipped: int, cancelled: bool)
    ensures
        ({
            let lines = scan_report(groups, folders, skipped, cancelled);
            let at = groups_begin(folders) + lines_of_groups(groups);
            let unsure = total(
                groups,
                |g: GroupV|
                    if g.confirmed {
                        0
                    } else {
                        1
                    },
            );
            let end = at + 1 + (if unsure > 0 {
                1int
            } else {
                0int
            });
            &&& groups.len() == 0 && !cancelled ==> lines[at] == "No duplicates found."@
            &&& groups.len() == 0 && cancelled ==> lines[at] == "Scan cancelled before any duplicates were confirmed."@
            &&& groups.len() > 0 ==> lines[at] == "\n"@ + decimal(groups.len()) + " duplicate group(s), "@ + shown_size(
                (total(groups, |g: GroupV| freed(g)) % 0x1_0000_0000_0000_0000) as nat,
            ) + " reclaimable"@ + (if cancelled {
                " (scan cancelled -- partial results)"@
            } else {
                ""@
            }) + "."@
            &&& unsure > 0 ==> lines[at + 1] == decimal(unsure as nat)
                + " of those group(s) are large files not fully verified -- they will be confirmed before deletion, and a group could turn out to be a false match (files that only happen to share a size and partial hash)."@
            &&& skipped > 0 ==> lines[end] == "\nSkipped "@ + decimal(skipped as nat)
                + " unreadable file(s) (permission denied or removed)."@
            &&& lines.len() == end + (if skipped > 0 {
                1int
            } else {
                0int
            })
        }),
{
    lemma_freed(groups);
    lemma_group_count(groups);
    lemma_folder_count(folders);
    let lines = scan_report(groups, folders, skipped, cancelled);
    let first = groups_begin(folders);
    let part = groups_part(groups, cancelled);
    assert(folders_part(folders).len() == first);
    assert forall|i: int| 0 <= i < part.len() implies #[trigger] lines[first + i] == part[i] by {}
    if groups.len() == 0 {
        assert(lines[first + 0] == part[0]);
    } else {
        let n = lines_of_groups(groups);
        assert(lines[first + n] == part[n]);
        if deferred_count(groups) > 0 {
            assert(lines[first + (n + 1)] == part[n + 1]);
        }
    }
}

/// What is shown of a hash is its beginning.
pub proof fn law_hashes_are_cut_short(hash: Seq<char>, n: int)
    requires
        forall|i: int| 0 <= i < hash.len() ==> (#[trigger] hash[i] as u32) < 0x80,
        n >= 0,
    ensures
        leading(hash, n) == hash.take(if n < hash.len() {
            n
        } else {
            hash.len() as int
        }),
    decreases hash.len(),
{
    if hash.len() > 0 && n > 0 {
        let rest = hash.skip(1);
        assert forall|i: int| 0 <= i < rest.len() implies (#[trigger] rest[i] as u32) < 0x80 by {
            assert(rest[i] == hash[i + 1]);
        }
        assert((hash[0] as u32) < 0x80);
        law_hashes_are_cut_short(rest, n - 1);
        assert(utf8_width(hash[0]) == 1);
        let m = if n < hash.len() {
            n
        } else {
            hash.len() as int
        };
        assert(seq![hash[0]] + rest.take(m - 1) =~= hash.take(m));
    } else {
        assert(hash.take(0) =~= Seq::<char>::empty());
        if hash.len() > 0 {
            assert((hash[0] as u32) < 0x80);
        }
    }
}

// ------------------------------------------------------------------------ the picks

proof fn lemma_further(group: usize, copies: nat, p: Pick)
    requires
        copies <= usize::MAX,
    ensures
        further_copies(group, copies).contains(p) <==> p.group == group && 1 <= p.copy < copies,
{
    let list = further_copies(group, copies);
    if p.group == group && 1 <= p.copy < copies {
        assert(list[p.copy - 1] == p);
    }
}

proof fn lemma_concat_has(a: Seq<Pick>, b: Seq<Pick>, p: Pick)
    ensures
        (a + b).contains(p) <==> a.contains(p) || b.contains(p),
{
    if a.contains(p) {
        let i = choose|i: int| 0 <= i < a.len() && a[i] == p;
        assert((a + b)[i] == p);
    }
    if b.contains(p) {
        let i = choose|i: int| 0 <= i < b.len() && b[i] == p;
        assert((a + b)[a.len() + i] == p);
    }
}

/// The copies of files that are picked at first are all but the first of each group.
pub proof fn law_all_further_copies_are_picked(groups: Seq<GroupV>, p: Pick)
    requires
        groups.len() <= usize::MAX,
        forall|i: int| 0 <= i < groups.len() ==> (#[trigger] groups[i]).paths.len() <= usize::MAX,
    ensures
        file_picks(groups).contains(p) <==> p.group < groups.len() && 1 <= p.copy < groups[p.group as int].paths.len(),
    decreases groups.len(),
{
    if groups.len() > 0 {
        let s = groups.drop_last();
        assert forall|i: int| 0 <= i < s.len() implies (#[trigger] s[i]).paths.len() <= usize::MAX by {
            assert(s[i] == groups[i]);
        }
        let n = groups.len() - 1;
        assert(groups[n].paths.len() <= usize::MAX);
        law_all_further_copies_are_picked(s, p);
        lemma_further(n as usize, groups.last().paths.len(), p);
        lemma_concat_has(file_picks(s), further_copies(n as usize, groups.last().paths.len()), p);
    }
}

/// The folders that are picked at first are all but the first of each confirmed group.
pub proof fn law_all_further_folders_are_picked(groups: Seq<FolderV>, p: Pick)
    requires
        groups.len() <= usize::MAX,
        forall|i: int| 0 <= i < groups.len() ==> (#[trigger] groups[i]).paths.len() <= usize::MAX,
    ensures
        folder_picks(groups).contains(p) <==> p.group < groups.len() && groups[p.group as int].confirmed && 1 <= p.copy
            < groups[p.group as int].paths.len(),
    decreases groups.len(),
{
    if groups.len() > 0 {
        let s = groups.drop_last();
        assert forall|i: int| 0 <= i < s.len() implies (#[trigger] s[i]).paths.len() <= usize::MAX by {
            assert(s[i] == groups[i]);
        }
        let n = groups.len() - 1;
        assert(groups[n].paths.len() <= usize::MAX);
        law_all_further_folders_are_picked(s, p);
        lemma_further(n as usize, groups.last().paths.len(), p);
        lemma_concat_has(folder_picks(s), further_copies(n as usize, groups.last().paths.len()), p);
    }
}

/// A pick that is made is there from then on, one that is taken back is not, and no other
/// pick comes or goes by it.
pub proof fn law_picks_come_and_go(list: Seq<Pick>, p: Pick, q: Pick)
    ensures
        picked(list, p).contains(q) <==> list.contains(q) || q == p,
        unpicked(list, p).contains(q) <==> list.contains(q) && q != p,
    decreases list.len(),
{
    if !list.contains(p) {
        lemma_concat_has(list, seq![p], q);
        assert(list + seq![p] =~= list.push(p));
        assert(seq![p][0] == p);
    }
    if list.len() > 0 {
        let s = list.drop_last();
        law_picks_come_and_go(s, p, q);
        let x = list.last();
        assert(s.push(x) =~= list);
        assert(s + seq![x] =~= list);
        assert(seq![x][0] == x);
        lemma_concat_has(s, seq![x], q);
        let before = unpicked(s, p);
        assert(before + seq![x] =~= before.push(x));
        lemma_concat_has(before, seq![x], q);
    }
}

/// What many picks at once come to.
pub proof fn law_picks_add_up(list: Seq<Pick>, more: Seq<Pick>, q: Pick)
    ensures
        all_picked(list, more).contains(q) <==> list.contains(q) || more.contains(q),
    decreases more.len(),
{
    if more.len() > 0 {
        let s = more.drop_last();
        let x = more.last();
        law_picks_add_up(list, s, q);
        law_picks_come_and_go(all_picked(list, s), x, q);
        assert(s + seq![x] =~= more);
        assert(seq![x][0] == x);
        lemma_concat_has(s, seq![x], q);
    }
}

/// A pick that was not there counts one more in its group, and none elsewhere. Nothing is
/// counted where nothing is picked.
pub proof fn law_picks_are_counted(list: Seq<Pick>, p: Pick, group: usize)
    ensures
        picks_in(Seq::empty(), group) == 0,
        !list.contains(p) ==> picks_in(picked(list, p), group) == picks_in(list, group) + (if p.group == group {
            1nat
        } else {
            0nat
        }),
{
    assert(list.push(p).drop_last() =~= list);
}

/// A pick that was not there adds the size of its file to what the picks take up. No picks
/// take up nothing.
pub proof fn law_picked_files_add_up(list: Seq<Pick>, groups: Seq<GroupV>, p: Pick)
    requires
        groups.len() <= usize::MAX,
        !list.contains(p),
    ensures
        picked_file_bytes(Seq::empty(), groups) == 0,
        picked_file_bytes(picked(list, p), groups) == picked_file_bytes(list, groups) + (if p.group < groups.len() {
            groups[p.group as int].size as int
        } else {
            0
        }),
    decreases groups.len(),
{
    if groups.len() > 0 {
        let s = groups.drop_last();
        let n = groups.len() - 1;
        law_picked_files_add_up(list, s, p);
        law_picks_are_counted(list, p, n as usize);
        let (a, b) = (picks_in(list, n as usize), groups.last().size);
        assert((a + 1) * b == a * b + b) by (nonlinear_arith);
        assert(0 * b == 0);
    }
}

/// The same of folders.
pub proof fn law_picked_folders_add_up(list: Seq<Pick>, groups: Seq<FolderV>, p: Pick)
    requires
        groups.len() <= usize::MAX,
        !list.contains(p),
    ensures
        picked_folder_bytes(Seq::empty(), groups) == 0,
        picked_folder_bytes(picked(list, p), groups) == picked_folder_bytes(list, groups) + (if p.group
            < groups.len() {
            groups[p.group as int].size as int
        } else {
            0
        }),
    decreases groups.len(),
{
    if groups.len() > 0 {
        let s = groups.drop_last();
        let n = groups.len() - 1;
        law_picked_folders_add_up(list, s, p);
        law_picks_are_counted(list, p, n as usize);
        let (a, b) = (picks_in(list, n as usize), groups.last().size);
        assert((a + 1) * b == a * b + b) by (nonlinear_arith);
        assert(0 * b == 0);
    }
}

} // verus!
