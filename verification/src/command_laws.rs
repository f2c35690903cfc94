//! What holds of the commands, of the options they give a scan, and of what is told of the
//! sizes, the groups and the progress.

use vstd::prelude::*;

use crate::actions::{report_headline_of, would_text, ActionReportV, ItemV, KindV};
use crate::command::{command_of, first_unknown, not_directory_text, options_of, ArgumentsV, CommandV};
use crate::filetypes::{default_dir_names, unknown_message, valid_types};
use crate::formatting::{as_double, nearest, shown_size, spacing};
use crate::groups::{
    folder_weight, folders_of_size, group_weight, groups_of_size, heaviest_first, law_ranking, ranked, ranked_folders,
    FolderV, GroupV,
};
use crate::history::{listed, no_such_run, not_resumable, RecordV};
use crate::order::{
    is_stable_order, lemma_covers, lemma_order_exists, lemma_order_no_duplicates, lex_before, precedes, sorted_texts,
    stable_order_of,
};
use crate::paths::{child_path, PartKind, PartV, PathId, PathV};
use crate::progress::ProgressV;
use crate::removal::{agrees, closing, mirrored, opening, part_dir, with_part};
use crate::summary::past_summary_of;
use crate::text::{debug_text, decimal, joined, lowercase, trimmed};
use crate::text_laws::law_joining;

verus! {

// --------------------------------------------------------------------- the commands

proof fn lemma_first_unknown(types: Seq<Seq<char>>)
    ensures
        first_unknown(types) is None <==> forall|i: int| 0 <= i < types.len() ==> valid_types().contains(#[trigger] types[i]),
        first_unknown(types) matches Some(x) ==> exists|i: int| #[trigger] first_bad(types, i) && types[i] == x,
    decreases types.len(),
{
    if types.len() > 0 {
        let t = types.skip(1);
        lemma_first_unknown(t);
        if !valid_types().contains(types[0]) {
            assert(first_bad(types, 0));
        } else {
            if first_unknown(t) is Some {
                let x = first_unknown(t).unwrap();
                let i = choose|i: int| #[trigger] first_bad(t, i) && t[i] == x;
                assert forall|k: int| 0 <= k < i + 1 implies valid_types().contains(#[trigger] types[k]) by {
                    if k > 0 {
                        assert(t[k - 1] == types[k]);
                    }
                }
                assert(types[i + 1] == t[i]);
                assert(first_bad(types, i + 1));
            } else {
                assert forall|i: int| 0 <= i < types.len() implies valid_types().contains(#[trigger] types[i]) by {
                    if i > 0 {
                        assert(t[i - 1] == types[i]);
                    }
                }
            }
        }
    }
}

/// Whether this is the first name on a list that is no type.
pub open spec fn first_bad(types: Seq<Seq<char>>, i: int) -> bool {
    &&& 0 <= i < types.len()
    &&& !valid_types().contains(types[i])
    &&& forall|k: int| 0 <= k < i ==> valid_types().contains(#[trigger] types[k])
}

/// Whether one of the requests that need no scan is made.
pub open spec fn asks_for_history(a: ArgumentsV) -> bool {
    a.history || a.export_history is Some || a.import_history is Some || a.show is Some
}

pub open spec fn types_valid(types: Seq<Seq<char>>) -> bool {
    forall|i: int| 0 <= i < types.len() ==> valid_types().contains(#[trigger] types[i])
}

/// A scan begins if and only if directories are named, all types are valid and nothing
/// else is asked for; it goes through the directories as they are named. A stopped scan is
/// taken up if and only if that is asked for without directories.
pub proof fn law_when_a_scan_begins(a: ArgumentsV)
    ensures
        command_of(a) is Scan <==> !(a.delete && a.move_to is Some) && !asks_for_history(a) && types_valid(a.file_types)
            && a.resume is None && a.directories.len() > 0,
        command_of(a) is Scan ==> command_of(a) == CommandV::Scan(a.directories),
        command_of(a) is Resume <==> !(a.delete && a.move_to is Some) && !asks_for_history(a) && types_valid(
            a.file_types,
        ) && a.resume is Some && a.directories.len() == 0,
        command_of(a) is Resume ==> command_of(a) == CommandV::Resume(a.resume.unwrap()),
{
    lemma_first_unknown(a.file_types);
}

/// What is done without a scan: of several such requests the first in this order.
pub proof fn law_requests_without_a_scan(a: ArgumentsV)
    requires
        !(a.delete && a.move_to is Some),
    ensures
        command_of(a) is History <==> a.history,
        command_of(a) is Export <==> !a.history && a.export_history is Some,
        command_of(a) is Export ==> command_of(a) == CommandV::Export(a.export_history.unwrap()),
        command_of(a) is Import <==> !a.history && a.export_history is None && a.import_history is Some,
        command_of(a) is Import ==> command_of(a) == CommandV::Import(a.import_history.unwrap()),
        command_of(a) is Show <==> !a.history && a.export_history is None && a.import_history is None && a.show is Some,
        command_of(a) is Show ==> command_of(a) == CommandV::Show(a.show.unwrap()),
{
}

/// Why a command is refused, and with which exit code.
pub proof fn law_why_a_command_is_refused(a: ArgumentsV)
    ensures
        a.delete && a.move_to is Some ==> command_of(a) == CommandV::Refuse(
            "Error: --delete and --move-to are mutually exclusive"@,
            1,
        ),
        !(a.delete && a.move_to is Some) && !asks_for_history(a) ==> {
            &&& !types_valid(a.file_types) ==> exists|i: int| #[trigger]
                first_bad(a.file_types, i) && command_of(a) == CommandV::Refuse(
                    "Error: invalid --type value "@ + debug_text(a.file_types[i]) + " -- valid categories: "@ + joined(
                        sorted_texts(valid_types()),
                        ", "@,
                    ),
                    2,
                )
            &&& types_valid(a.file_types) && a.resume is Some && a.directories.len() > 0 ==> command_of(a)
                == CommandV::Refuse("Error: --resume picks up a stopped scan and doesn't take directories"@, 1)
            &&& types_valid(a.file_types) && a.resume is None && a.directories.len() == 0 ==> command_of(a)
                == CommandV::Refuse("Error: the following arguments are required: directories"@, 2)
        },
{
    lemma_first_unknown(a.file_types);
}

/// A scan is given what the arguments say: the names to leave out and, unless that is
/// switched off, the usual ones and temporary files.
pub proof fn law_options_follow_the_arguments(a: ArgumentsV, name: Seq<char>)
    ensures
        options_of(a).show_progress == !a.quiet,
        options_of(a).workers == a.threads,
        options_of(a).large_file_threshold == a.large_threshold,
        options_of(a).exclude_temp_files == !a.no_default_excludes,
        options_of(a).exclude_dirs.contains(name) <==> a.exclude.contains(name) || (!a.no_default_excludes
            && default_dir_names().contains(name)),
        options_of(a).file_types is None <==> a.file_types.len() == 0,
        a.file_types.len() > 0 ==> options_of(a).file_types == Some(a.file_types),
{
    let (d, e) = (default_dir_names(), a.exclude);
    if d.contains(name) {
        let i = choose|i: int| 0 <= i < d.len() && d[i] == name;
        assert((d + e)[i] == name);
    }
    if e.contains(name) {
        let i = choose|i: int| 0 <= i < e.len() && e[i] == name;
        assert((d + e)[d.len() + i] == name);
    }
    if (d + e).contains(name) {
        let i = choose|i: int| 0 <= i < (d + e).len() && (d + e)[i] == name;
        if i < d.len() {
            assert(d[i] == name);
        } else {
            assert(e[i - d.len()] == name);
        }
    }
}

/// What is said of a directory that is none, of types that are none, and of runs that are
/// not there or cannot be taken up.
pub proof fn law_what_is_said_of_mistakes(path: PathV, names: Seq<Seq<char>>, index: nat)
    ensures
        not_directory_text(path, true) == "Error: cannot resume -- "@ + path.text + " is no longer a directory"@,
        not_directory_text(path, false) == "Error: "@ + path.text + " is not a directory"@,
        unknown_message(names) == "Unknown file type categor"@ + (if names.len() == 1 {
            "y"@
        } else {
            "ies"@
        }) + ": "@ + joined(names, ", "@) + " -- valid categories: "@ + joined(sorted_texts(valid_types()), ", "@),
        no_such_run(index as int) == "No run #"@ + decimal(index)
            + " in history -- run --history to see valid indexes."@,
        not_resumable(index as int) == "Run #"@ + decimal(index) + " has no saved progress to resume."@,
{
}

/// The runs are numbered from the newest, which is the last that was recorded.
pub proof fn law_runs_are_numbered_from_the_newest(records: Seq<RecordV>, record: RecordV, index: int)
    requires
        1 <= index <= records.len(),
    ensures
        listed(records.push(record), 1) == record,
        listed(records.push(record), index + 1) == listed(records, index),
{
}

// ------------------------------------------------------------------------ the groups

/// Of the groups those stay that are large enough, in their order.
pub proof fn law_small_groups_are_left_out(groups: Seq<GroupV>, min_size: u64)
    ensures
        forall|g: GroupV| #[trigger]
            groups_of_size(groups, min_size).contains(g) <==> groups.contains(g) && g.size >= min_size,
        groups_of_size(groups, 0) == groups,
    decreases groups.len(),
{
    reveal(Seq::filter);
    if groups.len() > 0 {
        let s = groups.drop_last();
        let x = groups.last();
        law_small_groups_are_left_out(s, min_size);
        let (before, all) = (groups_of_size(s, min_size), groups_of_size(groups, min_size));
        assert(s.push(x) =~= groups);
        assert forall|g: GroupV| #[trigger] all.contains(g) <==> groups.contains(g) && g.size >= min_size by {
            assert(groups[groups.len() - 1] == x);
            if s.contains(g) {
                let i = choose|i: int| 0 <= i < s.len() && s[i] == g;
                assert(groups[i] == g);
            }
            if groups.contains(g) && g != x {
                let i = choose|i: int| 0 <= i < groups.len() && groups[i] == g;
                assert(s[i] == g);
            }
            assert(before.contains(g) <==> s.contains(g) && g.size >= min_size);
            if x.size >= min_size {
                assert(all == before.push(x));
                assert(all[before.len() as int] == x);
                if before.contains(g) {
                    let i = choose|i: int| 0 <= i < before.len() && before[i] == g;
                    assert(all[i] == g);
                }
                if all.contains(g) && g != x {
                    let i = choose|i: int| 0 <= i < all.len() && all[i] == g;
                    assert(before[i] == g);
                }
            }
        }
    }
}

/// The same of the groups of folders.
pub proof fn law_small_folders_are_left_out(groups: Seq<FolderV>, min_size: u64)
    ensures
        forall|g: FolderV| #[trigger]
            folders_of_size(groups, min_size).contains(g) <==> groups.contains(g) && g.size >= min_size,
        folders_of_size(groups, 0) == groups,
    decreases groups.len(),
{
    reveal(Seq::filter);
    if groups.len() > 0 {
        let s = groups.drop_last();
        let x = groups.last();
        law_small_folders_are_left_out(s, min_size);
        let (before, all) = (folders_of_size(s, min_size), folders_of_size(groups, min_size));
        assert(s.push(x) =~= groups);
        assert forall|g: FolderV| #[trigger] all.contains(g) <==> groups.contains(g) && g.size >= min_size by {
            assert(groups[groups.len() - 1] == x);
            if s.contains(g) {
                let i = choose|i: int| 0 <= i < s.len() && s[i] == g;
                assert(groups[i] == g);
            }
            if groups.contains(g) && g != x {
                let i = choose|i: int| 0 <= i < groups.len() && groups[i] == g;
                assert(s[i] == g);
            }
            assert(before.contains(g) <==> s.contains(g) && g.size >= min_size);
            if x.size >= min_size {
                assert(all == before.push(x));
                assert(all[before.len() as int] == x);
                if before.contains(g) {
                    let i = choose|i: int| 0 <= i < before.len() && before[i] == g;
                    assert(all[i] == g);
                }
                if all.contains(g) && g != x {
                    let i = choose|i: int| 0 <= i < all.len() && all[i] == g;
                    assert(before[i] == g);
                }
            }
        }
    }
}

/// The groups of files come with those first that take up most, all copies counted.
pub proof fn law_groups_are_ranked(groups: Seq<GroupV>, i: int, j: int)
    requires
        groups.len() <= usize::MAX,
        0 <= i < j < groups.len(),
    ensures
        ({
            let (a, b) = (ranked(groups)[i], ranked(groups)[j]);
            a.size * a.paths.len() >= b.size * b.paths.len() || a.size * a.paths.len() >= u64::MAX
        }),
{
    law_ranking(groups);
    let (a, b) = (ranked(groups)[i], ranked(groups)[j]);
    assert(group_weight(a) >= group_weight(b));
    assert(a.size * a.paths.len() >= 0 && b.size * b.paths.len() >= 0) by (nonlinear_arith)
        requires
            a.size >= 0,
            b.size >= 0,
            a.paths.len() >= 0,
            b.paths.len() >= 0,
    ;
}

/// The groups of folders come with those first that take up most, all copies counted; none
/// is lost, and none comes up that was not there.
pub proof fn law_folders_are_ranked(groups: Seq<FolderV>)
    requires
        groups.len() <= usize::MAX,
    ensures
        ranked_folders(groups).len() == groups.len(),
        forall|i: int, j: int|
            0 <= i < j < groups.len() ==> (#[trigger] ranked_folders(groups)[i]).size * ranked_folders(
                groups,
            )[i].paths.len() % 0x1_0000_0000_0000_0000 >= (#[trigger] ranked_folders(groups)[j]).size * ranked_folders(
                groups,
            )[j].paths.len() % 0x1_0000_0000_0000_0000,
        forall|g: FolderV| ranked_folders(groups).contains(g) <==> groups.contains(g),
{
    let keys = groups.map_values(|g: FolderV| heaviest_first(folder_weight(g)));
    lemma_order_exists(keys);
    let perm = stable_order_of(keys);
    lemma_order_no_duplicates(keys, perm);
    let out = ranked_folders(groups);
    assert(is_stable_order(keys, perm));
    assert forall|i: int, j: int| 0 <= i < j < groups.len() implies folder_weight(#[trigger] out[i]) >= folder_weight(
        #[trigger] out[j],
    ) by {
        assert(precedes(keys, perm[i] as int, perm[j] as int));
        let (a, b) = (keys[perm[i] as int], keys[perm[j] as int]);
        assert(a == heaviest_first(folder_weight(out[i])));
        assert(b == heaviest_first(folder_weight(out[j])));
        assert(!lex_before(a.skip(1), b.skip(1)));
        if a == b {
            assert(a[0] == b[0]);
        }
    }
    assert forall|i: int| 0 <= i < out.len() implies folder_weight(#[trigger] out[i]) == out[i].size * out[i].paths.len()
        % 0x1_0000_0000_0000_0000 by {
        vstd::arithmetic::div_mod::lemma_mod_bound(out[i].size * out[i].paths.len(), 0x1_0000_0000_0000_0000);
    }
    assert forall|g: FolderV| out.contains(g) <==> groups.contains(g) by {
        if out.contains(g) {
            let i = choose|i: int| 0 <= i < out.len() && out[i] == g;
            assert(groups[perm[i] as int] == g);
        }
        if groups.contains(g) {
            let j = choose|j: int| 0 <= j < groups.len() && groups[j] == g;
            let i = lemma_covers(perm, j);
            assert(out[i] == g);
        }
    }
}

// ------------------------------------------------------------------- where files land

/// A path of ordinary directories lands below a destination with all of them, under the
/// names they have.
pub proof fn law_directories_are_kept(root: Seq<PartV>, names: PathId, dest: PathV)
    requires
        root.len() == 0 || (root.len() == 1 && root[0].kind == PartKind::RootDir),
        forall|i: int|
            0 <= i < names.len() ==> (#[trigger] names[i]).kind == PartKind::Normal && !(names[i].name.len() >= 3
                && forall|k: int| 0 <= k < names[i].name.len() ==> #[trigger] names[i].name[k] == 46u8),
    ensures
        mirrored(root + names, dest).parts == dest.parts + names,
        names.len() > 0 ==> mirrored(root + names, dest) == child_path(
            mirrored(root + names.drop_last(), dest),
            names.last().name,
        ),
        names.len() == 0 ==> mirrored(root + names, dest) == dest,
    decreases names.len(),
{
    if names.len() == 0 {
        assert(root + names =~= root);
        assert(dest.parts + names =~= dest.parts);
        if root.len() == 1 {
            assert(root.drop_last() =~= Seq::<PartV>::empty());
            assert(root.last() == root[0]);
            assert(mirrored(root.drop_last(), dest) == dest);
            assert(mirrored(root, dest) == with_part(mirrored(root.drop_last(), dest), root.last()));
        }
    } else {
        let s = names.drop_last();
        let n = names.len() - 1;
        assert forall|i: int| 0 <= i < s.len() implies (#[trigger] s[i]).kind == PartKind::Normal && !(s[i].name.len()
            >= 3 && forall|k: int| 0 <= k < s[i].name.len() ==> #[trigger] s[i].name[k] == 46u8) by {
            assert(s[i] == names[i]);
        }
        law_directories_are_kept(root, s, dest);
        assert((root + names).drop_last() =~= root + s);
        assert((root + names).last() == names[n]);
        assert(names[n].kind == PartKind::Normal);
        assert(part_dir(names[n]) == Some(names[n].name));
        assert(dest.parts + names =~= (dest.parts + s).push(names[n]));
    }
}

/// What an action would do is told with the path and, where it would move it, with the
/// place where it would land.
pub proof fn law_what_would_be_done_is_told(item: ItemV, dest: PathV)
    ensures
        item.is_folder ==> would_text(item, KindV::Trash) == "  would delete folder: "@ + item.path.text,
        !item.is_folder ==> would_text(item, KindV::Trash) == "  would delete: "@ + item.path.text,
        item.is_folder ==> would_text(item, KindV::MoveTo(dest)) == "  would move folder: "@ + item.path.text + " -> "@
            + mirrored(item.path.parts, dest).text,
        !item.is_folder ==> would_text(item, KindV::MoveTo(dest)) == "  would move: "@ + item.path.text + " -> "@
            + mirrored(item.path.parts, dest).text,
{
}

/// The report of an action begins with how many files and folders it moved, and where to.
pub proof fn law_report_begins_with_the_numbers(report: ActionReportV)
    ensures
        ({
            &&& report.dest is None && !report.dry_run ==> report_headline_of(report) == "Moved"@ + " "@ + decimal(
                report.moved_files,
            ) + " file(s) and "@ + decimal(report.moved_folders) + " folder(s)"@ + " to Trash"@ + "."@
            &&& report.dest is None && report.dry_run ==> report_headline_of(report) == "Would move"@ + " "@ + decimal(
                report.moved_files,
            ) + " file(s) and "@ + decimal(report.moved_folders) + " folder(s)"@ + " to Trash"@ + "."@
            &&& report.dest matches Some(d) ==> report_headline_of(report) == (if report.dry_run {
                "Would move"@
            } else {
                "Moved"@
            }) + " "@ + decimal(report.moved_files) + " file(s) and "@ + decimal(report.moved_folders)
                + " folder(s)"@ + (" to "@ + d.text) + "."@
        }),
{
}

// ------------------------------------------------------------------ before and after

/// Nothing is asked where there is nothing to remove; a trial says that it is one and goes
/// on; else the user is asked, unless told not to ask, and the question names what is to be
/// moved and where to.
pub proof fn law_the_user_is_asked_first(folders: int, files: int, kind: KindV, skip: bool, dry_run: bool)
    requires
        folders >= 0,
        files >= 0,
    ensures
        ({
            let r = opening(folders, files, kind, skip, dry_run);
            let some = folders > 0 || files > 0;
            let place = match kind {
                KindV::Trash => "Trash"@,
                KindV::MoveTo(d) => d.text,
            };
            &&& r is Nothing <==> !some
            &&& r is Say <==> some && dry_run
            &&& r is Ask <==> some && !dry_run && !skip
            &&& r is Go <==> some && !dry_run && skip
            &&& r is Say && kind is Trash ==> r->Say_0 == "\nDry run -- nothing will actually be deleted."@
            &&& r is Say && kind is MoveTo ==> r->Say_0 == "\nDry run -- nothing will actually be moved to "@ + place
                + "."@
            &&& r is Ask ==> r->Ask_0 == "\nMove "@ + (if folders > 0 && files > 0 {
                decimal(folders as nat) + " folder(s)"@ + " and "@ + (decimal(files as nat) + " file(s)"@)
            } else if folders > 0 {
                decimal(folders as nat) + " folder(s)"@
            } else {
                decimal(files as nat) + " file(s)"@
            }) + " to "@ + place + "? [y/N] "@
        }),
{
    let a = decimal(folders as nat) + " folder(s)"@;
    let b = decimal(files as nat) + " file(s)"@;
    law_joining(seq![a], seq![b], " and "@, a);
    law_joining(seq![a], seq![b], " and "@, b);
    assert(seq![a] + Seq::<Seq<char>>::empty() =~= seq![a]);
    assert(Seq::<Seq<char>>::empty() + seq![b] =~= seq![b]);
}

/// Only a yes agrees, in whatever case and with spaces around it.
pub proof fn law_only_a_yes_agrees(answer: Seq<char>)
    ensures
        agrees(answer) <==> lowercase(trimmed(answer)) == "y"@ || lowercase(trimmed(answer)) == "yes"@,
{
}

/// At the end the numbers are told and where the things went, and every failure in its
/// order.
pub proof fn law_all_failures_are_told(report: ActionReportV, kind: KindV, dry_run: bool)
    ensures
        ({
            let lines = closing(report, kind, dry_run);
            let n = report.failures.len();
            let verb = if kind is Trash && dry_run {
                "Would delete"@
            } else if kind is Trash {
                "Deleted"@
            } else if dry_run {
                "Would move"@
            } else {
                "Moved"@
            };
            let label = if kind is Trash && dry_run {
                "would not be deleted"@
            } else if kind is Trash {
                "were not deleted"@
            } else if dry_run {
                "would not be moved"@
            } else {
                "were not moved"@
            };
            let place = match kind {
                KindV::Trash => "Trash"@,
                KindV::MoveTo(d) => d.text,
            };
            &&& lines.len() == (if n == 0 {
                1
            } else {
                n + 2
            })
            &&& lines[0] == "\n"@ + verb + " "@ + decimal(report.moved_folders) + " folder(s) and "@ + decimal(
                report.moved_files,
            ) + " file(s) to "@ + place + "."@
            &&& n > 0 ==> lines[1] == decimal(n) + " item(s) "@ + label + ":"@
            &&& forall|i: int| 0 <= i < n ==> #[trigger] lines[i + 2] == "  "@ + report.failures[i]
        }),
{
}

// ------------------------------------------------------------------------ what is told

/// What is shown of an earlier run is what its record and its saved groups hold; no count
/// is shown below zero.
pub proof fn law_earlier_runs_are_shown_as_recorded(
    record: RecordV,
    paths: Seq<PathV>,
    groups: Seq<GroupV>,
    folders: Seq<FolderV>,
    resumable: bool,
)
    ensures
        ({
            let s = past_summary_of(record, paths, groups, folders, resumable);
            &&& s.run_id == record.timestamp
            &&& s.directories == paths
            &&& s.groups == groups
            &&& s.folder_groups == folders
            &&& s.cancelled == record.cancelled
            &&& s.resumable == resumable
            &&& !s.reused
            &&& s.duration_seconds == record.duration_seconds
            &&& record.skipped < 0 ==> s.skipped == 0
            &&& 0 <= record.skipped <= usize::MAX ==> s.skipped == record.skipped
            &&& record.reclaimable_bytes < 0 ==> s.reclaimable_bytes == 0
            &&& record.reclaimable_bytes >= 0 ==> s.reclaimable_bytes == record.reclaimable_bytes
        }),
{
}

/// Progress is told at first, and then again when a fifth of a second has gone by; a line
/// tells how far it is, and of how much where that is known.
pub proof fn law_progress_is_told(p: ProgressV, now: u64, count: u64)
    ensures
        p.last_emit is None ==> p.due(now),
        p.last_emit matches Some(last) ==> (p.due(now) <==> now >= last + 200_000_000),
        ({
            let text = match p.total {
                Some(t) => p.label + ": "@ + decimal(count as nat) + "/"@ + decimal(t as nat),
                None => p.label + ": "@ + decimal(count as nat),
            };
            &&& p.is_tty ==> p.line(count) == "\r\x1b[K"@ + text
            &&& !p.is_tty ==> p.line(count) == text + "\n"@
        }),
{
}

/// Whether a number is the nearest to a quotient, and the even one of two as near.
pub open spec fn is_nearest(q: nat, n: nat, d: nat) -> bool {
    &&& 2 * (n - q * d) <= d
    &&& 2 * (q * d - n) <= d
    &&& 2 * (n - q * d) == d || 2 * (q * d - n) == d ==> q % 2 == 0
}

proof fn lemma_nearest(n: nat, d: nat)
    requires
        d > 0,
    ensures
        is_nearest(nearest(n, d), n, d),
{
    let q = n / d;
    let r = n % d;
    assert(n == q * d + r && 0 <= r < d) by {
        vstd::arithmetic::div_mod::lemma_fundamental_div_mod(n as int, d as int);
        vstd::arithmetic::mul::lemma_mul_is_commutative(q as int, d as int);
        vstd::arithmetic::div_mod::lemma_mod_bound(n as int, d as int);
    }
    assert((q + 1) * d == q * d + d) by (nonlinear_arith);
}

/// A size is shown in the largest unit that it reaches, with one decimal, the nearest; in
/// bytes it is shown exactly. From two to the fifty-third on, the size is first taken as the
/// nearest number of so many digits.
pub proof fn law_sizes_are_shown_to_one_decimal(n: nat) -> (r: (nat, nat))
    requires
        n < 0x1_0000_0000_0000_0000,
    ensures
        ({
            let (m, t) = r;
            &&& n < 0x20_0000_0000_0000 ==> m == n
            &&& n >= 0x20_0000_0000_0000 ==> (m - n) * 0x20_0000_0000_0000 <= n && (n - m) * 0x20_0000_0000_0000 <= n
            &&& m < 0x400 ==> shown_size(n) == decimal(m) + "B"@
            &&& 0x400 <= m < 0x10_0000 ==> is_nearest(t, 10 * m, 0x400) && shown_size(n) == decimal(t / 10) + "."@
                + decimal(t % 10) + "KB"@
            &&& 0x10_0000 <= m < 0x4000_0000 ==> is_nearest(t, 10 * m, 0x10_0000) && shown_size(n) == decimal(t / 10)
                + "."@ + decimal(t % 10) + "MB"@
            &&& 0x4000_0000 <= m < 0x100_0000_0000 ==> is_nearest(t, 10 * m, 0x4000_0000) && shown_size(n) == decimal(
                t / 10,
            ) + "."@ + decimal(t % 10) + "GB"@
            &&& 0x100_0000_0000 <= m < 0x4_0000_0000_0000 ==> is_nearest(t, 10 * m, 0x100_0000_0000) && shown_size(n)
                == decimal(t / 10) + "."@ + decimal(t % 10) + "TB"@
            &&& 0x4_0000_0000_0000 <= m ==> is_nearest(t, 10 * m, 0x4_0000_0000_0000) && shown_size(n) == decimal(
                t / 10,
            ) + "."@ + decimal(t % 10) + "PB"@
        }),
{
    let m = as_double(n);
    let unit: nat = if m < 0x10_0000 {
        0x400
    } else if m < 0x4000_0000 {
        0x10_0000
    } else if m < 0x100_0000_0000 {
        0x4000_0000
    } else if m < 0x4_0000_0000_0000 {
        0x100_0000_0000
    } else {
        0x4_0000_0000_0000
    };
    let t = nearest(10 * m, unit);
    lemma_nearest(10 * m, unit);
    let s = spacing(n);
    lemma_spacing(n);
    lemma_nearest(n, s);
    if n < 0x20_0000_0000_0000 {
        assert(s == 1);
        assert(nearest(n, 1) * 1 == nearest(n, 1));
    } else {
        assert(2 * (m - n) <= s && 2 * (n - m) <= s);
    }
    (m, t)
}

proof fn lemma_spacing(n: nat)
    ensures
        spacing(n) > 0,
        n >= 0x20_0000_0000_0000 ==> spacing(n) * 0x10_0000_0000_0000 <= n,
    decreases n,
{
    if n >= 0x20_0000_0000_0000 {
        lemma_spacing(n / 2);
        if n / 2 < 0x20_0000_0000_0000 {
            assert(spacing(n / 2) == 1);
        }
    }
}

} // verus!
