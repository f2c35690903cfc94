//! The results of a scan, line by line.

use vstd::prelude::*;

use crate::formatting::{human_size, shown_size};
use crate::groups::{
    plus_wrapping, saturating_product, times_saturating, wrapped, DuplicateGroup, FolderGroup, FolderV, GroupV,
};
use crate::paths::{FilePath, PathV};
use crate::text::{chars_of, concat3, count_text, decimal, text_of};

verus! {

/// How many bytes of UTF-8 a character takes.
pub open spec fn utf8_width(c: char) -> int {
    let n = c as u32;
    if n < 0x80 {
        1
    } else if n < 0x800 {
        2
    } else if n < 0x1_0000 {
        3
    } else {
        4
    }
}

/// As much of the beginning of a text as fits in `n` bytes.
pub open spec fn leading(s: Seq<char>, n: int) -> Seq<char>
    decreases s.len(),
{
    if s.len() == 0 || utf8_width(s[0]) > n {
        Seq::empty()
    } else {
        seq![s[0]] + leading(s.skip(1), n - utf8_width(s[0]))
    }
}

fn leading_text(s: &str, n: usize) -> (r: String)
    ensures
        r@ == leading(s@, n as int),
{
    let chars = chars_of(s);
    let ghost all = chars@;
    let mut left: usize = n;
    let mut i: usize = 0;
    assert(all.skip(0) =~= all);
    assert(all.take(0) + leading(all, n as int) =~= leading(all, n as int));
    while i < chars.len()
        invariant_except_break
            i <= chars@.len(),
            all == chars@,
            leading(all, n as int) == all.take(i as int) + leading(all.skip(i as int), left as int),
        ensures
            i <= chars@.len(),
            leading(all, n as int) == all.take(i as int),
        decreases chars@.len() - i,
    {
        let code: u32 = chars[i] as u32;
        let width: usize = if code < 0x80 {
            1
        } else if code < 0x800 {
            2
        } else if code < 0x1_0000 {
            3
        } else {
            4
        };
        let ghost rest = all.skip(i as int);
        assert(rest[0] == chars@[i as int]);
        if width > left {
            assert(leading(rest, left as int) =~= Seq::<char>::empty());
            assert(all.take(i as int) + Seq::<char>::empty() =~= all.take(i as int));
            break;
        }
        left = left - width;
        assert(rest.skip(1) =~= all.skip(i + 1));
        assert(all.take(i as int) + (seq![rest[0]] + leading(all.skip(i + 1), left as int)) =~= all.take(i + 1)
            + leading(all.skip(i + 1), left as int));
        i = i + 1;
        proof {
            if i == all.len() {
                assert(leading(all.skip(i as int), left as int) =~= Seq::<char>::empty());
                assert(all.take(i as int) + Seq::<char>::empty() =~= all.take(i as int));
            }
        }
    }
    proof {
        if all.len() == 0 {
            assert(leading(all, n as int) =~= all.take(0));
        }
    }
    let r = text_of(&chars, 0, i);
    assert(r@ =~= all.take(i as int));
    r
}

/// The line of one path.
pub open spec fn path_lines(paths: Seq<PathV>) -> Seq<Seq<char>> {
    paths.map_values(|p: PathV| "  "@ + p.text)
}

pub open spec fn folder_head(g: FolderV) -> Seq<char> {
    "\nFolder duplicate: "@ + decimal(g.paths.len()) + " copies ("@ + decimal(g.file_count as nat) + " file(s), "@
        + shown_size(g.size as nat) + (if g.confirmed {
        " each)"@
    } else {
        " each, NOT VERIFIED -- large file(s))"@
    }) + ":"@
}

pub open spec fn folder_lines(groups: Seq<FolderV>) -> Seq<Seq<char>>
    decreases groups.len(),
{
    if groups.len() == 0 {
        Seq::empty()
    } else {
        folder_lines(groups.drop_last()).push(folder_head(groups.last())) + path_lines(groups.last().paths)
    }
}

pub open spec fn folder_note(n: int) -> Seq<char> {
    "\n"@ + decimal(n as nat)
        + " duplicate folder(s) found -- their files are also listed individually below. --delete removes a confirmed one as a single unit; an unverified (large-file) one is handled file by file instead."@
}

pub open spec fn group_head(g: GroupV) -> Seq<char> {
    "\n"@ + decimal(g.paths.len()) + " copies, "@ + shown_size(g.size as nat) + " each "@ + (if g.confirmed {
        "(sha256 "@ + leading(g.file_hash, 12) + "...)"@
    } else {
        "(NOT VERIFIED -- large file, matched by size + partial hash only)"@
    }) + ":"@
}

pub open spec fn group_lines(groups: Seq<GroupV>) -> Seq<Seq<char>>
    decreases groups.len(),
{
    if groups.len() == 0 {
        Seq::empty()
    } else {
        group_lines(groups.drop_last()).push(group_head(groups.last())) + path_lines(groups.last().paths)
    }
}

/// What all copies of a group but one take up, at most the largest number.
pub open spec fn wasted(g: GroupV) -> u64 {
    saturating_product(g.size, if g.paths.len() > 0 {
        g.paths.len() - 1
    } else {
        0
    })
}

/// What the groups waste together, cut to 64 bits.
pub open spec fn total_wasted(groups: Seq<GroupV>) -> u64
    decreases groups.len(),
{
    if groups.len() == 0 {
        0
    } else {
        wrapped(total_wasted(groups.drop_last()) + wasted(groups.last()))
    }
}

/// How many groups are not confirmed.
pub open spec fn deferred_count(groups: Seq<GroupV>) -> nat
    decreases groups.len(),
{
    if groups.len() == 0 {
        0
    } else {
        deferred_count(groups.drop_last()) + (if groups.last().confirmed {
            0nat
        } else {
            1nat
        })
    }
}

pub open spec fn total_line(groups: Seq<GroupV>, cancelled: bool) -> Seq<char> {
    "\n"@ + decimal(groups.len()) + " duplicate group(s), "@ + shown_size(total_wasted(groups) as nat)
        + " reclaimable"@ + (if cancelled {
        " (scan cancelled -- partial results)"@
    } else {
        ""@
    }) + "."@
}

pub open spec fn deferred_note(n: nat) -> Seq<char> {
    decimal(n)
        + " of those group(s) are large files not fully verified -- they will be confirmed before deletion, and a group could turn out to be a false match (files that only happen to share a size and partial hash)."@
}

pub open spec fn skipped_note(n: int) -> Seq<char> {
    "\nSkipped "@ + decimal(n as nat) + " unreadable file(s) (permission denied or removed)."@
}

/// The part of a report on folders.
pub open spec fn folders_part(folder_groups: Seq<FolderV>) -> Seq<Seq<char>> {
    if folder_groups.len() == 0 {
        Seq::empty()
    } else {
        folder_lines(folder_groups).push(folder_note(folder_groups.len() as int))
    }
}

/// The part of a report on files.
pub open spec fn groups_part(groups: Seq<GroupV>, cancelled: bool) -> Seq<Seq<char>> {
    if groups.len() == 0 {
        seq![
            if !cancelled {
                "No duplicates found."@
            } else {
                "Scan cancelled before any duplicates were confirmed."@
            },
        ]
    } else {
        let lines = group_lines(groups).push(total_line(groups, cancelled));
        if deferred_count(groups) > 0 {
            lines.push(deferred_note(deferred_count(groups)))
        } else {
            lines
        }
    }
}

/// The report of a scan.
pub open spec fn scan_report(
    groups: Seq<GroupV>,
    folder_groups: Seq<FolderV>,
    skipped: int,
    cancelled: bool,
) -> Seq<Seq<char>> {
    folders_part(folder_groups) + groups_part(groups, cancelled) + (if skipped > 0 {
        seq![skipped_note(skipped)]
    } else {
        Seq::empty()
    })
}

fn push_paths(lines: &mut Vec<String>, paths: &Vec<FilePath>)
    ensures
        final(lines).deep_view() == old(lines).deep_view() + path_lines(paths.deep_view()),
{
    let ghost all = path_lines(paths.deep_view());
    let mut i: usize = 0;
    assert(lines.deep_view() =~= old(lines).deep_view() + all.take(0));
    while i < paths.len()
        invariant
            i <= paths@.len(),
            all == path_lines(paths.deep_view()),
            lines.deep_view() == old(lines).deep_view() + all.take(i as int),
        decreases paths@.len() - i,
    {
        let ghost before = lines.deep_view();
        let mut line = "  ".to_string();
        line.append(paths[i].text.as_str());
        let ghost lv = line@;
        lines.push(line);
        assert(lines.deep_view() =~= before.push(lv));
        assert(paths.deep_view()[i as int] == paths@[i as int]@);
        assert(all[i as int] == lv);
        assert(lines.deep_view() =~= old(lines).deep_view() + all.take(i + 1));
        i = i + 1;
    }
    assert(all.take(i as int) =~= all);
}

fn folder_head_text(g: &FolderGroup) -> (r: String)
    ensures
        r@ == folder_head(g@),
{
    let mut s = "\nFolder duplicate: ".to_string();
    s.append(count_text(g.paths.len()).as_str());
    s.append(" copies (");
    s.append(count_text(g.file_count).as_str());
    s.append(" file(s), ");
    s.append(human_size(g.size).as_str());
    s.append(
        if g.confirmed {
            " each)"
        } else {
            " each, NOT VERIFIED -- large file(s))"
        },
    );
    s.append(":");
    s
}

fn report_folders(folder_groups: &Vec<FolderGroup>) -> (r: Vec<String>)
    ensures
        r.deep_view() == folders_part(folder_groups.deep_view()),
{
    let ghost all = folder_groups.deep_view();
    let mut lines: Vec<String> = Vec::new();
    let mut i: usize = 0;
    assert(all.take(0) =~= Seq::<FolderV>::empty());
    assert(lines.deep_view() =~= Seq::<Seq<char>>::empty());
    if folder_groups.len() == 0 {
        return lines;
    }
    while i < folder_groups.len()
        invariant
            i <= folder_groups@.len(),
            all == folder_groups.deep_view(),
            lines.deep_view() == folder_lines(all.take(i as int)),
        decreases folder_groups@.len() - i,
    {
        let ghost t = all.take(i + 1);
        assert(t.drop_last() =~= all.take(i as int));
        let g = &folder_groups[i];
        assert(t.last() == g@);
        let ghost before = lines.deep_view();
        let head = folder_head_text(g);
        let ghost hv = head@;
        lines.push(head);
        assert(lines.deep_view() =~= before.push(hv));
        push_paths(&mut lines, &g.paths);
        i = i + 1;
    }
    assert(all.take(i as int) =~= all);
    let ghost before = lines.deep_view();
    let mut note = "\n".to_string();
    note.append(count_text(folder_groups.len()).as_str());
    note.append(
        " duplicate folder(s) found -- their files are also listed individually below. --delete removes a confirmed one as a single unit; an unverified (large-file) one is handled file by file instead.",
    );
    let ghost nv = note@;
    lines.push(note);
    assert(lines.deep_view() =~= before.push(nv));
    lines
}

fn group_head_text(g: &DuplicateGroup) -> (r: String)
    ensures
        r@ == group_head(g@),
{
    let label = if g.confirmed {
        concat3("(sha256 ", leading_text(g.file_hash.as_str(), 12).as_str(), "...)")
    } else {
        "(NOT VERIFIED -- large file, matched by size + partial hash only)".to_string()
    };
    let mut s = "\n".to_string();
    s.append(count_text(g.paths.len()).as_str());
    s.append(" copies, ");
    s.append(human_size(g.size).as_str());
    s.append(" each ");
    s.append(label.as_str());
    s.append(":");
    s
}

fn wasted_by(g: &DuplicateGroup) -> (r: u64)
    ensures
        r == wasted(g@),
{
    let n: usize = g.paths.len();
    if n > 0 {
        times_saturating(g.size, n - 1)
    } else {
        times_saturating(g.size, 0)
    }
}

fn report_groups(groups: &Vec<DuplicateGroup>, cancelled: bool) -> (r: Vec<String>)
    ensures
        r.deep_view() == groups_part(groups.deep_view(), cancelled),
{
    let ghost all = groups.deep_view();
    let mut lines: Vec<String> = Vec::new();
    assert(all.take(0) =~= Seq::<GroupV>::empty());
    assert(lines.deep_view() =~= Seq::<Seq<char>>::empty());
    if groups.len() == 0 {
        lines.push(
            (if !cancelled {
                "No duplicates found."
            } else {
                "Scan cancelled before any duplicates were confirmed."
            }).to_string(),
        );
        assert(lines.deep_view() =~= groups_part(all, cancelled));
        return lines;
    }
    let mut total: u64 = 0;
    let mut deferred: usize = 0;
    let mut i: usize = 0;
    while i < groups.len()
        invariant
            i <= groups@.len(),
            all == groups.deep_view(),
            lines.deep_view() == group_lines(all.take(i as int)),
            total == total_wasted(all.take(i as int)),
            deferred == deferred_count(all.take(i as int)),
            deferred <= i,
        decreases groups@.len() - i,
    {
        let ghost t = all.take(i + 1);
        assert(t.drop_last() =~= all.take(i as int));
        let g = &groups[i];
        assert(t.last() == g@);
        total = plus_wrapping(total, wasted_by(g));
        if !g.confirmed {
            deferred = deferred + 1;
        }
        let ghost before = lines.deep_view();
        let head = group_head_text(g);
        let ghost hv = head@;
        lines.push(head);
        assert(lines.deep_view() =~= before.push(hv));
        push_paths(&mut lines, &g.paths);
        i = i + 1;
    }
    assert(all.take(i as int) =~= all);
    let mut line = "\n".to_string();
    line.append(count_text(groups.len()).as_str());
    line.append(" duplicate group(s), ");
    line.append(human_size(total).as_str());
    line.append(" reclaimable");
    line.append(
        if cancelled {
            " (scan cancelled -- partial results)"
        } else {
            ""
        },
    );
    line.append(".");
    let ghost before = lines.deep_view();
    let ghost lv = line@;
    lines.push(line);
    assert(lines.deep_view() =~= before.push(lv));
    if deferred > 0 {
        let mut note = count_text(deferred);
        note.append(
            " of those group(s) are large files not fully verified -- they will be confirmed before deletion, and a group could turn out to be a false match (files that only happen to share a size and partial hash).",
        );
        let ghost before2 = lines.deep_view();
        let ghost nv = note@;
        lines.push(note);
        assert(lines.deep_view() =~= before2.push(nv));
    }
    lines
}

/// The results of a scan, line by line. A line that begins with a line break
/// has an empty line above it.
pub fn print_scan_results(
    groups: &Vec<DuplicateGroup>,
    folder_groups: &Vec<FolderGroup>,
    skipped_count: usize,
    cancelled: bool,
) -> (r: Vec<String>)
    ensures
        r.deep_view() == scan_report(
            groups.deep_view(),
            folder_groups.deep_view(),
            skipped_count as int,
            cancelled,
        ),
{
    let mut lines = report_folders(folder_groups);
    let ghost first = lines.deep_view();
    let mut more = report_groups(groups, cancelled);
    let ghost second = more.deep_view();
    lines.append(&mut more);
    assert(lines.deep_view() =~= first + second);
    if skipped_count > 0 {
        let mut note = "\nSkipped ".to_string();
        note.append(count_text(skipped_count).as_str());
        note.append(" unreadable file(s) (permission denied or removed).");
        let ghost nv = note@;
        lines.push(note);
        assert(lines.deep_view() =~= first + second + seq![nv]);
    } else {
        assert(first + second + Seq::<Seq<char>>::empty() =~= first + second);
    }
    lines
}

} // verus!
