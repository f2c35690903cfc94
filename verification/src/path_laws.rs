//! What holds of paths, of the directories that hold them, and of digests as text.

use vstd::prelude::*;

use crate::digest::{content_digest, hex, sha256};
use crate::paths::{
    child_path, has_prefix, lossy, name_of, parent_of, parent_path, parent_text, root_len, separates, separator, shown_part,
    tail_cut, PartKind, PartV, PathId, PathV,
};

verus! {

/// A path in a directory has the directory as its parent and the name as its last part; a
/// root has no parent.
pub proof fn law_directories_hold_their_entries(dir: PathV, name: Seq<u8>)
    ensures
        parent_of(child_path(dir, name).parts) == Some(dir.parts),
        name_of(child_path(dir, name).parts) == Some(name),
        child_path(dir, name).parts.len() == dir.parts.len() + 1,
        parent_of(Seq::empty()) is None,
        parent_of(dir.parts.push(PartV { kind: PartKind::RootDir, name })) is None,
        parent_of(dir.parts.push(PartV { kind: PartKind::Prefix, name })) is None,
        name_of(dir.parts.push(PartV { kind: PartKind::ParentDir, name })) is None,
        name_of(Seq::empty()) is None,
{
    let c = child_path(dir, name).parts;
    assert(c.drop_last() =~= dir.parts);
}

/// A path shows as its directory, a slash unless there is one already, and its name; behind
/// a drive or a share it is a backslash.
pub proof fn law_how_entries_show(dir: PathV, name: Seq<u8>)
    ensures
        ({
            let drive = dir.parts.len() > 0 && dir.parts[0].kind == PartKind::Prefix;
            let text = child_path(dir, name).text;
            &&& dir.text.len() == 0 ==> text == lossy(name)
            &&& dir.text.len() > 0 && dir.text.last() == '/' ==> text == dir.text + lossy(name)
            &&& dir.text.len() > 0 && dir.text.last() == '\\' && drive ==> text == dir.text + lossy(name)
            &&& dir.text.len() > 0 && dir.text.last() != '/' && !drive ==> text == dir.text + seq!['/'] + lossy(name)
            &&& dir.text.len() > 0 && dir.text.last() != '/' && dir.text.last() != '\\' && drive ==> text == dir.text
                + seq!['\\'] + lossy(name)
        }),
{
    assert(dir.text + lossy(name) =~= Seq::<char>::empty() + (dir.text + lossy(name)));
    if dir.text.len() == 0 {
        assert(dir.text + lossy(name) =~= lossy(name));
    }
    assert(dir.text.push('/') =~= dir.text + seq!['/']);
    assert(dir.text.push('\\') =~= dir.text + seq!['\\']);
}

/// The directory of an entry is the directory again, as it was shown, where its text has
/// nothing to spare at the end and the name shows no separator.
pub proof fn law_up_from_an_entry(dir: PathV, name: Seq<u8>)
    requires
        dir.parts.len() > 0,
        dir.text.len() > 0,
        dir.text.len() >= root_len(dir.parts),
        tail_cut(dir.parts, dir.text) == dir.text,
        lossy(name).len() > 0,
        lossy(name) != seq!['.'],
        forall|i: int| 0 <= i < lossy(name).len() ==> !separates(dir.parts, #[trigger] lossy(name)[i]),
    ensures
        parent_path(child_path(dir, name)) == Some(dir),
{
    let c = child_path(dir, name);
    let nm = lossy(name);
    let n = nm.len();
    let all = c.text;
    assert(c.parts.drop_last() =~= dir.parts);
    assert(c.parts[0] == dir.parts[0]);
    assert(has_prefix(c.parts) == has_prefix(dir.parts));
    if dir.parts.len() >= 2 {
        assert(c.parts[1] == dir.parts[1]);
    }
    assert(root_len(c.parts) == root_len(dir.parts));
    let ends = separates(dir.parts, dir.text.last());
    let before = if ends {
        dir.text
    } else {
        dir.text.push(separator(dir.parts))
    };
    assert(all == before + nm);
    assert(all[all.len() - 1] == nm[n - 1]);
    if n >= 2 {
        assert(all[all.len() - 2] == nm[n - 2]);
    } else if nm[0] == '.' {
        assert(nm =~= seq!['.']);
    }
    assert(tail_cut(c.parts, all) == all);
    assert(c.parts.last() == PartV { kind: PartKind::Normal, name });
    assert(shown_part(c.parts.last()) == nm);
    assert(all.take(all.len() - n) =~= before);
    lemma_same_cut(c.parts, dir.parts, dir.text);
    if !ends {
        assert(before.take(before.len() - 1) =~= dir.text);
        assert(separates(c.parts, before[before.len() - 1]));
        assert(tail_cut(c.parts, before) == tail_cut(c.parts, dir.text));
    }
    assert(parent_text(c) == dir.text);
}

proof fn lemma_same_cut(a: PathId, b: PathId, text: Seq<char>)
    requires
        has_prefix(a) == has_prefix(b),
        root_len(a) == root_len(b),
    ensures
        tail_cut(a, text) == tail_cut(b, text),
    decreases text.len(),
{
    if text.len() > 0 {
        lemma_same_cut(a, b, text.take(text.len() - 1));
    }
}

/// Bytes show as two small hexadecimal digits each.
pub proof fn law_bytes_show_in_hexadecimal(bytes: Seq<u8>, i: int)
    requires
        0 <= i < bytes.len(),
    ensures
        hex(bytes).len() == 2 * bytes.len(),
        is_hex_digit(hex(bytes)[2 * i], bytes[i] as int / 16),
        is_hex_digit(hex(bytes)[2 * i + 1], bytes[i] as int % 16),
{
    assert((2 * i) % 2 == 0 && (2 * i) / 2 == i);
    assert((2 * i + 1) % 2 == 1 && (2 * i + 1) / 2 == i);
}

/// The digest of a content is its SHA-256 in hexadecimal, all of it.
pub proof fn law_digests_are_sha256(content: Seq<u8>)
    ensures
        content_digest(content) == hex(sha256(content)),
        content_digest(content).len() == 2 * sha256(content).len(),
{
}

/// Whether this is the digit of a value.
pub open spec fn is_hex_digit(c: char, value: int) -> bool {
    ||| '0' <= c <= '9' && c as u32 - '0' as u32 == value
    ||| 'a' <= c <= 'f' && c as u32 - 'a' as u32 + 10 == value
}

} // verus!
