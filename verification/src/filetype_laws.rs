//! What holds of the choice of files by their type and by their name.

use vstd::prelude::*;

use crate::filetypes::{
    categories, dot_position, dotted_extension, extension_accepted, in_chosen_category, is_categorized, is_temp_name,
    path_extension, unknown_names, valid_types,
};
use crate::paths::{last_dot, lossy, name_extension, PartKind, PartV, PathId};
use crate::text::lowercase;

verus! {

proof fn lemma_names_differ(i: int, j: int)
    requires
        0 <= i < 6,
        0 <= j < 6,
        i != j,
    ensures
        categories().len() == 6,
        categories()[i].name != categories()[j].name,
        categories()[i].name != "misc"@,
{
    reveal_strlit("images");
    reveal_strlit("audio");
    reveal_strlit("video");
    reveal_strlit("documents");
    reveal_strlit("archives");
    reveal_strlit("programs");
    reveal_strlit("misc");
    let (a, b) = (categories()[i].name, categories()[j].name);
    assert(a.len() != b.len() || a[0] != b[0]);
}

/// To choose several types is to take what each of them takes; no type takes nothing.
pub proof fn law_types_add_up(a: Seq<Seq<char>>, b: Seq<Seq<char>>, ext: Seq<char>)
    ensures
        extension_accepted(a + b, ext) <==> extension_accepted(a, ext) || extension_accepted(b, ext),
        !extension_accepted(Seq::empty(), ext),
{
    assert forall|x: Seq<char>| (a + b).contains(x) <==> a.contains(x) || b.contains(x) by {
        if a.contains(x) {
            let i = choose|i: int| 0 <= i < a.len() && a[i] == x;
            assert((a + b)[i] == x);
        }
        if b.contains(x) {
            let i = choose|i: int| 0 <= i < b.len() && b[i] == x;
            assert((a + b)[a.len() + i] == x);
        }
    }
    if in_chosen_category(a, ext) {
        let i = choose|i: int|
            0 <= i < categories().len() && a.contains(categories()[i].name)
                && #[trigger] categories()[i].extensions.contains(ext);
        assert((a + b).contains(categories()[i].name) && categories()[i].extensions.contains(ext));
    }
    if in_chosen_category(b, ext) {
        let i = choose|i: int|
            0 <= i < categories().len() && b.contains(categories()[i].name)
                && #[trigger] categories()[i].extensions.contains(ext);
        assert((a + b).contains(categories()[i].name) && categories()[i].extensions.contains(ext));
    }
    if in_chosen_category(a + b, ext) {
        let i = choose|i: int|
            0 <= i < categories().len() && (a + b).contains(categories()[i].name)
                && #[trigger] categories()[i].extensions.contains(ext);
        assert(a.contains(categories()[i].name) || b.contains(categories()[i].name));
        assert(categories()[i].extensions.contains(ext));
    }
}

/// A type of its own name takes the extensions that are listed for it, and no others.
pub proof fn law_type_takes_its_extensions(i: int, ext: Seq<char>)
    requires
        0 <= i < categories().len(),
    ensures
        extension_accepted(seq![categories()[i].name], ext) <==> categories()[i].extensions.contains(ext),
{
    let one = seq![categories()[i].name];
    let other = if i == 0 {
        1int
    } else {
        0int
    };
    lemma_names_differ(i, other);
    assert(one[0] == categories()[i].name);
    assert(one.contains(categories()[i].name));
    assert(!one.contains("misc"@));
    if in_chosen_category(one, ext) {
        let k = choose|k: int|
            0 <= k < categories().len() && one.contains(categories()[k].name)
                && #[trigger] categories()[k].extensions.contains(ext);
        if k != i {
            lemma_names_differ(k, i);
        }
    }
}

/// The type for all the rest takes what no type of its own name takes.
pub proof fn law_misc_takes_the_rest(ext: Seq<char>)
    ensures
        extension_accepted(seq!["misc"@], ext) <==> forall|i: int|
            0 <= i < categories().len() ==> !extension_accepted(seq![(#[trigger] categories()[i]).name], ext),
{
    let one = seq!["misc"@];
    assert(one[0] == "misc"@);
    assert(one.contains("misc"@));
    lemma_names_differ(0, 1);
    assert forall|i: int| 0 <= i < categories().len() implies (extension_accepted(
        seq![(#[trigger] categories()[i]).name],
        ext,
    ) <==> categories()[i].extensions.contains(ext)) && !one.contains(categories()[i].name) by {
        law_type_takes_its_extensions(i, ext);
        let other = if i == 0 {
            1int
        } else {
            0int
        };
        lemma_names_differ(i, other);
    }
    if is_categorized(ext) {
        let i = choose|i: int| 0 <= i < categories().len() && #[trigger] categories()[i].extensions.contains(ext);
        assert(extension_accepted(seq![categories()[i].name], ext));
    }
}

/// The names that are refused are those on the list that are no types, each once.
pub proof fn law_refused_names(list: Seq<Seq<char>>, name: Seq<char>)
    ensures
        unknown_names(list).contains(name) <==> list.contains(name) && !valid_types().contains(name),
        unknown_names(list).no_duplicates(),
    decreases list.len(),
{
    if list.len() > 0 {
        let s = list.drop_last();
        let x = list.last();
        law_refused_names(s, name);
        law_refused_names(s, x);
        let before = unknown_names(s);
        let after = unknown_names(list);
        if s.contains(name) {
            let i = choose|i: int| 0 <= i < s.len() && s[i] == name;
            assert(list[i] == name);
        }
        if list.contains(name) && !s.contains(name) {
            let i = choose|i: int| 0 <= i < list.len() && list[i] == name;
            if i < s.len() {
                assert(s[i] == name);
            }
            assert(name == x);
        }
        assert(list[list.len() - 1] == x);
        if after == before.push(x) && !valid_types().contains(x) && !before.contains(x) {
            if before.contains(name) {
                let i = choose|i: int| 0 <= i < before.len() && before[i] == name;
                assert(after[i] == name);
            }
            assert(after[before.len() as int] == x);
            if after.contains(name) && name != x {
                let i = choose|i: int| 0 <= i < after.len() && after[i] == name;
                assert(before[i] == name);
            }
            assert forall|i: int, j: int| 0 <= i < after.len() && 0 <= j < after.len() && i != j implies after[i]
                != after[j] by {
                if i < before.len() {
                    assert(before.contains(before[i]));
                }
                if j < before.len() {
                    assert(before.contains(before[j]));
                }
            }
        }
    }
}

proof fn lemma_last_dot_at(name: Seq<u8>, i: int)
    requires
        -1 <= i < name.len(),
        i >= 0 ==> name[i] == 46u8,
        forall|j: int| i < j < name.len() ==> name[j] != 46u8,
    ensures
        last_dot(name) == i,
    decreases name.len(),
{
    if name.len() > 0 && i < name.len() - 1 {
        assert(name.last() != 46u8);
        lemma_last_dot_at(name.drop_last(), i);
    }
}

/// The extension of a file is what follows the last dot of its name, in lower case, with
/// the dot; there is none where no dot follows the first character.
pub proof fn law_extension_follows_the_last_dot(dir: PathId, stem: Seq<u8>, ext: Seq<u8>)
    requires
        !ext.contains(46u8),
    ensures
        stem.len() > 0 && !(stem == seq![46u8] && ext.len() == 0) ==> path_extension(
            dir.push(PartV { kind: PartKind::Normal, name: stem + seq![46u8] + ext }),
        ) == "."@ + lowercase(lossy(ext)),
        path_extension(dir.push(PartV { kind: PartKind::Normal, name: ext })).len() == 0,
        path_extension(dir.push(PartV { kind: PartKind::Normal, name: seq![46u8] + ext })).len() == 0,
{
    let name = stem + seq![46u8] + ext;
    assert forall|j: int| stem.len() < j < name.len() implies name[j] != 46u8 by {
        assert(ext.contains(ext[j - stem.len() - 1]));
    }
    lemma_last_dot_at(name, stem.len() as int);
    assert(name.skip(stem.len() as int + 1) =~= ext);
    if name == seq![46u8, 46u8] {
        assert(name.len() == 2);
        if stem.len() == 1 {
            assert(stem[0] == name[0]);
            assert(stem =~= seq![46u8]);
        }
    }
    assert forall|j: int| -1 < j < ext.len() implies ext[j] != 46u8 by {
        assert(ext.contains(ext[j]));
    }
    lemma_last_dot_at(ext, -1);
    let hidden = seq![46u8] + ext;
    assert forall|j: int| 0 < j < hidden.len() implies hidden[j] != 46u8 by {
        assert(ext.contains(ext[j - 1]));
    }
    lemma_last_dot_at(hidden, 0);
    assert(name_extension(ext) is None && name_extension(hidden) is None);
}

// ------------------------------------------------------------------ temporary files

/// Whether a name is more than an ending, and has that ending.
pub open spec fn ends_in(name: Seq<char>, ending: Seq<char>) -> bool {
    name.len() > ending.len() && name.skip(name.len() - ending.len()) == ending
}

proof fn lemma_dot_at(name: Seq<char>, i: int)
    requires
        -1 <= i < name.len(),
        i >= 0 ==> name[i] == '.',
        forall|j: int| i < j < name.len() ==> name[j] != '.',
    ensures
        dot_position(name) == i,
    decreases name.len(),
{
    if name.len() > 0 && i < name.len() - 1 {
        assert(name.last() != '.');
        lemma_dot_at(name.drop_last(), i);
    }
}

proof fn lemma_dot_is(name: Seq<char>)
    ensures
        -1 <= dot_position(name) < name.len(),
        dot_position(name) >= 0 ==> name[dot_position(name)] == '.',
        forall|j: int| dot_position(name) < j < name.len() ==> name[j] != '.',
    decreases name.len(),
{
    if name.len() > 0 && name.last() != '.' {
        lemma_dot_is(name.drop_last());
        assert forall|j: int| dot_position(name) < j < name.len() implies name[j] != '.' by {
            if j < name.len() - 1 {
                assert(name.drop_last()[j] == name[j]);
            }
        }
    }
}

/// The dotted extension of a name is one that begins with its only dot exactly where the
/// name ends in it.
proof fn lemma_dotted(name: Seq<char>, ext: Seq<char>)
    requires
        ext.len() > 1,
        ext[0] == '.',
        forall|j: int| 0 < j < ext.len() ==> ext[j] != '.',
    ensures
        dotted_extension(name) == ext <==> ends_in(name, ext),
{
    lemma_dot_is(name);
    let at = name.len() - ext.len();
    if dotted_extension(name) == ext {
        assert(dot_position(name) == at);
    }
    if ends_in(name, ext) {
        assert(name[at] == name.skip(at)[0]);
        assert forall|j: int| at < j < name.len() implies name[j] != '.' by {
            assert(name[j] == name.skip(at)[j - at]);
        }
        lemma_dot_at(name, at);
    }
}

/// A temporary file is one that the system leaves behind under a name of its own, one
/// whose name ends in a tilde, and one whose name has a temporary ending, in whatever case.
pub proof fn law_temporary_names(name: Seq<char>)
    ensures
        ({
            let low = lowercase(name);
            is_temp_name(name) <==> {
                ||| low == ".ds_store"@
                ||| low == ".localized"@
                ||| low == "thumbs.db"@
                ||| low == "desktop.ini"@
                ||| low == ".gitkeep"@
                ||| low.len() > 0 && low.last() == '~'
                ||| ends_in(low, ".tmp"@)
                ||| ends_in(low, ".temp"@)
                ||| ends_in(low, ".swp"@)
                ||| ends_in(low, ".swo"@)
                ||| ends_in(low, ".bak"@)
            }
        }),
{
    reveal_strlit(".tmp");
    reveal_strlit(".temp");
    reveal_strlit(".swp");
    reveal_strlit(".swo");
    reveal_strlit(".bak");
    let low = lowercase(name);
    lemma_dotted(low, ".tmp"@);
    lemma_dotted(low, ".temp"@);
    lemma_dotted(low, ".swp"@);
    lemma_dotted(low, ".swo"@);
    lemma_dotted(low, ".bak"@);
    let names = crate::filetypes::default_file_names();
    let ends = crate::filetypes::default_file_extensions();
    let ext = dotted_extension(low);
    assert(names[0] == ".ds_store"@ && names[1] == ".localized"@ && names[2] == "thumbs.db"@ && names[3]
        == "desktop.ini"@ && names[4] == ".gitkeep"@);
    assert(ends[0] == ".tmp"@ && ends[1] == ".temp"@ && ends[2] == ".swp"@ && ends[3] == ".swo"@ && ends[4] == ".bak"@);
}

} // verus!
