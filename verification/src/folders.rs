//! Directories whose whole contents are duplicates of each other, told from the
//! duplicate groups of their files without reading anything again.
//!
//! A directory has a signature, the digest of a description of all that it holds.
//! The description spells names and digests out, so that it can be read back.

use vstd::prelude::*;

use crate::digest::{content_digest, digest_of, hex, hex_text, DIGEST_LIMIT};
use crate::groups::{
    plus_wrapping, rank_folders, ranked_folders, wrapped, DuplicateGroup, FolderGroup, FolderV, GroupV,
};
use crate::order::{arranged, is_stable_order, rows, stable_order, stable_order_of};
use crate::paths::{
    is_under, name_of, parent_of, parent_path, path_code, FilePath, PathId, PathMap, PathSet, PathV,
};
use crate::tables::{added, copy_paths, mark_paths, marked, BucketV, Table, TableV};
use crate::text::bytes_of;
use crate::walk::{ids_of, lemma_ids_has, lemma_ids_push, path_set};

verus! {

// ------------------------------------------------------------------ the tree

/// Whether a list of directories holds one.
pub open spec fn has_dir(dirs: Seq<PathV>, d: PathId) -> bool {
    exists|i: int| 0 <= i < dirs.len() && (#[trigger] dirs[i]).parts == d
}

/// The directories after one was linked in: it and what holds it, up to a root
/// or to a directory that is there already.
pub open spec fn linked(dirs: Seq<PathV>, d: PathV, roots: Set<PathId>) -> Seq<PathV>
    decreases d.parts.len(),
{
    if has_dir(dirs, d.parts) {
        dirs
    } else if roots.contains(d.parts) {
        dirs.push(d)
    } else {
        match parent_path(d) {
            Some(p) => linked(dirs.push(d), p, roots),
            None => dirs.push(d),
        }
    }
}

/// All directories that hold files, directly or not, up to the roots.
pub open spec fn dirs_of(files: Seq<PathV>, roots: Set<PathId>) -> Seq<PathV>
    decreases files.len(),
{
    if files.len() == 0 {
        Seq::empty()
    } else {
        let before = dirs_of(files.drop_last(), roots);
        match parent_path(files.last()) {
            Some(p) => linked(before, p, roots),
            None => before,
        }
    }
}

/// For each path the position of the last group that holds it.
pub open spec fn group_positions(groups: Seq<GroupV>) -> Map<PathId, usize>
    decreases groups.len(),
{
    if groups.len() == 0 {
        Map::empty()
    } else {
        marked(group_positions(groups.drop_last()), groups.last().paths, (groups.len() - 1) as usize)
    }
}

/// Whether a path lies directly in a directory.
pub open spec fn lies_in(d: PathId) -> spec_fn(PathV) -> bool {
    |f: PathV| parent_of(f.parts) == Some(d)
}

/// Whether a directory lies directly in another. A root lies in none.
pub open spec fn sub_of(d: PathId, roots: Set<PathId>) -> spec_fn(PathV) -> bool {
    |s: PathV| !roots.contains(s.parts) && parent_of(s.parts) == Some(d)
}

/// The roots that lie in no other root. What lies in another root is a directory
/// like any other there.
pub open spec fn top_roots(roots: Set<PathId>) -> Set<PathId> {
    Set::new(|r: PathId| roots.contains(r) && forall|q: PathId| #[trigger] roots.contains(q) && is_under(r, q) ==> q == r)
}

/// Everything that tells which folders are duplicates.
pub struct TreeV {
    pub files: Seq<PathV>,
    pub dirs: Seq<PathV>,
    pub roots: Set<PathId>,
    pub groups: Seq<GroupV>,
    pub at: Map<PathId, usize>,
    pub unread: Set<PathId>,
}

/// Whether one of these directories is a root that lies in this one. Linking stops at
/// a root, so that what such a directory holds is not all known.
pub open spec fn above_root(dirs: Seq<PathV>, roots: Set<PathId>, d: PathId) -> bool {
    exists|r: PathId| #[trigger] roots.contains(r) && has_dir(dirs, r) && r != d && is_under(r, d)
}

/// The tree of some files, those read and those skipped. A file that was skipped
/// counts as a file without a duplicate, whatever groups there are, and a directory
/// that was skipped, or that a root lies in, has no signature.
pub open spec fn tree_of(files: Seq<PathV>, skipped: Seq<PathV>, groups: Seq<GroupV>, roots: Set<PathId>) -> TreeV {
    TreeV {
        files: files + skipped,
        dirs: dirs_of(files + skipped, top_roots(roots)),
        roots: top_roots(roots),
        groups,
        at: group_positions(groups).remove_keys(ids_of(skipped)),
        unread: ids_of(skipped).union(
            roots_above(dirs_of(files + skipped, top_roots(roots)), top_roots(roots)),
        ),
    }
}

/// The directories that a root lies in.
pub open spec fn roots_above(dirs: Seq<PathV>, roots: Set<PathId>) -> Set<PathId> {
    Set::new(|d: PathId| has_dir(dirs, d) && above_root(dirs, roots, d))
}

/// The most parts that a directory of a list has.
pub open spec fn deepest(dirs: Seq<PathV>) -> nat
    decreases dirs.len(),
{
    if dirs.len() == 0 {
        0
    } else {
        let before = deepest(dirs.drop_last());
        if dirs.last().parts.len() > before {
            dirs.last().parts.len()
        } else {
            before
        }
    }
}

/// The key by which entries of a directory sort: what has no name comes first.
pub open spec fn name_key(path: PathId) -> Seq<u64> {
    match name_of(path) {
        Some(name) => seq![1u64] + crate::order::bytes_key(name),
        None => Seq::empty(),
    }
}

/// Paths in the order of their names.
pub open spec fn by_name(paths: Seq<PathV>) -> Seq<PathV> {
    arranged(paths, stable_order_of(paths.map_values(|p: PathV| name_key(p.parts))))
}

/// How an entry stands in the description of its directory: its kind, its name, and
/// the digest of what it holds, spelled out.
pub open spec fn entry_text(kind: char, name: Seq<u8>, id: Seq<char>) -> Seq<char> {
    seq![kind] + hex(name) + seq![':'] + hex(vstd::utf8::encode_utf8(id)) + seq![';']
}

/// A count cut to the width of `usize`.
pub open spec fn wrapped_count(n: int) -> usize {
    (n % (usize::MAX + 1)) as usize
}

/// What is known of a directory while its entries are gone through.
pub struct TallyV {
    pub entries: Seq<Seq<char>>,
    pub confirmed: bool,
    pub size: u64,
    pub count: usize,
}

pub open spec fn tally_start() -> TallyV {
    TallyV { entries: Seq::empty(), confirmed: true, size: 0, count: 0 }
}

/// What a directory amounts to. One with a file that has no duplicate, or that
/// holds no file at all, has no signature.
pub struct FolderInfoV {
    pub signature: Option<Seq<char>>,
    pub confirmed: bool,
    pub size: u64,
    pub count: usize,
}

pub open spec fn no_info() -> FolderInfoV {
    FolderInfoV { signature: None, confirmed: true, size: 0, count: 0 }
}

/// The description of a directory, entry by entry.
pub open spec fn description(entries: Seq<Seq<char>>) -> Seq<char>
    decreases entries.len(),
{
    if entries.len() == 0 {
        Seq::empty()
    } else {
        description(entries.drop_last()) + entries.last()
    }
}

pub open spec fn info_of(t: TallyV) -> FolderInfoV {
    let bytes = vstd::utf8::encode_utf8(description(t.entries));
    if t.entries.len() == 0 || bytes.len() >= DIGEST_LIMIT {
        no_info()
    } else {
        FolderInfoV {
            signature: Some(content_digest(bytes)),
            confirmed: t.confirmed,
            size: t.size,
            count: t.count,
        }
    }
}

impl TreeV {
    /// The files that lie directly in a directory.
    pub open spec fn files_in(self, d: PathId) -> Seq<PathV> {
        self.files.filter(lies_in(d))
    }

    /// The directories that lie directly in a directory.
    pub open spec fn subs_in(self, d: PathId) -> Seq<PathV> {
        self.dirs.filter(sub_of(d, self.roots))
    }

    /// The tally of files, or nothing where one of them has no duplicate or no name.
    pub open spec fn tally_files(self, list: Seq<PathV>) -> Option<TallyV>
        decreases list.len(),
    {
        if list.len() == 0 {
            Some(tally_start())
        } else {
            match self.tally_files(list.drop_last()) {
                None => None,
                Some(t) => {
                    let f = list.last();
                    if !self.at.contains_key(f.parts) || name_of(f.parts) is None {
                        None
                    } else {
                        let g = self.groups[self.at[f.parts] as int];
                        Some(
                            TallyV {
                                entries: t.entries.push(entry_text('F', name_of(f.parts).unwrap(), g.file_hash)),
                                confirmed: t.confirmed && g.confirmed,
                                size: wrapped(t.size + g.size),
                                count: wrapped_count(t.count + 1),
                            },
                        )
                    }
                },
            }
        }
    }

    /// A tally after subdirectories, or nothing where one has no signature or no
    /// name.
    pub open spec fn tally_subs(self, start: TallyV, list: Seq<PathV>, height: nat) -> Option<TallyV>
        decreases height, 0int, list.len(),
    {
        if list.len() == 0 {
            Some(start)
        } else {
            match self.tally_subs(start, list.drop_last(), height) {
                None => None,
                Some(t) => if height == 0 {
                    None
                } else {
                    let s = list.last();
                    let i = self.info_at(s.parts, (height - 1) as nat);
                    match (i.signature, name_of(s.parts)) {
                        (Some(sig), Some(name)) => Some(
                            TallyV {
                                entries: t.entries.push(entry_text('D', name, sig)),
                                confirmed: t.confirmed && i.confirmed,
                                size: wrapped(t.size + i.size),
                                count: wrapped_count(t.count + i.count),
                            },
                        ),
                        _ => None,
                    }
                },
            }
        }
    }

    /// What a directory amounts to that has at most `height` levels below it.
    pub open spec fn info_at(self, d: PathId, height: nat) -> FolderInfoV
        decreases height, 1int, 0nat,
    {
        if self.unread.contains(d) {
            no_info()
        } else {
            match self.tally_files(by_name(self.files_in(d))) {
                None => no_info(),
                Some(t) => match self.tally_subs(t, by_name(self.subs_in(d)), height) {
                    None => no_info(),
                    Some(t2) => info_of(t2),
                },
            }
        }
    }

    /// What a directory amounts to.
    pub open spec fn info(self, d: PathId) -> FolderInfoV {
        self.info_at(d, (deepest(self.dirs) - d.len()) as nat)
    }

    /// The directories with what each amounts to.
    pub open spec fn signed(self) -> SignedV {
        SignedV { dirs: self.dirs, roots: self.roots, info: |d: PathId| self.info(d) }
    }

    /// The duplicate folders.
    pub open spec fn duplicate_folders(self) -> Seq<FolderV> {
        self.signed().duplicate_folders()
    }
}

/// Directories, with what each of them amounts to.
pub struct SignedV {
    pub dirs: Seq<PathV>,
    pub roots: Set<PathId>,
    pub info: spec_fn(PathId) -> FolderInfoV,
}

impl SignedV {
    /// The directories by signature.
    pub open spec fn classes(self, dirs: Seq<PathV>) -> TableV
        decreases dirs.len(),
    {
        if dirs.len() == 0 {
            Seq::empty()
        } else {
            let before = self.classes(dirs.drop_last());
            match (self.info)(dirs.last().parts).signature {
                Some(sig) => added(before, sig, 0, dirs.last()),
                None => before,
            }
        }
    }

    /// Whether a directory is one of those reported or lies in one of them.
    pub open spec fn covered(self, reported: Set<PathId>, d: PathId) -> bool
        decreases d.len(),
    {
        reported.contains(d) || (!self.roots.contains(d) && match parent_of(d) {
            Some(p) => self.covered(reported, p),
            None => false,
        })
    }

    /// The group that equal directories, in order, are reported as.
    pub open spec fn folder_group(self, paths: Seq<PathV>) -> FolderV {
        let first = (self.info)(paths[0].parts);
        FolderV {
            paths,
            file_count: first.count,
            size: first.size,
            confirmed: forall|i: int| 0 <= i < paths.len() ==> (self.info)((#[trigger] paths[i]).parts).confirmed,
        }
    }

    /// Whether a directory lies in one of these, and is none of them by itself.
    pub open spec fn lies_below(self, dirs: Set<PathId>, d: PathId) -> bool {
        !self.roots.contains(d) && match parent_of(d) {
            Some(p) => self.covered(dirs, p),
            None => false,
        }
    }

    /// Of equal directories in order, those whose match is not implied already: none
    /// of them lies in a further copy of a directory, where the first copy has it too.
    pub open spec fn not_implied(self, further: Set<PathId>, paths: Seq<PathV>) -> Seq<PathV>
        decreases paths.len(),
    {
        if paths.len() == 0 {
            Seq::empty()
        } else if self.lies_below(further, paths.last().parts) {
            self.not_implied(further, paths.drop_last())
        } else {
            self.not_implied(further, paths.drop_last()).push(paths.last())
        }
    }

    /// All directories whose match is not implied, of classes with two or more of them.
    pub open spec fn matched_dirs(self, further: Set<PathId>, classes: Seq<Seq<PathV>>) -> Set<PathId>
        decreases classes.len(),
    {
        if classes.len() == 0 {
            Set::empty()
        } else {
            let before = self.matched_dirs(further, classes.drop_last());
            let paths = self.not_implied(further, in_order(classes.last()));
            if paths.len() < 2 {
                before
            } else {
                before.union(ids_of(paths))
            }
        }
    }

    /// Whether one of these paths lies in none of these directories.
    pub open spec fn stands_out(self, matched: Set<PathId>, paths: Seq<PathV>) -> bool {
        exists|i: int| 0 <= i < paths.len() && !self.lies_below(matched, (#[trigger] paths[i]).parts)
    }

    /// The groups reported for classes: two or more directories whose match is not
    /// implied, not all of which lie in other directories that match.
    pub open spec fn reported(self, further: Set<PathId>, matched: Set<PathId>, classes: Seq<Seq<PathV>>) -> Seq<FolderV>
        decreases classes.len(),
    {
        if classes.len() == 0 {
            Seq::empty()
        } else {
            let before = self.reported(further, matched, classes.drop_last());
            let paths = self.not_implied(further, in_order(classes.last()));
            if paths.len() >= 2 && self.stands_out(matched, paths) {
                before.push(self.folder_group(paths))
            } else {
                before
            }
        }
    }

    /// The classes of equal directories, the outermost first.
    pub open spec fn candidates(self) -> Seq<Seq<PathV>> {
        outermost_first(repeated(self.classes(self.dirs)))
    }

    /// The directories that are further copies of others.
    pub open spec fn further(self) -> Set<PathId> {
        further_copies(self.candidates())
    }

    /// The directories whose match is not implied.
    pub open spec fn matched(self) -> Set<PathId> {
        self.matched_dirs(self.further(), self.candidates())
    }

    /// The duplicate folders.
    pub open spec fn duplicate_folders(self) -> Seq<FolderV> {
        ranked_folders(self.reported(self.further(), self.matched(), self.candidates()))
    }
}

/// A list without its first path.
pub open spec fn after_first(paths: Seq<PathV>) -> Seq<PathV> {
    if paths.len() == 0 {
        paths
    } else {
        paths.skip(1)
    }
}

/// The directories that are not the first of their class.
pub open spec fn further_copies(classes: Seq<Seq<PathV>>) -> Set<PathId>
    decreases classes.len(),
{
    if classes.len() == 0 {
        Set::empty()
    } else {
        further_copies(classes.drop_last()).union(ids_of(after_first(in_order(classes.last()))))
    }
}

/// Paths in ascending order.
pub open spec fn in_order(paths: Seq<PathV>) -> Seq<PathV> {
    arranged(paths, stable_order_of(paths.map_values(|p: PathV| path_code(p.parts))))
}

/// The classes of two or more directories.
pub open spec fn repeated(classes: TableV) -> Seq<Seq<PathV>>
    decreases classes.len(),
{
    if classes.len() == 0 {
        Seq::empty()
    } else if classes.last().paths.len() >= 2 {
        repeated(classes.drop_last()).push(classes.last().paths)
    } else {
        repeated(classes.drop_last())
    }
}

/// The fewest parts that a path of a list has.
pub open spec fn least_depth(paths: Seq<PathV>) -> nat
    decreases paths.len(),
{
    if paths.len() == 0 {
        0
    } else if paths.len() == 1 {
        paths[0].parts.len()
    } else {
        let before = least_depth(paths.drop_last());
        if paths.last().parts.len() < before {
            paths.last().parts.len()
        } else {
            before
        }
    }
}

/// Classes with the outermost directories first.
pub open spec fn outermost_first(classes: Seq<Seq<PathV>>) -> Seq<Seq<PathV>> {
    arranged(classes, stable_order_of(classes.map_values(|c: Seq<PathV>| seq![least_depth(c) as u64])))
}

// ------------------------------------------------------------ building the tree

pub proof fn lemma_has_dir_push(dirs: Seq<PathV>, d: PathV)
    ensures
        forall|x: PathId| #[trigger] has_dir(dirs.push(d), x) <==> has_dir(dirs, x) || x == d.parts,
{
    assert forall|x: PathId| #[trigger] has_dir(dirs.push(d), x) <==> has_dir(dirs, x) || x == d.parts by {
        let n = dirs.push(d);
        if has_dir(dirs, x) {
            let i = choose|i: int| 0 <= i < dirs.len() && (#[trigger] dirs[i]).parts == x;
            assert(n[i].parts == x);
        }
        if x == d.parts {
            assert(n[dirs.len() as int].parts == x);
        }
        if has_dir(n, x) && x != d.parts {
            let i = choose|i: int| 0 <= i < n.len() && (#[trigger] n[i]).parts == x;
            assert(dirs[i].parts == x);
        }
    }
}

/// Whether what holds a directory of the list is in the list too, up to the
/// roots, but for one that is still missing.
pub open spec fn closed_but(dirs: Seq<PathV>, roots: Set<PathId>, missing: Option<PathId>) -> bool {
    forall|i: int|
        0 <= i < dirs.len() && !roots.contains((#[trigger] dirs[i]).parts) ==> match parent_of(dirs[i].parts) {
            Some(p) => has_dir(dirs, p) || missing == Some(p),
            None => true,
        }
}

/// Whether each directory of a list is there once.
pub open spec fn ids_unique(dirs: Seq<PathV>) -> bool {
    forall|i: int, j: int| 0 <= i < j < dirs.len() ==> (#[trigger] dirs[i]).parts != (#[trigger] dirs[j]).parts
}

pub proof fn lemma_linked(dirs: Seq<PathV>, d: PathV, roots: Set<PathId>)
    requires
        ids_unique(dirs),
        closed_but(dirs, roots, Some(d.parts)),
    ensures
        ids_unique(linked(dirs, d, roots)),
        closed_but(linked(dirs, d, roots), roots, None),
        has_dir(linked(dirs, d, roots), d.parts),
        forall|x: PathId| has_dir(dirs, x) ==> #[trigger] has_dir(linked(dirs, d, roots), x),
    decreases d.parts.len(),
{
    lemma_has_dir_push(dirs, d);
    let n = dirs.push(d);
    if !has_dir(dirs, d.parts) {
        assert(ids_unique(n)) by {
            assert forall|i: int, j: int| 0 <= i < j < n.len() implies (#[trigger] n[i]).parts != (#[trigger] n[j]).parts by {
                if j == dirs.len() {
                    assert(dirs[i].parts != d.parts);
                }
            }
        }
        let up = parent_path(d);
        let missing = if roots.contains(d.parts) {
            None
        } else {
            match up {
                Some(p) => Some(p.parts),
                None => None,
            }
        };
        assert(closed_but(n, roots, missing)) by {
            assert forall|i: int| 0 <= i < n.len() && !roots.contains((#[trigger] n[i]).parts) implies match parent_of(n[i].parts) {
                Some(p) => has_dir(n, p) || missing == Some(p),
                None => true,
            } by {
                if i < dirs.len() {
                    assert(n[i] == dirs[i]);
                }
            }
        }
        if !roots.contains(d.parts) && up is Some {
            lemma_linked(n, up->Some_0, roots);
        }
    }
}

pub proof fn lemma_dirs(files: Seq<PathV>, roots: Set<PathId>)
    ensures
        ids_unique(dirs_of(files, roots)),
        closed_but(dirs_of(files, roots), roots, None),
        forall|i: int|
            0 <= i < files.len() ==> match parent_of((#[trigger] files[i]).parts) {
                Some(p) => has_dir(dirs_of(files, roots), p),
                None => true,
            },
    decreases files.len(),
{
    if files.len() > 0 {
        let s = files.drop_last();
        lemma_dirs(s, roots);
        let before = dirs_of(s, roots);
        let up = parent_path(files.last());
        if up is Some {
            assert(closed_but(before, roots, Some(up->Some_0.parts)));
            lemma_linked(before, up->Some_0, roots);
        }
        assert forall|i: int| 0 <= i < files.len() implies match parent_of((#[trigger] files[i]).parts) {
            Some(p) => has_dir(dirs_of(files, roots), p),
            None => true,
        } by {
            if i < s.len() {
                assert(s[i] == files[i]);
            }
        }
    }
}

/// Directories with the position of each.
struct DirList {
    dirs: Vec<FilePath>,
    index: PathMap<usize>,
}

impl DirList {
    spec fn wf(&self) -> bool {
        &&& ids_unique(self.dirs.deep_view())
        &&& forall|p: PathId| #[trigger]
            self.index@.contains_key(p) <==> has_dir(self.dirs.deep_view(), p)
        &&& forall|p: PathId| #[trigger]
            self.index@.contains_key(p) ==> self.index@[p] < self.dirs@.len()
                && self.dirs.deep_view()[self.index@[p] as int].parts == p
    }

    fn append(&mut self, d: FilePath)
        requires
            old(self).wf(),
            !has_dir(old(self).dirs.deep_view(), d@.parts),
        ensures
            final(self).wf(),
            final(self).dirs.deep_view() == old(self).dirs.deep_view().push(d@),
    {
        let at: usize = self.dirs.len();
        let ghost before = self.dirs.deep_view();
        let ghost dv = d@;
        self.index.insert(&d, at);
        self.dirs.push(d);
        assert(self.dirs.deep_view() =~= before.push(dv));
        proof {
            lemma_has_dir_push(before, dv);
            let n = self.dirs.deep_view();
            assert forall|i: int, j: int| 0 <= i < j < n.len() implies (#[trigger] n[i]).parts != (#[trigger] n[j]).parts by {
                if j == before.len() {
                    assert(before[i].parts != dv.parts);
                }
            }
            assert forall|p: PathId| #[trigger] self.index@.contains_key(p) implies self.index@[p] < self.dirs@.len()
                && self.dirs.deep_view()[self.index@[p] as int].parts == p by {
                if p != dv.parts {
                    assert(old(self).index@.contains_key(p));
                }
            }
        }
    }

    fn link(&mut self, start: FilePath, roots: &PathSet)
        requires
            old(self).wf(),
        ensures
            final(self).wf(),
            final(self).dirs.deep_view() == linked(old(self).dirs.deep_view(), start@, roots@),
    {
        let mut current = start;
        let ghost goal = linked(self.dirs.deep_view(), start@, roots@);
        loop
            invariant_except_break
                self.wf(),
                goal == linked(self.dirs.deep_view(), current@, roots@),
            ensures
                self.wf(),
                self.dirs.deep_view() == goal,
            decreases current@.parts.len(),
        {
            if self.index.get(&current).is_some() {
                break;
            }
            let up = current.parent();
            let is_root = roots.contains(&current);
            self.append(current);
            if is_root {
                break;
            }
            match up {
                Some(p) => {
                    current = p;
                },
                None => {
                    break;
                },
            }
        }
    }
}

fn link_all(files: &Vec<FilePath>, roots: &PathSet) -> (r: DirList)
    ensures
        r.wf(),
        r.dirs.deep_view() == dirs_of(files.deep_view(), roots@),
{
    let mut r = DirList { dirs: Vec::new(), index: PathMap::new() };
    assert(r.dirs.deep_view() =~= Seq::<PathV>::empty());
    let ghost all = files.deep_view();
    let mut i: usize = 0;
    assert(all.take(0) =~= Seq::<PathV>::empty());
    while i < files.len()
        invariant
            i <= files@.len(),
            all == files.deep_view(),
            r.wf(),
            r.dirs.deep_view() == dirs_of(all.take(i as int), roots@),
        decreases files@.len() - i,
    {
        let ghost t = all.take(i + 1);
        assert(t.drop_last() =~= all.take(i as int));
        assert(t.last() == files@[i as int]@);
        match files[i].parent() {
            Some(p) => {
                r.link(p, roots);
            },
            None => {},
        }
        i = i + 1;
    }
    assert(all.take(i as int) =~= all);
    r
}

/// The files of each directory.
fn files_by_dir(files: &Vec<FilePath>, list: &DirList) -> (r: Vec<Vec<FilePath>>)
    requires
        list.wf(),
    ensures
        r@.len() == list.dirs@.len(),
        forall|j: int|
            0 <= j < r@.len() ==> (#[trigger] r@[j]).deep_view() == files.deep_view().filter(
                lies_in(list.dirs@[j]@.parts),
            ),
{
    let ghost all = files.deep_view();
    let ghost dv = list.dirs.deep_view();
    let mut r: Vec<Vec<FilePath>> = Vec::new();
    let mut k: usize = 0;
    while k < list.dirs.len()
        invariant
            k <= list.dirs@.len(),
            r@.len() == k,
            forall|j: int| 0 <= j < k ==> (#[trigger] r@[j])@.len() == 0,
        decreases list.dirs@.len() - k,
    {
        r.push(Vec::new());
        k = k + 1;
    }
    proof {
        reveal(Seq::filter);
        assert(all.take(0) =~= Seq::<PathV>::empty());
        assert forall|j: int| 0 <= j < r@.len() implies (#[trigger] r@[j]).deep_view() == all.take(0).filter(lies_in(dv[j].parts)) by {
            assert(r@[j].deep_view() =~= Seq::<PathV>::empty());
        }
    }
    let mut i: usize = 0;
    while i < files.len()
        invariant
            i <= files@.len(),
            all == files.deep_view(),
            dv == list.dirs.deep_view(),
            list.wf(),
            r@.len() == dv.len(),
            forall|j: int|
                0 <= j < r@.len() ==> (#[trigger] r@[j]).deep_view() == all.take(i as int).filter(lies_in(dv[j].parts)),
        decreases files@.len() - i,
    {
        let ghost t = all.take(i + 1);
        assert(t.drop_last() =~= all.take(i as int));
        assert(t.last() == files@[i as int]@);
        assert(all[i as int] == files@[i as int]@);
        let ghost before = r@;
        match files[i].parent() {
            Some(p) => {
                match list.index.get(&p) {
                    Some(at) => {
                        r[*at].push(files[i].clone());
                        proof {
                            assert(r@[*at as int].deep_view() =~= before[*at as int].deep_view().push(t.last()));
                            assert forall|j: int| 0 <= j < r@.len() implies (#[trigger] r@[j]).deep_view() == t.filter(
                                lies_in(dv[j].parts),
                            ) by {
                                reveal(Seq::filter);
                                if j != *at {
                                    assert(r@[j] == before[j]);
                                    if j < *at {
                                        assert(dv[j].parts != dv[*at as int].parts);
                                    } else {
                                        assert(dv[*at as int].parts != dv[j].parts);
                                    }
                                }
                                assert(before[j].deep_view() == all.take(i as int).filter(lies_in(dv[j].parts)));
                            }
                        }
                    },
                    None => {
                        proof {
                            assert forall|j: int| 0 <= j < r@.len() implies (#[trigger] r@[j]).deep_view() == t.filter(
                                lies_in(dv[j].parts),
                            ) by {
                                reveal(Seq::filter);
                                assert(has_dir(dv, dv[j].parts));
                            }
                        }
                    },
                }
            },
            None => {
                proof {
                    assert forall|j: int| 0 <= j < r@.len() implies (#[trigger] r@[j]).deep_view() == t.filter(
                        lies_in(dv[j].parts),
                    ) by {
                        reveal(Seq::filter);
                    }
                }
            },
        }
        i = i + 1;
    }
    assert(all.take(i as int) =~= all);
    r
}

/// The subdirectories of each directory.
fn subs_by_dir(list: &DirList, roots: &PathSet) -> (r: Vec<Vec<FilePath>>)
    requires
        list.wf(),
        closed_but(list.dirs.deep_view(), roots@, None),
    ensures
        r@.len() == list.dirs@.len(),
        forall|j: int|
            0 <= j < r@.len() ==> (#[trigger] r@[j]).deep_view() == list.dirs.deep_view().filter(
                sub_of(list.dirs@[j]@.parts, roots@),
            ),
{
    let ghost dv = list.dirs.deep_view();
    let mut r: Vec<Vec<FilePath>> = Vec::new();
    let mut k: usize = 0;
    while k < list.dirs.len()
        invariant
            k <= list.dirs@.len(),
            r@.len() == k,
            forall|j: int| 0 <= j < k ==> (#[trigger] r@[j])@.len() == 0,
        decreases list.dirs@.len() - k,
    {
        r.push(Vec::new());
        k = k + 1;
    }
    proof {
        reveal(Seq::filter);
        assert(dv.take(0) =~= Seq::<PathV>::empty());
        assert forall|j: int| 0 <= j < r@.len() implies (#[trigger] r@[j]).deep_view() == dv.take(0).filter(
            sub_of(dv[j].parts, roots@),
        ) by {
            assert(r@[j].deep_view() =~= Seq::<PathV>::empty());
        }
    }
    let mut i: usize = 0;
    while i < list.dirs.len()
        invariant
            i <= list.dirs@.len(),
            dv == list.dirs.deep_view(),
            list.wf(),
            closed_but(dv, roots@, None),
            r@.len() == dv.len(),
            forall|j: int|
                0 <= j < r@.len() ==> (#[trigger] r@[j]).deep_view() == dv.take(i as int).filter(
                    sub_of(dv[j].parts, roots@),
                ),
        decreases list.dirs@.len() - i,
    {
        let ghost t = dv.take(i + 1);
        assert(t.drop_last() =~= dv.take(i as int));
        assert(dv[i as int] == list.dirs@[i as int]@);
        let ghost before = r@;
        let mut placed = false;
        if !roots.contains(&list.dirs[i]) {
            match list.dirs[i].parent() {
                Some(p) => {
                    match list.index.get(&p) {
                        Some(at) => {
                            r[*at].push(list.dirs[i].clone());
                            placed = true;
                            proof {
                                assert(r@[*at as int].deep_view() =~= before[*at as int].deep_view().push(t.last()));
                                assert forall|j: int| 0 <= j < r@.len() implies (#[trigger] r@[j]).deep_view() == t.filter(
                                    sub_of(dv[j].parts, roots@),
                                ) by {
                                    reveal(Seq::filter);
                                    if j != *at {
                                        assert(r@[j] == before[j]);
                                        if j < *at {
                                            assert(dv[j].parts != dv[*at as int].parts);
                                        } else {
                                            assert(dv[*at as int].parts != dv[j].parts);
                                        }
                                    }
                                    assert(before[j].deep_view() == dv.take(i as int).filter(
                                        sub_of(dv[j].parts, roots@),
                                    ));
                                }
                            }
                        },
                        None => {
                            assert(false);
                        },
                    }
                },
                None => {},
            }
        }
        proof {
            if !placed {
                assert forall|j: int| 0 <= j < r@.len() implies (#[trigger] r@[j]).deep_view() == t.filter(
                    sub_of(dv[j].parts, roots@),
                ) by {
                    reveal(Seq::filter);
                }
            }
        }
        i = i + 1;
    }
    assert(dv.take(i as int) =~= dv);
    r
}

fn key_of_name(path: &FilePath) -> (r: Vec<u64>)
    ensures
        r@ == name_key(path@.parts),
{
    match path.file_name() {
        Some(name) => {
            let mut key: Vec<u64> = Vec::new();
            key.push(1);
            let mut bytes = crate::order::key_of_bytes(name.as_slice());
            key.append(&mut bytes);
            assert(key@ =~= name_key(path@.parts));
            key
        },
        None => Vec::new(),
    }
}

/// Sorts paths by name.
fn sort_by_name(paths: &Vec<FilePath>) -> (r: Vec<FilePath>)
    ensures
        r.deep_view() == by_name(paths.deep_view()),
        forall|i: int| 0 <= i < r@.len() ==> paths.deep_view().contains(#[trigger] r.deep_view()[i]),
{
    let mut keys: Vec<Vec<u64>> = Vec::new();
    let mut i: usize = 0;
    while i < paths.len()
        invariant
            i <= paths@.len(),
            keys@.len() == i,
            forall|j: int| 0 <= j < i ==> (#[trigger] keys@[j])@ == name_key(paths@[j]@.parts),
        decreases paths@.len() - i,
    {
        keys.push(key_of_name(&paths[i]));
        i = i + 1;
    }
    assert(rows(keys@) =~= paths.deep_view().map_values(|p: PathV| name_key(p.parts)));
    arrange_paths(paths, &keys)
}

fn arrange_paths(paths: &Vec<FilePath>, keys: &Vec<Vec<u64>>) -> (r: Vec<FilePath>)
    requires
        keys@.len() == paths@.len(),
    ensures
        r@.len() == paths@.len(),
        r.deep_view() == arranged(paths.deep_view(), stable_order_of(rows(keys@))),
        is_stable_order(rows(keys@), stable_order_of(rows(keys@))),
        forall|i: int| 0 <= i < r@.len() ==> paths.deep_view().contains(#[trigger] r.deep_view()[i]),
{
    let perm = stable_order(keys);
    let mut r: Vec<FilePath> = Vec::new();
    let mut k: usize = 0;
    while k < perm.len()
        invariant
            k <= perm@.len(),
            is_stable_order(rows(keys@), perm@),
            keys@.len() == paths@.len(),
            r@.len() == k,
            forall|j: int| 0 <= j < k ==> (#[trigger] r@[j])@ == paths@[perm@[j] as int]@,
        decreases perm@.len() - k,
    {
        r.push(paths[perm[k]].clone());
        k = k + 1;
    }
    assert(r.deep_view() =~= arranged(paths.deep_view(), perm@));
    proof {
        assert forall|i: int| 0 <= i < r@.len() implies paths.deep_view().contains(#[trigger] r.deep_view()[i]) by {
            assert(perm@[i] < keys@.len());
            assert(paths.deep_view()[perm@[i] as int] == r.deep_view()[i]);
        }
    }
    r
}

/// Sorts paths.
fn sort_paths(paths: &Vec<FilePath>) -> (r: Vec<FilePath>)
    ensures
        r@.len() == paths@.len(),
        r.deep_view() == in_order(paths.deep_view()),
        forall|i: int| 0 <= i < r@.len() ==> paths.deep_view().contains(#[trigger] r.deep_view()[i]),
{
    let mut keys: Vec<Vec<u64>> = Vec::new();
    let mut i: usize = 0;
    while i < paths.len()
        invariant
            i <= paths@.len(),
            keys@.len() == i,
            forall|j: int| 0 <= j < i ==> (#[trigger] keys@[j])@ == path_code(paths@[j]@.parts),
        decreases paths@.len() - i,
    {
        keys.push(paths[i].sort_key());
        i = i + 1;
    }
    assert(rows(keys@) =~= paths.deep_view().map_values(|p: PathV| path_code(p.parts)));
    arrange_paths(paths, &keys)
}

// --------------------------------------------------------------------- tallies

struct Tally {
    entries: Vec<String>,
    confirmed: bool,
    size: u64,
    count: usize,
}

impl View for Tally {
    type V = TallyV;

    closed spec fn view(&self) -> TallyV {
        TallyV {
            entries: self.entries.deep_view(),
            confirmed: self.confirmed,
            size: self.size,
            count: self.count,
        }
    }
}

/// What a directory amounts to.
#[derive(Debug)]
pub struct FolderInfo {
    pub signature: Option<String>,
    pub confirmed: bool,
    pub size: u64,
    pub count: usize,
}

impl View for FolderInfo {
    type V = FolderInfoV;

    open spec fn view(&self) -> FolderInfoV {
        FolderInfoV {
            signature: self.signature.deep_view(),
            confirmed: self.confirmed,
            size: self.size,
            count: self.count,
        }
    }
}

impl DeepView for FolderInfo {
    type V = FolderInfoV;

    open spec fn deep_view(&self) -> FolderInfoV {
        self@
    }
}

fn plus_count(a: usize, b: usize) -> (r: usize)
    ensures
        r == wrapped_count(a + b),
{
    if a > usize::MAX - b {
        assert((a + b) % (usize::MAX + 1) == a + b - usize::MAX - 1) by (nonlinear_arith)
            requires
                usize::MAX < a + b,
                a + b <= 2 * usize::MAX,
                usize::MAX > 0,
        ;
        a - (usize::MAX - b) - 1
    } else {
        assert((a + b) % (usize::MAX + 1) == a + b) by (nonlinear_arith)
            requires
                0 <= a + b <= usize::MAX,
        ;
        a + b
    }
}

fn entry_line(kind: char, name: &Vec<u8>, id: &str) -> (r: String)
    ensures
        r@ == entry_text(kind, name@, id@),
{
    let mut s = String::new();
    s.push(kind);
    s.append(hex_text(name).as_str());
    s.push(':');
    s.append(hex_text(&bytes_of(id)).as_str());
    s.push(';');
    assert(s@ =~= entry_text(kind, name@, id@));
    s
}

impl Tally {
    fn start() -> (r: Tally)
        ensures
            r@ == tally_start(),
    {
        let entries: Vec<String> = Vec::new();
        assert(entries.deep_view() =~= Seq::<Seq<char>>::empty());
        Tally { entries, confirmed: true, size: 0, count: 0 }
    }

    fn enter(&mut self, line: String, confirmed: bool, size: u64, count: usize)
        ensures
            final(self)@ == (TallyV {
                entries: old(self)@.entries.push(line@),
                confirmed: old(self)@.confirmed && confirmed,
                size: wrapped(old(self)@.size + size),
                count: wrapped_count(old(self)@.count + count),
            }),
    {
        self.entries.push(line);
        assert(self.entries.deep_view() =~= old(self).entries.deep_view().push(line@));
        self.confirmed = self.confirmed && confirmed;
        self.size = plus_wrapping(self.size, size);
        self.count = plus_count(self.count, count);
    }

    fn close(&self) -> (r: FolderInfo)
        ensures
            r@ == info_of(self@),
    {
        assert(self.entries.deep_view().len() == self.entries@.len());
        if self.entries.len() > 0 {
            let mut text = String::new();
            let ghost all = self@.entries;
            let mut i: usize = 0;
            assert(all.take(0) =~= Seq::<Seq<char>>::empty());
            assert(text@ =~= description(all.take(0)));
            while i < self.entries.len()
                invariant
                    i <= self.entries@.len(),
                    all == self@.entries,
                    text@ == description(all.take(i as int)),
                decreases self.entries@.len() - i,
            {
                let ghost t = all.take(i + 1);
                assert(t.drop_last() =~= all.take(i as int));
                assert(t.last() == self.entries@[i as int]@);
                text.append(self.entries[i].as_str());
                i = i + 1;
            }
            assert(all.take(i as int) =~= all);
            match digest_of(text.as_str().as_bytes()) {
                Some(sig) => {
                    return FolderInfo {
                        signature: Some(sig),
                        confirmed: self.confirmed,
                        size: self.size,
                        count: self.count,
                    };
                },
                None => {},
            }
        }
        FolderInfo { signature: None, confirmed: true, size: 0, count: 0 }
    }
}

proof fn lemma_group_positions(groups: Seq<GroupV>, p: PathId)
    requires
        groups.len() <= usize::MAX,
    ensures
        group_positions(groups).contains_key(p) ==> group_positions(groups)[p] < groups.len(),
    decreases groups.len(),
{
    if groups.len() > 0 {
        lemma_group_positions(groups.drop_last(), p);
        crate::tables::lemma_marked(
            group_positions(groups.drop_last()),
            groups.last().paths,
            (groups.len() - 1) as usize,
            p,
        );
    }
}

fn index_groups(groups: &Vec<DuplicateGroup>) -> (r: PathMap<usize>)
    ensures
        r@ == group_positions(groups.deep_view()),
{
    let mut r: PathMap<usize> = PathMap::new();
    let ghost all = groups.deep_view();
    let mut i: usize = 0;
    assert(all.take(0) =~= Seq::<GroupV>::empty());
    while i < groups.len()
        invariant
            i <= groups@.len(),
            all == groups.deep_view(),
            r@ == group_positions(all.take(i as int)),
        decreases groups@.len() - i,
    {
        let ghost t = all.take(i + 1);
        assert(t.drop_last() =~= all.take(i as int));
        assert(t.last() == groups@[i as int]@);
        mark_paths(&mut r, &groups[i].paths, i);
        i = i + 1;
    }
    assert(all.take(i as int) =~= all);
    r
}

pub proof fn lemma_files_cut(tree: TreeV, list: Seq<PathV>, k: int)
    requires
        0 <= k <= list.len(),
        tree.tally_files(list.take(k)) is None,
    ensures
        tree.tally_files(list) is None,
    decreases list.len() - k,
{
    if k < list.len() {
        assert(list.take(k + 1).drop_last() =~= list.take(k));
        lemma_files_cut(tree, list, k + 1);
    } else {
        assert(list.take(k) =~= list);
    }
}

fn tally_of_files(
    list: &Vec<FilePath>,
    groups: &Vec<DuplicateGroup>,
    at: &PathMap<usize>,
    skipped: &PathSet,
    Ghost(tree): Ghost<TreeV>,
) -> (r: Option<Tally>)
    requires
        tree.groups == groups.deep_view(),
        at@ == group_positions(tree.groups),
        tree.at == at@.remove_keys(skipped@),
    ensures
        match r {
            Some(t) => tree.tally_files(list.deep_view()) == Some(t@),
            None => tree.tally_files(list.deep_view()) is None,
        },
{
    let ghost all = list.deep_view();
    let mut t = Tally::start();
    let mut i: usize = 0;
    assert(all.take(0) =~= Seq::<PathV>::empty());
    while i < list.len()
        invariant
            i <= list@.len(),
            all == list.deep_view(),
            tree.groups == groups.deep_view(),
            at@ == group_positions(tree.groups),
            tree.at == at@.remove_keys(skipped@),
            tree.tally_files(all.take(i as int)) == Some(t@),
        decreases list@.len() - i,
    {
        let ghost upto = all.take(i + 1);
        assert(upto.drop_last() =~= all.take(i as int));
        assert(upto.last() == list@[i as int]@);
        let total: usize = groups.len();
        proof {
            assert(tree.groups.len() == total);
            lemma_group_positions(tree.groups, list@[i as int]@.parts);
        }
        if skipped.contains(&list[i]) {
            proof {
                lemma_files_cut(tree, all, i + 1);
            }
            return None;
        }
        match (at.get(&list[i]), list[i].file_name()) {
            (Some(k), Some(name)) => {
                let g = &groups[*k];
                assert(tree.groups[*k as int] == g@);
                let line = entry_line('F', &name, g.file_hash.as_str());
                t.enter(line, g.confirmed, g.size, 1);
            },
            _ => {
                proof {
                    lemma_files_cut(tree, all, i + 1);
                }
                return None;
            },
        }
        i = i + 1;
    }
    assert(all.take(i as int) =~= all);
    Some(t)
}

pub proof fn lemma_subs_cut(tree: TreeV, start: TallyV, list: Seq<PathV>, height: nat, k: int)
    requires
        0 <= k <= list.len(),
        tree.tally_subs(start, list.take(k), height) is None,
    ensures
        tree.tally_subs(start, list, height) is None,
    decreases list.len() - k,
{
    if k < list.len() {
        assert(list.take(k + 1).drop_last() =~= list.take(k));
        lemma_subs_cut(tree, start, list, height, k + 1);
    } else {
        assert(list.take(k) =~= list);
    }
}

pub proof fn lemma_deepest(dirs: Seq<PathV>)
    ensures
        forall|i: int| 0 <= i < dirs.len() ==> (#[trigger] dirs[i]).parts.len() <= deepest(dirs),
    decreases dirs.len(),
{
    if dirs.len() > 0 {
        lemma_deepest(dirs.drop_last());
        assert forall|i: int| 0 <= i < dirs.len() implies (#[trigger] dirs[i]).parts.len() <= deepest(dirs) by {
            if i < dirs.len() - 1 {
                assert(dirs.drop_last()[i] == dirs[i]);
            }
        }
    }
}

pub proof fn lemma_filter_member(s: Seq<PathV>, keep: spec_fn(PathV) -> bool, x: PathV)
    requires
        s.filter(keep).contains(x),
    ensures
        s.contains(x),
        keep(x),
    decreases s.len(),
{
    reveal(Seq::filter);
    if s.len() > 0 {
        let f = s.drop_last().filter(keep);
        let i = choose|i: int| 0 <= i < s.filter(keep).len() && s.filter(keep)[i] == x;
        if i < f.len() {
            assert(f[i] == x);
            lemma_filter_member(s.drop_last(), keep, x);
            let j = choose|j: int| 0 <= j < s.drop_last().len() && s.drop_last()[j] == x;
            assert(s[j] == x);
        } else {
            assert(x == s.last());
            assert(s[s.len() - 1] == x);
        }
    }
}

/// Whether the directories at these positions were gone through.
spec fn infos_known(tree: TreeV, infos: Seq<FolderInfo>, order: Seq<usize>, k: int) -> bool {
    forall|m: int|
        0 <= m < k ==> (#[trigger] infos[order[m] as int])@ == tree.info(tree.dirs[order[m] as int].parts)
}

spec fn depth_keys(dirs: Seq<PathV>) -> Seq<Seq<u64>> {
    dirs.map_values(|d: PathV| seq![(u64::MAX - d.parts.len()) as u64])
}

/// A directory that lies in another was gone through before it.
proof fn lemma_sub_known(tree: TreeV, infos: Seq<FolderInfo>, order: Seq<usize>, k: int, sub: usize)
    requires
        is_stable_order(depth_keys(tree.dirs), order),
        infos_known(tree, infos, order, k),
        0 <= k < order.len(),
        sub < tree.dirs.len(),
        tree.dirs[sub as int].parts.len() == tree.dirs[order[k] as int].parts.len() + 1,
        tree.dirs[sub as int].parts.len() <= u64::MAX,
    ensures
        infos[sub as int]@ == tree.info(tree.dirs[sub as int].parts),
{
    let keys = depth_keys(tree.dirs);
    crate::order::lemma_order_covers(keys, order, sub);
    let m = choose|m: int| 0 <= m < order.len() && order[m] == sub;
    let a = keys[order[k] as int];
    let b = keys[sub as int];
    assert(a[0] > b[0]);
    if m > k {
        assert(crate::order::precedes(keys, order[k] as int, order[m] as int));
        assert(a.skip(1) =~= Seq::<u64>::empty());
        assert(b.skip(1) =~= Seq::<u64>::empty());
        assert(false);
    }
    assert(m < k);
    assert(infos[order[m] as int]@ == tree.info(tree.dirs[order[m] as int].parts));
}

fn tally_of_subs(
    start: Tally,
    subs: &Vec<FilePath>,
    list: &DirList,
    infos: &Vec<FolderInfo>,
    Ghost(tree): Ghost<TreeV>,
    Ghost(height): Ghost<nat>,
) -> (r: Option<Tally>)
    requires
        list.wf(),
        tree.dirs == list.dirs.deep_view(),
        infos@.len() == list.dirs@.len(),
        subs@.len() > 0 ==> height > 0,
        forall|i: int| 0 <= i < subs@.len() ==> has_dir(tree.dirs, (#[trigger] subs.deep_view()[i]).parts),
        forall|i: int, j: int|
            #![trigger subs.deep_view()[i], infos@[j]]
            0 <= i < subs@.len() && 0 <= j < infos@.len() && tree.dirs[j].parts == subs.deep_view()[i].parts
                ==> infos@[j]@ == tree.info_at(tree.dirs[j].parts, (height - 1) as nat),
    ensures
        match r {
            Some(t) => tree.tally_subs(start@, subs.deep_view(), height) == Some(t@),
            None => tree.tally_subs(start@, subs.deep_view(), height) is None,
        },
{
    let ghost all = subs.deep_view();
    let mut t = start;
    let mut i: usize = 0;
    assert(all.take(0) =~= Seq::<PathV>::empty());
    while i < subs.len()
        invariant
            i <= subs@.len(),
            all == subs.deep_view(),
            list.wf(),
            tree.dirs == list.dirs.deep_view(),
            infos@.len() == list.dirs@.len(),
            subs@.len() > 0 ==> height > 0,
            forall|x: int| 0 <= x < all.len() ==> has_dir(tree.dirs, (#[trigger] all[x]).parts),
            forall|x: int, j: int|
                #![trigger all[x], infos@[j]]
                0 <= x < all.len() && 0 <= j < infos@.len() && tree.dirs[j].parts == all[x].parts
                    ==> infos@[j]@ == tree.info_at(tree.dirs[j].parts, (height - 1) as nat),
            tree.tally_subs(start@, all.take(i as int), height) == Some(t@),
        decreases subs@.len() - i,
    {
        let ghost upto = all.take(i + 1);
        assert(upto.drop_last() =~= all.take(i as int));
        assert(upto.last() == subs@[i as int]@);
        assert(all[i as int] == subs@[i as int]@);
        assert(has_dir(tree.dirs, all[i as int].parts));
        match list.index.get(&subs[i]) {
            Some(at) => {
                let info = &infos[*at];
                assert(info@ == tree.info_at(all[i as int].parts, (height - 1) as nat));
                match (&info.signature, subs[i].file_name()) {
                    (Some(sig), Some(name)) => {
                        let line = entry_line('D', &name, sig.as_str());
                        t.enter(line, info.confirmed, info.size, info.count);
                    },
                    _ => {
                        proof {
                            lemma_subs_cut(tree, start@, all, height, i + 1);
                        }
                        return None;
                    },
                }
            },
            None => {
                assert(false);
                return None;
            },
        }
        i = i + 1;
    }
    assert(all.take(i as int) =~= all);
    Some(t)
}

fn order_by_depth(dirs: &Vec<FilePath>) -> (r: Vec<usize>)
    ensures
        is_stable_order(depth_keys(dirs.deep_view()), r@),
{
    let mut keys: Vec<Vec<u64>> = Vec::new();
    let mut i: usize = 0;
    while i < dirs.len()
        invariant
            i <= dirs@.len(),
            keys@.len() == i,
            forall|j: int| 0 <= j < i ==> (#[trigger] keys@[j])@ == seq![(u64::MAX - dirs@[j]@.parts.len()) as u64],
        decreases dirs@.len() - i,
    {
        let depth: usize = dirs[i].depth();
        let mut key: Vec<u64> = Vec::new();
        key.push(u64::MAX - depth as u64);
        assert(key@ =~= seq![(u64::MAX - dirs@[i as int]@.parts.len()) as u64]);
        keys.push(key);
        i = i + 1;
    }
    assert(rows(keys@) =~= depth_keys(dirs.deep_view()));
    stable_order(&keys)
}

/// What each directory amounts to.
fn infos_of(
    files: &Vec<FilePath>,
    skipped: &PathSet,
    unread: &PathSet,
    groups: &Vec<DuplicateGroup>,
    roots: &PathSet,
    list: &DirList,
    Ghost(tree): Ghost<TreeV>,
) -> (r: Vec<FolderInfo>)
    requires
        list.wf(),
        tree == (TreeV {
            files: files.deep_view(),
            dirs: dirs_of(files.deep_view(), roots@),
            roots: roots@,
            groups: groups.deep_view(),
            at: group_positions(groups.deep_view()).remove_keys(skipped@),
            unread: unread@,
        }),
        list.dirs.deep_view() == tree.dirs,
    ensures
        r@.len() == list.dirs@.len(),
        forall|j: int| 0 <= j < r@.len() ==> (#[trigger] r@[j])@ == tree.info(tree.dirs[j].parts),
{
    proof {
        lemma_dirs(files.deep_view(), roots@);
        lemma_deepest(tree.dirs);
    }
    let at = index_groups(groups);
    let dir_files = files_by_dir(files, list);
    let dir_subs = subs_by_dir(list, roots);
    let order = order_by_depth(&list.dirs);
    let mut infos: Vec<FolderInfo> = Vec::new();
    let mut n: usize = 0;
    while n < list.dirs.len()
        invariant
            n <= list.dirs@.len(),
            infos@.len() == n,
        decreases list.dirs@.len() - n,
    {
        infos.push(FolderInfo { signature: None, confirmed: true, size: 0, count: 0 });
        n = n + 1;
    }
    let mut k: usize = 0;
    while k < order.len()
        invariant
            k <= order@.len(),
            list.wf(),
            tree.groups == groups.deep_view(),
            list.dirs.deep_view() == tree.dirs,
            at@ == group_positions(tree.groups),
            tree.at == at@.remove_keys(skipped@),
            tree.unread == unread@,
            is_stable_order(depth_keys(tree.dirs), order@),
            infos@.len() == list.dirs@.len(),
            dir_files@.len() == list.dirs@.len(),
            dir_subs@.len() == list.dirs@.len(),
            forall|j: int|
                0 <= j < dir_files@.len() ==> (#[trigger] dir_files@[j]).deep_view() == tree.files_in(tree.dirs[j].parts),
            forall|j: int|
                0 <= j < dir_subs@.len() ==> (#[trigger] dir_subs@[j]).deep_view() == tree.subs_in(tree.dirs[j].parts),
            forall|i: int| 0 <= i < tree.dirs.len() ==> (#[trigger] tree.dirs[i]).parts.len() <= deepest(tree.dirs),
            infos_known(tree, infos@, order@, k as int),
        decreases order@.len() - k,
    {
        let d: usize = order[k];
        let ghost dp = tree.dirs[d as int].parts;
        let ghost height = (deepest(tree.dirs) - dp.len()) as nat;
        let sorted_files = sort_by_name(&dir_files[d]);
        assert(dir_files@[d as int].deep_view() == tree.files_in(dp));
        let subs = sort_by_name(&dir_subs[d]);
        assert(dir_subs@[d as int].deep_view() == tree.subs_in(dp));
        proof {
            let sv = subs.deep_view();
            assert forall|i: int| 0 <= i < sv.len() implies has_dir(tree.dirs, (#[trigger] sv[i]).parts)
                && sv[i].parts.len() == dp.len() + 1 by {
                lemma_filter_member(tree.dirs, sub_of(dp, tree.roots), sv[i]);
                let j = choose|j: int| 0 <= j < tree.dirs.len() && tree.dirs[j] == sv[i];
                assert(tree.dirs[j].parts == sv[i].parts);
                assert(parent_of(sv[i].parts) == Some(dp));
            }
            assert forall|i: int, j: int|
                #![trigger sv[i], infos@[j]]
                0 <= i < sv.len() && 0 <= j < infos@.len() && tree.dirs[j].parts == sv[i].parts implies infos@[j]@
                == tree.info_at(tree.dirs[j].parts, (height - 1) as nat) by {
                assert(list.dirs@[j]@ == tree.dirs[j]);
                let depth: usize = list.dirs@[j].parts.len();
                assert(tree.dirs[j].parts.len() == depth);
                lemma_sub_known(tree, infos@, order@, k as int, j as usize);
            }
            if sv.len() > 0 {
                let i = 0int;
                assert(has_dir(tree.dirs, sv[i].parts));
                let j = choose|j: int| 0 <= j < tree.dirs.len() && (#[trigger] tree.dirs[j]).parts == sv[i].parts;
                assert(tree.dirs[j].parts.len() <= deepest(tree.dirs));
            }
        }
        let info = if unread.contains(&list.dirs[d]) {
            FolderInfo { signature: None, confirmed: true, size: 0, count: 0 }
        } else {
            match tally_of_files(&sorted_files, groups, &at, skipped, Ghost(tree)) {
                Some(t) => {
                    match tally_of_subs(t, &subs, list, &infos, Ghost(tree), Ghost(height)) {
                        Some(t2) => t2.close(),
                        None => FolderInfo { signature: None, confirmed: true, size: 0, count: 0 },
                    }
                },
                None => FolderInfo { signature: None, confirmed: true, size: 0, count: 0 },
            }
        };
        assert(info@ == tree.info(dp));
        let ghost before = infos@;
        infos[d] = info;
        proof {
            assert forall|m: int| 0 <= m < k + 1 implies (#[trigger] infos@[order@[m] as int])@ == tree.info(
                tree.dirs[order@[m] as int].parts,
            ) by {
                if order@[m] != d {
                    assert(m < k);
                    assert(infos@[order@[m] as int] == before[order@[m] as int]);
                }
            }
        }
        k = k + 1;
    }
    proof {
        assert forall|j: int| 0 <= j < infos@.len() implies (#[trigger] infos@[j])@ == tree.info(tree.dirs[j].parts) by {
            crate::order::lemma_order_covers(depth_keys(tree.dirs), order@, j as usize);
            let m = choose|m: int| 0 <= m < order@.len() && order@[m] == j as usize;
            assert(infos@[order@[m] as int]@ == tree.info(tree.dirs[order@[m] as int].parts));
        }
    }
    infos
}

// --------------------------------------------------------------------- report

/// The roots that lie in no other.
fn outermost_roots(roots: &Vec<FilePath>) -> (r: PathSet)
    ensures
        r@ == top_roots(ids_of(roots.deep_view())),
{
    let ghost all = roots.deep_view();
    let ghost ids = ids_of(all);
    let mut r = PathSet::new();
    let mut i: usize = 0;
    while i < roots.len()
        invariant
            i <= roots@.len(),
            all == roots.deep_view(),
            ids == ids_of(all),
            forall|x: PathId| #[trigger]
                r@.contains(x) <==> top_roots(ids).contains(x) && ids_of(all.take(i as int)).contains(x),
        decreases roots@.len() - i,
    {
        let ghost x = all[i as int].parts;
        assert(all[i as int] == roots@[i as int]@);
        let mut inside = false;
        let mut j: usize = 0;
        while j < roots.len()
            invariant
                j <= roots@.len(),
                i < roots@.len(),
                all == roots.deep_view(),
                x == roots@[i as int]@.parts,
                inside == exists|k: int| 0 <= k < j && is_under(x, (#[trigger] all[k]).parts) && all[k].parts != x,
            decreases roots@.len() - j,
        {
            assert(all[j as int] == roots@[j as int]@);
            if roots[i].starts_with(&roots[j]) && !roots[i].same(&roots[j]) {
                assert(is_under(x, all[j as int].parts) && all[j as int].parts != x);
                inside = true;
            }
            j = j + 1;
        }
        proof {
            lemma_ids_has(all, x);
            assert(all[i as int].parts == x);
            assert(top_roots(ids).contains(x) == !inside) by {
                if inside {
                    let k = choose|k: int| 0 <= k < all.len() && is_under(x, (#[trigger] all[k]).parts) && all[k].parts != x;
                    lemma_ids_has(all, all[k].parts);
                    assert(ids.contains(all[k].parts));
                } else {
                    assert forall|q: PathId| #[trigger] ids.contains(q) && is_under(x, q) implies q == x by {
                        lemma_ids_has(all, q);
                        let k = choose|k: int| 0 <= k < all.len() && (#[trigger] all[k]).parts == q;
                    }
                }
            }
            lemma_ids_push(all.take(i as int), all[i as int]);
            assert(all.take(i + 1) =~= all.take(i as int).push(all[i as int]));
        }
        if !inside {
            r.insert(&roots[i]);
        }
        i = i + 1;
    }
    assert(all.take(i as int) =~= all);
    assert(r@ =~= top_roots(ids));
    r
}

fn class_table(list: &DirList, infos: &Vec<FolderInfo>, Ghost(signed): Ghost<SignedV>) -> (r: Table)
    requires
        list.dirs.deep_view() == signed.dirs,
        infos@.len() == list.dirs@.len(),
        forall|j: int| 0 <= j < infos@.len() ==> (#[trigger] infos@[j])@ == (signed.info)(signed.dirs[j].parts),
    ensures
        r.wf(),
        r@ == signed.classes(signed.dirs),
{
    let mut r = Table::new();
    let mut i: usize = 0;
    assert(signed.dirs.take(0) =~= Seq::<PathV>::empty());
    while i < list.dirs.len()
        invariant
            i <= list.dirs@.len(),
            list.dirs.deep_view() == signed.dirs,
            infos@.len() == list.dirs@.len(),
            forall|j: int| 0 <= j < infos@.len() ==> (#[trigger] infos@[j])@ == (signed.info)(signed.dirs[j].parts),
            r.wf(),
            r@ == signed.classes(signed.dirs.take(i as int)),
        decreases list.dirs@.len() - i,
    {
        let ghost t = signed.dirs.take(i + 1);
        assert(t.drop_last() =~= signed.dirs.take(i as int));
        assert(t.last() == list.dirs@[i as int]@);
        assert(infos@[i as int]@ == (signed.info)(t.last().parts));
        match &infos[i].signature {
            Some(sig) => {
                r.add(sig.clone(), 0, list.dirs[i].clone());
            },
            None => {},
        }
        i = i + 1;
    }
    assert(signed.dirs.take(i as int) =~= signed.dirs);
    r
}

fn repeated_classes(classes: &Table) -> (r: Vec<Vec<FilePath>>)
    ensures
        r.deep_view() == repeated(classes@),
{
    let mut r: Vec<Vec<FilePath>> = Vec::new();
    let mut i: usize = 0;
    assert(classes@.take(0) =~= Seq::<BucketV>::empty());
    assert(r.deep_view() =~= Seq::<Seq<PathV>>::empty());
    while i < classes.len()
        invariant
            i <= classes@.len(),
            r.deep_view() == repeated(classes@.take(i as int)),
        decreases classes@.len() - i,
    {
        let ghost t = classes@.take(i + 1);
        assert(t.drop_last() =~= classes@.take(i as int));
        let b = classes.bucket(i);
        assert(t.last() == b@);
        if b.paths.len() >= 2 {
            let ghost before = r.deep_view();
            r.push(copy_paths(&b.paths));
            assert(r.deep_view() =~= before.push(b@.paths));
        }
        i = i + 1;
    }
    assert(classes@.take(i as int) =~= classes@);
    r
}

fn shallowest(paths: &Vec<FilePath>) -> (r: usize)
    ensures
        r == least_depth(paths.deep_view()),
{
    let ghost all = paths.deep_view();
    if paths.len() == 0 {
        return 0;
    }
    let mut r: usize = paths[0].depth();
    let mut i: usize = 1;
    assert(all.take(1)[0] == paths@[0]@);
    while i < paths.len()
        invariant
            1 <= i <= paths@.len(),
            all == paths.deep_view(),
            r == least_depth(all.take(i as int)),
        decreases paths@.len() - i,
    {
        let ghost t = all.take(i + 1);
        assert(t.drop_last() =~= all.take(i as int));
        assert(t.last() == paths@[i as int]@);
        let d: usize = paths[i].depth();
        if d < r {
            r = d;
        }
        i = i + 1;
    }
    assert(all.take(i as int) =~= all);
    r
}

fn order_classes(classes: &Vec<Vec<FilePath>>) -> (r: Vec<Vec<FilePath>>)
    ensures
        r.deep_view() == outermost_first(classes.deep_view()),
        forall|i: int| 0 <= i < r@.len() ==> classes.deep_view().contains(#[trigger] r.deep_view()[i]),
{
    let ghost all = classes.deep_view();
    let mut keys: Vec<Vec<u64>> = Vec::new();
    let mut i: usize = 0;
    while i < classes.len()
        invariant
            i <= classes@.len(),
            keys@.len() == i,
            forall|j: int| 0 <= j < i ==> (#[trigger] keys@[j])@ == seq![least_depth(classes@[j].deep_view()) as u64],
        decreases classes@.len() - i,
    {
        let depth: usize = shallowest(&classes[i]);
        let mut key: Vec<u64> = Vec::new();
        key.push(depth as u64);
        assert(key@ =~= seq![least_depth(classes@[i as int].deep_view()) as u64]);
        keys.push(key);
        i = i + 1;
    }
    assert(rows(keys@) =~= all.map_values(|c: Seq<PathV>| seq![least_depth(c) as u64]));
    let perm = stable_order(&keys);
    let mut r: Vec<Vec<FilePath>> = Vec::new();
    let mut k: usize = 0;
    while k < perm.len()
        invariant
            k <= perm@.len(),
            is_stable_order(rows(keys@), perm@),
            keys@.len() == classes@.len(),
            r@.len() == k,
            forall|j: int| 0 <= j < k ==> (#[trigger] r@[j]).deep_view() == classes@[perm@[j] as int].deep_view(),
        decreases perm@.len() - k,
    {
        r.push(copy_paths(&classes[perm[k]]));
        k = k + 1;
    }
    assert(r.deep_view() =~= arranged(all, perm@));
    proof {
        assert forall|x: int| 0 <= x < r@.len() implies all.contains(#[trigger] r.deep_view()[x]) by {
            assert(perm@[x] < keys@.len());
            assert(all[perm@[x] as int] == r.deep_view()[x]);
        }
    }
    r
}

fn is_covered(d: &FilePath, reported: &PathSet, roots: &PathSet, Ghost(signed): Ghost<SignedV>) -> (r: bool)
    requires
        signed.roots == roots@,
    ensures
        r == signed.covered(reported@, d@.parts),
{
    let mut current = d.clone();
    loop
        invariant
            signed.roots == roots@,
            signed.covered(reported@, d@.parts) == signed.covered(reported@, current@.parts),
        decreases current@.parts.len(),
    {
        if reported.contains(&current) {
            return true;
        }
        if roots.contains(&current) {
            return false;
        }
        match current.parent() {
            Some(p) => {
                current = p;
            },
            None => {
                return false;
            },
        }
    }
}

pub proof fn lemma_classes_known(signed: SignedV, dirs: Seq<PathV>)
    ensures
        forall|b: int, i: int|
            #![trigger signed.classes(dirs)[b].paths[i]]
            0 <= b < signed.classes(dirs).len() && 0 <= i < signed.classes(dirs)[b].paths.len() ==> dirs.contains(
                signed.classes(dirs)[b].paths[i],
            ),
    decreases dirs.len(),
{
    if dirs.len() > 0 {
        let s = dirs.drop_last();
        lemma_classes_known(signed, s);
        let before = signed.classes(s);
        let t = signed.classes(dirs);
        assert forall|b: int, i: int|
            #![trigger t[b].paths[i]]
            0 <= b < t.len() && 0 <= i < t[b].paths.len() implies dirs.contains(t[b].paths[i]) by {
            let x = t[b].paths[i];
            if x == dirs.last() {
                assert(dirs[dirs.len() - 1] == x);
            } else {
                crate::tables::lemma_pos(before, (signed.info)(dirs.last().parts).signature.unwrap());
                assert(b < before.len());
                assert(before[b].paths[i] == x);
                assert(s.contains(x));
                let j = choose|j: int| 0 <= j < s.len() && s[j] == x;
                assert(dirs[j] == x);
            }
        }
    }
}

pub proof fn lemma_repeated(classes: TableV)
    ensures
        forall|c: int|
            0 <= c < repeated(classes).len() ==> (#[trigger] repeated(classes)[c]).len() >= 2 && exists|b: int|
                0 <= b < classes.len() && (#[trigger] classes[b]).paths == repeated(classes)[c],
    decreases classes.len(),
{
    if classes.len() > 0 {
        let s = classes.drop_last();
        lemma_repeated(s);
        let r = repeated(classes);
        assert forall|c: int| 0 <= c < r.len() implies (#[trigger] r[c]).len() >= 2 && exists|b: int|
            0 <= b < classes.len() && (#[trigger] classes[b]).paths == r[c] by {
            if c < repeated(s).len() {
                assert(r[c] == repeated(s)[c]);
                let b = choose|b: int| 0 <= b < s.len() && (#[trigger] s[b]).paths == repeated(s)[c];
                assert(classes[b].paths == r[c]);
            } else {
                assert(classes[classes.len() - 1].paths == r[c]);
            }
        }
    }
}

fn is_implied(d: &FilePath, further: &PathSet, roots: &PathSet, Ghost(signed): Ghost<SignedV>) -> (r: bool)
    requires
        signed.roots == roots@,
    ensures
        r == signed.lies_below(further@, d@.parts),
{
    if roots.contains(d) {
        return false;
    }
    match d.parent() {
        Some(p) => is_covered(&p, further, roots, Ghost(signed)),
        None => false,
    }
}

fn drop_implied(paths: &Vec<FilePath>, further: &PathSet, roots: &PathSet, Ghost(signed): Ghost<SignedV>) -> (r: Vec<
    FilePath,
>)
    requires
        signed.roots == roots@,
    ensures
        r.deep_view() == signed.not_implied(further@, paths.deep_view()),
        forall|i: int| 0 <= i < r@.len() ==> paths.deep_view().contains(#[trigger] r.deep_view()[i]),
{
    let ghost all = paths.deep_view();
    let mut r: Vec<FilePath> = Vec::new();
    let mut i: usize = 0;
    assert(all.take(0) =~= Seq::<PathV>::empty());
    assert(r.deep_view() =~= Seq::<PathV>::empty());
    while i < paths.len()
        invariant
            i <= paths@.len(),
            all == paths.deep_view(),
            signed.roots == roots@,
            r.deep_view() == signed.not_implied(further@, all.take(i as int)),
            forall|j: int| 0 <= j < r@.len() ==> all.contains(#[trigger] r.deep_view()[j]),
        decreases paths@.len() - i,
    {
        let ghost t = all.take(i + 1);
        assert(t.drop_last() =~= all.take(i as int));
        assert(t.last() == paths@[i as int]@);
        assert(all[i as int] == t.last());
        if !is_implied(&paths[i], further, roots, Ghost(signed)) {
            let ghost before = r.deep_view();
            r.push(paths[i].clone());
            assert(r.deep_view() =~= before.push(t.last()));
        }
        i = i + 1;
    }
    assert(all.take(i as int) =~= all);
    r
}

fn collect_further(classes: &Vec<Vec<FilePath>>) -> (r: PathSet)
    ensures
        r@ == further_copies(classes.deep_view()),
{
    let ghost all = classes.deep_view();
    let mut r = PathSet::new();
    let mut k: usize = 0;
    assert(all.take(0) =~= Seq::<Seq<PathV>>::empty());
    while k < classes.len()
        invariant
            k <= classes@.len(),
            all == classes.deep_view(),
            r@ == further_copies(all.take(k as int)),
        decreases classes@.len() - k,
    {
        let ghost t = all.take(k + 1);
        assert(t.drop_last() =~= all.take(k as int));
        assert(t.last() == classes@[k as int].deep_view());
        let sorted = sort_paths(&classes[k]);
        let ghost rest = after_first(sorted.deep_view());
        let ghost seen = r@;
        if sorted.len() == 0 {
            assert(rest =~= Seq::<PathV>::empty());
            assert(ids_of(rest) =~= Set::<PathId>::empty());
            assert(r@ =~= further_copies(t));
        } else {
            let mut i: usize = 1;
            assert(ids_of(rest.take(0)) =~= Set::<PathId>::empty());
            assert(r@ =~= seen.union(ids_of(rest.take(0))));
            while i < sorted.len()
                invariant
                    1 <= i <= sorted@.len(),
                    rest == sorted.deep_view().skip(1),
                    r@ == seen.union(ids_of(rest.take(i - 1))),
                decreases sorted@.len() - i,
            {
                r.insert(&sorted[i]);
                proof {
                    lemma_ids_push(rest.take(i - 1), rest[i - 1]);
                    assert(rest.take(i as int) =~= rest.take(i - 1).push(rest[i - 1]));
                    assert(rest[i - 1] == sorted@[i as int]@);
                    assert(r@ =~= seen.union(ids_of(rest.take(i as int))));
                }
                i = i + 1;
            }
            assert(rest.take(i - 1) =~= rest);
        }
        k = k + 1;
    }
    assert(all.take(k as int) =~= all);
    r
}

/// What is left of each class.
fn drop_implied_of(
    classes: &Vec<Vec<FilePath>>,
    further: &PathSet,
    roots: &PathSet,
    Ghost(signed): Ghost<SignedV>,
) -> (r: Vec<Vec<FilePath>>)
    requires
        signed.roots == roots@,
        forall|c: int, i: int|
            #![trigger classes.deep_view()[c][i]]
            0 <= c < classes@.len() && 0 <= i < classes.deep_view()[c].len() ==> has_dir(
                signed.dirs,
                classes.deep_view()[c][i].parts,
            ),
    ensures
        r@.len() == classes@.len(),
        forall|c: int|
            0 <= c < r@.len() ==> (#[trigger] r@[c]).deep_view() == signed.not_implied(
                further@,
                in_order(classes.deep_view()[c]),
            ),
        forall|c: int, i: int|
            #![trigger r@[c].deep_view()[i]]
            0 <= c < r@.len() && 0 <= i < r@[c]@.len() ==> has_dir(signed.dirs, r@[c].deep_view()[i].parts),
{
    let ghost all = classes.deep_view();
    let mut r: Vec<Vec<FilePath>> = Vec::new();
    let mut k: usize = 0;
    while k < classes.len()
        invariant
            k <= classes@.len(),
            all == classes.deep_view(),
            signed.roots == roots@,
            forall|c: int, i: int|
                #![trigger all[c][i]]
                0 <= c < all.len() && 0 <= i < all[c].len() ==> has_dir(signed.dirs, all[c][i].parts),
            r@.len() == k,
            forall|c: int| 0 <= c < k ==> (#[trigger] r@[c]).deep_view() == signed.not_implied(further@, in_order(all[c])),
            forall|c: int, i: int|
                #![trigger r@[c].deep_view()[i]]
                0 <= c < k && 0 <= i < r@[c]@.len() ==> has_dir(signed.dirs, r@[c].deep_view()[i].parts),
        decreases classes@.len() - k,
    {
        let class = &classes[k];
        assert(all[k as int] == class.deep_view());
        let sorted = sort_paths(class);
        let paths = drop_implied(&sorted, further, roots, Ghost(signed));
        proof {
            let pv = paths.deep_view();
            assert forall|i: int| 0 <= i < paths@.len() implies has_dir(signed.dirs, (#[trigger] pv[i]).parts) by {
                assert(sorted.deep_view().contains(pv[i]));
                let j = choose|j: int| 0 <= j < sorted.deep_view().len() && sorted.deep_view()[j] == pv[i];
                assert(class.deep_view().contains(sorted.deep_view()[j]));
                let m = choose|m: int| 0 <= m < class.deep_view().len() && class.deep_view()[m] == pv[i];
                assert(all[k as int][m] == pv[i]);
            }
        }
        r.push(paths);
        k = k + 1;
    }
    r
}

fn collect_matched(
    kept: &Vec<Vec<FilePath>>,
    Ghost(signed): Ghost<SignedV>,
    Ghost(further): Ghost<Set<PathId>>,
    Ghost(all): Ghost<Seq<Seq<PathV>>>,
) -> (r: PathSet)
    requires
        kept@.len() == all.len(),
        forall|c: int| 0 <= c < all.len() ==> (#[trigger] kept@[c]).deep_view() == signed.not_implied(further, in_order(all[c])),
    ensures
        r@ == signed.matched_dirs(further, all),
{
    let mut r = PathSet::new();
    let mut k: usize = 0;
    assert(all.take(0) =~= Seq::<Seq<PathV>>::empty());
    while k < kept.len()
        invariant
            k <= kept@.len(),
            kept@.len() == all.len(),
            forall|c: int|
                0 <= c < all.len() ==> (#[trigger] kept@[c]).deep_view() == signed.not_implied(further, in_order(all[c])),
            r@ == signed.matched_dirs(further, all.take(k as int)),
        decreases kept@.len() - k,
    {
        let ghost t = all.take(k + 1);
        assert(t.drop_last() =~= all.take(k as int));
        assert(t.last() == all[k as int]);
        let paths = &kept[k];
        let ghost pv = paths.deep_view();
        assert(pv == signed.not_implied(further, in_order(all[k as int])));
        assert(pv.len() == paths@.len());
        if paths.len() >= 2 {
            let ghost seen = r@;
            let mut i: usize = 0;
            assert(ids_of(pv.take(0)) =~= Set::<PathId>::empty());
            assert(r@ =~= seen.union(ids_of(pv.take(0))));
            while i < paths.len()
                invariant
                    i <= paths@.len(),
                    pv == paths.deep_view(),
                    r@ == seen.union(ids_of(pv.take(i as int))),
                decreases paths@.len() - i,
            {
                r.insert(&paths[i]);
                proof {
                    lemma_ids_push(pv.take(i as int), pv[i as int]);
                    assert(pv.take(i + 1) =~= pv.take(i as int).push(pv[i as int]));
                    assert(pv[i as int] == paths@[i as int]@);
                    assert(r@ =~= seen.union(ids_of(pv.take(i + 1))));
                }
                i = i + 1;
            }
            assert(pv.take(i as int) =~= pv);
        }
        k = k + 1;
    }
    assert(all.take(k as int) =~= all);
    r
}

fn any_stands_out(paths: &Vec<FilePath>, matched: &PathSet, roots: &PathSet, Ghost(signed): Ghost<SignedV>) -> (r: bool)
    requires
        signed.roots == roots@,
    ensures
        r == signed.stands_out(matched@, paths.deep_view()),
{
    let ghost all = paths.deep_view();
    let mut i: usize = 0;
    while i < paths.len()
        invariant
            i <= paths@.len(),
            all == paths.deep_view(),
            signed.roots == roots@,
            forall|j: int| 0 <= j < i ==> signed.lies_below(matched@, (#[trigger] all[j]).parts),
        decreases paths@.len() - i,
    {
        assert(all[i as int] == paths@[i as int]@);
        if !is_implied(&paths[i], matched, roots, Ghost(signed)) {
            assert(!signed.lies_below(matched@, all[i as int].parts));
            return true;
        }
        i = i + 1;
    }
    false
}

fn group_of_class(class: &Vec<FilePath>, list: &DirList, infos: &Vec<FolderInfo>, Ghost(signed): Ghost<SignedV>) -> (r:
    FolderGroup)
    requires
        list.wf(),
        list.dirs.deep_view() == signed.dirs,
        infos@.len() == list.dirs@.len(),
        forall|j: int| 0 <= j < infos@.len() ==> (#[trigger] infos@[j])@ == (signed.info)(signed.dirs[j].parts),
        class@.len() > 0,
        forall|i: int| 0 <= i < class@.len() ==> has_dir(signed.dirs, (#[trigger] class.deep_view()[i]).parts),
    ensures
        r@ == signed.folder_group(class.deep_view()),
{
    let paths = copy_paths(class);
    let ghost pv = paths.deep_view();
    let mut confirmed = true;
    let mut size: u64 = 0;
    let mut count: usize = 0;
    let mut i: usize = 0;
    while i < paths.len()
        invariant
            i <= paths@.len(),
            list.wf(),
            list.dirs.deep_view() == signed.dirs,
            infos@.len() == list.dirs@.len(),
            forall|j: int| 0 <= j < infos@.len() ==> (#[trigger] infos@[j])@ == (signed.info)(signed.dirs[j].parts),
            pv == paths.deep_view(),
            forall|j: int| 0 <= j < pv.len() ==> has_dir(signed.dirs, (#[trigger] pv[j]).parts),
            confirmed == (forall|j: int| 0 <= j < i ==> (signed.info)((#[trigger] pv[j]).parts).confirmed),
            i > 0 ==> size == (signed.info)(pv[0].parts).size && count == (signed.info)(pv[0].parts).count,
        decreases paths@.len() - i,
    {
        assert(pv[i as int] == paths@[i as int]@);
        assert(has_dir(signed.dirs, pv[i as int].parts));
        match list.index.get(&paths[i]) {
            Some(at) => {
                assert(infos@[*at as int]@ == (signed.info)(pv[i as int].parts));
                confirmed = confirmed && infos[*at].confirmed;
                if i == 0 {
                    size = infos[*at].size;
                    count = infos[*at].count;
                }
            },
            None => {
                assert(false);
            },
        }
        i = i + 1;
    }
    FolderGroup { paths, file_count: count, size, confirmed }
}

/// Reports the directories of each signature that has two or more, the
/// outermost first.
fn report_signed(list: &DirList, infos: &Vec<FolderInfo>, roots: &PathSet, Ghost(signed): Ghost<SignedV>) -> (r:
    Vec<FolderGroup>)
    requires
        list.wf(),
        list.dirs.deep_view() == signed.dirs,
        signed.roots == roots@,
        infos@.len() == list.dirs@.len(),
        forall|j: int| 0 <= j < infos@.len() ==> (#[trigger] infos@[j])@ == (signed.info)(signed.dirs[j].parts),
    ensures
        r.deep_view() == signed.duplicate_folders(),
{
    let classes = class_table(list, infos, Ghost(signed));
    let candidates = order_classes(&repeated_classes(&classes));
    let ghost all = candidates.deep_view();
    proof {
        lemma_classes_known(signed, signed.dirs);
        lemma_repeated(signed.classes(signed.dirs));
        assert forall|c: int, i: int|
            #![trigger all[c][i]]
            0 <= c < all.len() && 0 <= i < all[c].len() implies has_dir(signed.dirs, all[c][i].parts) by {
            let rep = repeated(signed.classes(signed.dirs));
            assert(rep.contains(all[c]));
            let x = choose|x: int| 0 <= x < rep.len() && rep[x] == all[c];
            let b = choose|b: int|
                0 <= b < signed.classes(signed.dirs).len() && (#[trigger] signed.classes(signed.dirs)[b]).paths == rep[x];
            assert(signed.classes(signed.dirs)[b].paths[i] == all[c][i]);
            assert(signed.dirs.contains(all[c][i]));
            let j = choose|j: int| 0 <= j < signed.dirs.len() && signed.dirs[j] == all[c][i];
            assert(signed.dirs[j].parts == all[c][i].parts);
        }
    }
    let further = collect_further(&candidates);
    let kept = drop_implied_of(&candidates, &further, roots, Ghost(signed));
    let matched = collect_matched(&kept, Ghost(signed), Ghost(further@), Ghost(all));
    let mut out: Vec<FolderGroup> = Vec::new();
    let mut k: usize = 0;
    assert(all.take(0) =~= Seq::<Seq<PathV>>::empty());
    assert(out.deep_view() =~= Seq::<FolderV>::empty());
    while k < kept.len()
        invariant
            k <= kept@.len(),
            kept@.len() == all.len(),
            forall|c: int| 0 <= c < all.len() ==> (#[trigger] kept@[c]).deep_view() == signed.not_implied(further@, in_order(all[c])),
            list.wf(),
            list.dirs.deep_view() == signed.dirs,
            signed.roots == roots@,
            infos@.len() == list.dirs@.len(),
            forall|j: int| 0 <= j < infos@.len() ==> (#[trigger] infos@[j])@ == (signed.info)(signed.dirs[j].parts),
            forall|c: int, i: int|
                #![trigger kept@[c].deep_view()[i]]
                0 <= c < kept@.len() && 0 <= i < kept@[c]@.len() ==> has_dir(signed.dirs, kept@[c].deep_view()[i].parts),
            out.deep_view() == signed.reported(further@, matched@, all.take(k as int)),
        decreases kept@.len() - k,
    {
        let ghost t = all.take(k + 1);
        assert(t.drop_last() =~= all.take(k as int));
        assert(t.last() == all[k as int]);
        let paths = &kept[k];
        assert(paths.deep_view() == signed.not_implied(further@, in_order(all[k as int])));
        assert(paths.deep_view().len() == paths@.len());
        if paths.len() >= 2 && any_stands_out(paths, &matched, roots, Ghost(signed)) {
            proof {
                assert forall|i: int| 0 <= i < paths.deep_view().len() implies has_dir(
                    signed.dirs,
                    (#[trigger] paths.deep_view()[i]).parts,
                ) by {
                    assert(kept@[k as int].deep_view()[i] == paths.deep_view()[i]);
                }
            }
            let group = group_of_class(paths, list, infos, Ghost(signed));
            let ghost before = out.deep_view();
            let ghost gv = group@;
            out.push(group);
            assert(out.deep_view() =~= before.push(gv));
        }
        k = k + 1;
    }
    assert(all.take(k as int) =~= all);
    rank_folders(&out)
}

/// What each directory of a list amounts to.
pub open spec fn info_in(dirs: Seq<PathV>, infos: Seq<FolderInfoV>) -> spec_fn(PathId) -> FolderInfoV {
    |d: PathId| infos[choose|i: int| 0 <= i < dirs.len() && (#[trigger] dirs[i]).parts == d]
}

/// The duplicate folders among directories of which it is known what each
/// amounts to.
pub fn report_folders(dirs: &Vec<FilePath>, infos: &Vec<FolderInfo>, scan_roots: &Vec<FilePath>) -> (r: Vec<FolderGroup>)
    requires
        ids_unique(dirs.deep_view()),
        infos@.len() == dirs@.len(),
    ensures
        r.deep_view() == (SignedV {
            dirs: dirs.deep_view(),
            roots: top_roots(ids_of(scan_roots.deep_view())),
            info: info_in(dirs.deep_view(), infos.deep_view()),
        }).duplicate_folders(),
{
    let ghost all = dirs.deep_view();
    let ghost signed = SignedV {
        dirs: all,
        roots: top_roots(ids_of(scan_roots.deep_view())),
        info: info_in(all, infos.deep_view()),
    };
    let roots = outermost_roots(scan_roots);
    let mut list = DirList { dirs: Vec::new(), index: PathMap::new() };
    assert(list.dirs.deep_view() =~= all.take(0));
    let mut i: usize = 0;
    while i < dirs.len()
        invariant
            i <= dirs@.len(),
            all == dirs.deep_view(),
            ids_unique(all),
            list.wf(),
            list.dirs.deep_view() == all.take(i as int),
        decreases dirs@.len() - i,
    {
        assert(all[i as int] == dirs@[i as int]@);
        assert(!has_dir(all.take(i as int), all[i as int].parts)) by {
            if has_dir(all.take(i as int), all[i as int].parts) {
                let t = all.take(i as int);
                let j = choose|j: int| 0 <= j < t.len() && (#[trigger] t[j]).parts == all[i as int].parts;
                assert(all[j].parts == all[i as int].parts);
            }
        }
        list.append(dirs[i].clone());
        i = i + 1;
        assert(list.dirs.deep_view() =~= all.take(i as int));
    }
    assert(all.take(i as int) =~= all);
    proof {
        assert(list.dirs.deep_view().len() == list.dirs@.len());
        assert forall|j: int| 0 <= j < infos@.len() implies (#[trigger] infos@[j])@ == (signed.info)(signed.dirs[j].parts) by {
            let d = all[j].parts;
            let k = choose|k: int| 0 <= k < all.len() && (#[trigger] all[k]).parts == d;
            assert(all[j].parts == d);
            assert(k == j);
            assert(infos.deep_view()[j] == infos@[j]@);
        }
    }
    report_signed(&list, infos, &roots, Ghost(signed))
}

/// How many directories hold files, directly or not.
pub fn count_folders(all_files: &Vec<FilePath>, skipped: &Vec<FilePath>, scan_roots: &Vec<FilePath>) -> (r: usize)
    ensures
        r == dirs_of(all_files.deep_view() + skipped.deep_view(), top_roots(ids_of(scan_roots.deep_view()))).len(),
{
    let mut files = copy_paths(all_files);
    let mut more = copy_paths(skipped);
    files.append(&mut more);
    assert(files.deep_view() =~= all_files.deep_view() + skipped.deep_view());
    let roots = outermost_roots(scan_roots);
    let list = link_all(&files, &roots);
    assert(list.dirs.deep_view().len() == list.dirs@.len());
    list.dirs.len()
}

/// Whether a root lies in a directory.
fn holds_root(d: &FilePath, scan_roots: &Vec<FilePath>, roots: &PathSet, list: &DirList) -> (r: bool)
    requires
        list.wf(),
        roots@ == top_roots(ids_of(scan_roots.deep_view())),
    ensures
        r == above_root(list.dirs.deep_view(), roots@, d@.parts),
{
    let ghost all = scan_roots.deep_view();
    let ghost dirs = list.dirs.deep_view();
    let mut i: usize = 0;
    while i < scan_roots.len()
        invariant
            i <= scan_roots@.len(),
            list.wf(),
            all == scan_roots.deep_view(),
            dirs == list.dirs.deep_view(),
            forall|j: int|
                0 <= j < i ==> !(roots@.contains((#[trigger] all[j]).parts) && has_dir(dirs, all[j].parts) && all[j].parts
                    != d@.parts && is_under(all[j].parts, d@.parts)),
        decreases scan_roots@.len() - i,
    {
        let root = &scan_roots[i];
        assert(all[i as int] == root@);
        if roots.contains(root) && list.index.get(root).is_some() && !root.same(d) && root.starts_with(d) {
            return true;
        }
        i = i + 1;
    }
    proof {
        assert forall|r: PathId| #[trigger] roots@.contains(r) && has_dir(dirs, r) && r != d@.parts implies !is_under(
            r,
            d@.parts,
        ) by {
            lemma_ids_has(all, r);
            let j = choose|j: int| 0 <= j < all.len() && (#[trigger] all[j]).parts == r;
            assert(roots@.contains(all[j].parts));
        }
    }
    false
}

/// The directories that have no signature, whatever they hold.
fn unread_dirs(skipped: &Vec<FilePath>, scan_roots: &Vec<FilePath>, roots: &PathSet, list: &DirList) -> (r: PathSet)
    requires
        list.wf(),
        roots@ == top_roots(ids_of(scan_roots.deep_view())),
    ensures
        r@ == ids_of(skipped.deep_view()).union(roots_above(list.dirs.deep_view(), roots@)),
{
    let ghost dirs = list.dirs.deep_view();
    let ghost start = ids_of(skipped.deep_view());
    let mut r = path_set(skipped);
    let mut i: usize = 0;
    while i < list.dirs.len()
        invariant
            i <= list.dirs@.len(),
            list.wf(),
            roots@ == top_roots(ids_of(scan_roots.deep_view())),
            dirs == list.dirs.deep_view(),
            forall|d: PathId| #[trigger]
                r@.contains(d) <==> start.contains(d) || (has_dir(dirs.take(i as int), d) && above_root(dirs, roots@, d)),
        decreases list.dirs@.len() - i,
    {
        proof {
            lemma_has_dir_push(dirs.take(i as int), dirs[i as int]);
            assert(dirs.take(i + 1) =~= dirs.take(i as int).push(dirs[i as int]));
            assert(dirs[i as int] == list.dirs@[i as int]@);
        }
        if holds_root(&list.dirs[i], scan_roots, roots, list) {
            r.insert(&list.dirs[i]);
        }
        i = i + 1;
    }
    assert(dirs.take(i as int) =~= dirs);
    assert(r@ =~= start.union(roots_above(dirs, roots@)));
    r
}

/// Finds the directories whose contents, all the way down, match another
/// directory's. A directory that holds a file with no duplicate, one that was
/// skipped, or an outermost root, matches none. Where two directories match, what
/// they hold is not reported again, except for what matches a directory elsewhere.
pub fn find_duplicate_folders(
    all_files: &Vec<FilePath>,
    skipped: &Vec<FilePath>,
    groups: &Vec<DuplicateGroup>,
    scan_roots: &Vec<FilePath>,
) -> (r: Vec<FolderGroup>)
    ensures
        r.deep_view() == tree_of(
            all_files.deep_view(),
            skipped.deep_view(),
            groups.deep_view(),
            ids_of(scan_roots.deep_view()),
        ).duplicate_folders(),
{
    let mut files = copy_paths(all_files);
    let mut more = copy_paths(skipped);
    files.append(&mut more);
    assert(files.deep_view() =~= all_files.deep_view() + skipped.deep_view());
    let roots = outermost_roots(scan_roots);
    let gone = path_set(skipped);
    let ghost tree = tree_of(
        all_files.deep_view(),
        skipped.deep_view(),
        groups.deep_view(),
        ids_of(scan_roots.deep_view()),
    );
    let list = link_all(&files, &roots);
    let unread = unread_dirs(skipped, scan_roots, &roots, &list);
    let infos = infos_of(&files, &gone, &unread, groups, &roots, &list, Ghost(tree));
    report_signed(&list, &infos, &roots, Ghost(tree.signed()))
}

} // verus!
