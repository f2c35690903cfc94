//! What holds of a walk as a whole, over a directory tree at rest.

use vstd::prelude::*;

use crate::filetypes::{extension_accepted, is_temp_name, path_extension};
use crate::guarantees::{files_found, FoundV};
use crate::paths::{lossy, PartKind, PartV, PathId, PathV};
use crate::resuming::distinct_ids;
use crate::text::lowercase;
use crate::walk::{ids_of, lemma_ids_has, new_walk, EntryAction, EntryKind, WalkV};

verus! {

// ------------------------------------------------------------------ a tree at rest

/// An entry of a directory.
pub struct DirEntryV {
    pub kind: EntryKind,
    pub name: Seq<u8>,
}

/// Directories that do not change: the key of the real directory that a path leads to,
/// what a real directory lists, where it can be read, and how a path shows.
pub struct ListingV {
    pub key: spec_fn(PathId) -> Seq<char>,
    pub entries: spec_fn(Seq<char>) -> Option<Seq<DirEntryV>>,
    pub text: spec_fn(PathId) -> Seq<char>,
}

/// The parts of the path of an entry of a directory.
pub open spec fn entry_parts(dir: PathId, name: Seq<u8>) -> PathId {
    dir.push(PartV { kind: PartKind::Normal, name })
}

impl ListingV {
    /// The path of an entry of a directory that was opened at a path.
    pub open spec fn entry_path(self, dir: PathV, name: Seq<u8>) -> PathV {
        let parts = entry_parts(dir.parts, name);
        PathV { text: (self.text)(parts), parts }
    }

    /// Whether a directory can be read.
    pub open spec fn readable(self, key: Seq<char>) -> bool {
        (self.entries)(key) is Some
    }

    pub open spec fn list(self, key: Seq<char>) -> Seq<DirEntryV> {
        (self.entries)(key).unwrap()
    }

    /// Whether a real directory leads on to the same directories on whatever way it is
    /// reached.
    pub open spec fn consistent(self) -> bool {
        forall|p: PathId, q: PathId, name: Seq<u8>|
            #![trigger entry_parts(p, name), entry_parts(q, name)]
            (self.key)(p) == (self.key)(q) ==> (self.key)(entry_parts(p, name)) == (self.key)(entry_parts(q, name))
    }

    /// Whether no directory lists two files of one name.
    pub open spec fn names_once(self) -> bool {
        forall|key: Seq<char>, i: int, j: int|
            #![trigger self.list(key)[i], self.list(key)[j]]
            self.readable(key) && 0 <= i < j < self.list(key).len() && self.list(key)[i].kind == EntryKind::File
                && self.list(key)[j].kind == EntryKind::File ==> self.list(key)[i].name != self.list(key)[j].name
    }
}

/// A directory that is open, with the path it was opened at and how many of its entries
/// were gone through.
pub struct FrameV {
    pub path: PathV,
    pub at: nat,
}

/// A walk over a tree: its decisions so far, the open directories, the paths of all that
/// were opened, and what was reported.
pub struct RunV {
    pub walk: WalkV,
    pub frames: Seq<FrameV>,
    pub entered: Seq<PathV>,
    pub found: Seq<FoundV>,
}

/// A walk after the directory at a path was offered to it.
pub open spec fn offered(run: RunV, path: PathV, tree: ListingV) -> RunV {
    let key = (tree.key)(path.parts);
    if run.walk.admits(key) && tree.readable(key) {
        RunV {
            walk: run.walk.after_offer(key).after_open(key),
            frames: run.frames.push(FrameV { path, at: 0 }),
            entered: run.entered.push(path),
            ..run
        }
    } else {
        RunV { walk: run.walk.after_offer(key), ..run }
    }
}

/// A walk to which the directories to scan were offered.
pub open spec fn roots_offered(w: WalkV, roots: Seq<PathV>, tree: ListingV) -> RunV
    decreases roots.len(),
{
    if roots.len() == 0 {
        RunV { walk: w, frames: Seq::empty(), entered: Seq::empty(), found: Seq::empty() }
    } else {
        offered(roots_offered(w, roots.drop_last(), tree), roots.last(), tree)
    }
}

impl RunV {
    pub open spec fn ended(self) -> bool {
        self.frames.len() == 0
    }

    /// Whether the innermost open directory has entries left.
    pub open spec fn at_entry(self, tree: ListingV) -> bool {
        self.frames.last().at < tree.list(self.walk.open.last()).len()
    }

    /// The next entry of the innermost open directory.
    pub open spec fn entry(self, tree: ListingV) -> DirEntryV {
        tree.list(self.walk.open.last())[self.frames.last().at as int]
    }

    pub open spec fn next_path(self, tree: ListingV) -> PathV {
        tree.entry_path(self.frames.last().path, self.entry(tree).name)
    }

    /// What becomes of the next entry.
    pub open spec fn choice(self, tree: ListingV) -> EntryAction {
        self.walk.action(self.entry(tree).kind, self.entry(tree).name, self.next_path(tree).parts)
    }

    /// The walk past the next entry.
    pub open spec fn past(self) -> RunV {
        let top = self.frames.last();
        RunV { frames: self.frames.drop_last().push(FrameV { path: top.path, at: top.at + 1 }), ..self }
    }
}

/// A walk after its next step: the innermost open directory is left where it has no
/// entries left, and otherwise its next entry is passed over, reported or entered.
pub open spec fn stepped(run: RunV, tree: ListingV) -> RunV {
    if run.frames.len() == 0 {
        run
    } else if !run.at_entry(tree) {
        RunV {
            walk: run.walk.after_leave(),
            frames: run.frames.drop_last(),
            found: run.found.push(FoundV::Dir(run.walk.open.last())),
            ..run
        }
    } else {
        match run.choice(tree) {
            EntryAction::Skip => run.past(),
            EntryAction::Report => RunV { found: run.found.push(FoundV::File(run.next_path(tree))), ..run.past() },
            EntryAction::Enter => offered(run.past(), run.next_path(tree), tree),
        }
    }
}

pub open spec fn run_steps(run: RunV, tree: ListingV, n: nat) -> RunV
    decreases n,
{
    if n == 0 {
        run
    } else {
        stepped(run_steps(run, tree, (n - 1) as nat), tree)
    }
}

/// The directories that a walk reports the end of.
pub open spec fn dirs_found(found: Seq<FoundV>) -> Seq<Seq<char>>
    decreases found.len(),
{
    if found.len() == 0 {
        Seq::empty()
    } else {
        match found.last() {
            FoundV::Dir(key) => dirs_found(found.drop_last()).push(key),
            FoundV::File(_) => dirs_found(found.drop_last()),
        }
    }
}

/// All that a walk over a tree reports.
pub open spec fn walk_found(w: WalkV, roots: Seq<PathV>, tree: ListingV) -> Seq<FoundV> {
    run_steps(
        roots_offered(w, roots, tree),
        tree,
        choose|n: nat| (#[trigger] run_steps(roots_offered(w, roots, tree), tree, n)).ended(),
    ).found
}

/// Whether a walk has not begun.
pub open spec fn not_begun(w: WalkV) -> bool {
    w.visited == Set::<Seq<char>>::empty() && w.open.len() == 0
}

/// Whether a walk is a new one: nothing is complete to it and nothing was seen.
pub open spec fn is_new_walk(w: WalkV) -> bool {
    w == new_walk(w.excluded, w.chosen, w.exclude_temp)
}

// -------------------------------------------------------------------- all along

/// Whether an open directory is at its place.
spec fn frame_sound(run: RunV, tree: ListingV, i: int) -> bool {
    &&& (tree.key)(run.frames[i].path.parts) == run.walk.open[i]
    &&& tree.readable(run.walk.open[i])
    &&& run.frames[i].at <= tree.list(run.walk.open[i]).len()
    &&& run.walk.visited.contains(run.walk.open[i])
    &&& !run.walk.completed.contains(run.walk.open[i])
    &&& !dirs_found(run.found).contains(run.walk.open[i])
}

/// Whether a directory whose end was reported was visited.
spec fn done_sound(run: RunV, tree: ListingV, key: Seq<char>) -> bool {
    run.walk.visited.contains(key) && !run.walk.completed.contains(key) && tree.readable(key)
}

/// What holds of a walk all along: which directories are open, and that those visited
/// that can be read are open, or their end was reported.
spec fn sound(run: RunV, w: WalkV, tree: ListingV) -> bool {
    &&& run.walk == (WalkV { visited: run.walk.visited, open: run.walk.open, ..w })
    &&& run.frames.len() == run.walk.open.len()
    &&& forall|i: int| 0 <= i < run.frames.len() ==> frame_sound(run, tree, i)
    &&& run.walk.open.no_duplicates()
    &&& dirs_found(run.found).no_duplicates()
    &&& forall|key: Seq<char>| #[trigger] dirs_found(run.found).contains(key) ==> done_sound(run, tree, key)
    &&& forall|key: Seq<char>| #[trigger]
        run.walk.visited.contains(key) && tree.readable(key) && !run.walk.completed.contains(key) ==> run.walk.open.contains(
            key,
        ) || dirs_found(run.found).contains(key)
}

proof fn lemma_push_text(list: Seq<Seq<char>>, key: Seq<char>, x: Seq<char>)
    ensures
        list.push(key).contains(x) <==> list.contains(x) || x == key,
{
    let n = list.push(key);
    if list.contains(x) {
        let i = choose|i: int| 0 <= i < list.len() && list[i] == x;
        assert(n[i] == x);
    }
    if x == key {
        assert(n[list.len() as int] == x);
    }
    if n.contains(x) && x != key {
        let i = choose|i: int| 0 <= i < n.len() && n[i] == x;
        assert(list[i] == x);
    }
}

proof fn lemma_push_once(list: Seq<Seq<char>>, key: Seq<char>)
    requires
        list.no_duplicates(),
        !list.contains(key),
    ensures
        list.push(key).no_duplicates(),
{
    let n = list.push(key);
    assert forall|i: int, j: int| 0 <= i < n.len() && 0 <= j < n.len() && i != j implies n[i] != n[j] by {
        if i < list.len() {
            assert(list.contains(list[i]));
        }
        if j < list.len() {
            assert(list.contains(list[j]));
        }
    }
}

proof fn lemma_offered_sound(run: RunV, w: WalkV, tree: ListingV, path: PathV)
    requires
        sound(run, w, tree),
    ensures
        sound(offered(run, path, tree), w, tree),
{
    let key = (tree.key)(path.parts);
    let n = offered(run, path, tree);
    assert(n.found == run.found);
    if run.walk.admits(key) && tree.readable(key) {
        if run.walk.open.contains(key) {
            let i = choose|i: int| 0 <= i < run.walk.open.len() && run.walk.open[i] == key;
            assert(frame_sound(run, tree, i));
        }
        if dirs_found(run.found).contains(key) {
            assert(done_sound(run, tree, key));
        }
        lemma_push_once(run.walk.open, key);
        assert forall|i: int| 0 <= i < n.frames.len() implies frame_sound(n, tree, i) by {
            if i < run.frames.len() {
                assert(frame_sound(run, tree, i));
            }
        }
    } else {
        assert forall|i: int| 0 <= i < n.frames.len() implies frame_sound(n, tree, i) by {
            assert(frame_sound(run, tree, i));
        }
    }
    assert forall|x: Seq<char>| #[trigger] dirs_found(n.found).contains(x) implies done_sound(n, tree, x) by {
        assert(done_sound(run, tree, x));
    }
    assert forall|x: Seq<char>| #[trigger]
        n.walk.visited.contains(x) && tree.readable(x) && !n.walk.completed.contains(x) implies n.walk.open.contains(x)
        || dirs_found(n.found).contains(x) by {
        lemma_push_text(run.walk.open, key, x);
        if x != key || run.walk.visited.contains(key) {
            assert(run.walk.visited.contains(x));
        }
    }
}

proof fn lemma_past_sound(run: RunV, w: WalkV, tree: ListingV)
    requires
        sound(run, w, tree),
        run.frames.len() > 0,
        run.at_entry(tree),
    ensures
        sound(run.past(), w, tree),
{
    let n = run.past();
    assert forall|i: int| 0 <= i < n.frames.len() implies frame_sound(n, tree, i) by {
        assert(frame_sound(run, tree, i));
    }
    assert forall|x: Seq<char>| #[trigger] dirs_found(n.found).contains(x) implies done_sound(n, tree, x) by {
        assert(done_sound(run, tree, x));
    }
}

proof fn lemma_step_sound(run: RunV, w: WalkV, tree: ListingV)
    requires
        sound(run, w, tree),
    ensures
        sound(stepped(run, tree), w, tree),
{
    if run.frames.len() > 0 {
        let n = stepped(run, tree);
        if !run.at_entry(tree) {
            let key = run.walk.open.last();
            let dirs = dirs_found(run.found);
            assert(run.found.push(FoundV::Dir(key)).drop_last() =~= run.found);
            assert(dirs_found(n.found) == dirs.push(key));
            assert(frame_sound(run, tree, run.frames.len() - 1));
            lemma_push_once(dirs, key);
            assert forall|i: int| 0 <= i < n.frames.len() implies frame_sound(n, tree, i) by {
                assert(frame_sound(run, tree, i));
                lemma_push_text(dirs, key, run.walk.open[i]);
                assert(run.walk.open[i] != run.walk.open[run.walk.open.len() - 1]);
            }
            assert forall|x: Seq<char>| #[trigger] dirs_found(n.found).contains(x) implies done_sound(n, tree, x) by {
                lemma_push_text(dirs, key, x);
                if dirs.contains(x) {
                    assert(done_sound(run, tree, x));
                }
            }
            assert forall|x: Seq<char>| #[trigger]
                n.walk.visited.contains(x) && tree.readable(x) && !n.walk.completed.contains(x) implies n.walk.open.contains(
                x,
            ) || dirs_found(n.found).contains(x) by {
                lemma_push_text(dirs, key, x);
                assert(run.walk.visited.contains(x));
                if run.walk.open.contains(x) && x != key {
                    let i = choose|i: int| 0 <= i < run.walk.open.len() && run.walk.open[i] == x;
                    assert(n.walk.open[i] == x);
                }
            }
        } else {
            lemma_past_sound(run, w, tree);
            match run.choice(tree) {
                EntryAction::Skip => {},
                EntryAction::Enter => lemma_offered_sound(run.past(), w, tree, run.next_path(tree)),
                EntryAction::Report => {
                    let p = run.past();
                    assert(run.found.push(FoundV::File(run.next_path(tree))).drop_last() =~= run.found);
                    assert(dirs_found(n.found) == dirs_found(run.found));
                    assert forall|i: int| 0 <= i < n.frames.len() implies frame_sound(n, tree, i) by {
                        assert(frame_sound(p, tree, i));
                    }
                    assert forall|x: Seq<char>| #[trigger] dirs_found(n.found).contains(x) implies done_sound(n, tree, x) by {
                        assert(done_sound(p, tree, x));
                    }
                },
            }
        }
    }
}

proof fn lemma_roots_sound(w: WalkV, roots: Seq<PathV>, tree: ListingV)
    requires
        not_begun(w),
    ensures
        sound(roots_offered(w, roots, tree), w, tree),
        roots_offered(w, roots, tree).found.len() == 0,
    decreases roots.len(),
{
    if roots.len() > 0 {
        lemma_roots_sound(w, roots.drop_last(), tree);
        lemma_offered_sound(roots_offered(w, roots.drop_last(), tree), w, tree, roots.last());
    } else {
        let run = roots_offered(w, roots, tree);
        assert(run.walk.visited =~= Set::<Seq<char>>::empty());
        assert(w.open =~= Seq::<Seq<char>>::empty());
    }
}

proof fn lemma_run_sound(w: WalkV, roots: Seq<PathV>, tree: ListingV, n: nat)
    requires
        not_begun(w),
    ensures
        sound(run_steps(roots_offered(w, roots, tree), tree, n), w, tree),
    decreases n,
{
    lemma_roots_sound(w, roots, tree);
    if n > 0 {
        lemma_run_sound(w, roots, tree, (n - 1) as nat);
        lemma_step_sound(run_steps(roots_offered(w, roots, tree), tree, (n - 1) as nat), w, tree);
    }
}

// ------------------------------------------------------------------- it ends

/// How many steps the open directories take at most, apart from what is entered.
spec fn steps_open(frames: Seq<FrameV>, open: Seq<Seq<char>>, tree: ListingV) -> nat
    decreases frames.len(),
{
    if frames.len() == 0 {
        0
    } else {
        steps_open(frames.drop_last(), open.drop_last(), tree) + (tree.list(open.last()).len() - frames.last().at + 1) as nat
    }
}

proof fn lemma_steps_plus(run: RunV, tree: ListingV, a: nat, b: nat)
    ensures
        run_steps(run, tree, a + b) == run_steps(run_steps(run, tree, a), tree, b),
    decreases b,
{
    if b > 0 {
        lemma_steps_plus(run, tree, a, (b - 1) as nat);
    }
}

proof fn lemma_ended_stays(run: RunV, tree: ListingV, n: nat)
    requires
        run.ended(),
    ensures
        run_steps(run, tree, n) == run,
    decreases n,
{
    if n > 0 {
        lemma_ended_stays(run, tree, (n - 1) as nat);
    }
}

/// All ways to run a walk to its end come to one end.
proof fn lemma_one_end(run: RunV, tree: ListingV, a: nat, b: nat)
    requires
        run_steps(run, tree, a).ended(),
        run_steps(run, tree, b).ended(),
    ensures
        run_steps(run, tree, a) == run_steps(run, tree, b),
{
    if a <= b {
        lemma_steps_plus(run, tree, a, (b - a) as nat);
        lemma_ended_stays(run_steps(run, tree, a), tree, (b - a) as nat);
    } else {
        lemma_steps_plus(run, tree, b, (a - b) as nat);
        lemma_ended_stays(run_steps(run, tree, b), tree, (a - b) as nat);
    }
}

/// Whether all directories that can be read have these keys, which are finitely many.
pub open spec fn has_keys(tree: ListingV, keys: Set<Seq<char>>) -> bool {
    keys.finite() && forall|key: Seq<char>| #[trigger] tree.readable(key) ==> keys.contains(key)
}

proof fn lemma_run_ends(run: RunV, w: WalkV, tree: ListingV, keys: Set<Seq<char>>) -> (n: nat)
    requires
        sound(run, w, tree),
        has_keys(tree, keys),
    ensures
        run_steps(run, tree, n).ended(),
    decreases keys.difference(run.walk.visited).len(), steps_open(run.frames, run.walk.open, tree),
{
    if run.frames.len() == 0 {
        0
    } else {
        let next = stepped(run, tree);
        let top = run.frames.last();
        lemma_step_sound(run, w, tree);
        assert(frame_sound(run, tree, run.frames.len() - 1));
        let left = keys.difference(run.walk.visited);
        let after = keys.difference(next.walk.visited);
        if run.at_entry(tree) {
            let p = run.past();
            assert(p.frames.drop_last() =~= run.frames.drop_last());
            assert(steps_open(p.frames, p.walk.open, tree) < steps_open(run.frames, run.walk.open, tree));
            if run.choice(tree) == EntryAction::Enter {
                let key = (tree.key)(run.next_path(tree).parts);
                if p.walk.admits(key) && tree.readable(key) {
                    assert(keys.contains(key));
                    assert(after =~= left.remove(key));
                    assert(left.contains(key));
                } else if !keys.contains(key) || p.walk.visited.contains(key) {
                    assert(after =~= left);
                } else {
                    assert(after =~= left.remove(key));
                    assert(left.contains(key));
                }
            } else {
                assert(after =~= left);
            }
        } else {
            assert(after =~= left);
        }
        let m = lemma_run_ends(next, w, tree, keys);
        lemma_steps_plus(run, tree, 1, m);
        assert(run_steps(run, tree, 1) == next) by {
            reveal_with_fuel(run_steps, 2);
        }
        m + 1
    }
}

/// A walk over a tree comes to its end, even where links lead back up.
pub proof fn law_walk_ends(w: WalkV, roots: Seq<PathV>, tree: ListingV, keys: Set<Seq<char>>) -> (n: nat)
    requires
        not_begun(w),
        has_keys(tree, keys),
    ensures
        run_steps(roots_offered(w, roots, tree), tree, n).ended(),
        run_steps(roots_offered(w, roots, tree), tree, n).found == walk_found(w, roots, tree),
{
    let start = roots_offered(w, roots, tree);
    lemma_roots_sound(w, roots, tree);
    let n = lemma_run_ends(start, w, tree, keys);
    let m = choose|m: nat| (#[trigger] run_steps(start, tree, m)).ended();
    lemma_one_end(start, tree, n, m);
    n
}

// --------------------------------------------------------------- all that is there

/// Whether an entry is to be entered: a directory, or a link to one, whose name in lower
/// case is none of the excluded ones.
pub open spec fn to_enter(w: WalkV, entry: DirEntryV) -> bool {
    &&& entry.kind == EntryKind::Dir || entry.kind == EntryKind::DirLink
    &&& !w.excluded.contains(lowercase(lossy(entry.name)))
}

/// Whether an entry is to be reported: a file that was not seen before, that is no
/// temporary file where those are left out, and that is of one of the chosen types.
pub open spec fn to_report(w: WalkV, entry: DirEntryV, path: PathId) -> bool {
    &&& entry.kind == EntryKind::File
    &&& !w.seen.contains(path)
    &&& w.exclude_temp ==> !is_temp_name(lossy(entry.name))
    &&& w.chosen is Some ==> extension_accepted(w.chosen.unwrap(), path_extension(path))
}

/// A directory, or a link to one, is entered if and only if its name in lower case is none
/// of the excluded names. A file is reported if and only if it was not seen before, is no
/// temporary file where those are left out, and is of a chosen type where there are such.
/// Everything else is passed over.
pub proof fn law_what_becomes_of_an_entry(w: WalkV, entry: DirEntryV, path: PathId)
    ensures
        w.action(entry.kind, entry.name, path) == EntryAction::Enter <==> to_enter(w, entry),
        w.action(entry.kind, entry.name, path) == EntryAction::Report <==> to_report(w, entry, path),
        w.action(entry.kind, entry.name, path) == EntryAction::Skip <==> !to_enter(w, entry) && !to_report(
            w,
            entry,
            path,
        ),
{
}

/// Whether a directory opened at a path leads on to another path, by an entry that the
/// walk enters.
pub open spec fn leads_by(w: WalkV, tree: ListingV, from: PathV, j: int, to: PathV) -> bool {
    let list = tree.list((tree.key)(from.parts));
    &&& tree.readable((tree.key)(from.parts))
    &&& 0 <= j < list.len()
    &&& to_enter(w, list[j])
    &&& to == tree.entry_path(from, list[j].name)
}

/// Whether the directories to scan lead on to a path in so many steps.
pub open spec fn leads(w: WalkV, roots: Seq<PathV>, tree: ListingV, path: PathV, n: nat) -> bool
    decreases n,
{
    if n == 0 {
        roots.contains(path)
    } else {
        exists|from: PathV, j: int|
            leads(w, roots, tree, from, (n - 1) as nat) && #[trigger] leads_by(w, tree, from, j, path)
    }
}

pub open spec fn on_the_way_to(w: WalkV, roots: Seq<PathV>, tree: ListingV, path: PathV) -> bool {
    exists|n: nat| leads(w, roots, tree, path, n)
}

/// Whether a directory that can be read is there to be walked: one to scan, or one that
/// such a directory leads on to.
pub open spec fn reached(w: WalkV, roots: Seq<PathV>, tree: ListingV, key: Seq<char>) -> bool {
    tree.readable(key) && exists|path: PathV| #[trigger]
        on_the_way_to(w, roots, tree, path) && (tree.key)(path.parts) == key
}

/// Whether a file is to be reported: an entry of one of the directories, which were
/// opened at these paths.
pub open spec fn listed_at(w: WalkV, tree: ListingV, dirs: Seq<PathV>, x: int, j: int, file: PathV) -> bool {
    let list = tree.list((tree.key)(dirs[x].parts));
    &&& 0 <= x < dirs.len()
    &&& 0 <= j < list.len()
    &&& to_report(w, list[j], entry_parts(dirs[x].parts, list[j].name))
    &&& file == tree.entry_path(dirs[x], list[j].name)
}

pub open spec fn listed(w: WalkV, tree: ListingV, dirs: Seq<PathV>, file: PathV) -> bool {
    exists|x: int, j: int| listed_at(w, tree, dirs, x, j, file)
}

/// Whether these are the paths at which each directory that is there to be walked was
/// opened, once.
pub open spec fn opens_each(w: WalkV, roots: Seq<PathV>, tree: ListingV, dirs: Seq<PathV>) -> bool {
    &&& forall|x: int|
        0 <= x < dirs.len() ==> on_the_way_to(w, roots, tree, #[trigger] dirs[x]) && tree.readable(
            (tree.key)(dirs[x].parts),
        )
    &&& forall|x: int, y: int|
        0 <= x < y < dirs.len() ==> (tree.key)((#[trigger] dirs[x]).parts) != (tree.key)((#[trigger] dirs[y]).parts)
    &&& forall|key: Seq<char>| #[trigger] reached(w, roots, tree, key) ==> opened(tree, dirs, key)
}

pub open spec fn opened(tree: ListingV, dirs: Seq<PathV>, key: Seq<char>) -> bool {
    exists|x: int| 0 <= x < dirs.len() && (tree.key)((#[trigger] dirs[x]).parts) == key
}

/// Whether no file of a directory is reported after the end of the directory.
pub open spec fn files_first(found: Seq<FoundV>, tree: ListingV) -> bool {
    forall|a: int, b: int|
        0 <= a < b < found.len() && found[a] is Dir && found[b] is File ==> (tree.key)(
            (#[trigger] found[b])->File_0.parts.drop_last(),
        ) != (#[trigger] found[a])->Dir_0
}

/// What is known of a directory that was opened.
spec fn entered_sound(run: RunV, w: WalkV, roots: Seq<PathV>, tree: ListingV, x: int) -> bool {
    let key = (tree.key)(run.entered[x].parts);
    &&& on_the_way_to(w, roots, tree, run.entered[x])
    &&& tree.readable(key)
    &&& run.walk.visited.contains(key)
    &&& !run.walk.completed.contains(key)
}

/// What holds all along of the paths at which directories were opened.
spec fn traced(run: RunV, w: WalkV, roots: Seq<PathV>, tree: ListingV) -> bool {
    &&& forall|x: int| 0 <= x < run.entered.len() ==> entered_sound(run, w, roots, tree, x)
    &&& forall|x: int, y: int|
        0 <= x < y < run.entered.len() ==> (tree.key)((#[trigger] run.entered[x]).parts) != (tree.key)(
            (#[trigger] run.entered[y]).parts,
        )
    &&& forall|key: Seq<char>| #[trigger]
        run.walk.visited.contains(key) && tree.readable(key) && !run.walk.completed.contains(key) ==> opened(
            tree,
            run.entered,
            key,
        )
    &&& forall|i: int| 0 <= i < run.frames.len() ==> run.entered.contains((#[trigger] run.frames[i]).path)
}

/// Whether an entry of a directory that was opened was gone through.
spec fn gone(run: RunV, tree: ListingV, x: int, j: int) -> bool {
    &&& 0 <= x < run.entered.len()
    &&& 0 <= j < tree.list((tree.key)(run.entered[x].parts)).len()
    &&& forall|i: int|
        0 <= i < run.frames.len() && run.walk.open[i] == (tree.key)(run.entered[x].parts) ==> j < (
        #[trigger] run.frames[i]).at
}

/// Whether an entry was dealt with as it should be.
spec fn handled(run: RunV, w: WalkV, tree: ListingV, x: int, j: int) -> bool {
    let entry = tree.list((tree.key)(run.entered[x].parts))[j];
    let path = tree.entry_path(run.entered[x], entry.name);
    match w.action(entry.kind, entry.name, path.parts) {
        EntryAction::Skip => true,
        EntryAction::Report => files_found(run.found).contains(path),
        EntryAction::Enter => run.walk.visited.contains((tree.key)(path.parts)),
    }
}

/// Whether a file was reported where an entry was gone through.
spec fn has_source(run: RunV, w: WalkV, tree: ListingV, file: PathV) -> bool {
    exists|x: int, j: int| #[trigger] gone(run, tree, x, j) && listed_at(w, tree, run.entered, x, j, file)
}

/// What holds all along of the entries that were gone through.
spec fn gone_through(run: RunV, w: WalkV, tree: ListingV) -> bool {
    &&& forall|x: int, j: int| #[trigger] gone(run, tree, x, j) ==> handled(run, w, tree, x, j)
    &&& forall|y: int|
        0 <= y < files_found(run.found).len() ==> has_source(run, w, tree, #[trigger] files_found(run.found)[y])
    &&& tree.names_once() ==> distinct_ids(files_found(run.found))
    &&& files_first(run.found, tree)
}

proof fn lemma_dir_found(found: Seq<FoundV>, a: int)
    requires
        0 <= a < found.len(),
        found[a] is Dir,
    ensures
        dirs_found(found).contains(found[a]->Dir_0),
    decreases found.len(),
{
    let rest = found.drop_last();
    let key = found[a]->Dir_0;
    if a < rest.len() {
        lemma_dir_found(rest, a);
        if let FoundV::Dir(last) = found.last() {
            lemma_push_text(dirs_found(rest), last, key);
        }
    } else {
        lemma_push_text(dirs_found(rest), key, key);
    }
}

proof fn lemma_offered_traced(run: RunV, w: WalkV, roots: Seq<PathV>, tree: ListingV, path: PathV)
    requires
        sound(run, w, tree),
        traced(run, w, roots, tree),
        on_the_way_to(w, roots, tree, path),
    ensures
        traced(offered(run, path, tree), w, roots, tree),
{
    let key = (tree.key)(path.parts);
    let n = offered(run, path, tree);
    let goes = run.walk.admits(key) && tree.readable(key);
    assert forall|x: int| 0 <= x < n.entered.len() implies entered_sound(n, w, roots, tree, x) by {
        if x < run.entered.len() {
            assert(entered_sound(run, w, roots, tree, x));
        }
    }
    assert forall|x: int, y: int| 0 <= x < y < n.entered.len() implies (tree.key)((#[trigger] n.entered[x]).parts)
        != (tree.key)((#[trigger] n.entered[y]).parts) by {
        assert(entered_sound(run, w, roots, tree, x));
        assert(run.entered[x] == n.entered[x]);
        if y < run.entered.len() {
            assert(run.entered[y] == n.entered[y]);
        }
    }
    assert forall|k: Seq<char>| #[trigger]
        n.walk.visited.contains(k) && tree.readable(k) && !n.walk.completed.contains(k) implies opened(
        tree,
        n.entered,
        k,
    ) by {
        if run.walk.visited.contains(k) {
            let x = choose|x: int| 0 <= x < run.entered.len() && (tree.key)((#[trigger] run.entered[x]).parts) == k;
            assert(n.entered[x] == run.entered[x]);
        } else {
            assert(k == key);
            assert(n.entered[run.entered.len() as int] == path);
        }
    }
    assert forall|i: int| 0 <= i < n.frames.len() implies n.entered.contains((#[trigger] n.frames[i]).path) by {
        if i < run.frames.len() {
            assert(run.frames[i] == n.frames[i]);
            let x = choose|x: int| 0 <= x < run.entered.len() && run.entered[x] == run.frames[i].path;
            assert(n.entered[x] == run.frames[i].path);
        } else {
            assert(n.entered[run.entered.len() as int] == path);
        }
    }
}

proof fn lemma_step_traced(run: RunV, w: WalkV, roots: Seq<PathV>, tree: ListingV)
    requires
        sound(run, w, tree),
        traced(run, w, roots, tree),
    ensures
        traced(stepped(run, tree), w, roots, tree),
{
    if run.frames.len() > 0 {
        let n = stepped(run, tree);
        let k = run.frames.len() - 1;
        assert(frame_sound(run, tree, k));
        if !run.at_entry(tree) {
            assert(n.walk.visited == run.walk.visited);
            assert forall|x: int| 0 <= x < n.entered.len() implies entered_sound(n, w, roots, tree, x) by {
                assert(entered_sound(run, w, roots, tree, x));
            }
            assert forall|i: int| 0 <= i < n.frames.len() implies n.entered.contains((#[trigger] n.frames[i]).path) by {
                assert(run.frames[i] == n.frames[i]);
            }
        } else {
            let p = run.past();
            assert forall|x: int| 0 <= x < p.entered.len() implies entered_sound(p, w, roots, tree, x) by {
                assert(entered_sound(run, w, roots, tree, x));
            }
            assert forall|i: int| 0 <= i < p.frames.len() implies p.entered.contains((#[trigger] p.frames[i]).path) by {
                assert(run.frames[i].path == p.frames[i].path);
            }
            assert(traced(p, w, roots, tree));
            match run.choice(tree) {
                EntryAction::Skip => {},
                EntryAction::Report => {
                    assert forall|x: int| 0 <= x < n.entered.len() implies entered_sound(n, w, roots, tree, x) by {
                        assert(entered_sound(p, w, roots, tree, x));
                    }
                },
                EntryAction::Enter => {
                    lemma_past_sound(run, w, tree);
                    let path = run.next_path(tree);
                    let top = run.frames[k].path;
                    assert(run.entered.contains(run.frames[k].path));
                    let x = choose|x: int| 0 <= x < run.entered.len() && run.entered[x] == top;
                    assert(entered_sound(run, w, roots, tree, x));
                    let d = choose|d: nat| leads(w, roots, tree, top, d);
                    assert(leads_by(w, tree, top, run.frames[k].at as int, path));
                    assert(leads(w, roots, tree, path, d + 1));
                    lemma_offered_traced(p, w, roots, tree, path);
                },
            }
        }
    }
}

proof fn lemma_same_gone(a: RunV, b: RunV, tree: ListingV, x: int, j: int)
    requires
        a.entered == b.entered,
        a.frames == b.frames,
        a.walk.open == b.walk.open,
        gone(a, tree, x, j),
    ensures
        gone(b, tree, x, j),
{
    assert forall|i: int|
        0 <= i < b.frames.len() && b.walk.open[i] == (tree.key)(b.entered[x].parts) implies j < (
    #[trigger] b.frames[i]).at by {
        assert(j < a.frames[i].at);
    }
}

proof fn lemma_offered_gone(run: RunV, w: WalkV, roots: Seq<PathV>, tree: ListingV, path: PathV, x: int, j: int)
    requires
        sound(run, w, tree),
        traced(run, w, roots, tree),
    ensures
        gone(offered(run, path, tree), tree, x, j) <==> gone(run, tree, x, j),
        gone(run, tree, x, j) ==> offered(run, path, tree).entered[x] == run.entered[x],
{
    let n = offered(run, path, tree);
    let key = (tree.key)(path.parts);
    if n.entered.len() > run.entered.len() {
        let last = run.frames.len() as int;
        assert(n.frames[last].at == 0 && n.walk.open[last] == key);
        if gone(n, tree, x, j) {
            assert(x < run.entered.len());
            assert(n.entered[x] == run.entered[x]);
            assert forall|i: int|
                0 <= i < run.frames.len() && run.walk.open[i] == (tree.key)(run.entered[x].parts) implies j < (
            #[trigger] run.frames[i]).at by {
                assert(n.frames[i] == run.frames[i] && n.walk.open[i] == run.walk.open[i]);
            }
        }
        if gone(run, tree, x, j) {
            assert(n.entered[x] == run.entered[x]);
            assert(entered_sound(run, w, roots, tree, x));
            assert forall|i: int|
                0 <= i < n.frames.len() && n.walk.open[i] == (tree.key)(n.entered[x].parts) implies j < (
            #[trigger] n.frames[i]).at by {
                assert(i < last);
                assert(n.frames[i] == run.frames[i] && n.walk.open[i] == run.walk.open[i]);
            }
        }
    } else {
        if gone(n, tree, x, j) {
            lemma_same_gone(n, run, tree, x, j);
        }
        if gone(run, tree, x, j) {
            lemma_same_gone(run, n, tree, x, j);
        }
    }
}

/// Past an entry, that entry was gone through too, and nothing else.
proof fn lemma_past_gone(run: RunV, w: WalkV, roots: Seq<PathV>, tree: ListingV, x: int, j: int)
    requires
        sound(run, w, tree),
        traced(run, w, roots, tree),
        run.frames.len() > 0,
        run.at_entry(tree),
    ensures
        gone(run.past(), tree, x, j) <==> gone(run, tree, x, j) || (0 <= x < run.entered.len() && run.entered[x]
            == run.frames.last().path && j == run.frames.last().at),
        gone(run, tree, x, j) ==> !(run.entered[x] == run.frames.last().path && j == run.frames.last().at),
{
    let p = run.past();
    let k = run.frames.len() - 1;
    assert(frame_sound(run, tree, k));
    assert(run.entered.contains(run.frames[k].path));
    let y = choose|y: int| 0 <= y < run.entered.len() && run.entered[y] == run.frames[k].path;
    if 0 <= x < run.entered.len() {
        let key = (tree.key)(run.entered[x].parts);
        if x < y {
            assert(key != (tree.key)(run.entered[y].parts));
        } else if x > y {
            assert((tree.key)(run.entered[y].parts) != key);
        }
        if gone(p, tree, x, j) && !(x == y && j == run.frames[k].at) {
            assert forall|i: int| 0 <= i < run.frames.len() && run.walk.open[i] == key implies j < (
            #[trigger] run.frames[i]).at by {
                assert(j < p.frames[i].at);
            }
        }
        if gone(run, tree, x, j) {
            assert forall|i: int| 0 <= i < p.frames.len() && p.walk.open[i] == key implies j < (
            #[trigger] p.frames[i]).at by {
                assert(j < run.frames[i].at);
            }
            if x == y {
                assert(j < run.frames[k].at);
            }
        }
        if x == y && j == run.frames[k].at {
            assert forall|i: int| 0 <= i < p.frames.len() && p.walk.open[i] == key implies j < (
            #[trigger] p.frames[i]).at by {
                if i != k {
                    assert(run.walk.open[i] != run.walk.open[k]);
                }
            }
        }
    }
}

proof fn lemma_left_gone(run: RunV, w: WalkV, tree: ListingV, x: int, j: int)
    requires
        sound(run, w, tree),
        run.frames.len() > 0,
        !run.at_entry(tree),
    ensures
        gone(stepped(run, tree), tree, x, j) <==> gone(run, tree, x, j),
{
    let n = stepped(run, tree);
    let k = run.frames.len() - 1;
    assert(frame_sound(run, tree, k));
    if 0 <= x < run.entered.len() {
        let key = (tree.key)(run.entered[x].parts);
        if gone(n, tree, x, j) {
            assert forall|i: int| 0 <= i < run.frames.len() && run.walk.open[i] == key implies j < (
            #[trigger] run.frames[i]).at by {
                if i < k {
                    assert(n.frames[i] == run.frames[i] && n.walk.open[i] == run.walk.open[i]);
                }
            }
        }
        if gone(run, tree, x, j) {
            assert forall|i: int| 0 <= i < n.frames.len() && n.walk.open[i] == key implies j < (
            #[trigger] n.frames[i]).at by {
                assert(n.frames[i] == run.frames[i] && n.walk.open[i] == run.walk.open[i]);
            }
        }
    }
}

/// The next entry was not reported before.
proof fn lemma_new_file(run: RunV, w: WalkV, roots: Seq<PathV>, tree: ListingV, y: int)
    requires
        sound(run, w, tree),
        traced(run, w, roots, tree),
        gone_through(run, w, tree),
        tree.names_once(),
        run.frames.len() > 0,
        run.at_entry(tree),
        run.choice(tree) == EntryAction::Report,
        0 <= y < files_found(run.found).len(),
    ensures
        files_found(run.found)[y].parts != run.next_path(tree).parts,
{
    let file = files_found(run.found)[y];
    let path = run.next_path(tree);
    let k = run.frames.len() - 1;
    let top = run.frames[k];
    assert(frame_sound(run, tree, k));
    assert(run.entered.contains(run.frames[k].path));
    let x = choose|x: int| 0 <= x < run.entered.len() && run.entered[x] == top.path;
    assert(has_source(run, w, tree, file));
    let (a, j) = choose|a: int, j: int| #[trigger] gone(run, tree, a, j) && listed_at(w, tree, run.entered, a, j, file);
    if file.parts == path.parts {
        assert(file.parts.drop_last() =~= run.entered[a].parts);
        assert(path.parts.drop_last() =~= top.path.parts);
        assert(file.parts.last() == path.parts.last());
        if a < x {
            assert((tree.key)(run.entered[a].parts) != (tree.key)(run.entered[x].parts));
        } else if a > x {
            assert((tree.key)(run.entered[x].parts) != (tree.key)(run.entered[a].parts));
        }
        let key = run.walk.open[k];
        let list = tree.list(key);
        assert(list[j].kind == EntryKind::File && list[top.at as int].kind == EntryKind::File);
        assert(list[j].name == list[top.at as int].name);
        assert(j == top.at);
        lemma_past_gone(run, w, roots, tree, a, j);
    }
}

proof fn lemma_kept_source(run: RunV, next: RunV, w: WalkV, tree: ListingV, file: PathV)
    requires
        has_source(run, w, tree, file),
        forall|x: int, j: int| #[trigger] gone(run, tree, x, j) ==> gone(next, tree, x, j) && next.entered[x] == run.entered[x],
    ensures
        has_source(next, w, tree, file),
{
    let (a, j) = choose|a: int, j: int| #[trigger] gone(run, tree, a, j) && listed_at(w, tree, run.entered, a, j, file);
    assert(gone(next, tree, a, j) && listed_at(w, tree, next.entered, a, j, file));
}

proof fn lemma_reported_gone(run: RunV, w: WalkV, roots: Seq<PathV>, tree: ListingV)
    requires
        sound(run, w, tree),
        traced(run, w, roots, tree),
        gone_through(run, w, tree),
        run.frames.len() > 0,
        run.at_entry(tree),
        run.choice(tree) == EntryAction::Report,
    ensures
        gone_through(stepped(run, tree), w, tree),
{
    let n = stepped(run, tree);
    let k = run.frames.len() - 1;
    let top = run.frames[k];
    let path = run.next_path(tree);
    assert(frame_sound(run, tree, k));
    assert(run.found.push(FoundV::File(path)).drop_last() =~= run.found);
    let (before, files) = (files_found(run.found), files_found(n.found));
    assert(files == before.push(path));
    assert(n.found == run.found.push(FoundV::File(path)));
    assert forall|x: int, j: int| #[trigger] gone(n, tree, x, j) <==> gone(run.past(), tree, x, j) by {
        if gone(n, tree, x, j) {
            lemma_same_gone(n, run.past(), tree, x, j);
        }
        if gone(run.past(), tree, x, j) {
            lemma_same_gone(run.past(), n, tree, x, j);
        }
    }
    assert forall|x: int, j: int| #[trigger] gone(n, tree, x, j) implies handled(n, w, tree, x, j) by {
        lemma_past_gone(run, w, roots, tree, x, j);
        if gone(run, tree, x, j) {
            assert(handled(run, w, tree, x, j));
            let entry = tree.list((tree.key)(run.entered[x].parts))[j];
            let p = tree.entry_path(run.entered[x], entry.name);
            if before.contains(p) {
                let y = choose|y: int| 0 <= y < before.len() && before[y] == p;
                assert(files[y] == p);
            }
        } else {
            assert(files[before.len() as int] == path);
        }
    }
    assert forall|y: int| 0 <= y < files.len() implies has_source(n, w, tree, #[trigger] files[y]) by {
        if y < before.len() {
            assert(has_source(run, w, tree, before[y]));
            assert forall|x: int, j: int| #[trigger] gone(run, tree, x, j) implies gone(n, tree, x, j) && n.entered[x]
                == run.entered[x] by {
                lemma_past_gone(run, w, roots, tree, x, j);
            }
            lemma_kept_source(run, n, w, tree, before[y]);
        } else {
            assert(run.entered.contains(run.frames[k].path));
            let x = choose|x: int| 0 <= x < run.entered.len() && run.entered[x] == top.path;
            lemma_past_gone(run, w, roots, tree, x, top.at as int);
            assert(gone(n, tree, x, top.at as int) && listed_at(w, tree, n.entered, x, top.at as int, path));
        }
    }
    if tree.names_once() {
        assert forall|i: int, j: int| 0 <= i < j < files.len() implies (#[trigger] files[i]).parts != (
        #[trigger] files[j]).parts by {
            if j == before.len() {
                lemma_new_file(run, w, roots, tree, i);
            } else {
                assert(before[i].parts != before[j].parts);
            }
        }
    }
    assert forall|a: int, b: int| 0 <= a < b < n.found.len() && n.found[a] is Dir && n.found[b] is File implies (
    tree.key)((#[trigger] n.found[b])->File_0.parts.drop_last()) != (#[trigger] n.found[a])->Dir_0 by {
        assert(n.found[a] == run.found[a]);
        if b < run.found.len() {
            assert(n.found[b] == run.found[b]);
        } else {
            lemma_dir_found(run.found, a);
            assert(path.parts.drop_last() =~= top.path.parts);
        }
    }
}

proof fn lemma_left_through(run: RunV, w: WalkV, roots: Seq<PathV>, tree: ListingV)
    requires
        sound(run, w, tree),
        traced(run, w, roots, tree),
        gone_through(run, w, tree),
        run.frames.len() > 0,
        !run.at_entry(tree),
    ensures
        gone_through(stepped(run, tree), w, tree),
{
    let n = stepped(run, tree);
    let key = run.walk.open.last();
    assert(run.found.push(FoundV::Dir(key)).drop_last() =~= run.found);
    assert(n.found == run.found.push(FoundV::Dir(key)));
    assert(files_found(n.found) == files_found(run.found));
    assert forall|x: int, j: int| #[trigger] gone(n, tree, x, j) implies handled(n, w, tree, x, j) by {
        lemma_left_gone(run, w, tree, x, j);
        assert(handled(run, w, tree, x, j));
    }
    let files = files_found(n.found);
    assert forall|y: int| 0 <= y < files.len() implies has_source(n, w, tree, #[trigger] files[y]) by {
        assert(has_source(run, w, tree, files_found(run.found)[y]));
        assert forall|x: int, j: int| #[trigger] gone(run, tree, x, j) implies gone(n, tree, x, j) && n.entered[x]
            == run.entered[x] by {
            lemma_left_gone(run, w, tree, x, j);
        }
        lemma_kept_source(run, n, w, tree, files[y]);
    }
    assert forall|a: int, b: int| 0 <= a < b < n.found.len() && n.found[a] is Dir && n.found[b] is File implies (
    tree.key)((#[trigger] n.found[b])->File_0.parts.drop_last()) != (#[trigger] n.found[a])->Dir_0 by {
        assert(n.found[a] == run.found[a] && n.found[b] == run.found[b]);
    }
}

proof fn lemma_entered_gone(run: RunV, w: WalkV, roots: Seq<PathV>, tree: ListingV)
    requires
        sound(run, w, tree),
        traced(run, w, roots, tree),
        gone_through(run, w, tree),
        run.frames.len() > 0,
        run.at_entry(tree),
        run.choice(tree) != EntryAction::Report,
    ensures
        gone_through(stepped(run, tree), w, tree),
{
    let n = stepped(run, tree);
    let p = run.past();
    let path = run.next_path(tree);
    let enter = run.choice(tree) == EntryAction::Enter;
    assert(frame_sound(run, tree, run.frames.len() - 1));
    lemma_past_sound(run, w, tree);
    assert(traced(p, w, roots, tree)) by {
        assert forall|x: int| 0 <= x < p.entered.len() implies entered_sound(p, w, roots, tree, x) by {
            assert(entered_sound(run, w, roots, tree, x));
        }
        assert forall|i: int| 0 <= i < p.frames.len() implies p.entered.contains((#[trigger] p.frames[i]).path) by {
            assert(run.frames[i].path == p.frames[i].path);
        }
    }
    assert(n.found == run.found);
    assert forall|x: int, j: int|
        #![trigger gone(n, tree, x, j)]
        (gone(n, tree, x, j) <==> gone(p, tree, x, j)) && (gone(p, tree, x, j) ==> n.entered[x] == run.entered[x]) by {
        if enter {
            lemma_offered_gone(p, w, roots, tree, path, x, j);
        }
    }
    assert forall|x: int, j: int| #[trigger] gone(n, tree, x, j) implies handled(n, w, tree, x, j) by {
        lemma_past_gone(run, w, roots, tree, x, j);
        if gone(run, tree, x, j) {
            assert(handled(run, w, tree, x, j));
        }
    }
    let files = files_found(n.found);
    assert forall|y: int| 0 <= y < files.len() implies has_source(n, w, tree, #[trigger] files[y]) by {
        assert(has_source(run, w, tree, files_found(run.found)[y]));
        assert forall|x: int, j: int| #[trigger] gone(run, tree, x, j) implies gone(n, tree, x, j) && n.entered[x]
            == run.entered[x] by {
            lemma_past_gone(run, w, roots, tree, x, j);
            assert(gone(n, tree, x, j) <==> gone(p, tree, x, j));
        }
        lemma_kept_source(run, n, w, tree, files[y]);
    }
}

proof fn lemma_roots_through(w: WalkV, all: Seq<PathV>, tree: ListingV, k: int)
    requires
        not_begun(w),
        0 <= k <= all.len(),
    ensures
        ({
            let run = roots_offered(w, all.take(k), tree);
            &&& traced(run, w, all, tree)
            &&& gone_through(run, w, tree)
            &&& forall|i: int| 0 <= i < k ==> run.walk.visited.contains((tree.key)((#[trigger] all[i]).parts))
        }),
    decreases k,
{
    let roots = all.take(k);
    let run = roots_offered(w, roots, tree);
    lemma_roots_sound(w, roots, tree);
    assert(files_found(run.found).len() == 0);
    if k > 0 {
        lemma_roots_through(w, all, tree, k - 1);
        let rest = all.take(k - 1);
        assert(roots.drop_last() =~= rest);
        let before = roots_offered(w, rest, tree);
        lemma_roots_sound(w, rest, tree);
        let path = all[k - 1];
        assert(leads(w, all, tree, path, 0));
        lemma_offered_traced(before, w, all, tree, path);
        assert forall|x: int, j: int| #[trigger] gone(run, tree, x, j) implies handled(run, w, tree, x, j) by {
            lemma_offered_gone(before, w, all, tree, path, x, j);
            assert(handled(before, w, tree, x, j));
        }
    } else {
        assert(run.walk.visited =~= Set::<Seq<char>>::empty());
    }
}

proof fn lemma_run_through(w: WalkV, roots: Seq<PathV>, tree: ListingV, n: nat)
    requires
        not_begun(w),
    ensures
        ({
            let run = run_steps(roots_offered(w, roots, tree), tree, n);
            &&& traced(run, w, roots, tree)
            &&& gone_through(run, w, tree)
            &&& forall|i: int| 0 <= i < roots.len() ==> run.walk.visited.contains((tree.key)((#[trigger] roots[i]).parts))
        }),
    decreases n,
{
    if n == 0 {
        assert(roots.take(roots.len() as int) =~= roots);
        lemma_roots_through(w, roots, tree, roots.len() as int);
    } else {
        let m = (n - 1) as nat;
        let run = run_steps(roots_offered(w, roots, tree), tree, m);
        lemma_run_through(w, roots, tree, m);
        lemma_run_sound(w, roots, tree, m);
        lemma_step_traced(run, w, roots, tree);
        if run.frames.len() > 0 {
            if !run.at_entry(tree) {
                lemma_left_through(run, w, roots, tree);
            } else if run.choice(tree) == EntryAction::Report {
                lemma_reported_gone(run, w, roots, tree);
            } else {
                lemma_entered_gone(run, w, roots, tree);
            }
        }
    }
}

/// At its end a walk has visited all that the directories to scan lead on to.
proof fn lemma_all_visited(run: RunV, w: WalkV, roots: Seq<PathV>, tree: ListingV, path: PathV, n: nat)
    requires
        is_new_walk(w),
        tree.consistent(),
        run.ended(),
        sound(run, w, tree),
        traced(run, w, roots, tree),
        gone_through(run, w, tree),
        forall|i: int| 0 <= i < roots.len() ==> run.walk.visited.contains((tree.key)((#[trigger] roots[i]).parts)),
        leads(w, roots, tree, path, n),
    ensures
        run.walk.visited.contains((tree.key)(path.parts)),
    decreases n,
{
    if n == 0 {
        let i = choose|i: int| 0 <= i < roots.len() && roots[i] == path;
        assert(run.walk.visited.contains((tree.key)(roots[i].parts)));
    } else {
        let (from, j) = choose|from: PathV, j: int|
            leads(w, roots, tree, from, (n - 1) as nat) && #[trigger] leads_by(w, tree, from, j, path);
        let key = (tree.key)(from.parts);
        lemma_all_visited(run, w, roots, tree, from, (n - 1) as nat);
        assert(!run.walk.completed.contains(key));
        assert(opened(tree, run.entered, key));
        let x = choose|x: int| 0 <= x < run.entered.len() && (tree.key)((#[trigger] run.entered[x]).parts) == key;
        assert(gone(run, tree, x, j));
        assert(handled(run, w, tree, x, j));
        let name = tree.list(key)[j].name;
        assert((tree.key)(entry_parts(from.parts, name)) == (tree.key)(entry_parts(run.entered[x].parts, name)));
    }
}

/// A walk reports no path twice, where no directory lists two files of one name.
pub proof fn law_walk_reports_once(w: WalkV, roots: Seq<PathV>, tree: ListingV, keys: Set<Seq<char>>)
    requires
        not_begun(w),
        has_keys(tree, keys),
        tree.names_once(),
    ensures
        distinct_ids(files_found(walk_found(w, roots, tree))),
{
    let n = law_walk_ends(w, roots, tree, keys);
    lemma_run_through(w, roots, tree, n);
}

/// No file is reported under two paths, whatever links lead to the directory that it is
/// in: two paths of one name in one real directory are one path.
pub proof fn law_no_file_under_two_paths(
    w: WalkV,
    roots: Seq<PathV>,
    tree: ListingV,
    keys: Set<Seq<char>>,
    p: PathV,
    q: PathV,
)
    requires
        not_begun(w),
        has_keys(tree, keys),
        files_found(walk_found(w, roots, tree)).contains(p),
        files_found(walk_found(w, roots, tree)).contains(q),
        (tree.key)(p.parts.drop_last()) == (tree.key)(q.parts.drop_last()),
        p.parts.last() == q.parts.last(),
    ensures
        p == q,
{
    let n = law_walk_ends(w, roots, tree, keys);
    let run = run_steps(roots_offered(w, roots, tree), tree, n);
    lemma_run_through(w, roots, tree, n);
    let (x, i) = lemma_source(run, w, tree, p);
    let (y, j) = lemma_source(run, w, tree, q);
    if x < y {
        assert((tree.key)(run.entered[x].parts) != (tree.key)(run.entered[y].parts));
    } else if y < x {
        assert((tree.key)(run.entered[y].parts) != (tree.key)(run.entered[x].parts));
    }
    assert(p.parts =~= q.parts);
}

/// The entry that a reported file is.
proof fn lemma_source(run: RunV, w: WalkV, tree: ListingV, file: PathV) -> (r: (int, int))
    requires
        gone_through(run, w, tree),
        files_found(run.found).contains(file),
    ensures
        listed_at(w, tree, run.entered, r.0, r.1, file),
        file.parts.drop_last() == run.entered[r.0].parts,
{
    let files = files_found(run.found);
    let y = choose|y: int| 0 <= y < files.len() && files[y] == file;
    assert(has_source(run, w, tree, files_found(run.found)[y]));
    let (x, j) = choose|x: int, j: int| #[trigger] gone(run, tree, x, j) && listed_at(w, tree, run.entered, x, j, file);
    assert(file.parts.drop_last() =~= run.entered[x].parts);
    (x, j)
}

/// A new walk over a tree comes to its end, even where links lead back up. It reports the
/// end of each directory that is there to be walked once, and of no other; it reports the
/// files that those directories list and that are wanted, and no others; it reports the
/// files of a directory before the end of it, and each once where no directory lists two
/// files of one name.
pub proof fn law_whole_walk(w: WalkV, roots: Seq<PathV>, tree: ListingV, keys: Set<Seq<char>>) -> (r: (nat, Seq<PathV>))
    requires
        is_new_walk(w),
        has_keys(tree, keys),
        tree.consistent(),
    ensures
        run_steps(roots_offered(w, roots, tree), tree, r.0).ended(),
        run_steps(roots_offered(w, roots, tree), tree, r.0).found == walk_found(w, roots, tree),
        dirs_found(walk_found(w, roots, tree)).no_duplicates(),
        forall|key: Seq<char>| #[trigger]
            dirs_found(walk_found(w, roots, tree)).contains(key) <==> reached(w, roots, tree, key),
        opens_each(w, roots, tree, r.1),
        forall|p: PathV| #[trigger] files_found(walk_found(w, roots, tree)).contains(p) <==> listed(w, tree, r.1, p),
        tree.names_once() ==> distinct_ids(files_found(walk_found(w, roots, tree))),
        files_first(walk_found(w, roots, tree), tree),
{
    let n = law_walk_ends(w, roots, tree, keys);
    let run = run_steps(roots_offered(w, roots, tree), tree, n);
    let found = walk_found(w, roots, tree);
    let dirs = run.entered;
    lemma_run_sound(w, roots, tree, n);
    lemma_run_through(w, roots, tree, n);
    assert forall|key: Seq<char>| reached(w, roots, tree, key) implies run.walk.visited.contains(key) by {
        let path = choose|path: PathV| #[trigger]
            on_the_way_to(w, roots, tree, path) && (tree.key)(path.parts) == key;
        let m = choose|m: nat| leads(w, roots, tree, path, m);
        lemma_all_visited(run, w, roots, tree, path, m);
    }
    assert forall|key: Seq<char>| #[trigger] dirs_found(found).contains(key) <==> reached(w, roots, tree, key) by {
        if dirs_found(found).contains(key) {
            assert(done_sound(run, tree, key));
            assert(opened(tree, dirs, key));
            let x = choose|x: int| 0 <= x < dirs.len() && (tree.key)((#[trigger] dirs[x]).parts) == key;
            assert(entered_sound(run, w, roots, tree, x));
        }
        if reached(w, roots, tree, key) {
            assert(run.walk.visited.contains(key));
            assert(!run.walk.open.contains(key));
        }
    }
    assert forall|x: int| 0 <= x < dirs.len() implies on_the_way_to(w, roots, tree, #[trigger] dirs[x])
        && tree.readable((tree.key)(dirs[x].parts)) by {
        assert(entered_sound(run, w, roots, tree, x));
    }
    assert forall|key: Seq<char>| #[trigger] reached(w, roots, tree, key) implies opened(tree, dirs, key) by {
        assert(run.walk.visited.contains(key));
    }
    assert forall|p: PathV| #[trigger] files_found(found).contains(p) <==> listed(w, tree, dirs, p) by {
        let files = files_found(found);
        if files.contains(p) {
            let y = choose|y: int| 0 <= y < files.len() && files[y] == p;
            assert(has_source(run, w, tree, files_found(run.found)[y]));
            let (x, j) = choose|x: int, j: int| #[trigger]
                gone(run, tree, x, j) && listed_at(w, tree, run.entered, x, j, p);
            assert(listed_at(w, tree, dirs, x, j, p));
        }
        if listed(w, tree, dirs, p) {
            let (x, j) = choose|x: int, j: int| listed_at(w, tree, dirs, x, j, p);
            assert(gone(run, tree, x, j));
            assert(handled(run, w, tree, x, j));
        }
    }
    (n, dirs)
}

// ------------------------------------------------------------- taken up again

proof fn lemma_found_grows(run: RunV, tree: ListingV, n: nat)
    ensures
        run.found.len() <= run_steps(run, tree, n).found.len(),
        run_steps(run, tree, n).found.take(run.found.len() as int) == run.found,
    decreases n,
{
    if n > 0 {
        let m = (n - 1) as nat;
        lemma_found_grows(run, tree, m);
        let before = run_steps(run, tree, m).found;
        let after = run_steps(run, tree, n).found;
        assert(after == before || after.drop_last() =~= before);
        assert(after.take(run.found.len() as int) =~= before.take(run.found.len() as int));
    } else {
        assert(run.found.take(run.found.len() as int) =~= run.found);
    }
}

/// The step after which so much was reported.
proof fn lemma_when_found(run: RunV, tree: ListingV, n: nat, cut: nat) -> (m: nat)
    requires
        run.found.len() <= cut <= run_steps(run, tree, n).found.len(),
    ensures
        m <= n,
        run_steps(run, tree, m).found.len() == cut,
        run_steps(run, tree, m).found == run_steps(run, tree, n).found.take(cut as int),
    decreases n,
{
    let all = run_steps(run, tree, n).found;
    if all.len() == cut {
        assert(all.take(cut as int) =~= all);
        n
    } else {
        let before = run_steps(run, tree, (n - 1) as nat).found;
        assert(all == before || all.drop_last() =~= before);
        let m = lemma_when_found(run, tree, (n - 1) as nat, cut);
        assert(all.take(cut as int) =~= before.take(cut as int));
        m
    }
}

pub proof fn lemma_dirs_concat(a: Seq<FoundV>, b: Seq<FoundV>)
    ensures
        dirs_found(a + b) == dirs_found(a) + dirs_found(b),
        files_found(a + b) == files_found(a) + files_found(b),
    decreases b.len(),
{
    if b.len() == 0 {
        assert(a + b =~= a);
        assert(dirs_found(a) + dirs_found(b) =~= dirs_found(a));
        assert(files_found(a) + files_found(b) =~= files_found(a));
    } else {
        let s = b.drop_last();
        lemma_dirs_concat(a, s);
        assert((a + b).drop_last() =~= a + s);
        assert((a + b).last() == b.last());
        assert(dirs_found(a + b) =~= dirs_found(a) + dirs_found(b));
        assert(files_found(a + b) =~= files_found(a) + files_found(b));
    }
}

/// What was reported stays reported.
proof fn lemma_stays_found(run: RunV, tree: ListingV, n: nat)
    ensures
        forall|key: Seq<char>| #[trigger]
            dirs_found(run.found).contains(key) ==> dirs_found(run_steps(run, tree, n).found).contains(key),
        forall|p: PathV| #[trigger]
            files_found(run.found).contains(p) ==> files_found(run_steps(run, tree, n).found).contains(p),
{
    lemma_found_grows(run, tree, n);
    let all = run_steps(run, tree, n).found;
    let k = run.found.len() as int;
    let rest = all.skip(k);
    assert(run.found + rest =~= all);
    lemma_dirs_concat(run.found, rest);
    let (d, f) = (dirs_found(run.found), files_found(run.found));
    assert forall|key: Seq<char>| #[trigger] d.contains(key) implies dirs_found(all).contains(key) by {
        let i = choose|i: int| 0 <= i < d.len() && d[i] == key;
        assert(dirs_found(all)[i] == key);
    }
    assert forall|p: PathV| #[trigger] f.contains(p) implies files_found(all).contains(p) by {
        let i = choose|i: int| 0 <= i < f.len() && f[i] == p;
        assert(files_found(all)[i] == p);
    }
}

/// Of the directories that are open, the outer ones stay open and the end of the others
/// is reported, from some place on.
proof fn lemma_stack(run: RunV, w: WalkV, tree: ListingV, d: nat) -> (h: int)
    requires
        sound(run, w, tree),
    ensures
        0 <= h <= run.walk.open.len(),
        h <= run_steps(run, tree, d).walk.open.len(),
        forall|i: int| 0 <= i < h ==> #[trigger] run_steps(run, tree, d).walk.open[i] == run.walk.open[i],
        forall|i: int|
            h <= i < run.walk.open.len() ==> dirs_found(run_steps(run, tree, d).found).contains(
                #[trigger] run.walk.open[i],
            ),
        sound(run_steps(run, tree, d), w, tree),
    decreases d,
{
    if d == 0 {
        run.walk.open.len() as int
    } else {
        let h = lemma_stack(run, w, tree, (d - 1) as nat);
        let before = run_steps(run, tree, (d - 1) as nat);
        let after = run_steps(run, tree, d);
        lemma_step_sound(before, w, tree);
        assert(run_steps(before, tree, 1) == after) by {
            reveal_with_fuel(run_steps, 2);
        }
        lemma_stays_found(before, tree, 1);
        if before.frames.len() > 0 && !before.at_entry(tree) && before.walk.open.len() == h {
            let key = before.walk.open.last();
            assert(before.found.push(FoundV::Dir(key)).drop_last() =~= before.found);
            lemma_push_text(dirs_found(before.found), key, key);
            assert(before.walk.open[h - 1] == run.walk.open[h - 1]);
            assert forall|i: int| h - 1 <= i < run.walk.open.len() implies dirs_found(after.found).contains(
                #[trigger] run.walk.open[i],
            ) by {
                if i >= h {
                    assert(dirs_found(before.found).contains(run.walk.open[i]));
                }
            }
            assert forall|i: int| 0 <= i < h - 1 implies #[trigger] after.walk.open[i] == run.walk.open[i] by {
                assert(before.walk.open[i] == run.walk.open[i]);
            }
            h - 1
        } else {
            assert forall|i: int| 0 <= i < h implies #[trigger] after.walk.open[i] == run.walk.open[i] by {
                assert(before.walk.open[i] == run.walk.open[i]);
            }
            h
        }
    }
}

/// Whether a directory that is open is none of those that an earlier walk completed.
spec fn unfinished(done: Set<Seq<char>>, tree: ListingV) -> spec_fn(FrameV) -> bool {
    |f: FrameV| !done.contains((tree.key)(f.path.parts))
}

proof fn lemma_filter_push<A>(s: Seq<A>, x: A, keep: spec_fn(A) -> bool)
    ensures
        s.push(x).filter(keep) == (if keep(x) {
            s.filter(keep).push(x)
        } else {
            s.filter(keep)
        }),
{
    reveal(Seq::filter);
    assert(s.push(x).drop_last() =~= s);
}

proof fn lemma_filter_all(s: Seq<FrameV>, keep: spec_fn(FrameV) -> bool)
    requires
        forall|i: int| 0 <= i < s.len() ==> keep(#[trigger] s[i]),
    ensures
        s.filter(keep) == s,
    decreases s.len(),
{
    reveal(Seq::filter);
    if s.len() > 0 {
        let t = s.drop_last();
        assert forall|i: int| 0 <= i < t.len() implies keep(#[trigger] t[i]) by {
            assert(t[i] == s[i]);
        }
        lemma_filter_all(t, keep);
        assert(keep(s[s.len() - 1]));
        assert(t.push(s.last()) =~= s);
    }
}

proof fn lemma_filter_has(s: Seq<FrameV>, keep: spec_fn(FrameV) -> bool, i: int)
    requires
        0 <= i < s.len(),
        keep(s[i]),
    ensures
        s.filter(keep).contains(s[i]),
    decreases s.len(),
{
    let t = s.drop_last();
    assert(t.push(s.last()) =~= s);
    lemma_filter_push(t, s.last(), keep);
    let all = s.filter(keep);
    if i == s.len() - 1 {
        assert(all.last() == s[i]);
    } else {
        lemma_filter_has(t, keep, i);
        let k = choose|k: int| 0 <= k < t.filter(keep).len() && t.filter(keep)[k] == s[i];
        assert(all[k] == s[i]);
    }
}

/// Whether a walk that is taken up again stands where an earlier one stood, but for the
/// directories that it need not enter.
spec fn shadows(t: RunV, o: RunV, done: Set<Seq<char>>, tree: ListingV) -> bool {
    &&& t.frames == o.frames.filter(unfinished(done, tree))
    &&& t.found.len() == 0
    &&& t.walk.visited.subset_of(o.walk.visited)
}

/// A walk taken up again: what is done is complete to it, and what was reported was seen.
pub open spec fn walk_again(w: WalkV, found: Seq<FoundV>) -> WalkV {
    WalkV { completed: dirs_found(found).to_set(), seen: ids_of(files_found(found)), ..w }
}

proof fn lemma_offer_shadow(
    o: RunV,
    t: RunV,
    w: WalkV,
    past: Seq<FoundV>,
    tree: ListingV,
    path: PathV,
)
    requires
        is_new_walk(w),
        sound(o, w, tree),
        sound(t, walk_again(w, past), tree),
        shadows(t, o, dirs_found(past).to_set(), tree),
        forall|key: Seq<char>| #[trigger] dirs_found(o.found).contains(key) ==> dirs_found(past).contains(key),
    ensures
        shadows(offered(t, path, tree), offered(o, path, tree), dirs_found(past).to_set(), tree),
{
    let key = (tree.key)(path.parts);
    let done = dirs_found(past).to_set();
    let keep = unfinished(done, tree);
    lemma_filter_push(o.frames, FrameV { path, at: 0 }, keep);
    assert(o.walk.completed =~= Set::<Seq<char>>::empty());
    if tree.readable(key) && !done.contains(key) && !o.walk.admits(key) {
        assert(o.walk.visited.contains(key));
        assert(o.walk.open.contains(key));
        let i = choose|i: int| 0 <= i < o.walk.open.len() && o.walk.open[i] == key;
        assert(frame_sound(o, tree, i));
        lemma_filter_has(o.frames, keep, i);
        let j = choose|j: int| 0 <= j < t.frames.len() && t.frames[j] == o.frames[i];
        assert(frame_sound(t, tree, j));
    }
}

proof fn lemma_roots_shadow(w: WalkV, past: Seq<FoundV>, roots: Seq<PathV>, tree: ListingV)
    requires
        is_new_walk(w),
    ensures
        shadows(
            roots_offered(walk_again(w, past), roots, tree),
            roots_offered(w, roots, tree),
            dirs_found(past).to_set(),
            tree,
        ),
    decreases roots.len(),
{
    let again = walk_again(w, past);
    if roots.len() > 0 {
        let rest = roots.drop_last();
        lemma_roots_shadow(w, past, rest, tree);
        lemma_roots_sound(w, rest, tree);
        lemma_roots_sound(again, rest, tree);
        lemma_offer_shadow(roots_offered(w, rest, tree), roots_offered(again, rest, tree), w, past, tree, roots.last());
    } else {
        reveal(Seq::filter);
        assert(Seq::<FrameV>::empty().filter(unfinished(dirs_found(past).to_set(), tree)) =~= Seq::<FrameV>::empty());
    }
}

/// While the earlier walk goes through what is done, the walk taken up again passes it
/// over.
proof fn lemma_step_shadow(o: RunV, t: RunV, w: WalkV, past: Seq<FoundV>, tree: ListingV, left: nat) -> (m: nat)
    requires
        is_new_walk(w),
        sound(o, w, tree),
        sound(t, walk_again(w, past), tree),
        shadows(t, o, dirs_found(past).to_set(), tree),
        run_steps(stepped(o, tree), tree, left).found == past,
    ensures
        shadows(run_steps(t, tree, m), stepped(o, tree), dirs_found(past).to_set(), tree),
        sound(run_steps(t, tree, m), walk_again(w, past), tree),
{
    let done = dirs_found(past).to_set();
    let keep = unfinished(done, tree);
    let next = stepped(o, tree);
    lemma_step_sound(o, w, tree);
    lemma_step_sound(t, walk_again(w, past), tree);
    lemma_stays_found(next, tree, left);
    assert(run_steps(o, tree, 1) == next) by {
        reveal_with_fuel(run_steps, 2);
    }
    lemma_stays_found(o, tree, 1);
    assert(run_steps(t, tree, 1) == stepped(t, tree)) by {
        reveal_with_fuel(run_steps, 2);
    }
    if o.frames.len() == 0 {
        0
    } else {
        let n = o.frames.len() - 1;
        let top = o.frames[n];
        let key = o.walk.open[n];
        assert(frame_sound(o, tree, n));
        assert(o.frames.drop_last().push(top) =~= o.frames);
        lemma_filter_push(o.frames.drop_last(), top, keep);
        let moved = FrameV { path: top.path, at: top.at + 1 };
        lemma_filter_push(o.frames.drop_last(), moved, keep);
        if done.contains(key) {
            if o.at_entry(tree) && o.choice(tree) == EntryAction::Enter {
                let path = o.next_path(tree);
                let inner = (tree.key)(path.parts);
                lemma_past_sound(o, w, tree);
                lemma_filter_push(o.past().frames, FrameV { path, at: 0 }, keep);
                if o.past().walk.admits(inner) && tree.readable(inner) {
                    let h = lemma_stack(next, w, tree, left);
                    let end = run_steps(next, tree, left);
                    assert(next.walk.open[n] == key);
                    if n < h {
                        assert(end.walk.open[n] == key);
                        assert(frame_sound(end, tree, n));
                    }
                    assert(dirs_found(end.found).contains(next.walk.open[n + 1]));
                    assert(next.walk.open[n + 1] == inner);
                }
            }
            0
        } else {
            if !o.at_entry(tree) {
                assert(o.found.push(FoundV::Dir(key)).drop_last() =~= o.found);
                lemma_push_text(dirs_found(o.found), key, key);
                assert(dirs_found(next.found).contains(key));
            }
            let k = t.frames.len() - 1;
            assert(t.frames[k] == top);
            assert(frame_sound(t, tree, k));
            assert(t.walk.open[k] == key);
            assert(t.frames.drop_last() =~= o.frames.drop_last().filter(keep));
            assert(t.next_path(tree) == o.next_path(tree) && t.entry(tree) == o.entry(tree));
            let path = o.next_path(tree);
            match o.choice(tree) {
                EntryAction::Skip => {},
                EntryAction::Report => {
                    assert(o.found.push(FoundV::File(path)).drop_last() =~= o.found);
                    let files = files_found(next.found);
                    assert(files == files_found(o.found).push(path));
                    assert(files[files.len() - 1] == path);
                    assert(files.contains(path));
                    let all = files_found(past);
                    assert(all.contains(path));
                    let i = choose|i: int| 0 <= i < all.len() && all[i] == path;
                    lemma_ids_has(all, path.parts);
                    assert(all[i].parts == path.parts);
                },
                EntryAction::Enter => {
                    lemma_past_sound(o, w, tree);
                    lemma_past_sound(t, walk_again(w, past), tree);
                    assert(o.past().found == o.found);
                    assert(shadows(t.past(), o.past(), done, tree));
                    lemma_offer_shadow(o.past(), t.past(), w, past, tree, path);
                },
            }
            1
        }
    }
}

/// A walk taken up again comes to where the earlier one was, without a report.
proof fn lemma_catches_up(w: WalkV, roots: Seq<PathV>, tree: ListingV, n: nat, all: nat) -> (m: nat)
    requires
        is_new_walk(w),
        n <= all,
    ensures
        ({
            let past = run_steps(roots_offered(w, roots, tree), tree, all).found;
            let t = run_steps(roots_offered(walk_again(w, past), roots, tree), tree, m);
            &&& shadows(t, run_steps(roots_offered(w, roots, tree), tree, n), dirs_found(past).to_set(), tree)
            &&& sound(t, walk_again(w, past), tree)
        }),
    decreases n,
{
    let start = roots_offered(w, roots, tree);
    let past = run_steps(start, tree, all).found;
    let again = roots_offered(walk_again(w, past), roots, tree);
    if n == 0 {
        lemma_roots_shadow(w, past, roots, tree);
        lemma_roots_sound(walk_again(w, past), roots, tree);
        0
    } else {
        let a = lemma_catches_up(w, roots, tree, (n - 1) as nat, all);
        let o = run_steps(start, tree, (n - 1) as nat);
        let t = run_steps(again, tree, a);
        lemma_run_sound(w, roots, tree, (n - 1) as nat);
        lemma_steps_plus(start, tree, n, (all - n) as nat);
        let b = lemma_step_shadow(o, t, w, past, tree, (all - n) as nat);
        lemma_steps_plus(again, tree, a, b);
        a + b
    }
}

/// Whether a walk taken up again goes on as the earlier one does.
spec fn in_step(t: RunV, o: RunV, past: Seq<FoundV>) -> bool {
    &&& t.frames == o.frames
    &&& t.walk.open == o.walk.open
    &&& o.found == past + t.found
    &&& t.walk.visited.subset_of(o.walk.visited)
}

proof fn lemma_offer_in_step(o: RunV, t: RunV, w: WalkV, past: Seq<FoundV>, tree: ListingV, path: PathV)
    requires
        is_new_walk(w),
        sound(o, w, tree),
        sound(t, walk_again(w, past), tree),
        in_step(t, o, past),
    ensures
        in_step(offered(t, path, tree), offered(o, path, tree), past),
{
    let key = (tree.key)(path.parts);
    lemma_dirs_concat(past, t.found);
    let (a, b, all) = (dirs_found(past), dirs_found(t.found), dirs_found(o.found));
    assert(o.walk.completed =~= Set::<Seq<char>>::empty());
    if tree.readable(key) {
        if a.contains(key) {
            let i = choose|i: int| 0 <= i < a.len() && a[i] == key;
            assert(all[i] == key);
            assert(all.contains(key));
            assert(done_sound(o, tree, key));
        }
        if o.walk.visited.contains(key) && !a.contains(key) {
            if o.walk.open.contains(key) {
                let i = choose|i: int| 0 <= i < o.walk.open.len() && o.walk.open[i] == key;
                assert(frame_sound(t, tree, i));
            } else {
                assert(all.contains(key));
                let i = choose|i: int| 0 <= i < all.len() && all[i] == key;
                assert(b[i - a.len()] == key);
                assert(b.contains(key));
                assert(done_sound(t, tree, key));
            }
        }
        assert(o.walk.admits(key) == t.walk.admits(key));
    }
}

proof fn lemma_step_in_step(o: RunV, t: RunV, w: WalkV, past: Seq<FoundV>, tree: ListingV)
    requires
        is_new_walk(w),
        sound(o, w, tree),
        sound(t, walk_again(w, past), tree),
        in_step(t, o, past),
        distinct_ids(files_found(stepped(o, tree).found)),
    ensures
        in_step(stepped(t, tree), stepped(o, tree), past),
{
    if o.frames.len() > 0 {
        if !o.at_entry(tree) {
            let key = FoundV::Dir(o.walk.open.last());
            assert((past + t.found).push(key) =~= past + t.found.push(key));
        } else {
            let path = o.next_path(tree);
            let e = FoundV::File(path);
            match o.choice(tree) {
                EntryAction::Skip => {},
                EntryAction::Report => {
                    assert((past + t.found).push(e) =~= past + t.found.push(e));
                    assert(o.found.push(e).drop_last() =~= o.found);
                    lemma_dirs_concat(past, t.found);
                    let (a, all) = (files_found(past), files_found(stepped(o, tree).found));
                    assert(all == files_found(o.found).push(path));
                    if ids_of(a).contains(path.parts) {
                        lemma_ids_has(a, path.parts);
                        let i = choose|i: int| 0 <= i < a.len() && (#[trigger] a[i]).parts == path.parts;
                        assert(all[i] == a[i]);
                        assert(all[i].parts != all[all.len() - 1].parts);
                    }
                },
                EntryAction::Enter => {
                    lemma_past_sound(o, w, tree);
                    lemma_past_sound(t, walk_again(w, past), tree);
                    lemma_offer_in_step(o.past(), t.past(), w, past, tree, path);
                },
            }
        }
    }
}

proof fn lemma_goes_on(o: RunV, t: RunV, w: WalkV, past: Seq<FoundV>, tree: ListingV, n: nat)
    requires
        is_new_walk(w),
        sound(o, w, tree),
        sound(t, walk_again(w, past), tree),
        in_step(t, o, past),
        distinct_ids(files_found(run_steps(o, tree, n).found)),
    ensures
        in_step(run_steps(t, tree, n), run_steps(o, tree, n), past),
        sound(run_steps(o, tree, n), w, tree),
        sound(run_steps(t, tree, n), walk_again(w, past), tree),
    decreases n,
{
    if n > 0 {
        let m = (n - 1) as nat;
        let (a, b) = (run_steps(o, tree, m), run_steps(t, tree, m));
        let all = run_steps(o, tree, n).found;
        assert(all == a.found || all.drop_last() =~= a.found);
        assert(distinct_ids(files_found(a.found))) by {
            let rest = all.skip(a.found.len() as int);
            assert(a.found + rest =~= all);
            lemma_dirs_concat(a.found, rest);
            let (f, g) = (files_found(a.found), files_found(all));
            assert forall|i: int, j: int| 0 <= i < j < f.len() implies (#[trigger] f[i]).parts != (#[trigger] f[j]).parts by {
                assert(g[i] == f[i] && g[j] == f[j]);
            }
        }
        lemma_goes_on(o, t, w, past, tree, m);
        lemma_step_in_step(a, b, w, past, tree);
        lemma_step_sound(a, w, tree);
        lemma_step_sound(b, walk_again(w, past), tree);
    }
}

/// A walk that was stopped after any of its reports, and is taken up again with what it
/// had found, reports what was left, in the same order, and nothing else.
pub proof fn law_walk_goes_on(w: WalkV, roots: Seq<PathV>, tree: ListingV, keys: Set<Seq<char>>, cut: nat)
    requires
        is_new_walk(w),
        has_keys(tree, keys),
        distinct_ids(files_found(walk_found(w, roots, tree))),
        cut <= walk_found(w, roots, tree).len(),
    ensures
        walk_found(walk_again(w, walk_found(w, roots, tree).take(cut as int)), roots, tree) == walk_found(
            w,
            roots,
            tree,
        ).skip(cut as int),
{
    let start = roots_offered(w, roots, tree);
    let n = law_walk_ends(w, roots, tree, keys);
    let found = walk_found(w, roots, tree);
    lemma_roots_sound(w, roots, tree);
    let c = lemma_when_found(start, tree, n, cut);
    let o = run_steps(start, tree, c);
    let past = o.found;
    let again = walk_again(w, past);
    let m = lemma_catches_up(w, roots, tree, c, c);
    let t = run_steps(roots_offered(again, roots, tree), tree, m);
    lemma_run_sound(w, roots, tree, c);
    let keep = unfinished(dirs_found(past).to_set(), tree);
    assert forall|i: int| 0 <= i < o.frames.len() implies keep(#[trigger] o.frames[i]) by {
        assert(frame_sound(o, tree, i));
    }
    lemma_filter_all(o.frames, keep);
    assert(t.walk.open =~= o.walk.open) by {
        assert forall|i: int| 0 <= i < o.walk.open.len() implies t.walk.open[i] == o.walk.open[i] by {
            assert(frame_sound(o, tree, i));
            assert(frame_sound(t, tree, i));
        }
    }
    assert(past + t.found =~= past);
    let left = (n - c) as nat;
    lemma_steps_plus(start, tree, c, left);
    lemma_goes_on(o, t, w, past, tree, left);
    let end = run_steps(t, tree, left);
    lemma_steps_plus(roots_offered(again, roots, tree), tree, m, left);
    let k = law_walk_ends(again, roots, tree, keys);
    lemma_one_end(roots_offered(again, roots, tree), tree, m + left, k);
    assert(end.found =~= found.skip(cut as int));
}

// ------------------------------------------------------------------ one file less

/// A tree without one entry of one directory.
pub open spec fn without_entry(tree: ListingV, key: Seq<char>, j: int) -> ListingV {
    ListingV {
        entries: |k: Seq<char>|
            if k == key && tree.readable(k) {
                Some(tree.list(k).remove(j))
            } else {
                (tree.entries)(k)
            },
        ..tree
    }
}

/// What a walk reports, but for one file.
pub open spec fn found_but(found: Seq<FoundV>, file: PathV) -> Seq<FoundV> {
    found.filter(|e: FoundV| e != FoundV::File(file))
}

/// Whether a walk over a tree without an entry stands where the walk over the whole tree
/// stands.
spec fn follows(u: RunV, o: RunV, key: Seq<char>, j: int, file: PathV) -> bool {
    &&& u.walk == o.walk
    &&& u.frames.len() == o.frames.len()
    &&& forall|i: int|
        0 <= i < o.frames.len() ==> (#[trigger] u.frames[i]) == (FrameV {
            path: o.frames[i].path,
            at: if o.walk.open[i] == key && o.frames[i].at > j {
                (o.frames[i].at - 1) as nat
            } else {
                o.frames[i].at
            },
        })
    &&& u.found == found_but(o.found, file)
}

/// Whether a file is that entry of a directory which is opened at this path.
spec fn is_entry(tree: ListingV, key: Seq<char>, j: int, dir: PathV, file: PathV) -> bool {
    &&& tree.readable(key)
    &&& 0 <= j < tree.list(key).len()
    &&& tree.list(key)[j].kind == EntryKind::File
    &&& (tree.key)(dir.parts) == key
    &&& file == tree.entry_path(dir, tree.list(key)[j].name)
}

proof fn lemma_offer_follows(u: RunV, o: RunV, tree: ListingV, key: Seq<char>, j: int, file: PathV, path: PathV)
    requires
        follows(u, o, key, j, file),
        u.frames.len() == o.walk.open.len(),
        j >= 0,
    ensures
        follows(offered(u, path, without_entry(tree, key, j)), offered(o, path, tree), key, j, file),
{
    let less = without_entry(tree, key, j);
    let (a, b) = (offered(u, path, less), offered(o, path, tree));
    let k = (tree.key)(path.parts);
    assert(less.readable(k) == tree.readable(k));
    assert forall|i: int| 0 <= i < b.frames.len() implies (#[trigger] a.frames[i]) == (FrameV {
        path: b.frames[i].path,
        at: if b.walk.open[i] == key && b.frames[i].at > j {
            (b.frames[i].at - 1) as nat
        } else {
            b.frames[i].at
        },
    }) by {
        if i < o.frames.len() {
            assert(a.frames[i] == u.frames[i]);
            assert(b.walk.open[i] == o.walk.open[i]);
        }
    }
}

proof fn lemma_step_follows(
    u: RunV,
    o: RunV,
    w: WalkV,
    tree: ListingV,
    key: Seq<char>,
    j: int,
    dir: PathV,
    file: PathV,
) -> (m: nat)
    requires
        sound(o, w, tree),
        follows(u, o, key, j, file),
        is_entry(tree, key, j, dir, file),
        tree.names_once(),
        o.frames.len() > 0 && o.walk.open.last() == key ==> o.frames.last().path.parts == dir.parts,
    ensures
        follows(run_steps(u, without_entry(tree, key, j), m), stepped(o, tree), key, j, file),
{
    let less = without_entry(tree, key, j);
    let keep = |e: FoundV| e != FoundV::File(file);
    assert(run_steps(u, less, 1) == stepped(u, less)) by {
        reveal_with_fuel(run_steps, 2);
    }
    if o.frames.len() == 0 {
        0
    } else {
        let n = o.frames.len() - 1;
        let top = o.frames[n];
        let here = o.walk.open[n];
        let list = tree.list(here);
        assert(frame_sound(o, tree, n));
        assert(u.frames[n].path == top.path);
        let next = stepped(o, tree);
        if o.at_entry(tree) && here == key && top.at == j {
            assert(o.choice(tree) != EntryAction::Enter);
            if o.choice(tree) == EntryAction::Report {
                assert(o.next_path(tree) == file);
                lemma_filter_push(o.found, FoundV::File(file), keep);
            }
            assert forall|i: int| 0 <= i < next.frames.len() implies (#[trigger] u.frames[i]) == (FrameV {
                path: next.frames[i].path,
                at: if next.walk.open[i] == key && next.frames[i].at > j {
                    (next.frames[i].at - 1) as nat
                } else {
                    next.frames[i].at
                },
            }) by {
                if i < n {
                    assert(next.frames[i] == o.frames[i]);
                }
            }
            0
        } else {
            let v = stepped(u, less);
            if !o.at_entry(tree) {
                assert(!u.at_entry(less));
                lemma_filter_push(o.found, FoundV::Dir(here), keep);
                assert forall|i: int| 0 <= i < next.frames.len() implies (#[trigger] v.frames[i]) == (FrameV {
                    path: next.frames[i].path,
                    at: if next.walk.open[i] == key && next.frames[i].at > j {
                        (next.frames[i].at - 1) as nat
                    } else {
                        next.frames[i].at
                    },
                }) by {
                    assert(v.frames[i] == u.frames[i]);
                    assert(next.frames[i] == o.frames[i] && next.walk.open[i] == o.walk.open[i]);
                }
            } else {
                assert(u.at_entry(less));
                assert(u.entry(less) == o.entry(tree));
                let path = o.next_path(tree);
                assert(u.next_path(less) == path);
                let (a, b) = (u.past(), o.past());
                assert forall|i: int| 0 <= i < b.frames.len() implies (#[trigger] a.frames[i]) == (FrameV {
                    path: b.frames[i].path,
                    at: if b.walk.open[i] == key && b.frames[i].at > j {
                        (b.frames[i].at - 1) as nat
                    } else {
                        b.frames[i].at
                    },
                }) by {
                    if i < n {
                        assert(a.frames[i] == u.frames[i] && b.frames[i] == o.frames[i]);
                    }
                }
                assert(follows(a, b, key, j, file));
                match o.choice(tree) {
                    EntryAction::Skip => {},
                    EntryAction::Enter => lemma_offer_follows(a, b, tree, key, j, file, path),
                    EntryAction::Report => {
                        lemma_filter_push(o.found, FoundV::File(path), keep);
                        if path == file {
                            assert(path.parts.drop_last() =~= top.path.parts);
                            assert(file.parts.drop_last() =~= dir.parts);
                            assert(path.parts.last() == file.parts.last());
                            assert(here == key);
                            assert(list[top.at as int].kind == EntryKind::File);
                            assert(list[top.at as int].name == list[j].name);
                        }
                    },
                }
            }
            1
        }
    }
}

proof fn lemma_entered_grows(run: RunV, tree: ListingV, n: nat)
    ensures
        run.entered.len() <= run_steps(run, tree, n).entered.len(),
        forall|x: int|
            0 <= x < run.entered.len() ==> #[trigger] run_steps(run, tree, n).entered[x] == run.entered[x],
    decreases n,
{
    if n > 0 {
        lemma_entered_grows(run, tree, (n - 1) as nat);
        let before = run_steps(run, tree, (n - 1) as nat);
        let after = run_steps(run, tree, n);
        assert forall|x: int| 0 <= x < run.entered.len() implies #[trigger] after.entered[x] == run.entered[x] by {
            assert(before.entered[x] == run.entered[x]);
            assert(after.entered[x] == before.entered[x]);
        }
    }
}

proof fn lemma_roots_follow(w: WalkV, roots: Seq<PathV>, tree: ListingV, key: Seq<char>, j: int, file: PathV)
    requires
        not_begun(w),
        j >= 0,
    ensures
        follows(roots_offered(w, roots, without_entry(tree, key, j)), roots_offered(w, roots, tree), key, j, file),
    decreases roots.len(),
{
    if roots.len() > 0 {
        let rest = roots.drop_last();
        lemma_roots_follow(w, rest, tree, key, j, file);
        lemma_roots_sound(w, rest, tree);
        lemma_offer_follows(
            roots_offered(w, rest, without_entry(tree, key, j)),
            roots_offered(w, rest, tree),
            tree,
            key,
            j,
            file,
            roots.last(),
        );
    } else {
        reveal(Seq::filter);
        assert(found_but(Seq::<FoundV>::empty(), file) =~= Seq::<FoundV>::empty());
    }
}

proof fn lemma_follows_all(
    w: WalkV,
    roots: Seq<PathV>,
    tree: ListingV,
    key: Seq<char>,
    j: int,
    dir: PathV,
    file: PathV,
    n: nat,
    all: nat,
) -> (m: nat)
    requires
        not_begun(w),
        tree.names_once(),
        is_entry(tree, key, j, dir, file),
        n <= all,
        files_found(run_steps(roots_offered(w, roots, tree), tree, all).found).contains(file),
    ensures
        follows(
            run_steps(roots_offered(w, roots, without_entry(tree, key, j)), without_entry(tree, key, j), m),
            run_steps(roots_offered(w, roots, tree), tree, n),
            key,
            j,
            file,
        ),
    decreases n,
{
    let less = without_entry(tree, key, j);
    let start = roots_offered(w, roots, tree);
    let first = roots_offered(w, roots, less);
    if n == 0 {
        lemma_roots_follow(w, roots, tree, key, j, file);
        0
    } else {
        let a = lemma_follows_all(w, roots, tree, key, j, dir, file, (n - 1) as nat, all);
        let o = run_steps(start, tree, (n - 1) as nat);
        lemma_run_sound(w, roots, tree, (n - 1) as nat);
        lemma_run_through(w, roots, tree, (n - 1) as nat);
        lemma_run_through(w, roots, tree, all);
        let end = run_steps(start, tree, all);
        if o.frames.len() > 0 && o.walk.open.last() == key {
            let k = o.frames.len() - 1;
            assert(frame_sound(o, tree, k));
            assert(o.entered.contains(o.frames[k].path));
            let x = choose|x: int| 0 <= x < o.entered.len() && o.entered[x] == o.frames[k].path;
            lemma_steps_plus(start, tree, (n - 1) as nat, (all - n + 1) as nat);
            lemma_entered_grows(o, tree, (all - n + 1) as nat);
            assert(end.entered[x] == o.entered[x]);
            let z = lemma_source(end, w, tree, file).0;
            assert(file.parts.drop_last() =~= dir.parts);
            if x < z {
                assert((tree.key)(end.entered[x].parts) != (tree.key)(end.entered[z].parts));
            } else if z < x {
                assert((tree.key)(end.entered[z].parts) != (tree.key)(end.entered[x].parts));
            }
        }
        let b = lemma_step_follows(run_steps(first, less, a), o, w, tree, key, j, dir, file);
        lemma_steps_plus(first, less, a, b);
        a + b
    }
}

/// Where a tree has a file less that the walk reports, the walk reports the rest as it
/// does with the file, in the same order.
pub proof fn law_walk_without_a_file(
    w: WalkV,
    roots: Seq<PathV>,
    tree: ListingV,
    keys: Set<Seq<char>>,
    j: int,
    dir: PathV,
    file: PathV,
)
    requires
        not_begun(w),
        has_keys(tree, keys),
        tree.names_once(),
        tree.readable((tree.key)(dir.parts)),
        0 <= j < tree.list((tree.key)(dir.parts)).len(),
        tree.list((tree.key)(dir.parts))[j].kind == EntryKind::File,
        file == tree.entry_path(dir, tree.list((tree.key)(dir.parts))[j].name),
        files_found(walk_found(w, roots, tree)).contains(file),
    ensures
        walk_found(w, roots, without_entry(tree, (tree.key)(dir.parts), j)) == found_but(
            walk_found(w, roots, tree),
            file,
        ),
        has_keys(without_entry(tree, (tree.key)(dir.parts), j), keys),
        without_entry(tree, (tree.key)(dir.parts), j).names_once(),
{
    let key = (tree.key)(dir.parts);
    let less = without_entry(tree, key, j);
    let n = law_walk_ends(w, roots, tree, keys);
    let m = lemma_follows_all(w, roots, tree, key, j, dir, file, n, n);
    assert forall|k: Seq<char>| #[trigger] less.readable(k) implies keys.contains(k) by {
        assert(tree.readable(k));
    }
    let i = law_walk_ends(w, roots, less, keys);
    lemma_one_end(roots_offered(w, roots, less), less, m, i);
    assert forall|k: Seq<char>, a: int, b: int|
        #![trigger less.list(k)[a], less.list(k)[b]]
        less.readable(k) && 0 <= a < b < less.list(k).len() && less.list(k)[a].kind == EntryKind::File
            && less.list(k)[b].kind == EntryKind::File implies less.list(k)[a].name != less.list(k)[b].name by {
        let (x, y) = if k == key {
            (
                if a < j {
                    a
                } else {
                    a + 1
                },
                if b < j {
                    b
                } else {
                    b + 1
                },
            )
        } else {
            (a, b)
        };
        assert(tree.readable(k));
        assert(less.list(k)[a] == tree.list(k)[x] && less.list(k)[b] == tree.list(k)[y]);
        assert(tree.list(k)[x].name != tree.list(k)[y].name);
    }
}

/// Leaving a file out of what a walk reports leaves the others.
pub proof fn lemma_found_but(found: Seq<FoundV>, file: PathV, p: PathV)
    ensures
        files_found(found_but(found, file)).contains(p) <==> files_found(found).contains(p) && p != file,
    decreases found.len(),
{
    let keep = |e: FoundV| e != FoundV::File(file);
    if found.len() > 0 {
        let rest = found.drop_last();
        lemma_found_but(rest, file, p);
        assert(rest.push(found.last()) =~= found);
        lemma_filter_push(rest, found.last(), keep);
        let (a, b) = (found_but(rest, file), found_but(found, file));
        if keep(found.last()) {
            assert(b.drop_last() =~= a);
        }
        if let FoundV::File(q) = found.last() {
            lemma_push_path(files_found(rest), q, p);
            lemma_push_path(files_found(a), q, p);
        }
    } else {
        reveal(Seq::filter);
        assert(found_but(found, file) =~= Seq::<FoundV>::empty());
    }
}

proof fn lemma_push_path(list: Seq<PathV>, q: PathV, p: PathV)
    ensures
        list.push(q).contains(p) <==> list.contains(p) || p == q,
{
    let n = list.push(q);
    if list.contains(p) {
        let i = choose|i: int| 0 <= i < list.len() && list[i] == p;
        assert(n[i] == p);
    }
    if p == q {
        assert(n[list.len() as int] == p);
    }
    if n.contains(p) && p != q {
        let i = choose|i: int| 0 <= i < n.len() && n[i] == p;
        assert(list[i] == p);
    }
}

} // verus!
