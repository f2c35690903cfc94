//! The decisions of a directory walk: which directories to enter, which
//! entries to report, and that no real directory is entered twice.

use vstd::hash_set::StringHashSet;
use vstd::prelude::*;

use crate::filetypes::{
    extension_accepted, extension_of, is_default_excluded_file, is_temp_name, path_extension, ExtensionFilter,
};
use crate::paths::{lossy, lossy_text, FilePath, PathId, PathSet, PathV};
use crate::text::{lowercase, to_lower};

verus! {

/// What a directory entry is.
#[derive(Clone, Copy, Debug, PartialEq, Eq, Structural)]
pub enum EntryKind {
    /// A symbolic link that leads to a directory.
    DirLink,
    /// Any other symbolic link, a broken one too.
    OtherLink,
    Dir,
    File,
    /// A device, a socket and the like.
    Other,
    /// The entry or its type could not be read.
    Unreadable,
}

/// What to do with a directory entry.
#[derive(Clone, Copy, Debug, PartialEq, Eq, Structural)]
pub enum EntryAction {
    Skip,
    /// Offer the directory to the walk.
    Enter,
    /// Report the file.
    Report,
}

/// A walk as a mathematical value.
pub struct WalkV {
    pub completed: Set<Seq<char>>,
    pub seen: Set<PathId>,
    pub excluded: Set<Seq<char>>,
    pub chosen: Option<Seq<Seq<char>>>,
    pub exclude_temp: bool,
    pub visited: Set<Seq<char>>,
    pub open: Seq<Seq<char>>,
}

/// A walk over directory trees. Real directories go by a key, so that one that
/// is reached on two ways counts once.
pub struct Walker {
    completed: StringHashSet,
    seen: PathSet,
    excluded: StringHashSet,
    filter: Option<ExtensionFilter>,
    exclude_temp: bool,
    visited: StringHashSet,
    open: Vec<String>,
}

impl View for Walker {
    type V = WalkV;

    closed spec fn view(&self) -> WalkV {
        WalkV {
            completed: self.completed@,
            seen: self.seen@,
            excluded: self.excluded@,
            chosen: match self.filter {
                Some(f) => Some(f.chosen.deep_view()),
                None => None,
            },
            exclude_temp: self.exclude_temp,
            visited: self.visited@,
            open: self.open.deep_view(),
        }
    }
}

/// A new walk under these rules: nothing is complete to it, nothing was seen, and it
/// has not begun.
pub open spec fn new_walk(excluded: Set<Seq<char>>, chosen: Option<Seq<Seq<char>>>, exclude_temp: bool) -> WalkV {
    WalkV {
        completed: Set::empty(),
        seen: Set::empty(),
        excluded,
        chosen,
        exclude_temp,
        visited: Set::empty(),
        open: Seq::empty(),
    }
}

impl WalkV {
    /// Every open directory was visited, is open once, and was not already
    /// complete when the walk began.
    pub open spec fn wf(self) -> bool {
        &&& self.open.no_duplicates()
        &&& forall|i: int| 0 <= i < self.open.len() ==> self.visited.contains(#[trigger] self.open[i])
        &&& forall|i: int| 0 <= i < self.open.len() ==> !self.completed.contains(#[trigger] self.open[i])
    }

    /// Whether a real directory is to be opened now: not if it was offered
    /// before, and not if an earlier scan completed it.
    pub open spec fn admits(self, key: Seq<char>) -> bool {
        !self.visited.contains(key) && !self.completed.contains(key)
    }

    pub open spec fn after_offer(self, key: Seq<char>) -> WalkV {
        WalkV { visited: self.visited.insert(key), ..self }
    }

    pub open spec fn after_open(self, key: Seq<char>) -> WalkV {
        WalkV { open: self.open.push(key), ..self }
    }

    pub open spec fn after_leave(self) -> WalkV {
        WalkV { open: self.open.drop_last(), ..self }
    }

    /// What becomes of a directory with this name in lower case.
    pub open spec fn dir_choice(self, lowered: Seq<char>) -> EntryAction {
        if self.excluded.contains(lowered) {
            EntryAction::Skip
        } else {
            EntryAction::Enter
        }
    }

    /// What becomes of a file with this extension; `temp` tells whether its name
    /// is that of a temporary file.
    pub open spec fn file_choice(self, path: PathId, temp: bool, ext: Seq<char>) -> EntryAction {
        if self.seen.contains(path) || (self.exclude_temp && temp) {
            EntryAction::Skip
        } else {
            match self.chosen {
                Some(chosen) => if extension_accepted(chosen, ext) {
                    EntryAction::Report
                } else {
                    EntryAction::Skip
                },
                None => EntryAction::Report,
            }
        }
    }

    /// What becomes of an entry called `name` at `path`.
    pub open spec fn action(self, kind: EntryKind, name: Seq<u8>, path: PathId) -> EntryAction {
        match kind {
            EntryKind::DirLink | EntryKind::Dir => self.dir_choice(lowercase(lossy(name))),
            EntryKind::File => self.file_choice(path, is_temp_name(lossy(name)), path_extension(path)),
            EntryKind::OtherLink | EntryKind::Other | EntryKind::Unreadable => EntryAction::Skip,
        }
    }
}

/// The parts of a list of paths, as a set.
pub open spec fn ids_of(paths: Seq<PathV>) -> Set<PathId> {
    paths.map_values(|p: PathV| p.parts).to_set()
}

/// A path is in the set of a list that holds it.
pub proof fn lemma_ids_has(paths: Seq<PathV>, id: PathId)
    ensures
        ids_of(paths).contains(id) <==> exists|i: int| 0 <= i < paths.len() && (#[trigger] paths[i]).parts == id,
{
    let m = paths.map_values(|p: PathV| p.parts);
    if ids_of(paths).contains(id) {
        let i = choose|i: int| 0 <= i < m.len() && m[i] == id;
        assert(paths[i].parts == id);
    }
    if exists|i: int| 0 <= i < paths.len() && (#[trigger] paths[i]).parts == id {
        let i = choose|i: int| 0 <= i < paths.len() && (#[trigger] paths[i]).parts == id;
        assert(m[i] == id);
    }
}

pub proof fn lemma_ids_push(paths: Seq<PathV>, p: PathV)
    ensures
        ids_of(paths.push(p)) == ids_of(paths).insert(p.parts),
{
    lemma_ids_concat(paths, seq![p]);
    assert(paths + seq![p] =~= paths.push(p));
    assert forall|x: PathId| ids_of(seq![p]).contains(x) <==> x == p.parts by {
        lemma_ids_has(seq![p], x);
        assert(seq![p][0].parts == p.parts);
    }
    assert(ids_of(paths.push(p)) =~= ids_of(paths).insert(p.parts));
}

pub proof fn lemma_ids_concat(a: Seq<PathV>, b: Seq<PathV>)
    ensures
        ids_of(a + b) == ids_of(a).union(ids_of(b)),
{
    assert forall|x: PathId| ids_of(a + b).contains(x) <==> ids_of(a).union(ids_of(b)).contains(x) by {
        lemma_ids_has(a, x);
        lemma_ids_has(b, x);
        lemma_ids_has(a + b, x);
        if ids_of(a).contains(x) {
            let i = choose|i: int| 0 <= i < a.len() && (#[trigger] a[i]).parts == x;
            assert((a + b)[i].parts == x);
        }
        if ids_of(b).contains(x) {
            let i = choose|i: int| 0 <= i < b.len() && (#[trigger] b[i]).parts == x;
            assert((a + b)[a.len() + i].parts == x);
        }
        if ids_of(a + b).contains(x) {
            let i = choose|i: int| 0 <= i < (a + b).len() && (#[trigger] (a + b)[i]).parts == x;
            if i < a.len() {
                assert(a[i].parts == x);
            } else {
                assert(b[i - a.len()].parts == x);
            }
        }
    }
    assert(ids_of(a + b) =~= ids_of(a).union(ids_of(b)));
}

/// A set of the texts of a list.
pub fn text_set(list: &Vec<String>) -> (r: StringHashSet)
    ensures
        r@ == list.deep_view().to_set(),
{
    let mut r = StringHashSet::new();
    let mut i: usize = 0;
    assert(list.deep_view().take(0).to_set() =~= Set::<Seq<char>>::empty());
    while i < list.len()
        invariant
            i <= list@.len(),
            r@ == list.deep_view().take(i as int).to_set(),
        decreases list@.len() - i,
    {
        r.insert(list[i].clone());
        proof {
            let s = list.deep_view().take(i as int);
            let t = list.deep_view().take(i + 1);
            assert(t =~= s.push(list@[i as int]@));
            assert(t.to_set() =~= s.to_set().insert(list@[i as int]@)) by {
                assert forall|x: Seq<char>| t.to_set().contains(x) == s.to_set().insert(list@[i as int]@).contains(x) by {
                    if s.contains(x) {
                        let j = choose|j: int| 0 <= j < s.len() && s[j] == x;
                        assert(t[j] == x);
                    }
                    if x == list@[i as int]@ {
                        assert(t[i as int] == x);
                    }
                }
            }
        }
        i = i + 1;
    }
    assert(list.deep_view().take(i as int) =~= list.deep_view());
    r
}

/// A set of the paths of a list.
pub fn path_set(list: &Vec<FilePath>) -> (r: PathSet)
    ensures
        r@ == ids_of(list.deep_view()),
{
    let mut r = PathSet::new();
    let mut i: usize = 0;
    assert(ids_of(list.deep_view().take(0)) =~= Set::<PathId>::empty());
    while i < list.len()
        invariant
            i <= list@.len(),
            r@ == ids_of(list.deep_view().take(i as int)),
        decreases list@.len() - i,
    {
        r.insert(&list[i]);
        proof {
            let p = list@[i as int]@.parts;
            let s = list.deep_view().take(i as int).map_values(|p: PathV| p.parts);
            let t = list.deep_view().take(i + 1).map_values(|p: PathV| p.parts);
            assert(t =~= s.push(p));
            assert(t.to_set() =~= s.to_set().insert(p)) by {
                assert forall|x: PathId| t.to_set().contains(x) == s.to_set().insert(p).contains(x) by {
                    if s.contains(x) {
                        let j = choose|j: int| 0 <= j < s.len() && s[j] == x;
                        assert(t[j] == x);
                    }
                    if x == p {
                        assert(t[i as int] == x);
                    }
                }
            }
        }
        i = i + 1;
    }
    assert(list.deep_view().take(i as int) =~= list.deep_view());
    r
}

impl Walker {
    /// A walk that has not begun. `completed` holds the keys of directories
    /// that need no visit, `seen` the files that need no report, `excluded`
    /// the directory names, in lower case, that are not entered.
    pub fn new(
        completed: &Vec<String>,
        seen: &Vec<FilePath>,
        excluded: &Vec<String>,
        filter: Option<ExtensionFilter>,
        exclude_temp: bool,
    ) -> (r: Walker)
        ensures
            r@.wf(),
            r@ == (WalkV {
                completed: completed.deep_view().to_set(),
                seen: ids_of(seen.deep_view()),
                excluded: excluded.deep_view().to_set(),
                chosen: match filter {
                    Some(f) => Some(f.chosen.deep_view()),
                    None => None,
                },
                exclude_temp,
                visited: Set::empty(),
                open: Seq::empty(),
            }),
    {
        let open: Vec<String> = Vec::new();
        assert(open.deep_view() =~= Seq::<Seq<char>>::empty());
        Walker {
            completed: text_set(completed),
            seen: path_set(seen),
            excluded: text_set(excluded),
            filter,
            exclude_temp,
            visited: StringHashSet::new(),
            open,
        }
    }

    /// Offers a real directory to the walk; says whether to open it.
    pub fn try_push(&mut self, key: &str) -> (admitted: bool)
        requires
            old(self)@.wf(),
        ensures
            final(self)@.wf(),
            admitted == old(self)@.admits(key@),
            final(self)@ == old(self)@.after_offer(key@),
            admitted ==> !final(self)@.open.contains(key@),
    {
        if self.visited.contains(key) {
            assert(self@.visited.insert(key@) =~= self@.visited);
            return false;
        }
        self.visited.insert(key.to_string());
        if self.completed.contains(key) {
            return false;
        }
        true
    }

    /// Takes note that a directory that was admitted is open.
    pub fn opened(&mut self, key: String)
        requires
            old(self)@.wf(),
            old(self)@.visited.contains(key@),
            !old(self)@.completed.contains(key@),
            !old(self)@.open.contains(key@),
        ensures
            final(self)@.wf(),
            final(self)@ == old(self)@.after_open(key@),
    {
        self.open.push(key);
        assert(self.open.deep_view() =~= old(self).open.deep_view().push(key@));
        proof {
            let o = old(self)@.open;
            let n = self@.open;
            assert forall|i: int, j: int| 0 <= i < n.len() && 0 <= j < n.len() && i != j implies n[i] != n[j] by {
                if i == o.len() {
                    assert(o.contains(o[j]));
                }
                if j == o.len() {
                    assert(o.contains(o[i]));
                }
            }
        }
    }

    /// Whether a directory is open.
    pub fn is_open(&self) -> (r: bool)
        ensures
            r == (self@.open.len() > 0),
    {
        self.open.len() > 0
    }

    /// Leaves the innermost open directory, which has no entries left, and
    /// gives its key.
    pub fn leave(&mut self) -> (key: Option<String>)
        requires
            old(self)@.wf(),
        ensures
            final(self)@.wf(),
            match key {
                Some(k) => old(self)@.open.len() > 0 && k@ == old(self)@.open.last() && final(self)@
                    == old(self)@.after_leave(),
                None => old(self)@.open.len() == 0 && final(self)@ == old(self)@,
            },
    {
        let key = self.open.pop();
        proof {
            if key is Some {
                assert(self.open.deep_view() =~= old(self).open.deep_view().drop_last());
                assert forall|i: int| 0 <= i < self@.open.len() implies self@.visited.contains(#[trigger] self@.open[i])
                    && !self@.completed.contains(self@.open[i]) by {
                    assert(self@.open[i] == old(self)@.open[i]);
                }
            } else {
                assert(self.open.deep_view() =~= old(self).open.deep_view());
            }
        }
        key
    }

    /// Decides about a directory, by its name in lower case.
    pub fn dir_action(&self, lowered: &str) -> (r: EntryAction)
        ensures
            r == self@.dir_choice(lowered@),
            r == EntryAction::Enter <==> !self@.excluded.contains(lowered@),
            r == EntryAction::Skip <==> self@.excluded.contains(lowered@),
    {
        if self.excluded.contains(lowered) {
            EntryAction::Skip
        } else {
            EntryAction::Enter
        }
    }

    /// Decides about a file, by its path, by whether it is temporary and by its
    /// extension.
    pub fn file_action(&self, path: &FilePath, temp: bool, ext: &str) -> (r: EntryAction)
        ensures
            r == self@.file_choice(path@.parts, temp, ext@),
    {
        if self.seen.contains(path) || (self.exclude_temp && temp) {
            return EntryAction::Skip;
        }
        match &self.filter {
            Some(f) => {
                if f.accepts(ext) {
                    EntryAction::Report
                } else {
                    EntryAction::Skip
                }
            },
            None => EntryAction::Report,
        }
    }

    /// Decides about one entry of an open directory.
    pub fn entry_action(&self, kind: EntryKind, name: &Vec<u8>, path: &FilePath) -> (r: EntryAction)
        ensures
            r == self@.action(kind, name@, path@.parts),
            r == EntryAction::Enter <==> (kind == EntryKind::Dir || kind == EntryKind::DirLink)
                && !self@.excluded.contains(lowercase(lossy(name@))),
            r == EntryAction::Report ==> kind == EntryKind::File && !self@.seen.contains(path@.parts),
    {
        match kind {
            EntryKind::DirLink | EntryKind::Dir => self.dir_action(to_lower(lossy_text(name).as_str()).as_str()),
            EntryKind::File => self.file_action(
                path,
                is_default_excluded_file(lossy_text(name).as_str()),
                extension_of(path).as_str(),
            ),
            EntryKind::OtherLink | EntryKind::Other | EntryKind::Unreadable => EntryAction::Skip,
        }
    }
}

// ----------------------------------------------------------------------- laws

/// A step of a walk.
pub enum WalkOp {
    Offer(Seq<char>),
    Open(Seq<char>),
    Leave,
}

/// A walk after a row of steps.
pub open spec fn walked(w: WalkV, ops: Seq<WalkOp>) -> WalkV
    decreases ops.len(),
{
    if ops.len() == 0 {
        w
    } else {
        let before = walked(w, ops.drop_last());
        match ops.last() {
            WalkOp::Offer(key) => before.after_offer(key),
            WalkOp::Open(key) => before.after_open(key),
            WalkOp::Leave => before.after_leave(),
        }
    }
}

/// Once offered, a real directory is never admitted again, whatever the walk
/// does in between: links that lead back up cannot make it run in circles.
pub proof fn law_never_entered_twice(w: WalkV, key: Seq<char>, ops: Seq<WalkOp>)
    ensures
        !walked(w.after_offer(key), ops).admits(key),
{
    lemma_stays_visited(w.after_offer(key), key, ops);
}

proof fn lemma_stays_visited(w: WalkV, key: Seq<char>, ops: Seq<WalkOp>)
    requires
        w.visited.contains(key),
    ensures
        walked(w, ops).visited.contains(key),
    decreases ops.len(),
{
    if ops.len() > 0 {
        lemma_stays_visited(w, key, ops.drop_last());
    }
}

/// A directory that an earlier scan completed is not entered again.
pub proof fn law_completed_not_entered(w: WalkV, key: Seq<char>, ops: Seq<WalkOp>)
    requires
        w.completed.contains(key),
    ensures
        !walked(w, ops).admits(key),
{
    lemma_completed_stays(w, ops);
}

proof fn lemma_completed_stays(w: WalkV, ops: Seq<WalkOp>)
    ensures
        walked(w, ops).completed == w.completed,
    decreases ops.len(),
{
    if ops.len() > 0 {
        lemma_completed_stays(w, ops.drop_last());
    }
}

/// A symbolic link to a file is never reported: it is the same file, no copy.
pub proof fn law_file_links_not_reported(w: WalkV, name: Seq<u8>, path: PathId)
    ensures
        w.action(EntryKind::OtherLink, name, path) == EntryAction::Skip,
        w.action(EntryKind::DirLink, name, path) != EntryAction::Report,
{
}

} // verus!
