//! Removing or moving duplicates, item by item.
//!
//! An item of which it is not sure that it is a duplicate is compared with the
//! copy that stays before it is touched, and nothing that is there already is
//! overwritten.

use vstd::prelude::*;

use crate::paths::{FilePath, PathV};
use crate::removal::{mirrored, mirrored_path};
use crate::text::{concat2, count_text, decimal};

verus! {

/// A file or directory to remove. Where `needs_verify` is set, it is compared
/// with `reference` before that.
#[derive(Debug)]
pub struct ActionItem {
    pub path: FilePath,
    pub is_folder: bool,
    pub needs_verify: bool,
    pub reference: FilePath,
}

pub struct ItemV {
    pub path: PathV,
    pub is_folder: bool,
    pub needs_verify: bool,
    pub reference: PathV,
}

impl View for ActionItem {
    type V = ItemV;

    open spec fn view(&self) -> ItemV {
        ItemV {
            path: self.path@,
            is_folder: self.is_folder,
            needs_verify: self.needs_verify,
            reference: self.reference@,
        }
    }
}

impl DeepView for ActionItem {
    type V = ItemV;

    open spec fn deep_view(&self) -> ItemV {
        self@
    }
}

/// What is done with items.
#[derive(Debug)]
pub enum ActionKind {
    Trash,
    MoveTo(FilePath),
}

pub enum KindV {
    Trash,
    MoveTo(PathV),
}

impl View for ActionKind {
    type V = KindV;

    open spec fn view(&self) -> KindV {
        match self {
            ActionKind::Trash => KindV::Trash,
            ActionKind::MoveTo(d) => KindV::MoveTo(d@),
        }
    }
}

/// What was done. `succeeded_paths` are those that were removed or moved in
/// fact, so none in a dry run.
#[derive(Debug)]
pub struct ActionReport {
    pub moved_files: usize,
    pub moved_folders: usize,
    pub failures: Vec<String>,
    pub dry_run: bool,
    pub dest: Option<FilePath>,
    pub succeeded_paths: Vec<FilePath>,
}

pub struct ActionReportV {
    pub moved_files: nat,
    pub moved_folders: nat,
    pub failures: Seq<Seq<char>>,
    pub dry_run: bool,
    pub dest: Option<PathV>,
    pub succeeded_paths: Seq<PathV>,
}

impl View for ActionReport {
    type V = ActionReportV;

    open spec fn view(&self) -> ActionReportV {
        ActionReportV {
            moved_files: self.moved_files as nat,
            moved_folders: self.moved_folders as nat,
            failures: self.failures.deep_view(),
            dry_run: self.dry_run,
            dest: self.dest.deep_view(),
            succeeded_paths: self.succeeded_paths.deep_view(),
        }
    }
}

/// Who is told.
#[derive(Clone, Copy, Debug, PartialEq, Eq, Structural)]
pub enum Wording {
    /// A command line.
    Command,
    /// A window.
    Window,
}

/// How far an item has come.
#[derive(Clone, Copy, Debug, PartialEq, Eq, Structural)]
pub enum ItemStage {
    Start,
    /// It is sure to be a duplicate.
    Verified,
    /// Nothing is in its way.
    Clear,
}

/// What comparing an item with the copy that stays came to.
#[derive(Debug)]
pub enum Verified {
    Same,
    Different,
    /// It could not be done, for this reason.
    Failed(String),
}

pub enum VerifiedV {
    Same,
    Different,
    Failed(Seq<char>),
}

impl View for Verified {
    type V = VerifiedV;

    open spec fn view(&self) -> VerifiedV {
        match self {
            Verified::Same => VerifiedV::Same,
            Verified::Different => VerifiedV::Different,
            Verified::Failed(e) => VerifiedV::Failed(e@),
        }
    }
}

/// What is to be done next.
#[derive(Debug)]
pub enum ActionRequest {
    /// Compare the two files.
    Verify(FilePath, FilePath),
    /// See whether there is something at this path.
    LookAt(FilePath),
    /// Nothing but to say what would be done.
    Note(String),
    Trash(FilePath),
    Move(FilePath, FilePath),
    Done,
}

pub enum RequestV {
    Verify(PathV, PathV),
    LookAt(PathV),
    Note(Seq<char>),
    Trash(PathV),
    Move(PathV, PathV),
    Done,
}

impl View for ActionRequest {
    type V = RequestV;

    open spec fn view(&self) -> RequestV {
        match self {
            ActionRequest::Verify(a, b) => RequestV::Verify(a@, b@),
            ActionRequest::LookAt(p) => RequestV::LookAt(p@),
            ActionRequest::Note(s) => RequestV::Note(s@),
            ActionRequest::Trash(p) => RequestV::Trash(p@),
            ActionRequest::Move(a, b) => RequestV::Move(a@, b@),
            ActionRequest::Done => RequestV::Done,
        }
    }
}

// ------------------------------------------------------------------------ texts

/// What is said of an item that turned out to be no duplicate.
pub open spec fn unverified_text(wording: Wording, kind: KindV, dry_run: bool) -> Seq<char> {
    match wording {
        Wording::Window => ": not verified as an actual duplicate of the kept file -- skipped rather than risk it"@,
        Wording::Command => ": not verified as an actual duplicate of the kept file -- "@ + (if dry_run {
            "would be skipped"@
        } else {
            "skipped"@
        }) + (match kind {
            KindV::Trash => " rather than risk deleting a non-duplicate"@,
            KindV::MoveTo(_) => " rather than risk moving a non-duplicate"@,
        }),
    }
}

/// What is said in a dry run.
pub open spec fn would_text(item: ItemV, kind: KindV) -> Seq<char> {
    match kind {
        KindV::Trash => (if item.is_folder {
            "  would delete folder: "@
        } else {
            "  would delete: "@
        }) + item.path.text,
        KindV::MoveTo(d) => (if item.is_folder {
            "  would move folder: "@
        } else {
            "  would move: "@
        }) + item.path.text + " -> "@ + mirrored(item.path.parts, d).text,
    }
}

pub open spec fn in_the_way_text(path: PathV, dest: PathV) -> Seq<char> {
    path.text + ": destination "@ + dest.text + " already exists -- skipped"@
}

// ------------------------------------------------------------------- the machine

/// An action in progress as a mathematical value.
#[verifier::ext_equal]
pub struct ActionV {
    pub items: Seq<ItemV>,
    pub kind: KindV,
    pub dry_run: bool,
    pub wording: Wording,
    pub at: nat,
    pub stage: ItemStage,
    pub report: ActionReportV,
}

pub open spec fn blank_report(kind: KindV, dry_run: bool) -> ActionReportV {
    ActionReportV {
        moved_files: 0,
        moved_folders: 0,
        failures: Seq::empty(),
        dry_run,
        dest: match kind {
            KindV::Trash => None,
            KindV::MoveTo(d) => Some(d),
        },
        succeeded_paths: Seq::empty(),
    }
}

pub open spec fn action_begun(items: Seq<ItemV>, kind: KindV, dry_run: bool, wording: Wording) -> ActionV {
    ActionV {
        items,
        kind,
        dry_run,
        wording,
        at: 0,
        stage: ItemStage::Start,
        report: blank_report(kind, dry_run),
    }
}

/// Whether these are the paths of some of the items, in their order, so many of them
/// of files and so many of directories.
pub open spec fn done_in_order(items: Seq<ItemV>, paths: Seq<PathV>, files: nat, folders: nat) -> bool
    decreases items.len(),
{
    if items.len() == 0 {
        paths.len() == 0 && files == 0 && folders == 0
    } else {
        let (before, item) = (items.drop_last(), items.last());
        done_in_order(before, paths, files, folders) || (paths.len() > 0 && paths.last() == item.path
            && if item.is_folder {
            folders > 0 && done_in_order(before, paths.drop_last(), files, (folders - 1) as nat)
        } else {
            files > 0 && done_in_order(before, paths.drop_last(), (files - 1) as nat, folders)
        })
    }
}

impl ActionV {
    pub open spec fn item(self) -> ItemV {
        self.items[self.at as int]
    }

    /// What is to be done next: an item is compared if need be, then its place
    /// is looked at if it is moved, then it is removed.
    pub open spec fn request(self) -> RequestV {
        if self.at >= self.items.len() {
            RequestV::Done
        } else if self.stage == ItemStage::Start && self.item().needs_verify {
            RequestV::Verify(self.item().reference, self.item().path)
        } else {
            match self.kind {
                KindV::Trash => if self.dry_run {
                    RequestV::Note(would_text(self.item(), self.kind))
                } else {
                    RequestV::Trash(self.item().path)
                },
                KindV::MoveTo(d) => if self.stage != ItemStage::Clear {
                    RequestV::LookAt(mirrored(self.item().path.parts, d))
                } else if self.dry_run {
                    RequestV::Note(would_text(self.item(), self.kind))
                } else {
                    RequestV::Move(self.item().path, mirrored(self.item().path.parts, d))
                },
            }
        }
    }

    /// On to the next item.
    pub open spec fn next(self) -> ActionV {
        ActionV { at: self.at + 1, stage: ItemStage::Start, ..self }
    }

    /// The item is left alone, for this reason.
    pub open spec fn failed(self, why: Seq<char>) -> ActionV {
        ActionV {
            report: ActionReportV { failures: self.report.failures.push(why), ..self.report },
            ..self
        }.next()
    }

    /// The item counts as done.
    pub open spec fn tallied(self) -> ActionV {
        ActionV {
            report: if self.item().is_folder {
                ActionReportV { moved_folders: self.report.moved_folders + 1, ..self.report }
            } else {
                ActionReportV { moved_files: self.report.moved_files + 1, ..self.report }
            },
            ..self
        }
    }

    pub open spec fn after_verify(self, outcome: VerifiedV) -> ActionV {
        match outcome {
            VerifiedV::Same => ActionV { stage: ItemStage::Verified, ..self },
            VerifiedV::Different => self.failed(
                self.item().path.text + unverified_text(self.wording, self.kind, self.dry_run),
            ),
            VerifiedV::Failed(e) => self.failed(
                self.item().path.text + ": could not verify against kept file: "@ + e,
            ),
        }
    }

    pub open spec fn after_look(self, exists: bool) -> ActionV {
        match self.kind {
            KindV::Trash => self,
            KindV::MoveTo(d) => if exists {
                self.failed(in_the_way_text(self.item().path, mirrored(self.item().path.parts, d)))
            } else {
                ActionV { stage: ItemStage::Clear, ..self }
            },
        }
    }

    pub open spec fn after_note(self) -> ActionV {
        self.tallied().next()
    }

    /// After an item was removed, or could not be, for a reason.
    pub open spec fn after_act(self, error: Option<Seq<char>>) -> ActionV {
        match error {
            None => ActionV {
                report: ActionReportV {
                    succeeded_paths: self.report.succeeded_paths.push(self.item().path),
                    ..self.report
                },
                ..self
            }.tallied().next(),
            Some(e) => self.failed(self.item().path.text + ": "@ + e),
        }
    }

    /// Every item gone through was done or failed. What was done is listed, in the
    /// order of the items; a dry run lists nothing.
    pub open spec fn wf(self) -> bool {
        &&& self.at <= self.items.len() <= usize::MAX
        &&& self.report.moved_files + self.report.moved_folders + self.report.failures.len() == self.at
        &&& self.dry_run ==> self.report.succeeded_paths.len() == 0
        &&& !self.dry_run ==> done_in_order(
            self.items.take(self.at as int),
            self.report.succeeded_paths,
            self.report.moved_files as nat,
            self.report.moved_folders as nat,
        )
    }
}

/// An action in progress.
pub struct Action {
    items: Vec<ActionItem>,
    kind: ActionKind,
    dry_run: bool,
    wording: Wording,
    at: usize,
    stage: ItemStage,
    report: ActionReport,
}

impl View for Action {
    type V = ActionV;

    closed spec fn view(&self) -> ActionV {
        ActionV {
            items: self.items.deep_view(),
            kind: self.kind@,
            dry_run: self.dry_run,
            wording: self.wording,
            at: self.at as nat,
            stage: self.stage,
            report: self.report@,
        }
    }
}

fn new_report(kind: &ActionKind, dry_run: bool) -> (r: ActionReport)
    ensures
        r@ == blank_report(kind@, dry_run),
{
    let dest = match kind {
        ActionKind::Trash => None,
        ActionKind::MoveTo(d) => Some(d.clone()),
    };
    let failures: Vec<String> = Vec::new();
    let succeeded_paths: Vec<FilePath> = Vec::new();
    assert(failures.deep_view() =~= Seq::<Seq<char>>::empty());
    assert(succeeded_paths.deep_view() =~= Seq::<PathV>::empty());
    ActionReport { moved_files: 0, moved_folders: 0, failures, dry_run, dest, succeeded_paths }
}

/// The report of an action whose destination could not be made.
pub fn dest_failed(dest: &FilePath, dry_run: bool, error: &str) -> (r: ActionReport)
    ensures
        r@ == (ActionReportV {
            failures: seq![dest@.text + ": could not create destination: "@ + error@],
            ..blank_report(KindV::MoveTo(dest@), dry_run)
        }),
{
    let kind = ActionKind::MoveTo(dest.clone());
    let mut r = new_report(&kind, dry_run);
    let mut s = dest.shown();
    s.append(": could not create destination: ");
    s.append(error);
    let ghost sv = s@;
    r.failures.push(s);
    assert(r.failures.deep_view() =~= seq![sv]);
    r
}

impl Action {
    /// Begins an action on items.
    pub fn run_action(items: Vec<ActionItem>, kind: ActionKind, dry_run: bool, wording: Wording) -> (r: Action)
        ensures
            r@.wf(),
            r@ == action_begun(items.deep_view(), kind@, dry_run, wording),
    {
        let report = new_report(&kind, dry_run);
        let total: usize = items.len();
        assert(items.deep_view().len() == total);
        Action { items, kind, dry_run, wording, at: 0, stage: ItemStage::Start, report }
    }

    /// Where an action's items are moved to, if that has to be made first.
    pub fn dest_to_make(&self) -> (r: Option<FilePath>)
        ensures
            match r {
                Some(d) => !self@.dry_run && self@.kind == KindV::MoveTo(d@),
                None => self@.dry_run || self@.kind is Trash,
            },
    {
        if self.dry_run {
            return None;
        }
        match &self.kind {
            ActionKind::Trash => None,
            ActionKind::MoveTo(d) => Some(d.clone()),
        }
    }

    /// What is to be done next.
    pub fn request(&self) -> (r: ActionRequest)
        ensures
            r@ == self@.request(),
    {
        if self.at >= self.items.len() {
            return ActionRequest::Done;
        }
        let item = &self.items[self.at];
        assert(item@ == self@.item());
        if self.stage == ItemStage::Start && item.needs_verify {
            return ActionRequest::Verify(item.reference.clone(), item.path.clone());
        }
        match &self.kind {
            ActionKind::Trash => {
                if self.dry_run {
                    ActionRequest::Note(self.would_line(item))
                } else {
                    ActionRequest::Trash(item.path.clone())
                }
            },
            ActionKind::MoveTo(d) => {
                if self.stage != ItemStage::Clear {
                    ActionRequest::LookAt(mirrored_path(&item.path, d))
                } else if self.dry_run {
                    ActionRequest::Note(self.would_line(item))
                } else {
                    ActionRequest::Move(item.path.clone(), mirrored_path(&item.path, d))
                }
            },
        }
    }

    fn would_line(&self, item: &ActionItem) -> (r: String)
        ensures
            r@ == would_text(item@, self@.kind),
    {
        match &self.kind {
            ActionKind::Trash => {
                let start = if item.is_folder {
                    "  would delete folder: "
                } else {
                    "  would delete: "
                };
                concat2(start, item.path.text.as_str())
            },
            ActionKind::MoveTo(d) => {
                let start = if item.is_folder {
                    "  would move folder: "
                } else {
                    "  would move: "
                };
                let mut s = concat2(start, item.path.text.as_str());
                s.append(" -> ");
                s.append(mirrored_path(&item.path, d).text.as_str());
                s
            },
        }
    }

    fn fail(&mut self, why: String)
        requires
            old(self)@.wf(),
            old(self)@.at < old(self)@.items.len(),
        ensures
            final(self)@.wf(),
            final(self)@ == old(self)@.failed(why@),
    {
        let ghost wv = why@;
        self.report.failures.push(why);
        assert(self.report.failures.deep_view() =~= old(self).report.failures.deep_view().push(wv));
        self.at = self.at + 1;
        self.stage = ItemStage::Start;
        assert(self@.items.take(self@.at as int).drop_last() =~= old(self)@.items.take(old(self)@.at as int));
    }

    fn tally(&mut self)
        requires
            old(self)@.at < old(self)@.items.len() <= usize::MAX,
            old(self)@.report.moved_files + old(self)@.report.moved_folders <= old(self)@.at,
        ensures
            final(self)@ == old(self)@.tallied().next(),
    {
        let total: usize = self.items.len();
        assert(self@.items.len() == total);
        assert(self.items@[self.at as int]@ == self@.item());
        if self.items[self.at].is_folder {
            self.report.moved_folders = self.report.moved_folders + 1;
        } else {
            self.report.moved_files = self.report.moved_files + 1;
        }
        self.at = self.at + 1;
        self.stage = ItemStage::Start;
        assert(self@ =~= old(self)@.tallied().next());
    }

    /// What comparing the item with the copy that stays came to.
    pub fn verified(&mut self, outcome: Verified)
        requires
            old(self)@.wf(),
            old(self)@.request() is Verify,
        ensures
            final(self)@.wf(),
            final(self)@ == old(self)@.after_verify(outcome@),
    {
        assert(self.items@[self.at as int]@ == self@.item());
        match outcome {
            Verified::Same => {
                self.stage = ItemStage::Verified;
            },
            Verified::Different => {
                let mut s = self.items[self.at].path.shown();
                match self.wording {
                    Wording::Window => {
                        s.append(
                            ": not verified as an actual duplicate of the kept file -- skipped rather than risk it",
                        );
                    },
                    Wording::Command => {
                        let mut t = ": not verified as an actual duplicate of the kept file -- ".to_string();
                        t.append(
                            if self.dry_run {
                                "would be skipped"
                            } else {
                                "skipped"
                            },
                        );
                        t.append(
                            match &self.kind {
                                ActionKind::Trash => " rather than risk deleting a non-duplicate",
                                ActionKind::MoveTo(_) => " rather than risk moving a non-duplicate",
                            },
                        );
                        s.append(t.as_str());
                    },
                }
                self.fail(s);
            },
            Verified::Failed(e) => {
                let mut s = self.items[self.at].path.shown();
                s.append(": could not verify against kept file: ");
                s.append(e.as_str());
                self.fail(s);
            },
        }
    }

    /// Whether there is something where the item would go.
    pub fn looked(&mut self, exists: bool)
        requires
            old(self)@.wf(),
            old(self)@.request() is LookAt,
        ensures
            final(self)@.wf(),
            final(self)@ == old(self)@.after_look(exists),
    {
        assert(self.items@[self.at as int]@ == self@.item());
        if !exists {
            self.stage = ItemStage::Clear;
            return;
        }
        let why = match &self.kind {
            ActionKind::Trash => String::new(),
            ActionKind::MoveTo(d) => {
                let mut s = self.items[self.at].path.shown();
                s.append(": destination ");
                s.append(mirrored_path(&self.items[self.at].path, d).text.as_str());
                s.append(" already exists -- skipped");
                s
            },
        };
        self.fail(why);
    }

    /// What would be done was said.
    pub fn noted(&mut self)
        requires
            old(self)@.wf(),
            old(self)@.request() is Note,
        ensures
            final(self)@.wf(),
            final(self)@ == old(self)@.after_note(),
    {
        self.tally();
    }

    /// The item was removed, or could not be, for a reason.
    pub fn acted(&mut self, error: Option<String>)
        requires
            old(self)@.wf(),
            old(self)@.request() is Trash || old(self)@.request() is Move,
        ensures
            final(self)@.wf(),
            final(self)@ == old(self)@.after_act(error.deep_view()),
    {
        assert(self.items@[self.at as int]@ == self@.item());
        match error {
            None => {
                self.report.succeeded_paths.push(self.items[self.at].path.clone());
                assert(self.report.succeeded_paths.deep_view() =~= old(self).report.succeeded_paths.deep_view().push(
                    old(self)@.item().path,
                ));
                self.tally();
                proof {
                    let gone = self@.items.take(self@.at as int);
                    let paths = self@.report.succeeded_paths;
                    assert(gone.drop_last() =~= old(self)@.items.take(old(self)@.at as int));
                    assert(gone.last() == old(self)@.item());
                    assert(paths.drop_last() =~= old(self)@.report.succeeded_paths);
                }
            },
            Some(e) => {
                let mut s = self.items[self.at].path.shown();
                s.append(": ");
                s.append(e.as_str());
                self.fail(s);
            },
        }
    }

    /// What was done.
    pub fn finish(self) -> (r: ActionReport)
        ensures
            r@ == self@.report,
    {
        self.report
    }
}

// ---------------------------------------------------------------------- handles

/// An action that runs elsewhere.
#[derive(Debug)]
pub struct ActionHandle {
    pub done: bool,
    pub result: Option<ActionReport>,
}

pub struct ActionHandleV {
    pub done: bool,
    pub result: Option<ActionReportV>,
}

impl View for ActionHandle {
    type V = ActionHandleV;

    open spec fn view(&self) -> ActionHandleV {
        ActionHandleV {
            done: self.done,
            result: match self.result {
                Some(r) => Some(r@),
                None => None,
            },
        }
    }
}

impl ActionHandle {
    /// An action that has been started.
    pub fn started() -> (r: ActionHandle)
        ensures
            r@ == (ActionHandleV { done: false, result: None }),
    {
        ActionHandle { done: false, result: None }
    }

    /// The action has come to its end.
    pub fn complete(&mut self, report: ActionReport)
        ensures
            final(self)@ == (ActionHandleV { done: true, result: Some(report@) }),
    {
        self.result = Some(report);
        self.done = true;
    }

    /// Whether the action has come to its end.
    pub fn is_done(&self) -> (r: bool)
        ensures
            r == self@.done,
    {
        self.done
    }

    /// Takes the report out, once.
    pub fn take(&mut self) -> (r: Option<ActionReport>)
        ensures
            match r {
                Some(report) => old(self)@.result == Some(report@),
                None => old(self)@.result is None,
            },
            final(self)@ == (ActionHandleV { result: None, ..old(self)@ }),
    {
        self.result.take()
    }
}

// ---------------------------------------------------------------------- moving

/// How a move goes on after it was tried by renaming.
#[derive(Clone, Copy, Debug, PartialEq, Eq, Structural)]
pub enum MoveStep {
    Done,
    /// Copy the directory, then remove it where it was.
    CopyFolder,
    /// Copy the file, then remove it where it was.
    CopyFile,
}

/// Goes on with a move: what cannot be renamed, across devices, is copied.
pub fn move_path(renamed: bool, is_folder: bool) -> (r: MoveStep)
    ensures
        r == (if renamed {
            MoveStep::Done
        } else if is_folder {
            MoveStep::CopyFolder
        } else {
            MoveStep::CopyFile
        }),
{
    if renamed {
        MoveStep::Done
    } else if is_folder {
        MoveStep::CopyFolder
    } else {
        MoveStep::CopyFile
    }
}

// ---------------------------------------------------------------------- telling

/// How many failures a window shows at most.
pub const SHOWN_FAILURES: usize = 20;

/// What a window says of an action that has ended.
pub open spec fn report_headline_of(report: ActionReportV) -> Seq<char> {
    (if report.dry_run {
        "Would move"@
    } else {
        "Moved"@
    }) + " "@ + decimal(report.moved_files) + " file(s) and "@ + decimal(report.moved_folders) + " folder(s)"@ + (
    match report.dest {
        Some(d) => " to "@ + d.text,
        None => " to Trash"@,
    }) + "."@
}

pub fn report_headline(report: &ActionReport) -> (r: String)
    ensures
        r@ == report_headline_of(report@),
{
    let mut s = (if report.dry_run {
        "Would move"
    } else {
        "Moved"
    }).to_string();
    s.append(" ");
    s.append(count_text(report.moved_files).as_str());
    s.append(" file(s) and ");
    s.append(count_text(report.moved_folders).as_str());
    s.append(" folder(s)");
    match &report.dest {
        Some(d) => {
            s.append(concat2(" to ", d.text.as_str()).as_str());
        },
        None => {
            s.append(" to Trash");
        },
    }
    s.append(".");
    s
}

/// The failures that a window shows: the first ones.
pub fn shown_failures(report: &ActionReport) -> (r: Vec<String>)
    ensures
        r.deep_view() == report@.failures.take(
            if report@.failures.len() < SHOWN_FAILURES {
                report@.failures.len() as int
            } else {
                SHOWN_FAILURES as int
            },
        ),
{
    let mut r: Vec<String> = Vec::new();
    let mut i: usize = 0;
    assert(r.deep_view() =~= report@.failures.take(0));
    while i < report.failures.len() && i < SHOWN_FAILURES
        invariant
            i <= report.failures@.len(),
            i <= SHOWN_FAILURES,
            r.deep_view() == report@.failures.take(i as int),
        decreases report.failures@.len() - i,
    {
        let ghost before = r.deep_view();
        r.push(report.failures[i].clone());
        assert(report@.failures[i as int] == report.failures@[i as int]@);
        assert(r.deep_view() =~= before.push(report@.failures[i as int]));
        assert(r.deep_view() =~= report@.failures.take(i + 1));
        i = i + 1;
    }
    r
}

// ------------------------------------------------------------------------- laws

/// A dry run asks for nothing to be touched.
pub proof fn law_dry_run_touches_nothing(a: ActionV)
    requires
        a.dry_run,
    ensures
        !(a.request() is Trash),
        !(a.request() is Move),
{
}

/// An item that needs it is never removed before it was compared and found
/// equal, and nothing is moved to a place that was not looked at.
pub proof fn law_checked_before_touched(a: ActionV)
    requires
        a.request() is Trash || a.request() is Move || a.request() is Note,
    ensures
        a.item().needs_verify ==> a.stage != ItemStage::Start,
        a.request() is Move ==> a.stage == ItemStage::Clear,
{
}

/// Every item is compared anew: the stage of one does not carry over to the
/// next.
pub proof fn law_each_item_starts_anew(a: ActionV, outcome: VerifiedV, exists: bool, error: Option<Seq<char>>)
    ensures
        a.after_verify(outcome).at != a.at ==> a.after_verify(outcome).stage == ItemStage::Start,
        a.after_look(exists).at != a.at ==> a.after_look(exists).stage == ItemStage::Start,
        a.after_note().stage == ItemStage::Start,
        a.after_act(error).stage == ItemStage::Start,
{
}

/// When an action has come to its end, each of its items was done or is listed
/// among the failures.
pub proof fn law_every_item_accounted_for(a: ActionV)
    requires
        a.wf(),
        a.request() is Done,
    ensures
        a.report.moved_files + a.report.moved_folders + a.report.failures.len() == a.items.len(),
{
}

proof fn lemma_done_counts(items: Seq<ItemV>, paths: Seq<PathV>, files: nat, folders: nat)
    requires
        done_in_order(items, paths, files, folders),
    ensures
        paths.len() == files + folders,
        forall|i: int| 0 <= i < paths.len() ==> item_with(items, #[trigger] paths[i]),
    decreases items.len(),
{
    if items.len() > 0 {
        let (before, item) = (items.drop_last(), items.last());
        let kept = paths.drop_last();
        if done_in_order(before, paths, files, folders) {
            lemma_done_counts(before, paths, files, folders);
        } else if item.is_folder {
            lemma_done_counts(before, kept, files, (folders - 1) as nat);
        } else {
            lemma_done_counts(before, kept, (files - 1) as nat, folders);
        }
        assert forall|i: int| 0 <= i < paths.len() implies item_with(items, #[trigger] paths[i]) by {
            if !done_in_order(before, paths, files, folders) && i == paths.len() - 1 {
                assert(items[items.len() - 1].path == paths[i]);
            } else {
                if !done_in_order(before, paths, files, folders) {
                    assert(kept[i] == paths[i]);
                }
                assert(item_with(before, paths[i]));
                let k = choose|k: int| 0 <= k < before.len() && (#[trigger] before[k]).path == paths[i];
                assert(items[k].path == paths[i]);
            }
        }
    }
}

/// Whether an item has this path.
pub open spec fn item_with(items: Seq<ItemV>, path: PathV) -> bool {
    exists|k: int| 0 <= k < items.len() && (#[trigger] items[k]).path == path
}

/// The paths that are listed as done are paths of items, as many as were counted.
pub proof fn law_listed_paths_were_asked_for(a: ActionV)
    requires
        a.wf(),
        !a.dry_run,
    ensures
        a.report.succeeded_paths.len() == a.report.moved_files + a.report.moved_folders,
        forall|i: int|
            0 <= i < a.report.succeeded_paths.len() ==> item_with(a.items, #[trigger] a.report.succeeded_paths[i]),
{
    let gone = a.items.take(a.at as int);
    let paths = a.report.succeeded_paths;
    lemma_done_counts(gone, paths, a.report.moved_files as nat, a.report.moved_folders as nat);
    assert forall|i: int| 0 <= i < paths.len() implies item_with(a.items, #[trigger] paths[i]) by {
        assert(item_with(gone, paths[i]));
        let k = choose|k: int| 0 <= k < gone.len() && (#[trigger] gone[k]).path == paths[i];
        assert(a.items[k].path == paths[i]);
    }
}

} // verus!
