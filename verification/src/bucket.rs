//! Telling the files of one bucket apart by content.
//!
//! A bucket holds files of one size whose beginnings hash alike. The first of
//! them is compared with each of the others; those that are equal form a group
//! with it, those that differ go into the next round. A file on its
//! own comes out of a bucket too large to compare at once: its digest is taken.

use vstd::prelude::*;

use crate::paths::{FilePath, PathV};
use crate::tables::copy_paths;

verus! {

/// Files that were found equal, with the digest of their content.
#[derive(Debug)]
pub struct MatchGroup {
    pub digest: String,
    pub paths: Vec<FilePath>,
}

pub struct MatchV {
    pub digest: Seq<char>,
    pub paths: Seq<PathV>,
}

impl View for MatchGroup {
    type V = MatchV;

    open spec fn view(&self) -> MatchV {
        MatchV { digest: self.digest@, paths: self.paths.deep_view() }
    }
}

impl DeepView for MatchGroup {
    type V = MatchV;

    open spec fn deep_view(&self) -> MatchV {
        self@
    }
}

/// What became of a bucket.
#[derive(Debug)]
pub struct BucketResult {
    pub groups: Vec<MatchGroup>,
    pub skipped: Vec<FilePath>,
    pub processed_count: usize,
}

pub struct BucketResultV {
    pub groups: Seq<MatchV>,
    pub skipped: Seq<PathV>,
    pub processed_count: nat,
}

impl View for BucketResult {
    type V = BucketResultV;

    open spec fn view(&self) -> BucketResultV {
        BucketResultV {
            groups: self.groups.deep_view(),
            skipped: self.skipped.deep_view(),
            processed_count: self.processed_count as nat,
        }
    }
}

impl DeepView for BucketResult {
    type V = BucketResultV;

    open spec fn deep_view(&self) -> BucketResultV {
        self@
    }
}

/// What comparing two files came to.
#[derive(Clone, Copy, Debug, PartialEq, Eq, Structural)]
pub enum Compared {
    Same,
    Different,
    Unreadable,
}

/// What the resolver waits for.
#[derive(Clone, Copy, Debug, PartialEq, Eq, Structural)]
pub enum ResolverPhase {
    /// Whether the representative can be opened.
    Opening,
    /// How the next file compares with the representative.
    Comparing,
    /// The digest of the representative.
    Hashing,
    Done,
}

/// A resolver as a mathematical value.
pub struct ResolverV {
    pub phase: ResolverPhase,
    pub representative: PathV,
    pub rest: Seq<PathV>,
    pub matched: Seq<PathV>,
    pub leftover: Seq<PathV>,
    pub groups: Seq<MatchV>,
    pub skipped: Seq<PathV>,
    pub processed: nat,
}

impl ResolverV {
    /// A new round over the files that are left, or the end: a file that is
    /// left alone has no duplicate.
    pub open spec fn round(self, remaining: Seq<PathV>) -> ResolverV {
        if remaining.len() >= 2 {
            ResolverV {
                phase: ResolverPhase::Opening,
                representative: remaining[0],
                rest: remaining.skip(1),
                matched: Seq::empty(),
                leftover: Seq::empty(),
                ..self
            }
        } else {
            ResolverV {
                phase: ResolverPhase::Done,
                rest: Seq::empty(),
                matched: Seq::empty(),
                leftover: Seq::empty(),
                processed: self.processed + remaining.len(),
                ..self
            }
        }
    }

    pub open spec fn after_open(self, readable: bool) -> ResolverV {
        if readable {
            ResolverV { phase: ResolverPhase::Comparing, processed: self.processed + 1, ..self }
        } else {
            ResolverV {
                skipped: self.skipped.push(self.representative),
                processed: self.processed + 1,
                ..self
            }.round(self.rest)
        }
    }

    /// Goes on when no file of the round is left to compare.
    pub open spec fn settled(self) -> ResolverV {
        if self.rest.len() > 0 {
            self
        } else if self.matched.len() > 0 {
            ResolverV { phase: ResolverPhase::Hashing, ..self }
        } else {
            self.round(self.leftover)
        }
    }

    pub open spec fn after_compare(self, outcome: Compared) -> ResolverV {
        let other = self.rest[0];
        let next = ResolverV { rest: self.rest.skip(1), ..self };
        (match outcome {
            Compared::Same => ResolverV { matched: self.matched.push(other), processed: self.processed + 1, ..next },
            Compared::Different => ResolverV { leftover: self.leftover.push(other), ..next },
            Compared::Unreadable => ResolverV {
                skipped: self.skipped.push(other),
                processed: self.processed + 1,
                ..next
            },
        }).settled()
    }

    pub open spec fn after_hash(self, digest: Option<Seq<char>>) -> ResolverV {
        (match digest {
            Some(d) => ResolverV {
                groups: self.groups.push(MatchV { digest: d, paths: seq![self.representative] + self.matched }),
                ..self
            },
            None => ResolverV { skipped: self.skipped.push(self.representative) + self.matched, ..self },
        }).round(self.leftover)
    }

    /// How many files are not counted as processed yet.
    pub open spec fn outstanding(self) -> nat {
        match self.phase {
            ResolverPhase::Opening => 1 + self.rest.len() + self.leftover.len(),
            ResolverPhase::Comparing => self.rest.len() + self.leftover.len(),
            ResolverPhase::Hashing => self.leftover.len(),
            ResolverPhase::Done => 0,
        }
    }

    /// Files to compare are there while they are awaited, and no others.
    pub open spec fn wf(self) -> bool {
        &&& self.processed + self.outstanding() <= usize::MAX
        &&& match self.phase {
            ResolverPhase::Opening => self.rest.len() > 0 && self.matched.len() == 0 && self.leftover.len() == 0,
            ResolverPhase::Comparing => self.rest.len() > 0,
            ResolverPhase::Hashing => self.rest.len() == 0,
            ResolverPhase::Done => true,
        }
    }
}

/// A resolver that has not begun.
pub open spec fn resolver_blank() -> ResolverV {
    ResolverV {
        phase: ResolverPhase::Done,
        representative: PathV { text: Seq::empty(), parts: Seq::empty() },
        rest: Seq::empty(),
        matched: Seq::empty(),
        leftover: Seq::empty(),
        groups: Seq::empty(),
        skipped: Seq::empty(),
        processed: 0,
    }
}

/// A resolver that begins with a bucket.
pub open spec fn resolver_start(paths: Seq<PathV>) -> ResolverV {
    resolver_blank().round(paths)
}

/// A resolver that begins with a piece of work. A file that comes alone, out of a
/// bucket too large to compare at once, has its digest taken.
pub open spec fn piece_start(paths: Seq<PathV>) -> ResolverV {
    if paths.len() == 1 {
        ResolverV { phase: ResolverPhase::Hashing, representative: paths[0], processed: 1, ..resolver_blank() }
    } else {
        resolver_start(paths)
    }
}

/// Resolves one bucket, step by step, as answers about its files come in.
pub struct BucketResolver {
    phase: ResolverPhase,
    representative: FilePath,
    files: Vec<FilePath>,
    at: usize,
    matched: Vec<FilePath>,
    leftover: Vec<FilePath>,
    groups: Vec<MatchGroup>,
    skipped: Vec<FilePath>,
    processed: usize,
}

impl View for BucketResolver {
    type V = ResolverV;

    closed spec fn view(&self) -> ResolverV {
        ResolverV {
            phase: self.phase,
            representative: self.representative@,
            rest: self.files.deep_view().skip(self.at as int),
            matched: self.matched.deep_view(),
            leftover: self.leftover.deep_view(),
            groups: self.groups.deep_view(),
            skipped: self.skipped.deep_view(),
            processed: self.processed as nat,
        }
    }
}

impl BucketResolver {
    pub closed spec fn wf(&self) -> bool {
        self@.wf() && self.at <= self.files@.len()
    }

    fn blank() -> (r: BucketResolver)
        ensures
            r@ == resolver_blank(),
    {
        let r = BucketResolver {
            phase: ResolverPhase::Done,
            representative: FilePath { text: String::new(), parts: Vec::new() },
            files: Vec::new(),
            at: 0,
            matched: Vec::new(),
            leftover: Vec::new(),
            groups: Vec::new(),
            skipped: Vec::new(),
            processed: 0,
        };
        assert(r@.representative.text =~= Seq::<char>::empty());
        assert(r@.representative.parts =~= Seq::<crate::paths::PartV>::empty());
        assert(r@.rest =~= Seq::<PathV>::empty());
        assert(r@.matched =~= Seq::<PathV>::empty());
        assert(r@.leftover =~= Seq::<PathV>::empty());
        assert(r@.groups =~= Seq::<MatchV>::empty());
        assert(r@.skipped =~= Seq::<PathV>::empty());
        r
    }

    /// Begins with the files of a bucket.
    pub fn resolve_bucket(paths: &Vec<FilePath>) -> (r: BucketResolver)
        ensures
            r.wf(),
            r@ == resolver_start(paths.deep_view()),
    {
        let mut r = BucketResolver::blank();
        let files = copy_paths(paths);
        let total: usize = files.len();
        assert(files@.len() == total);
        assert(files.deep_view().skip(0) =~= files.deep_view());
        r.start_round(files, 0);
        r
    }

    /// Begins with a piece of work: the files of a bucket, or a file on its own.
    pub fn resolve_piece(paths: &Vec<FilePath>) -> (r: BucketResolver)
        ensures
            r.wf(),
            r@ == piece_start(paths.deep_view()),
    {
        if paths.len() != 1 {
            return BucketResolver::resolve_bucket(paths);
        }
        let mut r = BucketResolver::blank();
        r.files = Vec::new();
        r.at = 0;
        r.phase = ResolverPhase::Hashing;
        r.representative = paths[0].clone();
        r.processed = 1;
        assert(r@.rest =~= Seq::<PathV>::empty());
        r
    }

    fn start_round(&mut self, files: Vec<FilePath>, from: usize)
        requires
            from <= files@.len(),
            old(self)@.processed + files@.len() - from <= usize::MAX,
        ensures
            final(self).wf(),
            final(self)@ == old(self)@.round(files.deep_view().skip(from as int)),
    {
        let ghost remaining = files.deep_view().skip(from as int);
        let left: usize = files.len() - from;
        self.matched = Vec::new();
        self.leftover = Vec::new();
        assert(self.matched.deep_view() =~= Seq::<PathV>::empty());
        assert(self.leftover.deep_view() =~= Seq::<PathV>::empty());
        if left >= 2 {
            self.phase = ResolverPhase::Opening;
            self.representative = files[from].clone();
            self.files = files;
            self.at = from + 1;
            assert(self@.rest =~= remaining.skip(1));
        } else {
            self.phase = ResolverPhase::Done;
            self.files = Vec::new();
            self.at = 0;
            self.processed = self.processed + left;
            assert(self@.rest =~= Seq::<PathV>::empty());
        }
    }

    /// What is awaited.
    pub fn phase(&self) -> (r: ResolverPhase)
        ensures
            r == self@.phase,
    {
        self.phase
    }

    /// The file that the others are compared with.
    pub fn representative(&self) -> (r: &FilePath)
        ensures
            r@ == self@.representative,
    {
        &self.representative
    }

    /// The file to compare next.
    pub fn candidate(&self) -> (r: &FilePath)
        requires
            self.wf(),
            self@.phase == ResolverPhase::Comparing,
        ensures
            r@ == self@.rest[0],
    {
        &self.files[self.at]
    }

    /// Whether the representative could be opened.
    pub fn opened(&mut self, readable: bool)
        requires
            old(self).wf(),
            old(self)@.phase == ResolverPhase::Opening,
        ensures
            final(self).wf(),
            final(self)@ == old(self)@.after_open(readable),
    {
        self.processed = self.processed + 1;
        if readable {
            self.phase = ResolverPhase::Comparing;
        } else {
            let ghost before = self.skipped.deep_view();
            self.skipped.push(self.representative.clone());
            assert(self.skipped.deep_view() =~= before.push(self.representative@));
            let files = copy_paths(&self.files);
            let at: usize = self.at;
            self.start_round(files, at);
        }
    }

    /// How the candidate compares with the representative.
    pub fn compared(&mut self, outcome: Compared)
        requires
            old(self).wf(),
            old(self)@.phase == ResolverPhase::Comparing,
        ensures
            final(self).wf(),
            final(self)@ == old(self)@.after_compare(outcome),
    {
        let other = self.files[self.at].clone();
        let total: usize = self.files.len();
        assert(self.at < total);
        assert(other@ == old(self)@.rest[0]);
        self.at = self.at + 1;
        assert(self@.rest =~= old(self)@.rest.skip(1));
        match outcome {
            Compared::Same => {
                self.matched.push(other);
                assert(self.matched.deep_view() =~= old(self)@.matched.push(other@));
                self.processed = self.processed + 1;
            },
            Compared::Different => {
                self.leftover.push(other);
                assert(self.leftover.deep_view() =~= old(self)@.leftover.push(other@));
            },
            Compared::Unreadable => {
                self.skipped.push(other);
                assert(self.skipped.deep_view() =~= old(self)@.skipped.push(other@));
                self.processed = self.processed + 1;
            },
        }
        if self.at == self.files.len() {
            if self.matched.len() > 0 {
                self.phase = ResolverPhase::Hashing;
            } else {
                let files = copy_paths(&self.leftover);
                assert(files.deep_view().skip(0) =~= files.deep_view());
                self.start_round(files, 0);
            }
        }
    }

    /// The digest of the representative, unless it could not be read.
    pub fn hashed(&mut self, digest: Option<String>)
        requires
            old(self).wf(),
            old(self)@.phase == ResolverPhase::Hashing,
        ensures
            final(self).wf(),
            final(self)@ == old(self)@.after_hash(digest.deep_view()),
    {
        match digest {
            Some(d) => {
                let mut paths: Vec<FilePath> = Vec::new();
                paths.push(self.representative.clone());
                let mut more = copy_paths(&self.matched);
                paths.append(&mut more);
                assert(paths.deep_view() =~= seq![self.representative@] + self.matched.deep_view());
                let group = MatchGroup { digest: d, paths };
                let ghost gv = group@;
                self.groups.push(group);
                assert(self.groups.deep_view() =~= old(self)@.groups.push(gv));
            },
            None => {
                self.skipped.push(self.representative.clone());
                let mut more = copy_paths(&self.matched);
                self.skipped.append(&mut more);
                assert(self.skipped.deep_view() =~= old(self)@.skipped.push(self.representative@)
                    + self.matched.deep_view());
            },
        }
        let files = copy_paths(&self.leftover);
        assert(files.deep_view().skip(0) =~= files.deep_view());
        self.start_round(files, 0);
    }

    /// What became of the bucket.
    pub fn result(self) -> (r: BucketResult)
        ensures
            r@ == (BucketResultV {
                groups: self@.groups,
                skipped: self@.skipped,
                processed_count: self@.processed,
            }),
    {
        BucketResult { groups: self.groups, skipped: self.skipped, processed_count: self.processed }
    }
}

// ----------------------------------------------------------------------- laws

/// How files answer.
pub struct World {
    pub opens: spec_fn(PathV) -> bool,
    pub compare: spec_fn(PathV, PathV) -> Compared,
    pub hash: spec_fn(PathV) -> Option<Seq<char>>,
}

/// A resolver after the answer that it waits for.
pub open spec fn answered(s: ResolverV, w: World) -> ResolverV {
    match s.phase {
        ResolverPhase::Opening => s.after_open((w.opens)(s.representative)),
        ResolverPhase::Comparing => s.after_compare((w.compare)(s.representative, s.rest[0])),
        ResolverPhase::Hashing => s.after_hash((w.hash)(s.representative)),
        ResolverPhase::Done => s,
    }
}

pub open spec fn files_left(s: ResolverV) -> nat {
    match s.phase {
        ResolverPhase::Done => 0,
        ResolverPhase::Hashing => 1 + s.leftover.len(),
        _ => 1 + s.rest.len() + s.leftover.len(),
    }
}

pub open spec fn steps_left(s: ResolverV) -> nat {
    match s.phase {
        ResolverPhase::Done => 0,
        ResolverPhase::Hashing => 0,
        ResolverPhase::Comparing => s.rest.len() + 1,
        ResolverPhase::Opening => s.rest.len() + 2,
    }
}

/// What holds of a group: its first file could be hashed, and each of the others
/// was found equal to it.
pub open spec fn group_sound(g: MatchV, w: World) -> bool {
    &&& g.paths.len() >= 1
    &&& (w.hash)(g.paths[0]) == Some(g.digest)
    &&& forall|i: int| 1 <= i < g.paths.len() ==> (w.compare)(g.paths[0], #[trigger] g.paths[i]) == Compared::Same
}

/// What holds all along.
pub open spec fn resolver_sound(s: ResolverV, w: World) -> bool {
    &&& s.wf()
    &&& forall|i: int| 0 <= i < s.groups.len() ==> group_sound(#[trigger] s.groups[i], w)
    &&& forall|i: int|
        0 <= i < s.matched.len() ==> (w.compare)(s.representative, #[trigger] s.matched[i]) == Compared::Same
}

proof fn lemma_answer_keeps(s: ResolverV, w: World)
    requires
        resolver_sound(s, w),
        s.phase != ResolverPhase::Done,
    ensures
        resolver_sound(answered(s, w), w),
        answered(s, w).processed + answered(s, w).outstanding() == s.processed + s.outstanding(),
        files_left(answered(s, w)) < files_left(s) || (files_left(answered(s, w)) == files_left(s) && steps_left(
            answered(s, w),
        ) < steps_left(s)),
{
    let n = answered(s, w);
    match s.phase {
        ResolverPhase::Hashing => {
            match (w.hash)(s.representative) {
                Some(d) => {
                    let g = MatchV { digest: d, paths: seq![s.representative] + s.matched };
                    assert forall|i: int| 1 <= i < g.paths.len() implies (w.compare)(g.paths[0], #[trigger] g.paths[i])
                        == Compared::Same by {
                        assert(g.paths[i] == s.matched[i - 1]);
                    }
                    assert(group_sound(g, w));
                },
                None => {},
            }
        },
        _ => {},
    }
}

/// Whatever the files answer, a bucket comes to an end, at which every file is
/// counted once and every group holds files equal to its first.
pub proof fn law_bucket_resolution(s: ResolverV, w: World) -> (steps: nat)
    requires
        resolver_sound(s, w),
    ensures
        resolved(s, w, steps).phase == ResolverPhase::Done,
        resolved(s, w, steps).processed == s.processed + s.outstanding(),
        resolver_sound(resolved(s, w, steps), w),
    decreases files_left(s), steps_left(s),
{
    if s.phase == ResolverPhase::Done {
        0
    } else {
        lemma_answer_keeps(s, w);
        let n = law_bucket_resolution(answered(s, w), w);
        n + 1
    }
}

/// A resolver after a number of answers.
pub open spec fn resolved(s: ResolverV, w: World, steps: nat) -> ResolverV
    decreases steps,
{
    if steps == 0 {
        s
    } else {
        resolved(answered(s, w), w, (steps - 1) as nat)
    }
}

/// What holds all along of a bucket whose files are compared: a group holds two
/// files or more, the first of which could be opened.
spec fn in_pairs(s: ResolverV, w: World) -> bool {
    &&& forall|i: int|
        0 <= i < s.groups.len() ==> (#[trigger] s.groups[i]).paths.len() >= 2 && (w.opens)(s.groups[i].paths[0])
    &&& s.phase == ResolverPhase::Hashing ==> s.matched.len() > 0
    &&& s.phase == ResolverPhase::Comparing || s.phase == ResolverPhase::Hashing ==> (w.opens)(s.representative)
}

proof fn lemma_stays_in_pairs(s: ResolverV, w: World, steps: nat)
    requires
        in_pairs(s, w),
    ensures
        in_pairs(resolved(s, w, steps), w),
    decreases steps,
{
    if steps > 0 {
        lemma_stays_in_pairs(answered(s, w), w, (steps - 1) as nat);
    }
}

/// All files of a bucket are processed. Each of its groups holds two files or more,
/// the first of which could be opened and hashed and which the others equal.
pub proof fn law_whole_bucket(paths: Seq<PathV>, w: World) -> (steps: nat)
    requires
        paths.len() <= usize::MAX,
    ensures
        resolved(resolver_start(paths), w, steps).phase == ResolverPhase::Done,
        resolved(resolver_start(paths), w, steps).processed == paths.len(),
        forall|i: int|
            0 <= i < resolved(resolver_start(paths), w, steps).groups.len() ==> group_sound(
                #[trigger] resolved(resolver_start(paths), w, steps).groups[i],
                w,
            ) && resolved(resolver_start(paths), w, steps).groups[i].paths.len() >= 2 && (w.opens)(
                resolved(resolver_start(paths), w, steps).groups[i].paths[0],
            ),
{
    let steps = law_bucket_resolution(resolver_start(paths), w);
    lemma_stays_in_pairs(resolver_start(paths), w, steps);
    steps
}

/// All files of a piece of work are processed, and its groups are sound.
pub proof fn law_whole_piece(paths: Seq<PathV>, w: World) -> (steps: nat)
    requires
        paths.len() <= usize::MAX,
    ensures
        resolved(piece_start(paths), w, steps).phase == ResolverPhase::Done,
        resolved(piece_start(paths), w, steps).processed == paths.len(),
        forall|i: int|
            0 <= i < resolved(piece_start(paths), w, steps).groups.len() ==> group_sound(
                #[trigger] resolved(piece_start(paths), w, steps).groups[i],
                w,
            ),
{
    law_bucket_resolution(piece_start(paths), w)
}

/// What a step adds to what is told in the end: a file that cannot be read is skipped, and
/// with a file that can be compared but not hashed go those that match it; files that match
/// make a group with the digest of the first. Nothing that was told is taken back.
pub proof fn law_what_a_step_adds(s: ResolverV, readable: bool, outcome: Compared, digest: Option<Seq<char>>)
    ensures
        s.after_open(readable).groups == s.groups,
        s.after_open(readable).skipped == (if readable {
            s.skipped
        } else {
            s.skipped + seq![s.representative]
        }),
        s.after_compare(outcome).groups == s.groups,
        s.after_compare(outcome).skipped == (if outcome == Compared::Unreadable {
            s.skipped + seq![s.rest[0]]
        } else {
            s.skipped
        }),
        digest matches Some(d) ==> s.after_hash(digest).groups == s.groups + seq![
            MatchV { digest: d, paths: seq![s.representative] + s.matched },
        ] && s.after_hash(digest).skipped == s.skipped,
        digest is None ==> s.after_hash(digest).groups == s.groups && s.after_hash(digest).skipped == s.skipped + seq![
            s.representative,
        ] + s.matched,
{
    assert(s.skipped.push(s.representative) =~= s.skipped + seq![s.representative]);
    assert(s.skipped.push(s.rest[0]) =~= s.skipped + seq![s.rest[0]]);
    if digest is Some {
        let g = MatchV { digest: digest.unwrap(), paths: seq![s.representative] + s.matched };
        assert(s.groups.push(g) =~= s.groups + seq![g]);
    }
}

/// While there are files to compare, one that matches joins those that match and one that
/// does not is kept for a later round.
pub proof fn law_compared_files_are_kept(s: ResolverV, outcome: Compared)
    requires
        s.rest.len() > 1,
    ensures
        ({
            let n = s.after_compare(outcome);
            &&& n.representative == s.representative && n.phase == s.phase
            &&& n.rest == s.rest.skip(1)
            &&& outcome == Compared::Same ==> n.matched == s.matched + seq![s.rest[0]] && n.leftover == s.leftover
            &&& outcome == Compared::Different ==> n.matched == s.matched && n.leftover == s.leftover + seq![s.rest[0]]
            &&& outcome == Compared::Unreadable ==> n.matched == s.matched && n.leftover == s.leftover
            &&& n.processed == s.processed + (if outcome == Compared::Different {
                0int
            } else {
                1int
            })
        }),
{
    assert(s.matched.push(s.rest[0]) =~= s.matched + seq![s.rest[0]]);
    assert(s.leftover.push(s.rest[0]) =~= s.leftover + seq![s.rest[0]]);
}

} // verus!
