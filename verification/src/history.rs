//! The history of runs: what is recorded of each, how it is listed, and how a
//! run is picked from the list.

use vstd::hash_set::StringHashSet;
use vstd::prelude::*;

use crate::formatting::{human_size, shown_size};
use crate::groups::{plus_wrapping, wrapped, DuplicateGroup, GroupV};
use crate::results::kept_index;
use crate::scan::ScanResult;
use crate::text::{
    concat2, concat3, copy_texts, count_text, debug_of, debug_text, decimal, join, joined, lemma_pair_key_injective,
    list_contains, pair_key, pair_key_text, parse_count, parsed_number, same_text, signed_decimal, signed_text,
};

verus! {

/// How many runs are kept.
pub const MAX_HISTORY_ENTRIES: i64 = 200;

/// What is kept of a run. `timestamp` is the time at which it began, as a
/// decimal number of seconds, which is also the id of the run; `when` is that
/// time as people read it; `duration_seconds` has one decimal.
#[derive(Debug)]
pub struct RunRecord {
    pub timestamp: String,
    pub when: String,
    pub directories: Vec<String>,
    pub groups: i64,
    pub reclaimable_bytes: i64,
    pub skipped: i64,
    pub cancelled: bool,
    pub duration_seconds: String,
}

pub struct RecordV {
    pub timestamp: Seq<char>,
    pub when: Seq<char>,
    pub directories: Seq<Seq<char>>,
    pub groups: i64,
    pub reclaimable_bytes: i64,
    pub skipped: i64,
    pub cancelled: bool,
    pub duration_seconds: Seq<char>,
}

impl View for RunRecord {
    type V = RecordV;

    open spec fn view(&self) -> RecordV {
        RecordV {
            timestamp: self.timestamp@,
            when: self.when@,
            directories: self.directories.deep_view(),
            groups: self.groups,
            reclaimable_bytes: self.reclaimable_bytes,
            skipped: self.skipped,
            cancelled: self.cancelled,
            duration_seconds: self.duration_seconds@,
        }
    }
}

impl DeepView for RunRecord {
    type V = RecordV;

    open spec fn deep_view(&self) -> RecordV {
        self@
    }
}

impl Clone for RunRecord {
    fn clone(&self) -> (r: Self)
        ensures
            r@ == self@,
    {
        RunRecord {
            timestamp: self.timestamp.clone(),
            when: self.when.clone(),
            directories: copy_texts(&self.directories),
            groups: self.groups,
            reclaimable_bytes: self.reclaimable_bytes,
            skipped: self.skipped,
            cancelled: self.cancelled,
            duration_seconds: self.duration_seconds.clone(),
        }
    }
}

// ------------------------------------------------------------------- recording

/// What all copies but one of each group take up.
pub open spec fn redundant_bytes(groups: Seq<GroupV>) -> int
    decreases groups.len(),
{
    if groups.len() == 0 {
        0
    } else {
        redundant_bytes(groups.drop_last()) + groups.last().size * (groups.last().paths.len() - 1)
    }
}

fn redundant_of(g: &DuplicateGroup) -> (r: u64)
    ensures
        r == wrapped(g@.size * (g@.paths.len() - 1)),
{
    let n: usize = g.paths.len();
    let size: u64 = g.size;
    if n == 0 {
        assert(size * (-1int) == -size);
        if size == 0 {
            0
        } else {
            (0x1_0000_0000_0000_0000u128 - size as u128) as u64
        }
    } else {
        assert(g@.paths.len() - 1 == n - 1);
        crate::groups::times_wrapping(size, n - 1)
    }
}

/// What the copies take up, cut to 64 bits.
pub fn count_redundant(groups: &Vec<DuplicateGroup>) -> (r: u64)
    ensures
        r == wrapped(redundant_bytes(groups.deep_view())),
{
    let ghost all = groups.deep_view();
    let mut n: u64 = 0;
    let mut i: usize = 0;
    assert(all.take(0) =~= Seq::<GroupV>::empty());
    while i < groups.len()
        invariant
            i <= groups@.len(),
            all == groups.deep_view(),
            n == wrapped(redundant_bytes(all.take(i as int))),
        decreases groups@.len() - i,
    {
        let ghost t = all.take(i + 1);
        assert(t.drop_last() =~= all.take(i as int));
        assert(t.last() == groups@[i as int]@);
        n = plus_wrapping(n, redundant_of(&groups[i]));
        i = i + 1;
    }
    assert(all.take(i as int) =~= all);
    n
}

fn kept_len(n: usize) -> (r: i64)
    ensures
        r == kept_index(n as int),
{
    (n as u64) as i64
}

/// What is recorded of a run that ended or was cancelled.
pub fn record_run(
    directories: &Vec<String>,
    result: &ScanResult,
    timestamp: String,
    when: String,
    duration_seconds: String,
) -> (r: RunRecord)
    ensures
        r@ == (RecordV {
            timestamp: timestamp@,
            when: when@,
            directories: directories.deep_view(),
            groups: kept_index(result@.groups.len() as int),
            reclaimable_bytes: wrapped(redundant_bytes(result@.groups)) as i64,
            skipped: kept_index(result@.skipped.len() as int),
            cancelled: result@.cancelled,
            duration_seconds: duration_seconds@,
        }),
{
    RunRecord {
        timestamp,
        when,
        directories: copy_texts(directories),
        groups: kept_len(result.groups.len()),
        reclaimable_bytes: count_redundant(&result.groups) as i64,
        skipped: kept_len(result.skipped.len()),
        cancelled: result.cancelled,
        duration_seconds,
    }
}

/// Of so many runs, how many have to go.
pub open spec fn surplus_runs(count: nat) -> nat {
    if count > MAX_HISTORY_ENTRIES {
        (count - MAX_HISTORY_ENTRIES) as nat
    } else {
        0
    }
}

/// The directories whose stamps belong to one of some runs.
pub open spec fn stamps_of_runs(owners: Seq<(Seq<char>, Seq<char>)>, runs: Seq<Seq<char>>) -> Seq<Seq<char>>
    decreases owners.len(),
{
    if owners.len() == 0 {
        Seq::empty()
    } else {
        let before = stamps_of_runs(owners.drop_last(), runs);
        if runs.contains(owners.last().1) {
            before.push(owners.last().0)
        } else {
            before
        }
    }
}

/// The runs to drop, whose records and groups go, and the keys of directories whose
/// stamps go with them.
#[derive(Debug)]
pub struct DroppedRuns {
    pub runs: Vec<String>,
    pub stamps: Vec<String>,
}

/// The runs that have to go, of all runs, the oldest first.
pub open spec fn dropped_runs(runs: Seq<Seq<char>>) -> Seq<Seq<char>> {
    runs.take(surplus_runs(runs.len()) as int)
}

/// Which runs have to go, and what goes with them. `runs` are all runs, the oldest
/// first; `owners` are the keys of directories with the run that their stamps belong
/// to.
pub fn drop_oldest_runs(runs: &Vec<String>, owners: &Vec<(String, String)>) -> (r: DroppedRuns)
    ensures
        r.runs.deep_view() == dropped_runs(runs.deep_view()),
        r.stamps.deep_view() == stamps_of_runs(owners.deep_view(), r.runs.deep_view()),
{
    let limit: usize = MAX_HISTORY_ENTRIES as usize;
    let mut gone: Vec<String> = Vec::new();
    if runs.len() > limit {
        let surplus: usize = runs.len() - limit;
        while gone.len() < surplus
            invariant
                gone@.len() <= surplus <= runs@.len(),
                gone.deep_view() == runs.deep_view().take(gone@.len() as int),
            decreases surplus - gone@.len(),
        {
            let i: usize = gone.len();
            let ghost before = gone.deep_view();
            gone.push(runs[i].clone());
            assert(gone.deep_view() =~= before.push(runs@[i as int]@));
            assert(gone.deep_view() =~= runs.deep_view().take(i + 1));
        }
    }
    assert(gone.deep_view() =~= runs.deep_view().take(surplus_runs(runs@.len()) as int));
    let ghost all = owners.deep_view();
    let mut stamps: Vec<String> = Vec::new();
    let mut k: usize = 0;
    assert(all.take(0) =~= Seq::<(Seq<char>, Seq<char>)>::empty());
    assert(stamps.deep_view() =~= Seq::<Seq<char>>::empty());
    while k < owners.len()
        invariant
            k <= owners@.len(),
            all == owners.deep_view(),
            stamps.deep_view() == stamps_of_runs(all.take(k as int), gone.deep_view()),
        decreases owners@.len() - k,
    {
        let ghost t = all.take(k + 1);
        assert(t.drop_last() =~= all.take(k as int));
        assert(t.last() == (owners@[k as int].0@, owners@[k as int].1@));
        if list_contains(&gone, owners[k].1.as_str()) {
            let ghost before = stamps.deep_view();
            stamps.push(owners[k].0.clone());
            assert(stamps.deep_view() =~= before.push(owners@[k as int].0@));
        }
        k = k + 1;
    }
    assert(all.take(k as int) =~= all);
    DroppedRuns { runs: gone, stamps }
}

/// The newest runs stay, as many as there is room for.
pub proof fn law_newest_runs_stay(runs: Seq<Seq<char>>)
    ensures
        surplus_runs(runs.len()) <= runs.len(),
        runs.skip(surplus_runs(runs.len()) as int).len() == (if runs.len() > MAX_HISTORY_ENTRIES {
            MAX_HISTORY_ENTRIES as nat
        } else {
            runs.len()
        }),
        runs.take(surplus_runs(runs.len()) as int) + runs.skip(surplus_runs(runs.len()) as int) == runs,
{
    let n = surplus_runs(runs.len()) as int;
    assert(runs.take(n) + runs.skip(n) =~= runs);
}

// ------------------------------------------------------------------- importing

/// What tells runs apart: their time and their directories.
pub open spec fn run_key(r: RecordV) -> (Seq<char>, Seq<char>) {
    (r.timestamp, joined(r.directories, "\u{0}"@))
}

pub open spec fn run_keys(records: Seq<RecordV>) -> Set<(Seq<char>, Seq<char>)> {
    records.map_values(|r: RecordV| run_key(r)).to_set()
}

/// The runs of an import that are new: that are neither there nor came up
/// before in the import.
pub open spec fn new_runs(existing: Seq<RecordV>, incoming: Seq<RecordV>) -> Seq<RecordV>
    decreases incoming.len(),
{
    if incoming.len() == 0 {
        Seq::empty()
    } else {
        let before = new_runs(existing, incoming.drop_last());
        if run_keys(existing).contains(run_key(incoming.last())) || run_keys(incoming.drop_last()).contains(
            run_key(incoming.last()),
        ) {
            before
        } else {
            before.push(incoming.last())
        }
    }
}

fn run_key_text(r: &RunRecord) -> (k: String)
    ensures
        k@ == pair_key(run_key(r@).0, run_key(r@).1),
{
    pair_key_text(r.timestamp.as_str(), join(&r.directories, "\u{0}").as_str())
}

proof fn lemma_run_keys_push(records: Seq<RecordV>, r: RecordV)
    ensures
        run_keys(records.push(r)) == run_keys(records).insert(run_key(r)),
{
    let a = records.map_values(|r: RecordV| run_key(r));
    let b = records.push(r).map_values(|r: RecordV| run_key(r));
    assert(b =~= a.push(run_key(r)));
    assert forall|k: (Seq<char>, Seq<char>)| b.to_set().contains(k) == a.to_set().insert(run_key(r)).contains(k) by {
        if a.contains(k) {
            let j = choose|j: int| 0 <= j < a.len() && a[j] == k;
            assert(b[j] == k);
        }
        if k == run_key(r) {
            assert(b[a.len() as int] == k);
        }
        if b.contains(k) && k != run_key(r) {
            let j = choose|j: int| 0 <= j < b.len() && b[j] == k;
            assert(a[j] == k);
        }
    }
    assert(b.to_set() =~= a.to_set().insert(run_key(r)));
}

/// Whether a set of texts holds the keys of these pairs.
spec fn holds_keys(texts: Set<Seq<char>>, keys: Set<(Seq<char>, Seq<char>)>) -> bool {
    forall|a: Seq<char>, b: Seq<char>| #[trigger] texts.contains(pair_key(a, b)) <==> keys.contains((a, b))
}

proof fn lemma_holds_insert(
    texts: Set<Seq<char>>,
    keys: Set<(Seq<char>, Seq<char>)>,
    a: Seq<char>,
    b: Seq<char>,
)
    requires
        holds_keys(texts, keys),
    ensures
        holds_keys(texts.insert(pair_key(a, b)), keys.insert((a, b))),
{
    assert forall|c: Seq<char>, d: Seq<char>| #[trigger]
        texts.insert(pair_key(a, b)).contains(pair_key(c, d)) <==> keys.insert((a, b)).contains((c, d)) by {
        if pair_key(c, d) == pair_key(a, b) {
            lemma_pair_key_injective(c, d, a, b);
        }
        assert(texts.contains(pair_key(c, d)) <==> keys.contains((c, d)));
    }
}

/// The runs of an import to take in.
pub fn import_history(existing: &Vec<RunRecord>, incoming: &Vec<RunRecord>) -> (r: Vec<RunRecord>)
    ensures
        r.deep_view() == new_runs(existing.deep_view(), incoming.deep_view()),
{
    let ghost ev = existing.deep_view();
    let ghost iv = incoming.deep_view();
    let mut seen = StringHashSet::new();
    let mut i: usize = 0;
    assert(run_keys(ev.take(0)) =~= Set::<(Seq<char>, Seq<char>)>::empty());
    while i < existing.len()
        invariant
            i <= existing@.len(),
            ev == existing.deep_view(),
            holds_keys(seen@, run_keys(ev.take(i as int))),
        decreases existing@.len() - i,
    {
        assert(ev.take(i + 1) =~= ev.take(i as int).push(existing@[i as int]@));
        proof {
            lemma_run_keys_push(ev.take(i as int), existing@[i as int]@);
            let k = run_key(existing@[i as int]@);
            lemma_holds_insert(seen@, run_keys(ev.take(i as int)), k.0, k.1);
        }
        seen.insert(run_key_text(&existing[i]));
        i = i + 1;
    }
    assert(ev.take(i as int) =~= ev);
    let mut r: Vec<RunRecord> = Vec::new();
    let mut k: usize = 0;
    assert(iv.take(0) =~= Seq::<RecordV>::empty());
    assert(r.deep_view() =~= Seq::<RecordV>::empty());
    assert(run_keys(iv.take(0)) =~= Set::<(Seq<char>, Seq<char>)>::empty());
    assert(run_keys(ev).union(run_keys(iv.take(0))) =~= run_keys(ev));
    while k < incoming.len()
        invariant
            k <= incoming@.len(),
            iv == incoming.deep_view(),
            holds_keys(seen@, run_keys(ev).union(run_keys(iv.take(k as int)))),
            r.deep_view() == new_runs(ev, iv.take(k as int)),
        decreases incoming@.len() - k,
    {
        let ghost s = iv.take(k as int);
        let ghost t = iv.take(k + 1);
        let ghost rec = incoming@[k as int]@;
        let ghost key = run_key(rec);
        assert(t =~= s.push(rec));
        assert(t.drop_last() =~= s);
        proof {
            lemma_run_keys_push(s, rec);
            lemma_holds_insert(seen@, run_keys(ev).union(run_keys(s)), key.0, key.1);
            assert(run_keys(ev).union(run_keys(s)).insert(key) =~= run_keys(ev).union(run_keys(t)));
            assert(seen@.contains(pair_key(key.0, key.1)) <==> run_keys(ev).union(run_keys(s)).contains((key.0, key.1)));
            assert((key.0, key.1) == key);
        }
        let fresh = seen.insert(run_key_text(&incoming[k]));
        if fresh {
            let ghost before = r.deep_view();
            r.push(incoming[k].clone());
            assert(r.deep_view() =~= before.push(rec));
        }
        k = k + 1;
    }
    assert(iv.take(k as int) =~= iv);
    r
}

proof fn lemma_new_runs_known(existing: Seq<RecordV>, incoming: Seq<RecordV>)
    ensures
        forall|i: int|
            0 <= i < incoming.len() ==> run_keys(existing + new_runs(existing, incoming)).contains(
                run_key(#[trigger] incoming[i]),
            ),
    decreases incoming.len(),
{
    if incoming.len() > 0 {
        let s = incoming.drop_last();
        let last = incoming.last();
        lemma_new_runs_known(existing, s);
        let before = existing + new_runs(existing, s);
        let after = existing + new_runs(existing, incoming);
        let known = run_keys(existing).contains(run_key(last)) || run_keys(s).contains(run_key(last));
        if !known {
            assert(after =~= before.push(last));
            lemma_run_keys_push(before, last);
        }
        assert forall|i: int| 0 <= i < incoming.len() implies run_keys(after).contains(run_key(#[trigger] incoming[i])) by {
            if i < s.len() {
                assert(s[i] == incoming[i]);
                assert(run_keys(before).contains(run_key(s[i])));
            } else if known {
                if run_keys(existing).contains(run_key(last)) {
                    let e = existing.map_values(|r: RecordV| run_key(r));
                    let b = before.map_values(|r: RecordV| run_key(r));
                    let j = choose|j: int| 0 <= j < e.len() && e[j] == run_key(last);
                    assert(b[j] == run_key(last));
                } else {
                    let sk = s.map_values(|r: RecordV| run_key(r));
                    let j = choose|j: int| 0 <= j < sk.len() && sk[j] == run_key(last);
                    assert(run_keys(before).contains(run_key(s[j])));
                }
            }
        }
    }
}

proof fn lemma_nothing_new(existing: Seq<RecordV>, incoming: Seq<RecordV>)
    requires
        forall|i: int| 0 <= i < incoming.len() ==> run_keys(existing).contains(run_key(#[trigger] incoming[i])),
    ensures
        new_runs(existing, incoming).len() == 0,
    decreases incoming.len(),
{
    if incoming.len() > 0 {
        let s = incoming.drop_last();
        assert forall|i: int| 0 <= i < s.len() implies run_keys(existing).contains(run_key(#[trigger] s[i])) by {
            assert(s[i] == incoming[i]);
        }
        lemma_nothing_new(existing, s);
        assert(run_keys(existing).contains(run_key(incoming[incoming.len() - 1])));
    }
}

/// An import that is repeated adds nothing.
pub proof fn law_import_once(existing: Seq<RecordV>, incoming: Seq<RecordV>)
    ensures
        new_runs(existing + new_runs(existing, incoming), incoming).len() == 0,
{
    lemma_new_runs_known(existing, incoming);
    lemma_nothing_new(existing + new_runs(existing, incoming), incoming);
}

// --------------------------------------------------------------------- listing

/// The record at a place of the list, which counts from 1 and begins with the
/// newest run.
pub open spec fn listed(records: Seq<RecordV>, index: int) -> RecordV {
    records[records.len() - index]
}

/// Whether a run was cancelled, and whether it can be resumed.
pub open spec fn status_text(r: RecordV, resumable: Seq<Seq<char>>) -> Seq<char> {
    if !r.cancelled {
        "done"@
    } else if resumable.contains(r.timestamp) {
        "cancelled, resumable"@
    } else {
        "cancelled"@
    }
}

pub fn run_status(r: &RunRecord, resumable: &Vec<String>) -> (s: String)
    ensures
        s@ == status_text(r@, resumable.deep_view()),
{
    (if !r.cancelled {
        "done"
    } else if list_contains(resumable, r.timestamp.as_str()) {
        "cancelled, resumable"
    } else {
        "cancelled"
    }).to_string()
}

/// A count of bytes, none where it is negative.
pub open spec fn at_least_zero(n: i64) -> u64 {
    if n < 0 {
        0
    } else {
        n as u64
    }
}

pub fn not_negative(n: i64) -> (r: u64)
    ensures
        r == at_least_zero(n),
{
    if n < 0 {
        0
    } else {
        n as u64
    }
}

pub open spec fn head_line(index: int, r: RecordV, resumable: Seq<Seq<char>>) -> Seq<char> {
    "#"@ + decimal(index as nat) + "  "@ + r.when + "  ["@ + status_text(r, resumable) + "]  "@ + joined(
        r.directories,
        ", "@,
    )
}

pub open spec fn detail_line(r: RecordV) -> Seq<char> {
    "    "@ + signed_decimal(r.groups as int) + " duplicate group(s), "@ + shown_size(
        at_least_zero(r.reclaimable_bytes) as nat,
    ) + " reclaimable, "@ + signed_decimal(r.skipped as int) + " skipped, "@ + r.duration_seconds + "s"@
}

/// The lines of the newest `n` runs.
pub open spec fn run_lines(records: Seq<RecordV>, resumable: Seq<Seq<char>>, n: int) -> Seq<Seq<char>>
    decreases n,
{
    if n <= 0 {
        Seq::empty()
    } else {
        run_lines(records, resumable, n - 1).push(head_line(n, listed(records, n), resumable)).push(
            detail_line(listed(records, n)),
        )
    }
}

/// The history as it is listed.
pub open spec fn history_text(records: Seq<RecordV>, resumable: Seq<Seq<char>>) -> Seq<Seq<char>> {
    if records.len() == 0 {
        seq!["No run history yet."@]
    } else {
        run_lines(records, resumable, records.len() as int)
    }
}

/// The lines of the history. `records` begins with the oldest run.
pub fn print_history(records: &Vec<RunRecord>, resumable: &Vec<String>) -> (r: Vec<String>)
    ensures
        r.deep_view() == history_text(records.deep_view(), resumable.deep_view()),
{
    let ghost all = records.deep_view();
    let ghost res = resumable.deep_view();
    let mut lines: Vec<String> = Vec::new();
    assert(lines.deep_view() =~= Seq::<Seq<char>>::empty());
    let n: usize = records.len();
    if n == 0 {
        lines.push("No run history yet.".to_string());
        assert(lines.deep_view() =~= history_text(all, res));
        return lines;
    }
    let mut i: usize = 0;
    while i < n
        invariant
            i <= n,
            n == records@.len(),
            all == records.deep_view(),
            res == resumable.deep_view(),
            lines.deep_view() == run_lines(all, res, i as int),
        decreases n - i,
    {
        let record = &records[n - 1 - i];
        assert(record@ == listed(all, i + 1));
        let ghost before = lines.deep_view();
        let mut head = "#".to_string();
        head.append(count_text(i + 1).as_str());
        head.append("  ");
        head.append(record.when.as_str());
        head.append("  [");
        head.append(run_status(record, resumable).as_str());
        head.append("]  ");
        head.append(join(&record.directories, ", ").as_str());
        assert(head@ == head_line(i + 1, record@, res));
        let mut detail = "    ".to_string();
        detail.append(signed_text(record.groups).as_str());
        detail.append(" duplicate group(s), ");
        detail.append(human_size(not_negative(record.reclaimable_bytes)).as_str());
        detail.append(" reclaimable, ");
        detail.append(signed_text(record.skipped).as_str());
        detail.append(" skipped, ");
        detail.append(record.duration_seconds.as_str());
        detail.append("s");
        assert(detail@ == detail_line(record@));
        lines.push(head);
        lines.push(detail);
        assert(lines.deep_view() =~= before.push(head@).push(detail@));
        i = i + 1;
    }
    lines
}

/// What a window says of a run.
pub fn window_line(r: &RunRecord) -> (s: String)
    ensures
        s@ == signed_decimal(r@.groups as int) + " duplicate group(s) -- "@ + shown_size(
            at_least_zero(r@.reclaimable_bytes) as nat,
        ) + " reclaimable -- "@ + signed_decimal(r@.skipped as int) + " skipped -- "@ + r@.duration_seconds + "s"@,
{
    let mut s = signed_text(r.groups);
    s.append(" duplicate group(s) -- ");
    s.append(human_size(not_negative(r.reclaimable_bytes)).as_str());
    s.append(" reclaimable -- ");
    s.append(signed_text(r.skipped).as_str());
    s.append(" skipped -- ");
    s.append(r.duration_seconds.as_str());
    s.append("s");
    s
}

// --------------------------------------------------------------------- picking

/// Which run is to be resumed.
#[derive(Debug)]
pub enum ResumeRequest {
    /// The one that was stopped last.
    Latest,
    /// The one at this place of the list.
    Listed(usize),
    /// None: the request makes no sense, for this reason.
    Invalid(String),
}

/// A request that makes no sense and shows like this.
pub fn invalid_request(shown: &str) -> (r: ResumeRequest)
    ensures
        match r {
            ResumeRequest::Invalid(message) => message@
                == "--resume expects the # index shown by --history, got "@ + shown@,
            _ => false,
        },
{
    ResumeRequest::Invalid(concat2("--resume expects the # index shown by --history, got ", shown))
}

/// Reads a request to resume a run: `LAST`, or a place in the list.
pub fn read_resume_request(arg: &str) -> (r: ResumeRequest)
    ensures
        match r {
            ResumeRequest::Latest => arg@ == "LAST"@,
            ResumeRequest::Listed(n) => arg@ != "LAST"@ && parsed_number(arg@, usize::MAX as nat) == Some(n as nat),
            ResumeRequest::Invalid(message) => arg@ != "LAST"@ && parsed_number(arg@, usize::MAX as nat) is None
                && message@ == "--resume expects the # index shown by --history, got "@ + debug_text(arg@),
        },
{
    if same_text(arg, "LAST") {
        return ResumeRequest::Latest;
    }
    match parse_count(arg) {
        Some(n) => ResumeRequest::Listed(n),
        None => invalid_request(debug_of(arg).as_str()),
    }
}

/// The run that was stopped last, or why there is none.
pub fn latest_run(latest: Option<String>) -> (r: Result<String, String>)
    ensures
        match r {
            Ok(id) => latest.deep_view() == Some(id@),
            Err(message) => latest is None && message@ == "No stopped run to resume."@,
        },
{
    match latest {
        Some(id) => Ok(id),
        None => Err("No stopped run to resume.".to_string()),
    }
}

pub open spec fn no_such_run(index: int) -> Seq<char> {
    "No run #"@ + decimal(index as nat) + " in history -- run --history to see valid indexes."@
}

/// The record at a place of the list, or why there is none.
pub fn find_listed(records: &Vec<RunRecord>, index: usize) -> (r: Result<RunRecord, String>)
    ensures
        match r {
            Ok(record) => 1 <= index <= records@.len() && record@ == listed(records.deep_view(), index as int),
            Err(message) => !(1 <= index <= records@.len()) && message@ == no_such_run(index as int),
        },
{
    if index < 1 || index > records.len() {
        return Err(
            concat3("No run #", count_text(index).as_str(), " in history -- run --history to see valid indexes."),
        );
    }
    assert(records.deep_view()[records@.len() - index] == records@[records@.len() - index]@);
    Ok(records[records.len() - index].clone())
}

pub open spec fn not_resumable(index: int) -> Seq<char> {
    "Run #"@ + decimal(index as nat) + " has no saved progress to resume."@
}

/// The id of the run at a place of the list, if it can be resumed, or why not.
pub fn resolve_resume_run_id(records: &Vec<RunRecord>, resumable: &Vec<String>, index: usize) -> (r: Result<
    String,
    String,
>)
    ensures
        ({
            let valid = 1 <= index <= records@.len();
            let record = listed(records.deep_view(), index as int);
            let open = record.cancelled && resumable.deep_view().contains(record.timestamp);
            match r {
                Ok(id) => valid && open && id@ == record.timestamp,
                Err(message) => if !valid {
                    message@ == no_such_run(index as int)
                } else {
                    !open && message@ == not_resumable(index as int)
                },
            }
        }),
{
    match find_listed(records, index) {
        Err(message) => Err(message),
        Ok(record) => {
            if !record.cancelled || !list_contains(resumable, record.timestamp.as_str()) {
                Err(concat3("Run #", count_text(index).as_str(), " has no saved progress to resume."))
            } else {
                Ok(record.timestamp)
            }
        },
    }
}

/// What is said of a run of which only the summary is kept.
pub fn no_detail_message(index: usize) -> (r: String)
    ensures
        r@ == "Run #"@ + decimal(index as nat)
            + " has no saved detailed results to show (only its summary is kept)."@,
{
    concat3(
        "Run #",
        count_text(index).as_str(),
        " has no saved detailed results to show (only its summary is kept).",
    )
}

/// The line above the results of a past run.
pub fn past_run_header(index: usize, record: &RunRecord) -> (r: String)
    ensures
        r@ == "Run #"@ + decimal(index as nat) + " -- "@ + record@.when + " -- "@ + joined(
            record@.directories,
            ", "@,
        ),
{
    let mut s = "Run #".to_string();
    s.append(count_text(index).as_str());
    s.append(" -- ");
    s.append(record.when.as_str());
    s.append(" -- ");
    s.append(join(&record.directories, ", ").as_str());
    s
}

/// Every run that the list shows as resumable can be resumed by its place, and
/// no other.
pub proof fn law_listed_as_resumable(records: Seq<RecordV>, resumable: Seq<Seq<char>>, index: int)
    requires
        1 <= index <= records.len(),
    ensures
        status_text(listed(records, index), resumable) == "cancelled, resumable"@ <==> (listed(records, index).cancelled
            && resumable.contains(listed(records, index).timestamp)),
{
    reveal_strlit("done");
    reveal_strlit("cancelled, resumable");
    reveal_strlit("cancelled");
    assert("done"@.len() == 4 && "cancelled"@.len() == 9 && "cancelled, resumable"@.len() == 20);
}

} // verus!
