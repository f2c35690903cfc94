//! What an import takes in, what the history lists, and what is recorded of a run.

use vstd::prelude::*;

use crate::formatting::shown_size;
use crate::groups::GroupV;
use crate::history::{
    at_least_zero, dropped_runs, history_text, listed, new_runs, redundant_bytes, run_key, run_keys, run_lines,
    stamps_of_runs, status_text, surplus_runs, RecordV, MAX_HISTORY_ENTRIES,
};
use crate::text::{decimal, joined, signed_decimal};

verus! {

// ------------------------------------------------------------------- importing

/// Whether two records are of one run: they have one time and the same directories.
pub open spec fn same_run(a: RecordV, b: RecordV) -> bool {
    a.timestamp == b.timestamp && joined(a.directories, "\u{0}"@) == joined(b.directories, "\u{0}"@)
}

/// Whether one of some records is of this run.
pub open spec fn known_run(records: Seq<RecordV>, r: RecordV) -> bool {
    exists|i: int| 0 <= i < records.len() && same_run(#[trigger] records[i], r)
}

proof fn lemma_known(records: Seq<RecordV>, r: RecordV)
    ensures
        run_keys(records).contains(run_key(r)) <==> known_run(records, r),
{
    let keys = records.map_values(|r: RecordV| run_key(r));
    if run_keys(records).contains(run_key(r)) {
        let i = choose|i: int| 0 <= i < keys.len() && keys[i] == run_key(r);
        assert(same_run(records[i], r));
    }
    if known_run(records, r) {
        let i = choose|i: int| 0 <= i < records.len() && same_run(#[trigger] records[i], r);
        assert(keys[i] == run_key(r));
    }
}

/// What an import takes in are records of the import as they are, in their order: those
/// of runs that are not there yet and that did not come up in the import before, and no
/// others. What is returned are their places in the import.
pub proof fn law_import_takes_in_new_runs(existing: Seq<RecordV>, incoming: Seq<RecordV>) -> (at: Seq<int>)
    ensures
        at.len() == new_runs(existing, incoming).len(),
        forall|i: int|
            0 <= i < at.len() ==> 0 <= #[trigger] at[i] < incoming.len() && new_runs(existing, incoming)[i]
                == incoming[at[i]],
        forall|i: int, j: int| 0 <= i < j < at.len() ==> #[trigger] at[i] < #[trigger] at[j],
        forall|k: int|
            0 <= k < incoming.len() ==> (at.contains(k) <==> !known_run(existing, #[trigger] incoming[k]) && !known_run(
                incoming.take(k),
                incoming[k],
            )),
    decreases incoming.len(),
{
    if incoming.len() == 0 {
        Seq::empty()
    } else {
        let s = incoming.drop_last();
        let n = incoming.len() - 1;
        let last = incoming.last();
        let before = law_import_takes_in_new_runs(existing, s);
        lemma_known(existing, last);
        lemma_known(s, last);
        assert(incoming.take(n) =~= s);
        let known = known_run(existing, last) || known_run(s, last);
        let at = if known {
            before
        } else {
            before.push(n)
        };
        let r = new_runs(existing, incoming);
        assert forall|i: int| 0 <= i < at.len() implies 0 <= #[trigger] at[i] < incoming.len() && r[i] == incoming[at[i]] by {
            if i < before.len() {
                assert(at[i] == before[i]);
                assert(s[before[i]] == incoming[before[i]]);
            }
        }
        assert forall|i: int, j: int| 0 <= i < j < at.len() implies #[trigger] at[i] < #[trigger] at[j] by {
            assert(at[i] == before[i]);
            if j < before.len() {
                assert(at[j] == before[j]);
            }
        }
        assert forall|k: int| 0 <= k < incoming.len() implies (at.contains(k) <==> !known_run(
            existing,
            #[trigger] incoming[k],
        ) && !known_run(incoming.take(k), incoming[k])) by {
            if k < n {
                assert(s[k] == incoming[k]);
                assert(s.take(k) =~= incoming.take(k));
                if before.contains(k) {
                    let i = choose|i: int| 0 <= i < before.len() && before[i] == k;
                    assert(at[i] == k);
                }
                if at.contains(k) {
                    let i = choose|i: int| 0 <= i < at.len() && at[i] == k;
                    assert(before[i] == k);
                }
            } else {
                if !known {
                    assert(at[before.len() as int] == k);
                } else if at.contains(k) {
                    let i = choose|i: int| 0 <= i < at.len() && at[i] == k;
                    assert(0 <= before[i] < s.len());
                }
            }
        }
        at
    }
}

// ------------------------------------------------------------------- recording

/// What all copies but one take up of a row of groups is the sum of what they take up of
/// each, and of one group it is its size once for each copy but one.
pub proof fn law_reclaimable_adds_up(a: Seq<GroupV>, b: Seq<GroupV>, g: GroupV)
    ensures
        redundant_bytes(a + b) == redundant_bytes(a) + redundant_bytes(b),
        redundant_bytes(seq![g]) == g.size * (g.paths.len() - 1),
    decreases b.len(),
{
    if b.len() > 0 {
        law_reclaimable_adds_up(a, b.drop_last(), g);
        assert((a + b).drop_last() =~= a + b.drop_last());
    } else {
        assert(a + b =~= a);
    }
    assert(seq![g].drop_last() =~= Seq::<GroupV>::empty());
    assert(redundant_bytes(Seq::<GroupV>::empty()) == 0);
}

/// The runs that go are the oldest ones, and as few as leave no more than there is room
/// for.
pub proof fn law_oldest_runs_go(runs: Seq<Seq<char>>)
    ensures
        dropped_runs(runs).is_prefix_of(runs),
        runs.len() <= MAX_HISTORY_ENTRIES ==> dropped_runs(runs).len() == 0,
        runs.len() > MAX_HISTORY_ENTRIES ==> runs.len() - dropped_runs(runs).len() == MAX_HISTORY_ENTRIES,
{
    let n = surplus_runs(runs.len()) as int;
    assert(dropped_runs(runs) =~= runs.subrange(0, n));
}

/// The stamps that go are those that belong to a run that goes, and no others.
pub proof fn law_stamps_go_with_their_runs(owners: Seq<(Seq<char>, Seq<char>)>, runs: Seq<Seq<char>>, key: Seq<char>)
    ensures
        stamps_of_runs(owners, runs).contains(key) <==> exists|i: int|
            0 <= i < owners.len() && (#[trigger] owners[i]).0 == key && runs.contains(owners[i].1),
    decreases owners.len(),
{
    if owners.len() > 0 {
        let s = owners.drop_last();
        let n = owners.len() - 1;
        law_stamps_go_with_their_runs(s, runs, key);
        let (before, all) = (stamps_of_runs(s, runs), stamps_of_runs(owners, runs));
        if before.contains(key) {
            let i = choose|i: int| 0 <= i < before.len() && before[i] == key;
            assert(all[i] == key);
            let j = choose|j: int| 0 <= j < s.len() && (#[trigger] s[j]).0 == key && runs.contains(s[j].1);
            assert(owners[j].0 == key);
        }
        if all.contains(key) && !before.contains(key) {
            let i = choose|i: int| 0 <= i < all.len() && all[i] == key;
            if i < before.len() {
                assert(before[i] == key);
            }
            assert(owners[n].0 == key);
        }
        if exists|i: int| 0 <= i < owners.len() && (#[trigger] owners[i]).0 == key && runs.contains(owners[i].1) {
            let i = choose|i: int| 0 <= i < owners.len() && (#[trigger] owners[i]).0 == key && runs.contains(owners[i].1);
            if i < n {
                assert(s[i].0 == key && runs.contains(s[i].1));
            } else {
                assert(all[before.len() as int] == key);
            }
        }
    }
}

// --------------------------------------------------------------------- listing

proof fn lemma_run_lines(records: Seq<RecordV>, resumable: Seq<Seq<char>>, n: int, i: int)
    requires
        0 <= i < n,
    ensures
        run_lines(records, resumable, n).len() == 2 * n,
        run_lines(records, resumable, n)[2 * i] == crate::history::head_line(i + 1, listed(records, i + 1), resumable),
        run_lines(records, resumable, n)[2 * i + 1] == crate::history::detail_line(listed(records, i + 1)),
    decreases n,
{
    if n == 1 {
        assert(run_lines(records, resumable, 0) =~= Seq::<Seq<char>>::empty());
    } else if i < n - 1 {
        lemma_run_lines(records, resumable, n - 1, i);
    } else {
        lemma_run_lines(records, resumable, n - 1, 0);
    }
}

/// The history lists every run, two lines each, the newest first, under the place by
/// which it can be asked for: when it was, whether it was cancelled and can be resumed,
/// its directories, and how many groups it found, what they take up, how many files it
/// skipped and how long it took, as they are recorded.
pub proof fn law_history_lists_every_run(records: Seq<RecordV>, resumable: Seq<Seq<char>>, i: int)
    requires
        0 <= i < records.len(),
    ensures
        history_text(records, resumable).len() == 2 * records.len(),
        ({
            let r = records[records.len() - 1 - i];
            let lines = history_text(records, resumable);
            let status = if !r.cancelled {
                "done"@
            } else if resumable.contains(r.timestamp) {
                "cancelled, resumable"@
            } else {
                "cancelled"@
            };
            let bytes: nat = if r.reclaimable_bytes < 0 {
                0
            } else {
                r.reclaimable_bytes as nat
            };
            &&& listed(records, i + 1) == r
            &&& lines[2 * i] == "#"@ + decimal((i + 1) as nat) + "  "@ + r.when + "  ["@ + status + "]  "@ + joined(
                r.directories,
                ", "@,
            )
            &&& lines[2 * i + 1] == "    "@ + signed_decimal(r.groups as int) + " duplicate group(s), "@ + shown_size(
                bytes,
            ) + " reclaimable, "@ + signed_decimal(r.skipped as int) + " skipped, "@ + r.duration_seconds + "s"@
        }),
{
    lemma_run_lines(records, resumable, records.len() as int, i);
}

/// A run is shown as done exactly where it was not cancelled.
pub proof fn law_status_tells_whether_cancelled(r: RecordV, resumable: Seq<Seq<char>>)
    ensures
        status_text(r, resumable) == "done"@ <==> !r.cancelled,
        at_least_zero(r.reclaimable_bytes) == (if r.reclaimable_bytes < 0 {
            0int
        } else {
            r.reclaimable_bytes as int
        }),
{
    reveal_strlit("done");
    reveal_strlit("cancelled, resumable");
    reveal_strlit("cancelled");
    assert("done"@.len() == 4 && "cancelled"@.len() == 9 && "cancelled, resumable"@.len() == 20);
}

} // verus!
