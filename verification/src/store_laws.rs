//! What holds of the runs that are kept, after each that is added.

use vstd::prelude::*;

use crate::history::{dropped_runs, stamps_of_runs, surplus_runs, RecordV, MAX_HISTORY_ENTRIES};
use crate::manifest::ManifestRowV;
use crate::results::RunRowsV;
use crate::resume::{readable, surplus_resume_runs, MAX_RESUME_STATES};
use crate::tables::distinct;

verus! {

/// Everything that is kept of runs: their records and groups by run, and by the key of
/// its directories the run that each list of stamps belongs to, with the stamps.
pub struct StoreV {
    pub records: Map<Seq<char>, RecordV>,
    pub groups: Map<Seq<char>, RunRowsV>,
    pub owners: Map<Seq<char>, Seq<char>>,
    pub stamps: Map<Seq<char>, Seq<ManifestRowV>>,
}

/// Whether a list has the keys of a map, each once.
pub open spec fn lists_keys<V>(list: Seq<Seq<char>>, map: Map<Seq<char>, V>) -> bool {
    list.no_duplicates() && forall|x: Seq<char>| #[trigger] map.contains_key(x) <==> list.contains(x)
}

/// Whether a list has the entries of a map.
pub open spec fn lists_entries(list: Seq<(Seq<char>, Seq<char>)>, map: Map<Seq<char>, Seq<char>>) -> bool {
    forall|k: Seq<char>, v: Seq<char>| #[trigger]
        list.contains((k, v)) <==> map.contains_key(k) && map[k] == v
}

impl StoreV {
    /// The store with the record of a run, in place of the one it had.
    pub open spec fn recorded(self, run_id: Seq<char>, record: RecordV) -> StoreV {
        StoreV { records: self.records.insert(run_id, record), ..self }
    }

    /// The store without runs and all that belongs to them.
    pub open spec fn dropped(self, runs: Seq<Seq<char>>, keys: Seq<Seq<char>>) -> StoreV {
        StoreV {
            records: self.records.remove_keys(runs.to_set()),
            groups: self.groups.remove_keys(runs.to_set()),
            owners: self.owners.remove_keys(keys.to_set()),
            stamps: self.stamps.remove_keys(keys.to_set()),
        }
    }

    /// The store after a run is recorded: the oldest runs make room. `runs` lists all
    /// runs, the oldest first, and `owners` the runs that stamps belong to.
    pub open spec fn upserted(
        self,
        run_id: Seq<char>,
        record: RecordV,
        runs: Seq<Seq<char>>,
        owners: Seq<(Seq<char>, Seq<char>)>,
    ) -> StoreV {
        let gone = dropped_runs(runs);
        self.recorded(run_id, record).dropped(gone, stamps_of_runs(owners, gone))
    }
}

proof fn lemma_stamps_of_runs(owners: Seq<(Seq<char>, Seq<char>)>, runs: Seq<Seq<char>>, key: Seq<char>)
    ensures
        stamps_of_runs(owners, runs).contains(key) <==> exists|i: int|
            0 <= i < owners.len() && (#[trigger] owners[i]).0 == key && runs.contains(owners[i].1),
    decreases owners.len(),
{
    if owners.len() > 0 {
        let s = owners.drop_last();
        let n = owners.len() - 1;
        lemma_stamps_of_runs(s, runs, key);
        let (before, all) = (stamps_of_runs(s, runs), stamps_of_runs(owners, runs));
        if before.contains(key) {
            let k = choose|k: int| 0 <= k < before.len() && before[k] == key;
            assert(all[k] == key);
            let i = choose|i: int| 0 <= i < s.len() && (#[trigger] s[i]).0 == key && runs.contains(s[i].1);
            assert(owners[i] == s[i]);
        }
        if owners[n].0 == key && runs.contains(owners[n].1) {
            assert(all.last() == key);
        }
        if all.contains(key) && !before.contains(key) {
            let k = choose|k: int| 0 <= k < all.len() && all[k] == key;
            if k < before.len() {
                assert(before[k] == key);
            }
            assert(owners[n].0 == key && runs.contains(owners[n].1));
        }
        if (exists|i: int| 0 <= i < owners.len() && (#[trigger] owners[i]).0 == key && runs.contains(owners[i].1)) {
            let i = choose|i: int| 0 <= i < owners.len() && (#[trigger] owners[i]).0 == key && runs.contains(owners[i].1);
            if i < n {
                assert(s[i] == owners[i]);
            }
        }
    }
}

proof fn lemma_split(runs: Seq<Seq<char>>, n: int, x: Seq<char>)
    requires
        runs.no_duplicates(),
        0 <= n <= runs.len(),
    ensures
        runs.contains(x) <==> runs.take(n).contains(x) || runs.skip(n).contains(x),
        !(runs.take(n).contains(x) && runs.skip(n).contains(x)),
        runs.skip(n).no_duplicates(),
{
    let (a, b) = (runs.take(n), runs.skip(n));
    if runs.contains(x) {
        let i = choose|i: int| 0 <= i < runs.len() && runs[i] == x;
        if i < n {
            assert(a[i] == x);
        } else {
            assert(b[i - n] == x);
        }
    }
    if a.contains(x) {
        let i = choose|i: int| 0 <= i < a.len() && a[i] == x;
        assert(runs[i] == x);
        if b.contains(x) {
            let j = choose|j: int| 0 <= j < b.len() && b[j] == x;
            assert(runs[j + n] == x);
        }
    }
    if b.contains(x) {
        let j = choose|j: int| 0 <= j < b.len() && b[j] == x;
        assert(runs[j + n] == x);
    }
    assert forall|i: int, j: int| 0 <= i < b.len() && 0 <= j < b.len() && i != j implies b[i] != b[j] by {
        assert(runs[i + n] != runs[j + n]);
    }
}

/// After a run is recorded, the history has at most as many runs as there is room for,
/// one per id. Those that went began before all that stayed. The run itself, if it
/// stayed, has its new record, and the others have theirs.
pub proof fn law_history_after_a_run(
    store: StoreV,
    run_id: Seq<char>,
    record: RecordV,
    runs: Seq<Seq<char>>,
    owners: Seq<(Seq<char>, Seq<char>)>,
    began: spec_fn(RecordV) -> int,
)
    requires
        lists_keys(runs, store.recorded(run_id, record).records),
        forall|i: int, j: int|
            0 <= i < j < runs.len() ==> began(store.recorded(run_id, record).records[#[trigger] runs[i]]) <= began(
                store.recorded(run_id, record).records[#[trigger] runs[j]],
            ),
    ensures
        store.upserted(run_id, record, runs, owners).records.dom().finite(),
        store.upserted(run_id, record, runs, owners).records.dom().len() == (if runs.len() > MAX_HISTORY_ENTRIES {
            MAX_HISTORY_ENTRIES as nat
        } else {
            runs.len()
        }),
        store.upserted(run_id, record, runs, owners).records.contains_key(run_id) ==> store.upserted(
            run_id,
            record,
            runs,
            owners,
        ).records[run_id] == record,
        forall|x: Seq<char>| #[trigger]
            store.upserted(run_id, record, runs, owners).records.contains_key(x) && x != run_id
                ==> store.records.contains_key(x) && store.upserted(run_id, record, runs, owners).records[x]
                == store.records[x],
        forall|x: Seq<char>, y: Seq<char>|
            store.recorded(run_id, record).records.contains_key(x)
                && !#[trigger] store.upserted(run_id, record, runs, owners).records.contains_key(x)
                && #[trigger] store.upserted(run_id, record, runs, owners).records.contains_key(y) ==> began(
                store.recorded(run_id, record).records[x],
            ) <= began(store.recorded(run_id, record).records[y]),
{
    let all = store.recorded(run_id, record);
    let after = store.upserted(run_id, record, runs, owners);
    let n = surplus_runs(runs.len()) as int;
    let (gone, kept) = (runs.take(n), runs.skip(n));
    assert forall|x: Seq<char>| #[trigger] after.records.contains_key(x) <==> kept.contains(x) by {
        lemma_split(runs, n, x);
        assert(all.records.contains_key(x) <==> runs.contains(x));
    }
    assert(after.records.dom() =~= kept.to_set());
    lemma_split(runs, n, run_id);
    kept.unique_seq_to_set();
    assert forall|x: Seq<char>, y: Seq<char>|
        all.records.contains_key(x) && !#[trigger] after.records.contains_key(x) && #[trigger] after.records.contains_key(
            y,
        ) implies began(all.records[x]) <= began(all.records[y]) by {
        lemma_split(runs, n, x);
        let i = choose|i: int| 0 <= i < gone.len() && gone[i] == x;
        let j = choose|j: int| 0 <= j < kept.len() && kept[j] == y;
        assert(runs[i] == x && runs[j + n] == y);
    }
}

/// With a run that makes room go its groups and its stamps, and nothing else.
pub proof fn law_dropped_runs_leave_nothing(
    store: StoreV,
    run_id: Seq<char>,
    record: RecordV,
    runs: Seq<Seq<char>>,
    owners: Seq<(Seq<char>, Seq<char>)>,
)
    requires
        lists_entries(owners, store.owners),
    ensures
        forall|x: Seq<char>| #[trigger]
            store.upserted(run_id, record, runs, owners).groups.contains_key(x) <==> store.groups.contains_key(x)
                && !dropped_runs(runs).contains(x),
        forall|x: Seq<char>| #[trigger]
            store.upserted(run_id, record, runs, owners).groups.contains_key(x) ==> store.upserted(
                run_id,
                record,
                runs,
                owners,
            ).groups[x] == store.groups[x],
        forall|k: Seq<char>| #[trigger]
            store.upserted(run_id, record, runs, owners).owners.contains_key(k) <==> store.owners.contains_key(k)
                && !dropped_runs(runs).contains(store.owners[k]),
        forall|k: Seq<char>| #[trigger]
            store.upserted(run_id, record, runs, owners).owners.contains_key(k) ==> store.upserted(
                run_id,
                record,
                runs,
                owners,
            ).owners[k] == store.owners[k],
        forall|k: Seq<char>| #[trigger]
            store.upserted(run_id, record, runs, owners).stamps.contains_key(k) <==> store.stamps.contains_key(k) && !(
            store.owners.contains_key(k) && dropped_runs(runs).contains(store.owners[k])),
        forall|k: Seq<char>| #[trigger]
            store.upserted(run_id, record, runs, owners).stamps.contains_key(k) ==> store.upserted(
                run_id,
                record,
                runs,
                owners,
            ).stamps[k] == store.stamps[k],
{
    let gone = dropped_runs(runs);
    let keys = stamps_of_runs(owners, gone);
    assert forall|k: Seq<char>| #[trigger] keys.to_set().contains(k) <==> store.owners.contains_key(k) && gone.contains(
        store.owners[k],
    ) by {
        lemma_stamps_of_runs(owners, gone, k);
        if store.owners.contains_key(k) && gone.contains(store.owners[k]) {
            assert(owners.contains((k, store.owners[k])));
            let i = choose|i: int| 0 <= i < owners.len() && owners[i] == (k, store.owners[k]);
            assert(owners[i].0 == k);
        }
        if keys.contains(k) {
            let i = choose|i: int| 0 <= i < owners.len() && (#[trigger] owners[i]).0 == k && gone.contains(owners[i].1);
            assert(owners.contains((owners[i].0, owners[i].1)));
        }
    }
}

// -------------------------------------------------------------- unfinished scans

/// The unfinished scans after one is saved, the one that was worked on longest ago
/// first.
pub open spec fn after_save(runs: Seq<Seq<char>>, run_id: Seq<char>) -> Seq<Seq<char>> {
    let all = after_clear(runs, run_id).push(run_id);
    all.skip(surplus_resume_runs(all.len()) as int)
}

/// The unfinished scans after one is cleared.
pub open spec fn after_clear(runs: Seq<Seq<char>>, run_id: Seq<char>) -> Seq<Seq<char>> {
    runs.filter(|x: Seq<char>| x != run_id)
}

proof fn lemma_clear(runs: Seq<Seq<char>>, run_id: Seq<char>)
    requires
        runs.no_duplicates(),
    ensures
        after_clear(runs, run_id).no_duplicates(),
        forall|x: Seq<char>| #[trigger] after_clear(runs, run_id).contains(x) <==> runs.contains(x) && x != run_id,
    decreases runs.len(),
{
    reveal(Seq::filter);
    if runs.len() > 0 {
        let s = runs.drop_last();
        let n = runs.len() - 1;
        assert(s.no_duplicates()) by {
            assert forall|i: int, j: int| 0 <= i < s.len() && 0 <= j < s.len() && i != j implies s[i] != s[j] by {
                assert(runs[i] != runs[j]);
            }
        }
        lemma_clear(s, run_id);
        let (before, all) = (after_clear(s, run_id), after_clear(runs, run_id));
        assert forall|x: Seq<char>| #[trigger] all.contains(x) <==> runs.contains(x) && x != run_id by {
            if before.contains(x) {
                let i = choose|i: int| 0 <= i < before.len() && before[i] == x;
                assert(all[i] == x);
                let k = choose|k: int| 0 <= k < s.len() && s[k] == x;
                assert(runs[k] == x);
            }
            if runs.contains(x) && x != run_id {
                let k = choose|k: int| 0 <= k < runs.len() && runs[k] == x;
                if k < n {
                    assert(s[k] == x);
                } else {
                    assert(all.last() == x);
                }
            }
            if all.contains(x) && !before.contains(x) {
                let i = choose|i: int| 0 <= i < all.len() && all[i] == x;
                if i < before.len() {
                    assert(before[i] == x);
                }
                assert(runs[n] == x);
            }
        }
        assert(all.no_duplicates()) by {
            assert forall|i: int, j: int| 0 <= i < all.len() && 0 <= j < all.len() && i != j implies all[i] != all[j] by {
                if i < before.len() && j < before.len() {
                    assert(before[i] != before[j]);
                } else {
                    let k = if i < before.len() {
                        i
                    } else {
                        j
                    };
                    if k < before.len() {
                        assert(before.contains(before[k]));
                        let x = choose|x: int| 0 <= x < s.len() && s[x] == before[k];
                        assert(runs[x] != runs[n]);
                    }
                }
            }
        }
    }
}

proof fn lemma_readable_all(runs: Seq<Seq<char>>)
    requires
        runs.no_duplicates(),
    ensures
        readable(runs.map_values(|x: Seq<char>| Some(x))) == runs,
        distinct(runs) == runs,
    decreases runs.len(),
{
    let found = runs.map_values(|x: Seq<char>| Some(x));
    if runs.len() == 0 {
        assert(readable(found) =~= runs);
        assert(distinct(runs) =~= runs);
    } else {
        let s = runs.drop_last();
        let n = runs.len() - 1;
        assert(s.no_duplicates()) by {
            assert forall|i: int, j: int| 0 <= i < s.len() && 0 <= j < s.len() && i != j implies s[i] != s[j] by {
                assert(runs[i] != runs[j]);
            }
        }
        lemma_readable_all(s);
        assert(found.drop_last() =~= s.map_values(|x: Seq<char>| Some(x)));
        assert(found.last() == Some(runs.last()));
        assert(s.push(runs.last()) =~= runs);
        if s.contains(runs.last()) {
            let i = choose|i: int| 0 <= i < s.len() && s[i] == runs.last();
            assert(runs[i] != runs[n]);
        }
    }
}

/// Of the scans that can be taken up the newest fifty stay, all of them where there are no
/// more.
pub proof fn law_newest_saved_scans_stay(runs: Seq<Seq<char>>)
    ensures
        ({
            let gone = runs.take(surplus_resume_runs(runs.len()) as int);
            let stay = runs.skip(surplus_resume_runs(runs.len()) as int);
            &&& runs == gone + stay
            &&& stay.len() == (if runs.len() > 50 {
                50
            } else {
                runs.len()
            })
        }),
{
    let n = surplus_resume_runs(runs.len()) as int;
    assert(runs =~= runs.take(n) + runs.skip(n));
}

/// A scan that was saved can be resumed. At most as many scans can be resumed as there
/// is room for, each once; those that were worked on longest ago make room, and the
/// others stay in order.
pub proof fn law_saved_scan_can_be_resumed(runs: Seq<Seq<char>>, run_id: Seq<char>)
    requires
        runs.no_duplicates(),
    ensures
        after_save(runs, run_id).contains(run_id),
        after_save(runs, run_id).len() <= MAX_RESUME_STATES,
        after_save(runs, run_id).no_duplicates(),
        after_save(runs, run_id).last() == run_id,
        after_clear(runs, run_id).push(run_id).len() <= MAX_RESUME_STATES ==> after_save(runs, run_id) == after_clear(
            runs,
            run_id,
        ).push(run_id),
        after_clear(runs, run_id).push(run_id).take(
            surplus_resume_runs(after_clear(runs, run_id).push(run_id).len()) as int,
        ) + after_save(runs, run_id) == after_clear(runs, run_id).push(run_id),
        distinct(readable(after_save(runs, run_id).map_values(|x: Seq<char>| Some(x)))) == after_save(runs, run_id),
{
    lemma_clear(runs, run_id);
    let others = after_clear(runs, run_id);
    let all = others.push(run_id);
    let n = surplus_resume_runs(all.len()) as int;
    let kept = all.skip(n);
    assert(all.no_duplicates()) by {
        assert forall|i: int, j: int| 0 <= i < all.len() && 0 <= j < all.len() && i != j implies all[i] != all[j] by {
            if i < others.len() && j < others.len() {
                assert(others[i] != others[j]);
            } else if i < others.len() {
                assert(others.contains(others[i]));
            } else {
                assert(others.contains(others[j]));
            }
        }
    }
    lemma_split(all, n, run_id);
    assert(kept[kept.len() - 1] == run_id);
    assert(all.take(n) + kept =~= all);
    if n == 0 {
        assert(kept =~= all);
    }
    lemma_readable_all(kept);
}

/// A scan that was cleared can no longer be resumed, and all others still can.
pub proof fn law_cleared_scan_cannot_be_resumed(runs: Seq<Seq<char>>, run_id: Seq<char>)
    requires
        runs.no_duplicates(),
    ensures
        !after_clear(runs, run_id).contains(run_id),
        forall|x: Seq<char>| #[trigger] after_clear(runs, run_id).contains(x) <==> runs.contains(x) && x != run_id,
        distinct(readable(after_clear(runs, run_id).map_values(|x: Seq<char>| Some(x)))) == after_clear(runs, run_id),
{
    lemma_clear(runs, run_id);
    lemma_readable_all(after_clear(runs, run_id));
}

} // verus!
