//! Sets of copies that are picked, by the place of their group and their place
//! in it.

use vstd::hash_set::StringHashSet;
use vstd::prelude::*;

use crate::groups::{plus_wrapping, times_wrapping, wrapped, DuplicateGroup, FolderGroup, FolderV, GroupV};
use crate::text::{count_text, decimal, law_decimal_injective, lemma_pair_key_injective, pair_key, pair_key_text};

verus! {

/// One copy: the place of its group, and its place in the group.
#[derive(Clone, Copy, Debug, PartialEq, Eq, Structural)]
pub struct Pick {
    pub group: usize,
    pub copy: usize,
}

/// Picks after one was added; each is there once.
pub open spec fn picked(list: Seq<Pick>, p: Pick) -> Seq<Pick> {
    if list.contains(p) {
        list
    } else {
        list.push(p)
    }
}

/// Picks without one.
pub open spec fn unpicked(list: Seq<Pick>, p: Pick) -> Seq<Pick>
    decreases list.len(),
{
    if list.len() == 0 {
        Seq::empty()
    } else if list.last() == p {
        unpicked(list.drop_last(), p)
    } else {
        unpicked(list.drop_last(), p).push(list.last())
    }
}

pub open spec fn all_picked(list: Seq<Pick>, more: Seq<Pick>) -> Seq<Pick>
    decreases more.len(),
{
    if more.len() == 0 {
        list
    } else {
        picked(all_picked(list, more.drop_last()), more.last())
    }
}

/// How many picks are of one group.
pub open spec fn picks_in(list: Seq<Pick>, group: usize) -> nat
    decreases list.len(),
{
    if list.len() == 0 {
        0
    } else {
        picks_in(list.drop_last(), group) + (if list.last().group == group {
            1nat
        } else {
            0nat
        })
    }
}

/// All copies of a group but the first.
pub open spec fn further_copies(group: usize, copies: nat) -> Seq<Pick> {
    Seq::new(
        if copies > 0 {
            (copies - 1) as nat
        } else {
            0
        },
        |i: int| Pick { group, copy: (i + 1) as usize },
    )
}

/// All further copies of all groups.
pub open spec fn file_picks(groups: Seq<GroupV>) -> Seq<Pick>
    decreases groups.len(),
{
    if groups.len() == 0 {
        Seq::empty()
    } else {
        file_picks(groups.drop_last()) + further_copies((groups.len() - 1) as usize, groups.last().paths.len())
    }
}

/// All further copies of the confirmed groups.
pub open spec fn folder_picks(groups: Seq<FolderV>) -> Seq<Pick>
    decreases groups.len(),
{
    if groups.len() == 0 {
        Seq::empty()
    } else if groups.last().confirmed {
        folder_picks(groups.drop_last()) + further_copies((groups.len() - 1) as usize, groups.last().paths.len())
    } else {
        folder_picks(groups.drop_last())
    }
}

spec fn pick_key(p: Pick) -> Seq<char> {
    pair_key(decimal(p.group as nat), decimal(p.copy as nat))
}

proof fn lemma_pick_key(a: Pick, b: Pick)
    requires
        pick_key(a) == pick_key(b),
    ensures
        a == b,
{
    lemma_pair_key_injective(
        decimal(a.group as nat),
        decimal(a.copy as nat),
        decimal(b.group as nat),
        decimal(b.copy as nat),
    );
    law_decimal_injective(a.group as nat, b.group as nat);
    law_decimal_injective(a.copy as nat, b.copy as nat);
}

fn key_of_pick(p: Pick) -> (r: String)
    ensures
        r@ == pick_key(p),
{
    pair_key_text(count_text(p.group).as_str(), count_text(p.copy).as_str())
}

/// A set of picks.
pub struct PickSet {
    keys: StringHashSet,
    list: Vec<Pick>,
}

impl View for PickSet {
    type V = Seq<Pick>;

    closed spec fn view(&self) -> Seq<Pick> {
        self.list@
    }
}

impl PickSet {
    pub closed spec fn wf(&self) -> bool {
        &&& self@.no_duplicates()
        &&& forall|p: Pick| self.keys@.contains(#[trigger] pick_key(p)) <==> self@.contains(p)
    }

    pub fn new() -> (r: PickSet)
        ensures
            r.wf(),
            r@ == Seq::<Pick>::empty(),
    {
        let r = PickSet { keys: StringHashSet::new(), list: Vec::new() };
        assert(r@ =~= Seq::<Pick>::empty());
        r
    }

    /// How many are picked.
    pub fn len(&self) -> (r: usize)
        ensures
            r == self@.len(),
    {
        self.list.len()
    }

    pub fn contains(&self, group: usize, copy: usize) -> (r: bool)
        requires
            self.wf(),
        ensures
            r == self@.contains(Pick { group, copy }),
    {
        let p = Pick { group, copy };
        assert(self.keys@.contains(pick_key(p)) <==> self@.contains(p));
        self.keys.contains(key_of_pick(p).as_str())
    }

    pub fn insert(&mut self, group: usize, copy: usize)
        requires
            old(self).wf(),
        ensures
            final(self).wf(),
            final(self)@ == picked(old(self)@, Pick { group, copy }),
    {
        let p = Pick { group, copy };
        if !self.contains(group, copy) {
            let ghost before = self@;
            self.keys.insert(key_of_pick(p));
            self.list.push(p);
            proof {
                assert(self@ =~= before.push(p));
                assert forall|q: Pick| self.keys@.contains(#[trigger] pick_key(q)) <==> self@.contains(q) by {
                    if pick_key(q) == pick_key(p) {
                        lemma_pick_key(q, p);
                        assert(self@[before.len() as int] == p);
                    }
                    assert(old(self).keys@.contains(pick_key(q)) <==> before.contains(q));
                    if before.contains(q) {
                        let j = choose|j: int| 0 <= j < before.len() && before[j] == q;
                        assert(self@[j] == q);
                    }
                    if self@.contains(q) && q != p {
                        let j = choose|j: int| 0 <= j < self@.len() && self@[j] == q;
                        assert(before[j] == q);
                    }
                }
                assert forall|i: int, j: int| 0 <= i < self@.len() && 0 <= j < self@.len() && i != j implies self@[i] != self@[j] by {
                    if i == before.len() {
                        assert(before.contains(before[j]));
                    }
                    if j == before.len() {
                        assert(before.contains(before[i]));
                    }
                }
            }
        }
    }

    pub fn remove(&mut self, group: usize, copy: usize)
        requires
            old(self).wf(),
        ensures
            final(self).wf(),
            final(self)@ == unpicked(old(self)@, Pick { group, copy }),
    {
        let p = Pick { group, copy };
        let ghost before = self@;
        let mut rest: Vec<Pick> = Vec::new();
        let mut i: usize = 0;
        assert(before.take(0) =~= Seq::<Pick>::empty());
        assert(rest@ =~= Seq::<Pick>::empty());
        while i < self.list.len()
            invariant
                i <= self.list@.len(),
                before == self.list@,
                p == (Pick { group, copy }),
                rest@ == unpicked(before.take(i as int), p),
                *self == *old(self),
            decreases self.list@.len() - i,
        {
            let ghost t = before.take(i + 1);
            assert(t.drop_last() =~= before.take(i as int));
            if self.list[i] != p {
                rest.push(self.list[i]);
            }
            i = i + 1;
        }
        assert(before.take(i as int) =~= before);
        proof {
            lemma_unpicked(before, p);
        }
        self.keys.remove(key_of_pick(p).as_str());
        self.list = rest;
        proof {
            assert forall|q: Pick| self.keys@.contains(#[trigger] pick_key(q)) <==> self@.contains(q) by {
                if pick_key(q) == pick_key(p) {
                    lemma_pick_key(q, p);
                }
                assert(old(self).keys@.contains(pick_key(q)) <==> before.contains(q));
            }
        }
    }

    pub fn clear(&mut self)
        ensures
            final(self).wf(),
            final(self)@ == Seq::<Pick>::empty(),
    {
        self.keys = StringHashSet::new();
        self.list = Vec::new();
        assert(self@ =~= Seq::<Pick>::empty());
    }

    /// How many of one group are picked.
    pub fn count_in(&self, group: usize) -> (r: usize)
        ensures
            r == picks_in(self@, group),
    {
        let mut n: usize = 0;
        let mut i: usize = 0;
        assert(self@.take(0) =~= Seq::<Pick>::empty());
        while i < self.list.len()
            invariant
                i <= self.list@.len(),
                n <= i,
                n == picks_in(self@.take(i as int), group),
            decreases self.list@.len() - i,
        {
            let ghost t = self@.take(i + 1);
            assert(t.drop_last() =~= self@.take(i as int));
            if self.list[i].group == group {
                n = n + 1;
            }
            i = i + 1;
        }
        assert(self@.take(i as int) =~= self@);
        n
    }

    /// Picks all copies of a group but the first.
    fn pick_further(&mut self, group: usize, copies: usize)
        requires
            old(self).wf(),
        ensures
            final(self).wf(),
            final(self)@ == all_picked(old(self)@, further_copies(group, copies as nat)),
    {
        let ghost more = further_copies(group, copies as nat);
        let mut k: usize = 1;
        assert(more.take(0) =~= Seq::<Pick>::empty());
        while k < copies
            invariant
                self.wf(),
                1 <= k,
                k <= copies || (k == 1 && copies == 0),
                more == further_copies(group, copies as nat),
                self@ == all_picked(old(self)@, more.take(k - 1)),
            decreases copies - k,
        {
            let ghost t = more.take(k as int);
            assert(t.drop_last() =~= more.take(k - 1));
            assert(t.last() == (Pick { group, copy: k }));
            self.insert(group, k);
            k = k + 1;
        }
        assert(more.take(k - 1) =~= more);
    }

    /// Picks all further copies of file groups.
    pub fn pick_files(&mut self, groups: &Vec<DuplicateGroup>)
        requires
            old(self).wf(),
        ensures
            final(self).wf(),
            final(self)@ == all_picked(old(self)@, file_picks(groups.deep_view())),
    {
        let ghost all = groups.deep_view();
        let mut i: usize = 0;
        assert(all.take(0) =~= Seq::<GroupV>::empty());
        while i < groups.len()
            invariant
                i <= groups@.len(),
                all == groups.deep_view(),
                self.wf(),
                self@ == all_picked(old(self)@, file_picks(all.take(i as int))),
            decreases groups@.len() - i,
        {
            let ghost t = all.take(i + 1);
            assert(t.drop_last() =~= all.take(i as int));
            assert(t.last() == groups@[i as int]@);
            proof {
                lemma_all_picked(
                    old(self)@,
                    file_picks(all.take(i as int)),
                    further_copies(i, t.last().paths.len()),
                );
            }
            self.pick_further(i, groups[i].paths.len());
            i = i + 1;
        }
        assert(all.take(i as int) =~= all);
    }

    /// Picks all further copies of confirmed folder groups.
    pub fn pick_folders(&mut self, groups: &Vec<FolderGroup>)
        requires
            old(self).wf(),
        ensures
            final(self).wf(),
            final(self)@ == all_picked(old(self)@, folder_picks(groups.deep_view())),
    {
        let ghost all = groups.deep_view();
        let mut i: usize = 0;
        assert(all.take(0) =~= Seq::<FolderV>::empty());
        while i < groups.len()
            invariant
                i <= groups@.len(),
                all == groups.deep_view(),
                self.wf(),
                self@ == all_picked(old(self)@, folder_picks(all.take(i as int))),
            decreases groups@.len() - i,
        {
            let ghost t = all.take(i + 1);
            assert(t.drop_last() =~= all.take(i as int));
            assert(t.last() == groups@[i as int]@);
            if groups[i].confirmed {
                proof {
                    lemma_all_picked(
                        old(self)@,
                        folder_picks(all.take(i as int)),
                        further_copies(i, t.last().paths.len()),
                    );
                }
                self.pick_further(i, groups[i].paths.len());
            }
            i = i + 1;
        }
        assert(all.take(i as int) =~= all);
    }
}

proof fn lemma_all_picked(list: Seq<Pick>, a: Seq<Pick>, b: Seq<Pick>)
    ensures
        all_picked(list, a + b) == all_picked(all_picked(list, a), b),
    decreases b.len(),
{
    if b.len() == 0 {
        assert(a + b =~= a);
    } else {
        lemma_all_picked(list, a, b.drop_last());
        assert((a + b).drop_last() =~= a + b.drop_last());
        assert((a + b).last() == b.last());
    }
}

proof fn lemma_unpicked(list: Seq<Pick>, p: Pick)
    requires
        list.no_duplicates(),
    ensures
        unpicked(list, p).no_duplicates(),
        forall|q: Pick| #[trigger] unpicked(list, p).contains(q) <==> list.contains(q) && q != p,
    decreases list.len(),
{
    if list.len() > 0 {
        let s = list.drop_last();
        assert(s.no_duplicates()) by {
            assert forall|i: int, j: int| 0 <= i < s.len() && 0 <= j < s.len() && i != j implies s[i] != s[j] by {
                assert(list[i] != list[j]);
            }
        }
        lemma_unpicked(s, p);
        let u = unpicked(s, p);
        let n = unpicked(list, p);
        assert forall|q: Pick| #[trigger] n.contains(q) <==> list.contains(q) && q != p by {
            assert(u.contains(q) <==> s.contains(q) && q != p);
            if s.contains(q) {
                let j = choose|j: int| 0 <= j < s.len() && s[j] == q;
                assert(list[j] == q);
            }
            if list.contains(q) && q != list.last() {
                let j = choose|j: int| 0 <= j < list.len() && list[j] == q;
                assert(s[j] == q);
            }
            if q == list.last() {
                assert(list[list.len() - 1] == q);
                if q != p {
                    assert(n[u.len() as int] == q);
                }
            }
            if u.contains(q) {
                let j = choose|j: int| 0 <= j < u.len() && u[j] == q;
                assert(n[j] == q);
            }
            if n.contains(q) && q != list.last() {
                let j = choose|j: int| 0 <= j < n.len() && n[j] == q;
                assert(u[j] == q);
            }
        }
        assert forall|i: int, j: int| 0 <= i < n.len() && 0 <= j < n.len() && i != j implies n[i] != n[j] by {
            if list.last() != p {
                assert(!s.contains(list.last())) by {
                    if s.contains(list.last()) {
                        let x = choose|x: int| 0 <= x < s.len() && s[x] == list.last();
                        assert(list[x] != list[list.len() - 1]);
                    }
                }
                if i == u.len() {
                    assert(u.contains(u[j]));
                }
                if j == u.len() {
                    assert(u.contains(u[i]));
                }
            }
        }
    }
}

/// What the picks of file groups take up, cut to 64 bits.
pub open spec fn picked_file_bytes(list: Seq<Pick>, groups: Seq<GroupV>) -> int
    decreases groups.len(),
{
    if groups.len() == 0 {
        0
    } else {
        picked_file_bytes(list, groups.drop_last()) + picks_in(list, (groups.len() - 1) as usize) * groups.last().size
    }
}

pub open spec fn picked_folder_bytes(list: Seq<Pick>, groups: Seq<FolderV>) -> int
    decreases groups.len(),
{
    if groups.len() == 0 {
        0
    } else {
        picked_folder_bytes(list, groups.drop_last()) + picks_in(list, (groups.len() - 1) as usize)
            * groups.last().size
    }
}

/// What the picks of file groups take up together.
pub fn file_bytes(picks: &PickSet, groups: &Vec<DuplicateGroup>) -> (r: u64)
    ensures
        r == wrapped(picked_file_bytes(picks@, groups.deep_view())),
{
    let ghost all = groups.deep_view();
    let mut n: u64 = 0;
    let mut i: usize = 0;
    assert(all.take(0) =~= Seq::<GroupV>::empty());
    while i < groups.len()
        invariant
            i <= groups@.len(),
            all == groups.deep_view(),
            n == wrapped(picked_file_bytes(picks@, all.take(i as int))),
        decreases groups@.len() - i,
    {
        let ghost t = all.take(i + 1);
        assert(t.drop_last() =~= all.take(i as int));
        assert(t.last() == groups@[i as int]@);
        let count: usize = picks.count_in(i);
        let size: u64 = groups[i].size;
        assert(size * count == count * size) by (nonlinear_arith);
        n = plus_wrapping(n, times_wrapping(size, count));
        i = i + 1;
    }
    assert(all.take(i as int) =~= all);
    n
}

/// What the picks of folder groups take up together.
pub fn folder_bytes(picks: &PickSet, groups: &Vec<FolderGroup>) -> (r: u64)
    ensures
        r == wrapped(picked_folder_bytes(picks@, groups.deep_view())),
{
    let ghost all = groups.deep_view();
    let mut n: u64 = 0;
    let mut i: usize = 0;
    assert(all.take(0) =~= Seq::<FolderV>::empty());
    while i < groups.len()
        invariant
            i <= groups@.len(),
            all == groups.deep_view(),
            n == wrapped(picked_folder_bytes(picks@, all.take(i as int))),
        decreases groups@.len() - i,
    {
        let ghost t = all.take(i + 1);
        assert(t.drop_last() =~= all.take(i as int));
        assert(t.last() == groups@[i as int]@);
        let count: usize = picks.count_in(i);
        let size: u64 = groups[i].size;
        assert(size * count == count * size) by (nonlinear_arith);
        n = plus_wrapping(n, times_wrapping(size, count));
        i = i + 1;
    }
    assert(all.take(i as int) =~= all);
    n
}

proof fn lemma_keeps_first(list: Seq<Pick>, more: Seq<Pick>)
    requires
        forall|i: int| 0 <= i < list.len() ==> (#[trigger] list[i]).copy > 0,
        forall|i: int| 0 <= i < more.len() ==> (#[trigger] more[i]).copy > 0,
    ensures
        forall|i: int| 0 <= i < all_picked(list, more).len() ==> (#[trigger] all_picked(list, more)[i]).copy > 0,
    decreases more.len(),
{
    if more.len() > 0 {
        let s = more.drop_last();
        assert forall|i: int| 0 <= i < s.len() implies (#[trigger] s[i]).copy > 0 by {
            assert(more[i].copy > 0);
        }
        lemma_keeps_first(list, s);
        assert(more[more.len() - 1].copy > 0);
        let before = all_picked(list, s);
        let all = all_picked(list, more);
        assert(all == picked(before, more.last()));
        assert forall|i: int| 0 <= i < all.len() implies (#[trigger] all[i]).copy > 0 by {
            if i < before.len() {
                assert(all[i] == before[i]);
            }
        }
    }
}

proof fn lemma_file_picks(groups: Seq<GroupV>)
    requires
        forall|i: int| 0 <= i < groups.len() ==> (#[trigger] groups[i]).paths.len() <= usize::MAX,
    ensures
        forall|i: int| 0 <= i < file_picks(groups).len() ==> (#[trigger] file_picks(groups)[i]).copy > 0,
    decreases groups.len(),
{
    if groups.len() > 0 {
        let s = groups.drop_last();
        assert forall|i: int| 0 <= i < s.len() implies (#[trigger] s[i]).paths.len() <= usize::MAX by {
            assert(groups[i].paths.len() <= usize::MAX);
        }
        lemma_file_picks(s);
        assert(groups[groups.len() - 1].paths.len() <= usize::MAX);
        let a = file_picks(s);
        let b = further_copies((groups.len() - 1) as usize, groups.last().paths.len());
        assert forall|i: int| 0 <= i < file_picks(groups).len() implies (#[trigger] file_picks(groups)[i]).copy > 0 by {
            if i < a.len() {
                assert(file_picks(groups)[i] == a[i]);
            } else {
                assert(file_picks(groups)[i] == b[i - a.len()]);
            }
        }
    }
}

/// Picking all further copies never picks the first copy of a group.
pub proof fn law_first_copy_not_picked(groups: Seq<GroupV>, group: usize)
    requires
        forall|i: int| 0 <= i < groups.len() ==> (#[trigger] groups[i]).paths.len() <= usize::MAX,
    ensures
        !all_picked(Seq::empty(), file_picks(groups)).contains(Pick { group, copy: 0 }),
{
    lemma_file_picks(groups);
    lemma_keeps_first(Seq::empty(), file_picks(groups));
    let all = all_picked(Seq::empty(), file_picks(groups));
    if all.contains(Pick { group, copy: 0 }) {
        let i = choose|i: int| 0 <= i < all.len() && all[i] == (Pick { group, copy: 0 });
        assert(all[i].copy > 0);
    }
}

} // verus!
