//! Tables that sort paths into buckets, in the order in which keys come up.

use vstd::hash_map::StringHashMap;
use vstd::hash_set::StringHashSet;
use vstd::prelude::*;

use crate::paths::{FilePath, PathId, PathMap, PathV};

verus! {

/// The paths that share a key. `size` is the size of each of the files, where
/// the key says so.
#[derive(Debug)]
pub struct Bucket {
    pub key: String,
    pub size: u64,
    pub paths: Vec<FilePath>,
}

/// A bucket as a mathematical value.
pub struct BucketV {
    pub key: Seq<char>,
    pub size: u64,
    pub paths: Seq<PathV>,
}

impl View for Bucket {
    type V = BucketV;

    open spec fn view(&self) -> BucketV {
        BucketV { key: self.key@, size: self.size, paths: self.paths.deep_view() }
    }
}

impl DeepView for Bucket {
    type V = BucketV;

    open spec fn deep_view(&self) -> BucketV {
        self@
    }
}

/// A list of paths under a key, as it is saved.
#[derive(Debug)]
pub struct PathList {
    pub key: String,
    pub paths: Vec<FilePath>,
}

/// A saved list as a mathematical value.
pub struct ListV {
    pub key: Seq<char>,
    pub paths: Seq<PathV>,
}

impl View for PathList {
    type V = ListV;

    open spec fn view(&self) -> ListV {
        ListV { key: self.key@, paths: self.paths.deep_view() }
    }
}

impl DeepView for PathList {
    type V = ListV;

    open spec fn deep_view(&self) -> ListV {
        self@
    }
}

impl Clone for PathList {
    fn clone(&self) -> (r: Self)
        ensures
            r@ == self@,
    {
        PathList { key: self.key.clone(), paths: copy_paths(&self.paths) }
    }
}

pub type TableV = Seq<BucketV>;

/// A copy of a list of paths.
pub fn copy_paths(paths: &Vec<FilePath>) -> (r: Vec<FilePath>)
    ensures
        r.deep_view() == paths.deep_view(),
{
    let r = paths.clone();
    assert(r.deep_view() =~= paths.deep_view());
    r
}

// ---------------------------------------------------------------- the model

/// Where a key stands in a table, or the length of the table.
pub open spec fn pos(t: TableV, key: Seq<char>) -> int
    decreases t.len(),
{
    if t.len() == 0 {
        0
    } else if t[0].key == key {
        0
    } else {
        1 + pos(t.skip(1), key)
    }
}

pub open spec fn keys_unique(t: TableV) -> bool {
    forall|i: int, j: int| 0 <= i < j < t.len() ==> (#[trigger] t[i]).key != (#[trigger] t[j]).key
}

pub proof fn lemma_pos(t: TableV, key: Seq<char>)
    ensures
        0 <= pos(t, key) <= t.len(),
        pos(t, key) < t.len() ==> t[pos(t, key)].key == key,
        forall|i: int| 0 <= i < pos(t, key) ==> (#[trigger] t[i]).key != key,
    decreases t.len(),
{
    if t.len() > 0 && t[0].key != key {
        lemma_pos(t.skip(1), key);
        assert forall|i: int| 0 <= i < pos(t, key) implies (#[trigger] t[i]).key != key by {
            if i > 0 {
                assert(t.skip(1)[i - 1].key != key);
            }
        }
    }
}

pub proof fn lemma_pos_is(t: TableV, i: int)
    requires
        keys_unique(t),
        0 <= i < t.len(),
    ensures
        pos(t, t[i].key) == i,
{
    lemma_pos(t, t[i].key);
    let p = pos(t, t[i].key);
    if p < i {
        assert(t[p].key != t[i].key);
    }
}

/// A table after a path went into the bucket of `key`.
pub open spec fn added(t: TableV, key: Seq<char>, size: u64, path: PathV) -> TableV {
    let p = pos(t, key);
    if p < t.len() {
        t.update(p, BucketV { paths: t[p].paths.push(path), ..t[p] })
    } else {
        t.push(BucketV { key, size, paths: seq![path] })
    }
}

/// A table after the paths of `key` were replaced.
pub open spec fn put(t: TableV, key: Seq<char>, size: u64, paths: Seq<PathV>) -> TableV {
    let p = pos(t, key);
    if p < t.len() {
        t.update(p, BucketV { key, size, paths })
    } else {
        t.push(BucketV { key, size, paths })
    }
}

/// The paths of a key; none where it is not there.
pub open spec fn paths_under(t: TableV, key: Seq<char>) -> Seq<PathV> {
    if pos(t, key) < t.len() {
        t[pos(t, key)].paths
    } else {
        Seq::empty()
    }
}

/// A table after paths were appended to the bucket of `key`.
pub open spec fn extended(t: TableV, key: Seq<char>, paths: Seq<PathV>) -> TableV {
    let p = pos(t, key);
    if p < t.len() {
        t.update(p, BucketV { paths: t[p].paths + paths, ..t[p] })
    } else {
        t.push(BucketV { key, size: 0, paths })
    }
}

/// A table without the buckets whose key is among `keys`.
pub open spec fn without(t: TableV, keys: Set<Seq<char>>) -> TableV
    decreases t.len(),
{
    if t.len() == 0 {
        Seq::empty()
    } else if keys.contains(t.last().key) {
        without(t.drop_last(), keys)
    } else {
        without(t.drop_last(), keys).push(t.last())
    }
}

/// All paths of a table, bucket after bucket.
pub open spec fn all_paths(t: TableV) -> Seq<PathV>
    decreases t.len(),
{
    if t.len() == 0 {
        Seq::empty()
    } else {
        all_paths(t.drop_last()) + t.last().paths
    }
}

/// A table as it is saved.
pub open spec fn lists_of(t: TableV) -> Seq<ListV> {
    t.map_values(|b: BucketV| ListV { key: b.key, paths: b.paths })
}

/// Putting a path in keeps keys apart.
pub proof fn lemma_added_unique(t: TableV, key: Seq<char>, size: u64, path: PathV)
    requires
        keys_unique(t),
    ensures
        keys_unique(added(t, key, size, path)),
{
    lemma_pos(t, key);
}

/// Replacing paths keeps keys apart.
pub proof fn lemma_put_unique(t: TableV, key: Seq<char>, size: u64, paths: Seq<PathV>)
    requires
        keys_unique(t),
    ensures
        keys_unique(put(t, key, size, paths)),
{
    lemma_pos(t, key);
}

pub proof fn lemma_extended_unique(t: TableV, key: Seq<char>, paths: Seq<PathV>)
    requires
        keys_unique(t),
    ensures
        keys_unique(extended(t, key, paths)),
{
    lemma_pos(t, key);
}

pub proof fn lemma_without(t: TableV, keys: Set<Seq<char>>)
    requires
        keys_unique(t),
    ensures
        keys_unique(without(t, keys)),
        without(t, keys).len() <= t.len(),
        forall|i: int| 0 <= i < without(t, keys).len() ==> t.contains(#[trigger] without(t, keys)[i]),
        forall|i: int| 0 <= i < without(t, keys).len() ==> !keys.contains((#[trigger] without(t, keys)[i]).key),
    decreases t.len(),
{
    if t.len() > 0 {
        let s = t.drop_last();
        lemma_without(s, keys);
        let w = without(s, keys);
        assert forall|i: int| 0 <= i < w.len() implies t.contains(#[trigger] w[i]) && w[i].key != t.last().key by {
            assert(s.contains(w[i]));
            let j = choose|j: int| 0 <= j < s.len() && s[j] == w[i];
            assert(t[j] == w[i]);
            assert(t[t.len() - 1] == t.last());
        }
        let r = without(t, keys);
        assert forall|i: int| 0 <= i < r.len() implies t.contains(#[trigger] r[i]) && !keys.contains(r[i].key) by {
            if i < w.len() {
                assert(r[i] == w[i]);
            } else {
                assert(r[i] == t.last());
                assert(t[t.len() - 1] == t.last());
            }
        }
    }
}

// ------------------------------------------------------------- the structure

/// A table with an index by key.
pub struct Table {
    index: StringHashMap<usize>,
    buckets: Vec<Bucket>,
}

impl View for Table {
    type V = TableV;

    closed spec fn view(&self) -> TableV {
        self.buckets.deep_view()
    }
}

impl Table {
    /// No key occurs twice, and the index knows where each one stands.
    pub closed spec fn wf(&self) -> bool {
        &&& keys_unique(self@)
        &&& forall|i: int| 0 <= i < self@.len() ==> self.index@.contains_key((#[trigger] self@[i]).key)
        &&& forall|k: Seq<char>| #[trigger]
            self.index@.contains_key(k) ==> self.index@[k] < self@.len() && self@[self.index@[k] as int].key == k
    }

    pub proof fn lemma_wf(&self)
        requires
            self.wf(),
        ensures
            keys_unique(self@),
    {
    }

    pub fn new() -> (r: Table)
        ensures
            r.wf(),
            r@ == Seq::<BucketV>::empty(),
    {
        let r = Table { index: StringHashMap::new(), buckets: Vec::new() };
        assert(r@ =~= Seq::<BucketV>::empty());
        r
    }

    /// How many buckets there are.
    pub fn len(&self) -> (n: usize)
        ensures
            n == self@.len(),
    {
        self.buckets.len()
    }

    /// The bucket at a position.
    pub fn bucket(&self, i: usize) -> (r: &Bucket)
        requires
            i < self@.len(),
        ensures
            r@ == self@[i as int],
    {
        &self.buckets[i]
    }

    fn find(&self, key: &str) -> (r: Option<usize>)
        requires
            self.wf(),
        ensures
            match r {
                Some(i) => i < self@.len() && i == pos(self@, key@) && self@[i as int].key == key@,
                None => pos(self@, key@) == self@.len(),
            },
    {
        match self.index.get(key) {
            Some(i) => {
                proof {
                    lemma_pos_is(self@, *i as int);
                }
                Some(*i)
            },
            None => {
                proof {
                    lemma_pos(self@, key@);
                }
                None
            },
        }
    }

    fn append_bucket(&mut self, key: String, size: u64, paths: Vec<FilePath>)
        requires
            old(self).wf(),
            pos(old(self)@, key@) == old(self)@.len(),
        ensures
            final(self).wf(),
            final(self)@ == old(self)@.push(BucketV { key: key@, size, paths: paths.deep_view() }),
    {
        proof {
            lemma_pos(self@, key@);
        }
        let at: usize = self.buckets.len();
        let ghost b = BucketV { key: key@, size, paths: paths.deep_view() };
        self.index.insert(key.clone(), at);
        self.buckets.push(Bucket { key, size, paths });
        assert(self@ =~= old(self)@.push(b));
        proof {
            assert forall|i: int| 0 <= i < self@.len() implies self.index@.contains_key((#[trigger] self@[i]).key) by {
                if i < old(self)@.len() {
                    assert(self@[i] == old(self)@[i]);
                }
            }
            assert forall|k: Seq<char>| #[trigger] self.index@.contains_key(k) implies self.index@[k] < self@.len()
                && self@[self.index@[k] as int].key == k by {
                if k != b.key {
                    assert(old(self).index@.contains_key(k));
                }
            }
        }
    }

    proof fn lemma_rekeyed(old_t: Table, new_t: Table, i: int)
        requires
            old_t.wf(),
            new_t.index == old_t.index,
            0 <= i < old_t@.len(),
            new_t@.len() == old_t@.len(),
            forall|j: int| 0 <= j < old_t@.len() ==> (#[trigger] new_t@[j]).key == old_t@[j].key,
        ensures
            new_t.wf(),
    {
        assert forall|j: int| 0 <= j < new_t@.len() implies new_t.index@.contains_key((#[trigger] new_t@[j]).key) by {
            assert(old_t.index@.contains_key(old_t@[j].key));
        }
        assert forall|a: int, b: int| 0 <= a < b < new_t@.len() implies (#[trigger] new_t@[a]).key != (#[trigger] new_t@[b]).key by {
            assert(old_t@[a].key != old_t@[b].key);
        }
    }

    /// Puts a path into the bucket of `key`, which is made if need be.
    pub fn add(&mut self, key: String, size: u64, path: FilePath)
        requires
            old(self).wf(),
        ensures
            final(self).wf(),
            final(self)@ == added(old(self)@, key@, size, path@),
    {
        match self.find(key.as_str()) {
            Some(i) => {
                self.buckets[i].paths.push(path);
                proof {
                    let b = old(self)@[i as int];
                    assert(self.buckets@[i as int].paths.deep_view() =~= b.paths.push(path@));
                    assert(self@ =~= old(self)@.update(i as int, BucketV { paths: b.paths.push(path@), ..b }));
                    Table::lemma_rekeyed(*old(self), *self, i as int);
                }
            },
            None => {
                let mut paths: Vec<FilePath> = Vec::new();
                let ghost p = path@;
                paths.push(path);
                assert(paths.deep_view() =~= seq![p]);
                self.append_bucket(key, size, paths);
            },
        }
    }

    /// Sets the paths of `key`.
    pub fn set(&mut self, key: String, size: u64, paths: Vec<FilePath>)
        requires
            old(self).wf(),
        ensures
            final(self).wf(),
            final(self)@ == put(old(self)@, key@, size, paths.deep_view()),
    {
        match self.find(key.as_str()) {
            Some(i) => {
                let ghost v = BucketV { key: key@, size, paths: paths.deep_view() };
                self.buckets[i] = Bucket { key, size, paths };
                proof {
                    assert(self@ =~= old(self)@.update(i as int, v));
                    Table::lemma_rekeyed(*old(self), *self, i as int);
                }
            },
            None => {
                self.append_bucket(key, size, paths);
            },
        }
    }

    /// Appends paths to the bucket of `key`, which is made if need be.
    pub fn extend(&mut self, key: String, paths: Vec<FilePath>)
        requires
            old(self).wf(),
        ensures
            final(self).wf(),
            final(self)@ == extended(old(self)@, key@, paths.deep_view()),
    {
        match self.find(key.as_str()) {
            Some(i) => {
                let mut more = paths;
                self.buckets[i].paths.append(&mut more);
                proof {
                    let b = old(self)@[i as int];
                    assert(self.buckets@[i as int].paths.deep_view() =~= b.paths + paths.deep_view());
                    assert(self@ =~= old(self)@.update(i as int, BucketV { paths: b.paths + paths.deep_view(), ..b }));
                    Table::lemma_rekeyed(*old(self), *self, i as int);
                }
            },
            None => {
                self.append_bucket(key, 0, paths);
            },
        }
    }

    /// The paths of a key; none where it is not there.
    pub fn paths_of(&self, key: &str) -> (r: Vec<FilePath>)
        requires
            self.wf(),
        ensures
            r.deep_view() == paths_under(self@, key@),
    {
        match self.find(key) {
            Some(i) => copy_paths(&self.buckets[i].paths),
            None => {
                let none: Vec<FilePath> = Vec::new();
                assert(none.deep_view() =~= Seq::<PathV>::empty());
                none
            },
        }
    }

    /// The table without the buckets of some keys.
    pub fn drop_keys(&self, keys: &StringHashSet) -> (r: Table)
        requires
            self.wf(),
        ensures
            r.wf(),
            r@ == without(self@, keys@),
    {
        let mut r = Table::new();
        let mut i: usize = 0;
        assert(self@.take(0) =~= Seq::<BucketV>::empty());
        while i < self.buckets.len()
            invariant
                i <= self.buckets@.len(),
                self.wf(),
                r.wf(),
                r@ == without(self@.take(i as int), keys@),
            decreases self.buckets@.len() - i,
        {
            let b = &self.buckets[i];
            let ghost t = self@.take(i + 1);
            assert(t.drop_last() =~= self@.take(i as int));
            assert(t.last() == b@);
            if !keys.contains(b.key.as_str()) {
                proof {
                    lemma_without(self@.take(i as int), keys@);
                    lemma_pos(r@, b.key@);
                    if pos(r@, b.key@) < r@.len() {
                        let j = choose|j: int| 0 <= j < i && self@.take(i as int)[j] == r@[pos(r@, b.key@)];
                        assert(self@.take(i as int).contains(r@[pos(r@, b.key@)]));
                        assert(self@[j].key == self@[i as int].key);
                    }
                }
                r.append_bucket(b.key.clone(), b.size, copy_paths(&b.paths));
            }
            i = i + 1;
        }
        assert(self@.take(i as int) =~= self@);
        r
    }

    /// All paths, bucket after bucket.
    pub fn paths(&self) -> (r: Vec<FilePath>)
        ensures
            r.deep_view() == all_paths(self@),
    {
        let mut r: Vec<FilePath> = Vec::new();
        let mut i: usize = 0;
        assert(self@.take(0) =~= Seq::<BucketV>::empty());
        assert(r.deep_view() =~= Seq::<PathV>::empty());
        while i < self.buckets.len()
            invariant
                i <= self.buckets@.len(),
                r.deep_view() == all_paths(self@.take(i as int)),
            decreases self.buckets@.len() - i,
        {
            let ghost before = r.deep_view();
            let ghost t = self@.take(i + 1);
            assert(t.drop_last() =~= self@.take(i as int));
            let mut more = copy_paths(&self.buckets[i].paths);
            let ghost m = more.deep_view();
            r.append(&mut more);
            assert(r.deep_view() =~= before + m);
            i = i + 1;
        }
        assert(self@.take(i as int) =~= self@);
        r
    }

    /// The table as it is saved.
    pub fn lists(&self) -> (r: Vec<PathList>)
        ensures
            r.deep_view() == lists_of(self@),
    {
        let mut r: Vec<PathList> = Vec::new();
        let mut i: usize = 0;
        while i < self.buckets.len()
            invariant
                i <= self.buckets@.len(),
                r@.len() == i,
                forall|j: int| 0 <= j < i ==> (#[trigger] r@[j])@ == (ListV { key: self@[j].key, paths: self@[j].paths }),
            decreases self.buckets@.len() - i,
        {
            r.push(PathList { key: self.buckets[i].key.clone(), paths: copy_paths(&self.buckets[i].paths) });
            i = i + 1;
        }
        assert(r.deep_view() =~= lists_of(self@));
        r
    }
}

// ------------------------------------------------------------- lists of keys

/// A list of keys after one was noted; it is there once.
pub open spec fn noted(list: Seq<Seq<char>>, key: Seq<char>) -> Seq<Seq<char>> {
    if list.contains(key) {
        list
    } else {
        list.push(key)
    }
}

/// The texts of a list, each once, in the order in which they come up.
pub open spec fn distinct(list: Seq<Seq<char>>) -> Seq<Seq<char>>
    decreases list.len(),
{
    if list.len() == 0 {
        Seq::empty()
    } else {
        noted(distinct(list.drop_last()), list.last())
    }
}

/// A list of keys in which none occurs twice.
pub struct KeyList {
    keys: StringHashSet,
    list: Vec<String>,
}

impl View for KeyList {
    type V = Seq<Seq<char>>;

    closed spec fn view(&self) -> Seq<Seq<char>> {
        self.list.deep_view()
    }
}

impl KeyList {
    pub closed spec fn wf(&self) -> bool {
        forall|k: Seq<char>| #[trigger] self.keys@.contains(k) <==> self@.contains(k)
    }

    pub fn new() -> (r: KeyList)
        ensures
            r.wf(),
            r@ == Seq::<Seq<char>>::empty(),
    {
        let r = KeyList { keys: StringHashSet::new(), list: Vec::new() };
        assert(r@ =~= Seq::<Seq<char>>::empty());
        r
    }

    /// The keys of a list, each once.
    pub fn from_list(list: &Vec<String>) -> (r: KeyList)
        ensures
            r.wf(),
            r@ == distinct(list.deep_view()),
    {
        let mut r = KeyList::new();
        let mut i: usize = 0;
        assert(list.deep_view().take(0) =~= Seq::<Seq<char>>::empty());
        while i < list.len()
            invariant
                i <= list@.len(),
                r.wf(),
                r@ == distinct(list.deep_view().take(i as int)),
            decreases list@.len() - i,
        {
            let ghost t = list.deep_view().take(i + 1);
            assert(t.drop_last() =~= list.deep_view().take(i as int));
            assert(t.last() == list@[i as int]@);
            r.note(list[i].as_str());
            i = i + 1;
        }
        assert(list.deep_view().take(i as int) =~= list.deep_view());
        r
    }

    /// Notes a key.
    pub fn note(&mut self, key: &str)
        requires
            old(self).wf(),
        ensures
            final(self).wf(),
            final(self)@ == noted(old(self)@, key@),
    {
        if !self.keys.contains(key) {
            let ghost before = self@;
            self.keys.insert(key.to_string());
            self.list.push(key.to_string());
            assert(self@ =~= before.push(key@));
            proof {
                assert forall|k: Seq<char>| #[trigger] self.keys@.contains(k) <==> self@.contains(k) by {
                    if before.contains(k) {
                        let j = choose|j: int| 0 <= j < before.len() && before[j] == k;
                        assert(self@[j] == k);
                    }
                    assert(self@[before.len() as int] == key@);
                    if self@.contains(k) && k != key@ {
                        let j = choose|j: int| 0 <= j < self@.len() && self@[j] == k;
                        assert(before[j] == k);
                    }
                }
            }
        }
    }

    /// The keys, in the order in which they were noted.
    pub fn to_list(&self) -> (r: Vec<String>)
        ensures
            r.deep_view() == self@,
    {
        crate::text::copy_texts(&self.list)
    }
}

// --------------------------------------------------------------- marked paths

/// A map after paths were marked with a value; a later mark counts.
pub open spec fn marked<T>(m: Map<PathId, T>, paths: Seq<PathV>, value: T) -> Map<PathId, T>
    decreases paths.len(),
{
    if paths.len() == 0 {
        m
    } else {
        marked(m, paths.drop_last(), value).insert(paths.last().parts, value)
    }
}

/// Marks paths with a value.
pub fn mark_paths<T: Copy>(m: &mut PathMap<T>, paths: &Vec<FilePath>, value: T)
    ensures
        final(m)@ == marked(old(m)@, paths.deep_view(), value),
{
    let mut i: usize = 0;
    assert(paths.deep_view().take(0) =~= Seq::<PathV>::empty());
    while i < paths.len()
        invariant
            i <= paths@.len(),
            m@ == marked(old(m)@, paths.deep_view().take(i as int), value),
        decreases paths@.len() - i,
    {
        let ghost t = paths.deep_view().take(i + 1);
        assert(t.drop_last() =~= paths.deep_view().take(i as int));
        assert(t.last() == paths@[i as int]@);
        m.insert(&paths[i], value);
        i = i + 1;
    }
    assert(paths.deep_view().take(i as int) =~= paths.deep_view());
}

/// The paths that were marked are those that are in the list or had a mark.
pub proof fn lemma_marked<T>(m: Map<PathId, T>, paths: Seq<PathV>, value: T, p: PathId)
    ensures
        marked(m, paths, value).contains_key(p) <==> m.contains_key(p) || paths.map_values(|q: PathV| q.parts).contains(p),
        paths.map_values(|q: PathV| q.parts).contains(p) ==> marked(m, paths, value)[p] == value,
        !paths.map_values(|q: PathV| q.parts).contains(p) ==> marked(m, paths, value)[p] == m[p],
    decreases paths.len(),
{
    let ids = paths.map_values(|q: PathV| q.parts);
    if paths.len() > 0 {
        let s = paths.drop_last();
        let sids = s.map_values(|q: PathV| q.parts);
        lemma_marked(m, s, value, p);
        assert(ids =~= sids.push(paths.last().parts));
        if sids.contains(p) {
            let j = choose|j: int| 0 <= j < sids.len() && sids[j] == p;
            assert(ids[j] == p);
        }
        if p == paths.last().parts {
            assert(ids[ids.len() - 1] == p);
        }
        if ids.contains(p) && p != paths.last().parts {
            let j = choose|j: int| 0 <= j < ids.len() && ids[j] == p;
            assert(sids[j] == p);
        }
    }
}

} // verus!
