//! Stable sorting by keys that are rows of numbers.

use vstd::prelude::*;

verus! {

/// Lexicographic order on rows of numbers: the first difference decides, and a
/// row comes before any longer row that it begins.
pub open spec fn lex_before(a: Seq<u64>, b: Seq<u64>) -> bool
    decreases a.len(),
{
    if b.len() == 0 {
        false
    } else if a.len() == 0 {
        true
    } else {
        a[0] < b[0] || (a[0] == b[0] && lex_before(a.skip(1), b.skip(1)))
    }
}

pub proof fn lemma_lex_asymmetric(a: Seq<u64>, b: Seq<u64>)
    ensures
        lex_before(a, b) ==> !lex_before(b, a),
    decreases a.len(),
{
    if a.len() > 0 && b.len() > 0 {
        lemma_lex_asymmetric(a.skip(1), b.skip(1));
    }
}

pub proof fn lemma_lex_total(a: Seq<u64>, b: Seq<u64>)
    ensures
        lex_before(a, b) || lex_before(b, a) || a == b,
    decreases a.len(),
{
    if a.len() > 0 && b.len() > 0 {
        lemma_lex_total(a.skip(1), b.skip(1));
        if a[0] == b[0] && a.skip(1) == b.skip(1) {
            assert(a =~= seq![a[0]] + a.skip(1));
            assert(b =~= seq![b[0]] + b.skip(1));
        }
    } else {
        if a.len() == 0 && b.len() == 0 {
            assert(a =~= b);
        }
    }
}

pub proof fn lemma_lex_transitive(a: Seq<u64>, b: Seq<u64>, c: Seq<u64>)
    requires
        lex_before(a, b),
        lex_before(b, c),
    ensures
        lex_before(a, c),
    decreases a.len(),
{
    if a.len() > 0 {
        if a[0] == b[0] && b[0] == c[0] {
            lemma_lex_transitive(a.skip(1), b.skip(1), c.skip(1));
        }
    }
}

/// A common beginning does not matter to the order.
pub proof fn lemma_lex_common_start(p: Seq<u64>, a: Seq<u64>, b: Seq<u64>)
    ensures
        lex_before(p + a, p + b) == lex_before(a, b),
    decreases p.len(),
{
    if p.len() == 0 {
        assert(p + a =~= a);
        assert(p + b =~= b);
    } else {
        lemma_lex_common_start(p.skip(1), a, b);
        assert((p + a).skip(1) =~= p.skip(1) + a);
        assert((p + b).skip(1) =~= p.skip(1) + b);
    }
}

/// Rows that differ before either ends stay in order whatever follows them.
pub proof fn lemma_lex_extend(a: Seq<u64>, b: Seq<u64>, x: Seq<u64>, y: Seq<u64>)
    requires
        lex_before(a, b),
        !a.is_prefix_of(b),
    ensures
        lex_before(a + x, b + y),
    decreases a.len(),
{
    if a.len() == 0 {
        assert(a =~= b.subrange(0, 0));
    } else {
        assert((a + x).skip(1) =~= a.skip(1) + x);
        assert((b + y).skip(1) =~= b.skip(1) + y);
        if a[0] == b[0] {
            if a.skip(1).is_prefix_of(b.skip(1)) {
                assert(a =~= b.subrange(0, a.len() as int)) by {
                    assert forall|i: int| 0 <= i < a.len() implies a[i] == b[i] by {
                        if i > 0 {
                            assert(a.skip(1)[i - 1] == b.skip(1).subrange(0, a.len() - 1)[i - 1]);
                        }
                    }
                }
            }
            lemma_lex_extend(a.skip(1), b.skip(1), x, y);
        }
    }
}

/// Whether `a` comes before `b`.
pub fn lex_less(a: &Vec<u64>, b: &Vec<u64>) -> (r: bool)
    ensures
        r == lex_before(a@, b@),
{
    let mut i: usize = 0;
    assert(a@.skip(0) =~= a@);
    assert(b@.skip(0) =~= b@);
    while i < a.len() && i < b.len()
        invariant
            i <= a@.len(),
            i <= b@.len(),
            lex_before(a@, b@) == lex_before(a@.skip(i as int), b@.skip(i as int)),
        decreases a@.len() - i,
    {
        assert(a@.skip(i as int).skip(1) =~= a@.skip(i + 1));
        assert(b@.skip(i as int).skip(1) =~= b@.skip(i + 1));
        if a[i] < b[i] {
            return true;
        }
        if a[i] > b[i] {
            return false;
        }
        i = i + 1;
    }
    i < b.len()
}

/// The rows that a list of keys holds.
pub open spec fn rows(keys: Seq<Vec<u64>>) -> Seq<Seq<u64>> {
    keys.map_values(|k: Vec<u64>| k@)
}

/// Whether position `x` stands before position `y` once sorted: by key, and
/// where the keys are equal by the positions themselves.
pub open spec fn precedes(keys: Seq<Seq<u64>>, x: int, y: int) -> bool {
    lex_before(keys[x], keys[y]) || (keys[x] == keys[y] && x < y)
}

proof fn lemma_precedes_transitive(keys: Seq<Seq<u64>>, x: int, y: int, z: int)
    requires
        precedes(keys, x, y),
        precedes(keys, y, z),
    ensures
        precedes(keys, x, z),
{
    if lex_before(keys[x], keys[y]) && lex_before(keys[y], keys[z]) {
        lemma_lex_transitive(keys[x], keys[y], keys[z]);
    }
}

proof fn lemma_precedes_asymmetric(keys: Seq<Seq<u64>>, x: int, y: int)
    requires
        precedes(keys, x, y),
    ensures
        !precedes(keys, y, x),
{
    lemma_lex_asymmetric(keys[x], keys[y]);
    lemma_lex_asymmetric(keys[x], keys[x]);
}

/// `perm` lists the positions of `keys` in sorted order, equal keys in the
/// order in which they stand.
pub open spec fn is_stable_order(keys: Seq<Seq<u64>>, perm: Seq<usize>) -> bool {
    &&& perm.len() == keys.len()
    &&& forall|i: int| 0 <= i < perm.len() ==> (#[trigger] perm[i]) < keys.len()
    &&& forall|i: int, j: int|
        0 <= i < j < perm.len() ==> precedes(keys, #[trigger] perm[i] as int, #[trigger] perm[j] as int)
}

/// The one stable order of `keys`.
pub open spec fn stable_order_of(keys: Seq<Seq<u64>>) -> Seq<usize> {
    choose|perm: Seq<usize>| is_stable_order(keys, perm)
}

pub proof fn lemma_order_no_duplicates(keys: Seq<Seq<u64>>, p: Seq<usize>)
    requires
        is_stable_order(keys, p),
    ensures
        p.no_duplicates(),
{
    assert forall|i: int, j: int| 0 <= i < p.len() && 0 <= j < p.len() && i != j implies p[i] != p[j] by {
        if p[i] == p[j] {
            if i < j {
                lemma_precedes_asymmetric(keys, p[i] as int, p[j] as int);
            } else {
                lemma_precedes_asymmetric(keys, p[j] as int, p[i] as int);
            }
        }
    }
}

/// As many different positions as there are cover all of them.
pub proof fn lemma_covers(p: Seq<usize>, x: int) -> (i: int)
    requires
        p.no_duplicates(),
        forall|i: int| 0 <= i < p.len() ==> (#[trigger] p[i]) < p.len(),
        0 <= x < p.len(),
    ensures
        0 <= i < p.len(),
        p[i] == x,
{
    let ints = p.map_values(|v: usize| v as int);
    assert(ints.no_duplicates());
    ints.unique_seq_to_set();
    let range = vstd::set_lib::set_int_range(0, p.len() as int);
    vstd::set_lib::lemma_int_range(0, p.len() as int);
    assert(ints.to_set().subset_of(range)) by {
        assert forall|v: int| ints.to_set().contains(v) implies range.contains(v) by {
            let i = choose|i: int| 0 <= i < ints.len() && ints[i] == v;
            assert(p[i] < p.len());
        }
    }
    vstd::set_lib::lemma_subset_equality(ints.to_set(), range);
    assert(range.contains(x));
    assert(ints.contains(x));
    choose|i: int| 0 <= i < ints.len() && ints[i] == x
}

/// Every position occurs in a stable order.
pub proof fn lemma_order_covers(keys: Seq<Seq<u64>>, p: Seq<usize>, x: usize)
    requires
        is_stable_order(keys, p),
        x < keys.len(),
    ensures
        p.contains(x),
{
    lemma_order_no_duplicates(keys, p);
    let i = lemma_covers(p, x as int);
    assert(p[i] == x);
}

proof fn lemma_order_unique_upto(keys: Seq<Seq<u64>>, p: Seq<usize>, q: Seq<usize>, n: int)
    requires
        is_stable_order(keys, p),
        is_stable_order(keys, q),
        0 <= n <= keys.len(),
    ensures
        p.take(n) == q.take(n),
    decreases n,
{
    if n > 0 {
        let i = n - 1;
        lemma_order_unique_upto(keys, p, q, i);
        lemma_order_no_duplicates(keys, p);
        lemma_order_no_duplicates(keys, q);
        lemma_order_covers(keys, q, p[i]);
        lemma_order_covers(keys, p, q[i]);
        let j = choose|j: int| 0 <= j < q.len() && q[j] == p[i];
        let k = choose|k: int| 0 <= k < p.len() && p[k] == q[i];
        if j < i {
            assert(p.take(i)[j] == q.take(i)[j]);
        }
        if k < i {
            assert(p.take(i)[k] == q.take(i)[k]);
        }
        if j > i && k > i {
            assert(precedes(keys, q[i] as int, q[j] as int));
            assert(precedes(keys, p[i] as int, p[k] as int));
            lemma_precedes_asymmetric(keys, q[i] as int, p[i] as int);
        }
        assert(p[i] == q[i]);
        assert(p.take(n) =~= p.take(i).push(p[i]));
        assert(q.take(n) =~= q.take(i).push(q[i]));
    } else {
        assert(p.take(0) =~= q.take(0));
    }
}

/// No two stable orders of the same keys differ.
pub proof fn lemma_order_unique(keys: Seq<Seq<u64>>, p: Seq<usize>, q: Seq<usize>)
    requires
        is_stable_order(keys, p),
        is_stable_order(keys, q),
    ensures
        p == q,
{
    lemma_order_unique_upto(keys, p, q, keys.len() as int);
    assert(p.take(keys.len() as int) =~= p);
    assert(q.take(keys.len() as int) =~= q);
}

proof fn lemma_order_insert(keys: Seq<Seq<u64>>, p: Seq<usize>, x: usize, k: int)
    requires
        is_stable_order(keys.drop_last(), p),
        keys.len() > 0,
        x == keys.len() - 1,
        0 <= k <= p.len(),
        forall|i: int| 0 <= i < k ==> precedes(keys, #[trigger] p[i] as int, x as int),
    ensures
        exists|q: Seq<usize>| is_stable_order(keys, q),
    decreases p.len() - k,
{
    let s = keys.drop_last();
    assert forall|i: int, j: int| 0 <= i < j < p.len() implies precedes(keys, #[trigger] p[i] as int, #[trigger] p[j] as int) by {
        assert(precedes(s, p[i] as int, p[j] as int));
        assert(s[p[i] as int] == keys[p[i] as int]);
        assert(s[p[j] as int] == keys[p[j] as int]);
    }
    if k < p.len() && precedes(keys, p[k] as int, x as int) {
        lemma_order_insert(keys, p, x, k + 1);
    } else {
        let q = p.insert(k, x);
        if k < p.len() {
            lemma_lex_total(keys[p[k] as int], keys[x as int]);
            assert(p[k] < s.len());
            assert(precedes(keys, x as int, p[k] as int));
        }
        assert forall|i: int| 0 <= i < q.len() implies (#[trigger] q[i]) < keys.len() by {
            if i < k {
                assert(q[i] == p[i]);
            } else if i > k {
                assert(q[i] == p[i - 1]);
            }
        }
        assert forall|i: int, j: int| 0 <= i < j < q.len() implies precedes(keys, #[trigger] q[i] as int, #[trigger] q[j] as int) by {
            if j < k {
                assert(q[i] == p[i] && q[j] == p[j]);
            } else if j == k {
                assert(q[i] == p[i]);
            } else if i < k {
                assert(q[i] == p[i] && q[j] == p[j - 1]);
            } else if i == k {
                assert(q[j] == p[j - 1]);
                if j - 1 > k {
                    lemma_precedes_transitive(keys, x as int, p[k] as int, p[j - 1] as int);
                }
            } else {
                assert(q[i] == p[i - 1] && q[j] == p[j - 1]);
            }
        }
        assert(is_stable_order(keys, q));
    }
}

/// Every row of keys has a stable order.
pub proof fn lemma_order_exists(keys: Seq<Seq<u64>>) -> (perm: Seq<usize>)
    requires
        keys.len() <= usize::MAX,
    ensures
        is_stable_order(keys, perm),
    decreases keys.len(),
{
    if keys.len() == 0 {
        Seq::empty()
    } else {
        let p = lemma_order_exists(keys.drop_last());
        lemma_order_insert(keys, p, (keys.len() - 1) as usize, 0);
        choose|q: Seq<usize>| is_stable_order(keys, q)
    }
}

spec fn range_sorted(keys: Seq<Seq<u64>>, r: Seq<usize>, lo: int, hi: int) -> bool {
    &&& r.len() == hi - lo
    &&& forall|i: int| 0 <= i < r.len() ==> lo <= (#[trigger] r[i]) < hi
    &&& forall|i: int, j: int|
        0 <= i < j < r.len() ==> precedes(keys, #[trigger] r[i] as int, #[trigger] r[j] as int)
}

fn merge(keys: &Vec<Vec<u64>>, left: &Vec<usize>, right: &Vec<usize>, lo: usize, mid: usize, hi: usize) -> (out: Vec<
    usize,
>)
    requires
        lo <= mid <= hi <= keys@.len(),
        range_sorted(rows(keys@), left@, lo as int, mid as int),
        range_sorted(rows(keys@), right@, mid as int, hi as int),
    ensures
        range_sorted(rows(keys@), out@, lo as int, hi as int),
{
    let ghost kv = rows(keys@);
    let mut out: Vec<usize> = Vec::new();
    let mut i: usize = 0;
    let mut j: usize = 0;
    while i < left.len() || j < right.len()
        invariant
            lo <= mid <= hi <= keys@.len(),
            kv == rows(keys@),
            range_sorted(kv, left@, lo as int, mid as int),
            range_sorted(kv, right@, mid as int, hi as int),
            i <= left@.len(),
            j <= right@.len(),
            out@.len() == i + j,
            forall|a: int| 0 <= a < out@.len() ==> lo <= (#[trigger] out@[a]) < hi,
            forall|a: int, b: int|
                0 <= a < b < out@.len() ==> precedes(kv, #[trigger] out@[a] as int, #[trigger] out@[b] as int),
            forall|a: int, b: int|
                0 <= a < out@.len() && i <= b < left@.len() ==> precedes(
                    kv,
                    #[trigger] out@[a] as int,
                    #[trigger] left@[b] as int,
                ),
            forall|a: int, b: int|
                0 <= a < out@.len() && j <= b < right@.len() ==> precedes(
                    kv,
                    #[trigger] out@[a] as int,
                    #[trigger] right@[b] as int,
                ),
        decreases left@.len() - i + right@.len() - j,
    {
        let take_right: bool = if i >= left.len() {
            true
        } else if j >= right.len() {
            false
        } else {
            lex_less(&keys[right[j]], &keys[left[i]])
        };
        let ghost before = out@;
        if take_right {
            proof {
                assert forall|b: int| i <= b < left@.len() implies precedes(kv, right@[j as int] as int, #[trigger] left@[b] as int) by {
                    assert(precedes(kv, right@[j as int] as int, left@[i as int] as int));
                    if b > i {
                        lemma_precedes_transitive(kv, right@[j as int] as int, left@[i as int] as int, left@[b] as int);
                    }
                }
            }
            out.push(right[j]);
            j = j + 1;
        } else {
            proof {
                assert forall|b: int| j <= b < right@.len() implies precedes(kv, left@[i as int] as int, #[trigger] right@[b] as int) by {
                    lemma_lex_total(kv[left@[i as int] as int], kv[right@[j as int] as int]);
                    assert(precedes(kv, left@[i as int] as int, right@[j as int] as int));
                    if b > j {
                        lemma_precedes_transitive(kv, left@[i as int] as int, right@[j as int] as int, right@[b] as int);
                    }
                }
            }
            out.push(left[i]);
            i = i + 1;
        }
        assert(forall|a: int| 0 <= a < before.len() ==> out@[a] == before[a]);
    }
    out
}

fn sort_range(keys: &Vec<Vec<u64>>, lo: usize, hi: usize) -> (out: Vec<usize>)
    requires
        lo <= hi <= keys@.len(),
    ensures
        range_sorted(rows(keys@), out@, lo as int, hi as int),
    decreases hi - lo,
{
    if hi - lo == 0 {
        Vec::new()
    } else if hi - lo == 1 {
        let mut out: Vec<usize> = Vec::new();
        out.push(lo);
        out
    } else {
        let mid: usize = lo + (hi - lo) / 2;
        let left = sort_range(keys, lo, mid);
        let right = sort_range(keys, mid, hi);
        merge(keys, &left, &right, lo, mid, hi)
    }
}

/// The positions of `keys` in sorted order; equal keys keep their order.
pub fn stable_order(keys: &Vec<Vec<u64>>) -> (perm: Vec<usize>)
    ensures
        is_stable_order(rows(keys@), perm@),
        perm@ == stable_order_of(rows(keys@)),
{
    let perm = sort_range(keys, 0, keys.len());
    proof {
        lemma_order_unique(rows(keys@), perm@, stable_order_of(rows(keys@)));
    }
    perm
}

/// The items of `items` in the order that `perm` lists.
pub open spec fn arranged<T>(items: Seq<T>, perm: Seq<usize>) -> Seq<T> {
    Seq::new(perm.len(), |i: int| items[perm[i] as int])
}

/// Arranging items by keys keeps them all and adds none.
pub proof fn lemma_arranged<T>(items: Seq<T>, keys: Seq<Seq<u64>>)
    requires
        keys.len() == items.len(),
        keys.len() <= usize::MAX,
    ensures
        arranged(items, stable_order_of(keys)).len() == items.len(),
        forall|x: T| arranged(items, stable_order_of(keys)).contains(x) <==> #[trigger] items.contains(x),
        forall|i: int|
            0 <= i < items.len() ==> items.contains(#[trigger] arranged(items, stable_order_of(keys))[i]),
{
    lemma_order_exists(keys);
    let perm = stable_order_of(keys);
    assert(is_stable_order(keys, perm));
    let out = arranged(items, perm);
    assert forall|i: int| 0 <= i < items.len() implies items.contains(#[trigger] out[i]) by {
        assert(perm[i] < keys.len());
        assert(items[perm[i] as int] == out[i]);
    }
    assert forall|x: T| out.contains(x) <==> #[trigger] items.contains(x) by {
        if items.contains(x) {
            let j = choose|j: int| 0 <= j < items.len() && items[j] == x;
            lemma_order_covers(keys, perm, j as usize);
            let i = choose|i: int| 0 <= i < perm.len() && perm[i] == j as usize;
            assert(out[i] == x);
        }
    }
}

// -------------------------------------------------------------------- texts

/// The key by which texts sort: their UTF-8 bytes.
pub open spec fn text_key(s: Seq<char>) -> Seq<u64> {
    bytes_key(vstd::utf8::encode_utf8(s))
}

/// The key by which byte strings sort.
pub open spec fn bytes_key(b: Seq<u8>) -> Seq<u64> {
    b.map_values(|x: u8| x as u64)
}

pub fn key_of_bytes(b: &[u8]) -> (k: Vec<u64>)
    ensures
        k@ == bytes_key(b@),
{
    let mut k: Vec<u64> = Vec::new();
    let mut i: usize = 0;
    while i < b.len()
        invariant
            i <= b@.len(),
            k@ == bytes_key(b@.take(i as int)),
        decreases b@.len() - i,
    {
        k.push(b[i] as u64);
        i = i + 1;
        assert(k@ =~= bytes_key(b@.take(i as int)));
    }
    assert(b@.take(i as int) =~= b@);
    k
}

/// The texts of a list in ascending order.
pub open spec fn sorted_texts(list: Seq<Seq<char>>) -> Seq<Seq<char>> {
    arranged(list, stable_order_of(list.map_values(|s: Seq<char>| text_key(s))))
}

/// Sorts a list of texts.
pub fn sort_texts(list: &Vec<String>) -> (r: Vec<String>)
    ensures
        r.deep_view() == sorted_texts(list.deep_view()),
{
    let mut keys: Vec<Vec<u64>> = Vec::new();
    let mut i: usize = 0;
    while i < list.len()
        invariant
            i <= list@.len(),
            keys@.len() == i,
            forall|j: int| 0 <= j < i ==> (#[trigger] keys@[j])@ == text_key(list@[j]@),
        decreases list@.len() - i,
    {
        keys.push(key_of_bytes(list[i].as_str().as_bytes()));
        i = i + 1;
    }
    assert(rows(keys@) =~= list.deep_view().map_values(|s: Seq<char>| text_key(s)));
    let perm = stable_order(&keys);
    let mut r: Vec<String> = Vec::new();
    let mut k: usize = 0;
    while k < perm.len()
        invariant
            k <= perm@.len(),
            is_stable_order(rows(keys@), perm@),
            keys@.len() == list@.len(),
            r@.len() == k,
            forall|j: int| 0 <= j < k ==> (#[trigger] r@[j])@ == list@[perm@[j] as int]@,
        decreases perm@.len() - k,
    {
        r.push(list[perm[k]].clone());
        k = k + 1;
    }
    assert(r.deep_view() =~= arranged(list.deep_view(), perm@));
    r
}

/// Items in another order are the same items.
proof fn lemma_same_items<T>(items: Seq<T>, perm: Seq<usize>)
    requires
        perm.len() == items.len(),
        perm.no_duplicates(),
        forall|i: int| 0 <= i < perm.len() ==> (#[trigger] perm[i]) < perm.len(),
    ensures
        arranged(items, perm).to_multiset() == items.to_multiset(),
    decreases items.len(),
{
    broadcast use vstd::seq_lib::group_to_multiset_ensures;

    let out = arranged(items, perm);
    if items.len() == 0 {
        assert(out =~= items);
    } else {
        let n = items.len() - 1;
        let k = lemma_covers(perm, n);
        let rest = perm.remove(k);
        let was = |i: int|
            if i < k {
                i
            } else {
                i + 1
            };
        assert forall|i: int| 0 <= i < rest.len() implies (#[trigger] rest[i]) < rest.len() by {
            assert(rest[i] == perm[was(i)]);
            assert(perm[was(i)] != perm[k]);
        }
        assert forall|i: int, j: int| 0 <= i < rest.len() && 0 <= j < rest.len() && i != j implies rest[i] != rest[j] by {
            assert(rest[i] == perm[was(i)] && rest[j] == perm[was(j)]);
        }
        lemma_same_items(items.drop_last(), rest);
        assert(out.remove(k) =~= arranged(items.drop_last(), rest));
        assert(items.remove(n) =~= items.drop_last());
        assert(out[k] == items[n]);
        assert(out.to_multiset() =~= out.remove(k).to_multiset().insert(out[k]));
        assert(items.to_multiset() =~= items.remove(n).to_multiset().insert(items[n]));
    }
}

proof fn lemma_text_key_injective(a: Seq<char>, b: Seq<char>)
    requires
        text_key(a) == text_key(b),
    ensures
        a == b,
{
    let (x, y) = (vstd::utf8::encode_utf8(a), vstd::utf8::encode_utf8(b));
    assert(text_key(a).len() == x.len() && text_key(b).len() == y.len());
    assert forall|i: int| 0 <= i < x.len() implies x[i] == y[i] by {
        assert(text_key(a)[i] == x[i] as u64);
        assert(text_key(b)[i] == y[i] as u64);
    }
    assert(x =~= y);
    vstd::utf8::encode_utf8_decode_utf8(a);
    vstd::utf8::encode_utf8_decode_utf8(b);
}

/// Whether a text does not come after another.
spec fn not_after() -> spec_fn(Seq<char>, Seq<char>) -> bool {
    |a: Seq<char>, b: Seq<char>| a == b || lex_before(text_key(a), text_key(b))
}

proof fn lemma_not_after_total()
    ensures
        vstd::relations::total_ordering(not_after()),
{
    let r = not_after();
    assert forall|a: Seq<char>, b: Seq<char>| #[trigger] r(a, b) && #[trigger] r(b, a) implies a == b by {
        if a != b {
            lemma_lex_asymmetric(text_key(a), text_key(b));
        }
    }
    assert forall|a: Seq<char>, b: Seq<char>, c: Seq<char>| #[trigger] r(a, b) && #[trigger] r(b, c) implies r(a, c) by {
        if a != b && b != c {
            lemma_lex_transitive(text_key(a), text_key(b), text_key(c));
        }
    }
    assert forall|a: Seq<char>, b: Seq<char>| #[trigger] r(a, b) || #[trigger] r(b, a) by {
        lemma_lex_total(text_key(a), text_key(b));
        if text_key(a) == text_key(b) {
            lemma_text_key_injective(a, b);
        }
    }
}

proof fn lemma_texts_sorted(list: Seq<Seq<char>>)
    requires
        list.len() <= usize::MAX,
    ensures
        vstd::relations::sorted_by(sorted_texts(list), not_after()),
        sorted_texts(list).to_multiset() == list.to_multiset(),
{
    let keys = list.map_values(|s: Seq<char>| text_key(s));
    lemma_order_exists(keys);
    let perm = stable_order_of(keys);
    assert(is_stable_order(keys, perm));
    lemma_order_no_duplicates(keys, perm);
    lemma_same_items(list, perm);
    let out = sorted_texts(list);
    let r = not_after();
    assert forall|i: int, j: int| 0 <= i < j < out.len() implies #[trigger] r(out[i], out[j]) by {
        assert(precedes(keys, perm[i] as int, perm[j] as int));
        if keys[perm[i] as int] == keys[perm[j] as int] {
            lemma_text_key_injective(out[i], out[j]);
        }
    }
}

/// The order in which texts are listed makes no difference once they are sorted.
pub proof fn law_sorting_forgets_order(a: Seq<Seq<char>>, b: Seq<Seq<char>>)
    requires
        a.to_multiset() == b.to_multiset(),
        a.len() <= usize::MAX,
    ensures
        sorted_texts(a) == sorted_texts(b),
{
    broadcast use vstd::seq_lib::group_to_multiset_ensures;

    assert(a.to_multiset().len() == a.len() && b.to_multiset().len() == b.len());
    lemma_texts_sorted(a);
    lemma_texts_sorted(b);
    lemma_not_after_total();
    vstd::seq_lib::lemma_sorted_unique(sorted_texts(a), sorted_texts(b), not_after());
}

} // verus!
