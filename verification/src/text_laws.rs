//! What holds of numbers and texts that are taken apart and put together.

use vstd::prelude::*;

use crate::order::{
    bytes_key, is_stable_order, lemma_covers, lemma_lex_asymmetric, lemma_order_exists, lemma_order_no_duplicates,
    lex_before, precedes, sorted_texts, stable_order_of, text_key,
};
use crate::text::{
    all_digits, decimal, digit_char, digit_value, digits_value, is_digit, is_space, joined, parsed_number,
    signed_decimal, split_first, trimmed, trimmed_end, trimmed_start,
};

verus! {

proof fn lemma_trimmed_start(s: Seq<char>) -> (i: int)
    ensures
        0 <= i <= s.len(),
        trimmed_start(s) == s.skip(i),
        forall|k: int| 0 <= k < i ==> is_space(#[trigger] s[k]),
        i < s.len() ==> !is_space(s[i]),
    decreases s.len(),
{
    if s.len() > 0 && is_space(s[0]) {
        let j = lemma_trimmed_start(s.skip(1));
        assert(s.skip(1).skip(j) =~= s.skip(j + 1));
        assert forall|k: int| 0 <= k < j + 1 implies is_space(#[trigger] s[k]) by {
            if k > 0 {
                assert(is_space(s.skip(1)[k - 1]));
            }
        }
        j + 1
    } else {
        assert(s.skip(0) =~= s);
        0
    }
}

proof fn lemma_trimmed_end(s: Seq<char>) -> (j: int)
    ensures
        0 <= j <= s.len(),
        trimmed_end(s) == s.take(j),
        forall|k: int| j <= k < s.len() ==> is_space(#[trigger] s[k]),
        j > 0 ==> !is_space(s[j - 1]),
    decreases s.len(),
{
    if s.len() > 0 && is_space(s.last()) {
        let j = lemma_trimmed_end(s.drop_last());
        assert(s.drop_last().take(j) =~= s.take(j));
        assert forall|k: int| j <= k < s.len() implies is_space(#[trigger] s[k]) by {
            if k < s.len() - 1 {
                assert(is_space(s.drop_last()[k]));
            }
        }
        j
    } else {
        assert(s.take(s.len() as int) =~= s);
        s.len() as int
    }
}

/// Trimming takes off the spaces at both ends, all of them and nothing else.
pub proof fn law_trimming(s: Seq<char>) -> (r: (int, int))
    ensures
        0 <= r.0 <= r.1 <= s.len(),
        trimmed(s) == s.subrange(r.0, r.1),
        forall|k: int| 0 <= k < r.0 || r.1 <= k < s.len() ==> is_space(#[trigger] s[k]),
        r.0 < r.1 ==> !is_space(s[r.0]) && !is_space(s[r.1 - 1]),
{
    let i = lemma_trimmed_start(s);
    let t = s.skip(i);
    let j = lemma_trimmed_end(t);
    reveal(trimmed);
    assert(t.take(j) =~= s.subrange(i, i + j));
    assert forall|k: int| 0 <= k < i || i + j <= k < s.len() implies is_space(#[trigger] s[k]) by {
        if k >= i {
            assert(is_space(t[k - i]));
        }
    }
    (i, i + j)
}

/// A number that is read is no larger than what was allowed.
pub proof fn law_numbers_fit(s: Seq<char>, max: nat)
    ensures
        parsed_number(s, max) is Some ==> parsed_number(s, max).unwrap() <= max,
{
}

/// One more digit makes ten times the number and the digit more; a plus sign before the
/// digits makes no difference; and what holds anything else, or no digit, is no number.
pub proof fn law_numbers_are_read_digit_by_digit(s: Seq<char>, c: char, max: nat)
    ensures
        ({
            let d = c as u32 - '0' as u32;
            &&& '0' <= c <= '9' ==> parsed_number(seq![c], max) == (if d <= max {
                Some(d as nat)
            } else {
                None
            })
            &&& '0' <= c <= '9' && parsed_number(s, max) is Some && parsed_number(s, max).unwrap() * 10 + d
                <= max ==> parsed_number(s.push(c), max) == Some((parsed_number(s, max).unwrap() * 10 + d) as nat)
            &&& '0' <= c <= '9' && parsed_number(s, max) is Some && parsed_number(s, max).unwrap() * 10 + d
                > max ==> parsed_number(s.push(c), max) is None
            &&& !('0' <= c <= '9') ==> parsed_number(s.push(c), max) is None
            &&& s.len() > 0 && s[0] != '+' ==> parsed_number(seq!['+'] + s, max) == parsed_number(s, max)
            &&& parsed_number(Seq::empty(), max) is None
        }),
{
    let one = seq![c];
    assert(one.drop_last() =~= Seq::<char>::empty());
    assert(one.last() == c);
    assert(one[0] == c);
    if is_digit(c) {
        assert(all_digits(one));
        assert(digits_value(Seq::<char>::empty()) == 0);
        assert(digits_value(one) == digit_value(c));
    }
    let body = if s.len() > 0 && s[0] == '+' {
        s.skip(1)
    } else {
        s
    };
    let longer = s.push(c);
    if s.len() > 0 {
        let more = if longer[0] == '+' {
            longer.skip(1)
        } else {
            longer
        };
        assert(more =~= body.push(c));
        assert(more.drop_last() =~= body);
        assert(more[body.len() as int] == c);
        if all_digits(body) && is_digit(c) {
            assert forall|i: int| 0 <= i < more.len() implies is_digit(#[trigger] more[i]) by {
                if i < body.len() {
                    assert(is_digit(body[i]));
                }
            }
        }
    } else {
        assert(longer =~= one);
        if c == '+' {
            assert(longer.skip(1) =~= Seq::<char>::empty());
        } else if !is_digit(c) {
            assert(!is_digit(longer[0]));
        }
    }
    if s.len() > 0 && s[0] != '+' {
        assert((seq!['+'] + s).skip(1) =~= s);
    }
}

/// A number is written in digits, without a zero before them.
pub proof fn law_numbers_are_written_in_digits(n: nat)
    ensures
        decimal(n).len() > 0,
        forall|i: int| 0 <= i < decimal(n).len() ==> '0' <= #[trigger] decimal(n)[i] <= '9',
        n > 0 ==> decimal(n)[0] != '0',
        n == 0 ==> decimal(n) == "0"@,
    decreases n,
{
    reveal_strlit("0");
    assert(digit_char(n % 10) as u32 == 48 + n % 10);
    if n >= 10 {
        law_numbers_are_written_in_digits(n / 10);
        let before = decimal(n / 10);
        assert forall|i: int| 0 <= i < decimal(n).len() implies '0' <= #[trigger] decimal(n)[i] <= '9' by {
            if i < before.len() {
                assert(decimal(n)[i] == before[i]);
            }
        }
        assert(decimal(n)[0] == before[0]);
    } else {
        assert(decimal(n)[0] == digit_char(n));
        if n == 0 {
            assert(decimal(n) =~= "0"@);
        }
    }
}

/// A number below zero is written with a minus sign before it.
pub proof fn law_signs(n: nat)
    ensures
        signed_decimal(n as int) == decimal(n),
        n > 0 ==> signed_decimal(-(n as int)) == seq!['-'] + decimal(n),
{
    reveal_strlit("-");
    assert("-"@ =~= seq!['-']);
}

/// Texts are joined by what is to stand between them: once between two, and not at the ends.
pub proof fn law_joining(a: Seq<Seq<char>>, b: Seq<Seq<char>>, sep: Seq<char>, one: Seq<char>)
    ensures
        joined(Seq::empty(), sep).len() == 0,
        joined(seq![one], sep) == one,
        a.len() > 0 && b.len() > 0 ==> joined(a + b, sep) == joined(a, sep) + sep + joined(b, sep),
    decreases b.len(),
{
    if a.len() > 0 && b.len() > 0 {
        let rest = b.drop_last();
        assert((a + b).drop_last() =~= a + rest);
        assert((a + b).last() == b.last());
        if rest.len() > 0 {
            law_joining(a, rest, sep, one);
            assert(joined(a, sep) + sep + joined(rest, sep) + sep + b.last() =~= joined(a, sep) + sep + (joined(rest, sep)
                + sep + b.last()));
        } else {
            assert(a + rest =~= a);
            assert(b[0] == b.last());
        }
    }
}

/// A text is split at the first place where a character stands, and only there.
pub proof fn law_splitting(s: Seq<char>, c: char)
    ensures
        split_first(s, c) is None <==> !s.contains(c),
        split_first(s, c) matches Some((a, b)) ==> s == a + seq![c] + b && !a.contains(c),
    decreases s.len(),
{
    if s.len() > 0 {
        let t = s.skip(1);
        if s[0] == c {
            assert(s =~= Seq::<char>::empty() + seq![c] + t);
        } else {
            law_splitting(t, c);
            if t.contains(c) {
                let i = choose|i: int| 0 <= i < t.len() && t[i] == c;
                assert(s[i + 1] == c);
                let (a, b) = split_first(t, c).unwrap();
                let n = seq![s[0]] + a;
                assert(t == a + seq![c] + b);
                assert(s =~= seq![s[0]] + t);
                assert(n + seq![c] + b =~= seq![s[0]] + (a + seq![c] + b));
                if n.contains(c) {
                    let k = choose|k: int| 0 <= k < n.len() && n[k] == c;
                    assert(a[k - 1] == c);
                }
            } else if s.contains(c) {
                let i = choose|i: int| 0 <= i < s.len() && s[i] == c;
                assert(t[i - 1] == c);
            }
        }
    }
}

/// Of the plain characters these are spaces: the blank, the tab and the line ends.
pub proof fn law_plain_spaces(c: char)
    requires
        (c as u32) < 0x80,
    ensures
        is_space(c) <==> c == ' ' || 9 <= c as u32 <= 13,
{
}

/// Whether bytes come before others: they are a part of them from the start, or the first
/// byte that differs is smaller.
pub open spec fn bytes_before(a: Seq<u8>, b: Seq<u8>, n: int) -> bool {
    &&& 0 <= n <= a.len()
    &&& n < b.len()
    &&& forall|k: int| 0 <= k < n ==> #[trigger] a[k] == b[k]
    &&& n == a.len() || a[n] < b[n]
}

proof fn lemma_bytes_before(a: Seq<u8>, b: Seq<u8>, n: int)
    requires
        bytes_before(a, b, n),
    ensures
        lex_before(bytes_key(a), bytes_key(b)),
    decreases n,
{
    let (x, y) = (bytes_key(a), bytes_key(b));
    if n > 0 {
        assert(a[0] == b[0]);
        let (s, t) = (a.skip(1), b.skip(1));
        assert forall|k: int| 0 <= k < n - 1 implies #[trigger] s[k] == t[k] by {
            assert(a[k + 1] == b[k + 1]);
        }
        lemma_bytes_before(s, t, n - 1);
        assert(x.skip(1) =~= bytes_key(s));
        assert(y.skip(1) =~= bytes_key(t));
    }
}

/// Sorted texts come in the order of their bytes, and are those of the list.
pub proof fn law_texts_are_sorted(list: Seq<Seq<char>>, i: int, j: int, n: int)
    requires
        list.len() <= usize::MAX,
        0 <= i < j < list.len(),
    ensures
        sorted_texts(list).len() == list.len(),
        !bytes_before(
            vstd::utf8::encode_utf8(sorted_texts(list)[j]),
            vstd::utf8::encode_utf8(sorted_texts(list)[i]),
            n,
        ),
        list.contains(sorted_texts(list)[i]),
        sorted_texts(list).contains(list[i]),
{
    let keys = list.map_values(|s: Seq<char>| text_key(s));
    lemma_order_exists(keys);
    let perm = stable_order_of(keys);
    assert(is_stable_order(keys, perm));
    lemma_order_no_duplicates(keys, perm);
    let out = sorted_texts(list);
    assert(precedes(keys, perm[i] as int, perm[j] as int));
    let (a, b) = (vstd::utf8::encode_utf8(out[j]), vstd::utf8::encode_utf8(out[i]));
    assert(list[perm[i] as int] == out[i]);
    let k = lemma_covers(perm, i);
    assert(out[k] == list[i]);
    if bytes_before(a, b, n) {
        lemma_bytes_before(a, b, n);
        lemma_lex_asymmetric(bytes_key(a), bytes_key(b));
        lemma_lex_irreflexive(bytes_key(a));
    }
}

proof fn lemma_lex_irreflexive(a: Seq<u64>)
    ensures
        !lex_before(a, a),
    decreases a.len(),
{
    if a.len() > 0 {
        lemma_lex_irreflexive(a.skip(1));
    }
}

} // verus!
