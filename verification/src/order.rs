//! Lexicographic order of byte strings, and stable sorting by it.
use vstd::prelude::*;

verus! {

/// Whether `a` comes before `b` in lexicographic order, or is equal to it.
pub open spec fn lex_le(a: Seq<u8>, b: Seq<u8>) -> bool
    decreases a.len(),
{
    if a.len() == 0 {
        true
    } else if b.len() == 0 {
        false
    } else if a[0] != b[0] {
        a[0] < b[0]
    } else {
        lex_le(a.drop_first(), b.drop_first())
    }
}

/// Whether `a` comes before `b` in lexicographic order.
pub open spec fn lex_lt(a: Seq<u8>, b: Seq<u8>) -> bool {
    !lex_le(b, a)
}

/// Every byte string is comparable with itself and with every other.
pub proof fn lemma_lex_total(a: Seq<u8>, b: Seq<u8>)
    ensures
        lex_le(a, a),
        lex_le(a, b) || lex_le(b, a),
        lex_le(a, b) && lex_le(b, a) ==> a == b,
    decreases a.len(),
{
    if a.len() > 0 {
        lemma_lex_total(a.drop_first(), a.drop_first());
        if b.len() > 0 {
            lemma_lex_total(a.drop_first(), b.drop_first());
            if a[0] == b[0] && a.drop_first() == b.drop_first() {
                assert(a =~= seq![a[0]] + a.drop_first());
                assert(b =~= seq![b[0]] + b.drop_first());
            }
        }
    } else {
        assert(b.len() == 0 ==> a =~= b);
    }
}

/// Whether two byte strings agree up to a position at which `a` has the smaller
/// byte.
pub open spec fn precedes(a: Seq<u8>, b: Seq<u8>) -> bool {
    exists|n: int| #[trigger] parts_at(a, b, n)
}

/// Whether `n` is the first position at which two byte strings differ, and `a`
/// has the smaller byte there.
pub open spec fn parts_at(a: Seq<u8>, b: Seq<u8>, n: int) -> bool {
    &&& 0 <= n < a.len()
    &&& n < b.len()
    &&& a[n] < b[n]
    &&& forall|m: int| 0 <= m < n ==> a[m] == b[m]
}

/// Of two byte strings of the same length, the one comes before the other that
/// has the smaller byte where they first differ.
pub proof fn law_order_is_that_of_the_first_difference(a: Seq<u8>, b: Seq<u8>)
    requires
        a.len() == b.len(),
    ensures
        lex_lt(a, b) <==> precedes(a, b),
        lex_le(a, b) <==> a == b || precedes(a, b),
    decreases a.len(),
{
    lemma_lex_total(a, b);
    if a.len() == 0 {
        assert(a =~= b);
    } else {
        let x = a.drop_first();
        let y = b.drop_first();
        law_order_is_that_of_the_first_difference(x, y);
        lemma_lex_total(x, y);
        if precedes(a, b) {
            let n = choose|n: int| #[trigger] parts_at(a, b, n);
            if n > 0 {
                assert(x[n - 1] < y[n - 1]);
                assert forall|m: int| 0 <= m < n - 1 implies x[m] == y[m] by {
                    assert(a[m + 1] == b[m + 1]);
                }
                assert(parts_at(x, y, n - 1));
            }
        }
        if a[0] < b[0] {
            assert(parts_at(a, b, 0));
        }
        if a[0] == b[0] && precedes(x, y) {
            let n = choose|n: int| #[trigger] parts_at(x, y, n);
            assert forall|m: int| 0 <= m < n + 1 implies a[m] == b[m] by {
                if m > 0 {
                    assert(x[m - 1] == y[m - 1]);
                }
            }
            assert(parts_at(a, b, n + 1));
        }
    }
}

/// A byte string comes before another, or is equal to it, if it is its front, and
/// otherwise if it has the smaller byte where they first differ.
pub proof fn law_order_of_any_lengths(a: Seq<u8>, b: Seq<u8>)
    ensures
        lex_le(a, b) <==> precedes(a, b) || a.is_prefix_of(b),
        lex_lt(a, b) <==> precedes(a, b) || (a.is_prefix_of(b) && a != b),
    decreases a.len(),
{
    lemma_lex_total(a, b);
    if a.len() > 0 && b.len() > 0 {
        let x = a.drop_first();
        let y = b.drop_first();
        law_order_of_any_lengths(x, y);
        lemma_lex_total(x, y);
        if precedes(a, b) {
            let n = choose|n: int| #[trigger] parts_at(a, b, n);
            if n > 0 {
                assert forall|m: int| 0 <= m < n - 1 implies x[m] == y[m] by {
                    assert(a[m + 1] == b[m + 1]);
                }
                assert(parts_at(x, y, n - 1));
            }
        }
        if a[0] < b[0] {
            assert(parts_at(a, b, 0));
        }
        if a[0] == b[0] && precedes(x, y) {
            let n = choose|n: int| #[trigger] parts_at(x, y, n);
            assert forall|m: int| 0 <= m < n + 1 implies a[m] == b[m] by {
                if m > 0 {
                    assert(x[m - 1] == y[m - 1]);
                }
            }
            assert(parts_at(a, b, n + 1));
        }
        if a.is_prefix_of(b) {
            assert(a[0] == b.subrange(0, a.len() as int)[0]);
            assert(x =~= y.subrange(0, x.len() as int)) by {
                assert forall|m: int| 0 <= m < x.len() implies x[m] == y[m] by {
                    assert(a[m + 1] == b.subrange(0, a.len() as int)[m + 1]);
                }
            }
        }
        if a[0] == b[0] && x.is_prefix_of(y) {
            assert forall|m: int| 0 <= m < a.len() implies a[m] == b[m] by {
                if m > 0 {
                    assert(x[m - 1] == y.subrange(0, x.len() as int)[m - 1]);
                }
            }
            assert(a =~= b.subrange(0, a.len() as int));
        }
        assert(a == b ==> x == y);
        if a[0] == b[0] && x == y {
            assert(a =~= seq![a[0]] + x);
            assert(b =~= seq![b[0]] + y);
        }
        lemma_not_both(a, b);
    } else if a.len() == 0 {
        assert(a =~= b.subrange(0, 0));
        if b.len() == 0 {
            assert(a =~= b);
        }
    }
}

/// Of two byte strings that differ at a position, none is the front of the other.
proof fn lemma_not_both(a: Seq<u8>, b: Seq<u8>)
    ensures
        precedes(a, b) ==> !a.is_prefix_of(b) && !b.is_prefix_of(a) && !precedes(b, a) && a != b,
{
    if precedes(a, b) {
        let n = choose|n: int| #[trigger] parts_at(a, b, n);
        if a.is_prefix_of(b) {
            assert(a[n] == b.subrange(0, a.len() as int)[n]);
        }
        if b.is_prefix_of(a) {
            assert(b[n] == a.subrange(0, b.len() as int)[n]);
        }
        if precedes(b, a) {
            let m = choose|m: int| #[trigger] parts_at(b, a, m);
            assert(m == n);
        }
    }
}

/// If `a` comes before `b` and `b` before `c`, then `a` comes before `c`.
pub proof fn lemma_lex_transitive(a: Seq<u8>, b: Seq<u8>, c: Seq<u8>)
    requires
        lex_le(a, b),
        lex_le(b, c),
    ensures
        lex_le(a, c),
    decreases a.len(),
{
    if a.len() > 0 && a[0] == b[0] && b[0] == c[0] {
        lemma_lex_transitive(a.drop_first(), b.drop_first(), c.drop_first());
    }
}

/// How two byte strings are ordered.
#[derive(Debug, Clone, Copy, PartialEq, Eq, Structural)]
pub enum Rank {
    Before,
    Same,
    After,
}

/// Ranks `a` against `b` in lexicographic order.
pub fn rank(a: &[u8], b: &[u8]) -> (res: Rank)
    ensures
        res == Rank::Before <==> lex_lt(a@, b@),
        res == Rank::Same <==> a@ == b@,
        res == Rank::After <==> lex_lt(b@, a@),
{
    let mut i: usize = 0;
    proof {
        assert(a@.skip(0) =~= a@);
        assert(b@.skip(0) =~= b@);
        lemma_lex_total(a@, b@);
        lemma_lex_total(b@, a@);
    }
    while i < a.len() && i < b.len()
        invariant
            i <= a@.len(),
            i <= b@.len(),
            lex_le(a@, b@) == lex_le(a@.skip(i as int), b@.skip(i as int)),
            lex_le(b@, a@) == lex_le(b@.skip(i as int), a@.skip(i as int)),
            lex_le(a@, b@) && lex_le(b@, a@) ==> a@ == b@,
            a@ == b@ ==> lex_le(a@, b@) && lex_le(b@, a@),
        decreases a@.len() - i,
    {
        let x: u8 = a[i];
        let y: u8 = b[i];
        assert(a@.skip(i as int)[0] == x);
        assert(b@.skip(i as int)[0] == y);
        if x < y {
            return Rank::Before;
        }
        if y < x {
            return Rank::After;
        }
        proof {
            assert(a@.skip(i as int).drop_first() =~= a@.skip(i + 1));
            assert(b@.skip(i as int).drop_first() =~= b@.skip(i + 1));
        }
        i = i + 1;
    }
    if i < b.len() {
        Rank::Before
    } else if i < a.len() {
        Rank::After
    } else {
        Rank::Same
    }
}

/// What can be sorted by a byte string.
pub trait Keyed {
    spec fn spec_key(&self) -> Seq<u8>;

    fn key(&self) -> (res: &[u8])
        ensures
            res@ == self.spec_key(),
    ;
}

/// `x` put into `s` behind everything at its end that is not greater.
pub open spec fn insert_by_key<T: Keyed>(s: Seq<T>, x: T) -> Seq<T>
    decreases s.len(),
{
    if s.len() == 0 || lex_le(s.last().spec_key(), x.spec_key()) {
        s.push(x)
    } else {
        insert_by_key(s.drop_last(), x).push(s.last())
    }
}

/// `s` sorted by key, where elements with equal keys stay in their order.
pub open spec fn sorted_by_key<T: Keyed>(s: Seq<T>) -> Seq<T>
    decreases s.len(),
{
    if s.len() == 0 {
        s
    } else {
        insert_by_key(sorted_by_key(s.drop_last()), s.last())
    }
}

/// Whether the keys never decrease.
pub open spec fn ascending<T: Keyed>(s: Seq<T>) -> bool {
    forall|i: int, j: int|
        #![trigger s[i], s[j]]
        0 <= i <= j < s.len() ==> lex_le(s[i].spec_key(), s[j].spec_key())
}

/// The elements of `s` that have the key `key`, in their order.
pub open spec fn with_key<T: Keyed>(s: Seq<T>, key: Seq<u8>) -> Seq<T> {
    s.filter(|x: T| x.spec_key() == key)
}

proof fn lemma_insert_at<T: Keyed>(s: Seq<T>, x: T, at: int)
    requires
        0 <= at <= s.len(),
        at == 0 || lex_le(s[at - 1].spec_key(), x.spec_key()),
        forall|i: int| at <= i < s.len() ==> !lex_le(#[trigger] s[i].spec_key(), x.spec_key()),
    ensures
        insert_by_key(s, x) == s.insert(at, x),
    decreases s.len(),
{
    if at < s.len() {
        assert(!lex_le(s[s.len() - 1].spec_key(), x.spec_key()));
        lemma_insert_at(s.drop_last(), x, at);
    }
    assert(insert_by_key(s, x) =~= s.insert(at, x));
}

proof fn lemma_insert_ascending<T: Keyed>(s: Seq<T>, x: T)
    requires
        ascending(s),
    ensures
        ascending(insert_by_key(s, x)),
        insert_by_key(s, x).to_multiset() == s.to_multiset().insert(x),
        forall|i: int|
            0 <= i < insert_by_key(s, x).len() ==> s.contains(#[trigger] insert_by_key(s, x)[i])
                || insert_by_key(s, x)[i] == x,
    decreases s.len(),
{
    broadcast use vstd::seq_lib::group_to_multiset_ensures;
    let res = insert_by_key(s, x);
    if s.len() == 0 {
        lemma_lex_total(x.spec_key(), x.spec_key());
        assert(res[0] == x);
    } else if lex_le(s.last().spec_key(), x.spec_key()) {
        lemma_lex_total(x.spec_key(), x.spec_key());
        assert forall|i: int, j: int| #![trigger res[i], res[j]] 0 <= i <= j < res.len() implies lex_le(
            res[i].spec_key(),
            res[j].spec_key(),
        ) by {
            if j == s.len() && i < j {
                let last = s[s.len() - 1];
                assert(lex_le(s[i].spec_key(), last.spec_key()));
                lemma_lex_transitive(s[i].spec_key(), last.spec_key(), x.spec_key());
            }
        }
        assert forall|i: int| 0 <= i < res.len() implies s.contains(#[trigger] res[i]) || res[i] == x by {
            if i < s.len() {
                assert(s[i] == res[i]);
            }
        }
    } else {
        let front = s.drop_last();
        let last = s.last();
        assert forall|i: int, j: int| #![trigger front[i], front[j]] 0 <= i <= j < front.len() implies lex_le(
            front[i].spec_key(),
            front[j].spec_key(),
        ) by {
            assert(front[i] == s[i] && front[j] == s[j]);
        }
        lemma_insert_ascending(front, x);
        let inner = insert_by_key(front, x);
        lemma_lex_total(x.spec_key(), last.spec_key());
        lemma_lex_total(last.spec_key(), last.spec_key());
        assert forall|i: int, j: int| #![trigger res[i], res[j]] 0 <= i <= j < res.len() implies lex_le(
            res[i].spec_key(),
            res[j].spec_key(),
        ) by {
            if j == inner.len() && i < j {
                assert(inner[i] == res[i]);
                if front.contains(inner[i]) {
                    let k = choose|k: int| 0 <= k < front.len() && front[k] == inner[i];
                    assert(s[k] == inner[i]);
                    assert(lex_le(s[k].spec_key(), s[s.len() - 1].spec_key()));
                }
            } else if j < inner.len() {
                assert(inner[i] == res[i] && inner[j] == res[j]);
            }
        }
        assert forall|i: int| 0 <= i < res.len() implies s.contains(#[trigger] res[i]) || res[i] == x by {
            if i < inner.len() {
                assert(inner[i] == res[i]);
                if front.contains(inner[i]) {
                    let k = choose|k: int| 0 <= k < front.len() && front[k] == inner[i];
                    assert(s[k] == res[i]);
                }
            } else {
                assert(s[s.len() - 1] == res[i]);
            }
        }
        assert(s =~= front.push(last));
        assert(res.to_multiset() =~= s.to_multiset().insert(x));
    }
}

proof fn lemma_filter_push<T: Keyed>(s: Seq<T>, x: T, key: Seq<u8>)
    ensures
        with_key(s.push(x), key) == if x.spec_key() == key {
            with_key(s, key).push(x)
        } else {
            with_key(s, key)
        },
{
    reveal(Seq::filter);
    assert(s.push(x).drop_last() =~= s);
}

proof fn lemma_insert_stable<T: Keyed>(s: Seq<T>, x: T, key: Seq<u8>)
    ensures
        with_key(insert_by_key(s, x), key) == with_key(s.push(x), key),
    decreases s.len(),
{
    lemma_filter_push(s, x, key);
    if s.len() > 0 && !lex_le(s.last().spec_key(), x.spec_key()) {
        let front = s.drop_last();
        let last = s.last();
        lemma_lex_total(x.spec_key(), x.spec_key());
        lemma_insert_stable(front, x, key);
        lemma_filter_push(insert_by_key(front, x), last, key);
        lemma_filter_push(front, x, key);
        lemma_filter_push(front, last, key);
        assert(s =~= front.push(last));
    }
}

/// Sorting puts the same elements in ascending order of their keys, and keeps
/// the order of those that have the same key.
pub proof fn law_sorting<T: Keyed>(s: Seq<T>)
    ensures
        ascending(sorted_by_key(s)),
        sorted_by_key(s).to_multiset() == s.to_multiset(),
        forall|key: Seq<u8>| with_key(sorted_by_key(s), key) == with_key(s, key),
    decreases s.len(),
{
    broadcast use vstd::seq_lib::group_to_multiset_ensures;
    if s.len() > 0 {
        let front = s.drop_last();
        let last = s.last();
        law_sorting(front);
        lemma_insert_ascending(sorted_by_key(front), last);
        assert(s =~= front.push(last));
        assert forall|key: Seq<u8>| with_key(sorted_by_key(s), key) == with_key(s, key) by {
            lemma_insert_stable(sorted_by_key(front), last, key);
            lemma_filter_push(sorted_by_key(front), last, key);
            lemma_filter_push(front, last, key);
        }
    }
}

/// The elements of `s` at the positions `order`.
pub open spec fn picked<T>(s: Seq<T>, order: Seq<usize>) -> Seq<T> {
    order.map_values(|i: usize| s[i as int])
}

/// What is picked are the elements at the positions, one for each of them.
pub proof fn law_picked_are_the_elements_at<T>(s: Seq<T>, order: Seq<usize>)
    ensures
        picked(s, order).len() == order.len(),
        forall|i: int| 0 <= i < order.len() ==> #[trigger] picked(s, order)[i] == s[order[i] as int],
{
}

/// The order in which the elements of `items` come when they are sorted by
/// key, those with equal keys in the order that they have.
pub fn sorted_order<T: Keyed>(items: &Vec<T>) -> (res: Vec<usize>)
    ensures
        res@.len() == items@.len(),
        forall|i: int| 0 <= i < res@.len() ==> #[trigger] res@[i] < items@.len(),
        picked(items@, res@) == sorted_by_key(items@),
{
    let mut res: Vec<usize> = Vec::new();
    let mut n: usize = 0;
    assert(picked(items@, res@) =~= sorted_by_key(items@.take(0)));
    while n < items.len()
        invariant
            n <= items@.len(),
            res@.len() == n,
            forall|i: int| 0 <= i < res@.len() ==> #[trigger] res@[i] < items@.len(),
            picked(items@, res@) == sorted_by_key(items@.take(n as int)),
        decreases items@.len() - n,
    {
        let ghost before = picked(items@, res@);
        let x = items[n].key();
        let mut at: usize = res.len();
        while at > 0 && rank(x, items[res[at - 1]].key()) == Rank::Before
            invariant
                n < items@.len(),
                at <= res@.len(),
                x@ == items@[n as int].spec_key(),
                forall|i: int| 0 <= i < res@.len() ==> #[trigger] res@[i] < items@.len(),
                before == picked(items@, res@),
                forall|i: int|
                    at <= i < before.len() ==> !lex_le(
                        #[trigger] before[i].spec_key(),
                        items@[n as int].spec_key(),
                    ),
            decreases at,
        {
            assert(before[at - 1] == items@[res@[at - 1] as int]);
            at = at - 1;
        }
        proof {
            if at > 0 {
                assert(before[at - 1] == items@[res@[at - 1] as int]);
                lemma_lex_total(x@, before[at - 1].spec_key());
            }
            lemma_insert_at(before, items@[n as int], at as int);
            assert(items@.take(n + 1).drop_last() =~= items@.take(n as int));
        }
        res.insert(at, n);
        assert(picked(items@, res@) =~= before.insert(at as int, items@[n as int]));
        n = n + 1;
    }
    assert(items@.take(n as int) =~= items@);
    res
}

/// Whether keys are in strictly ascending order.
pub open spec fn strictly_ascending<T: Keyed>(s: Seq<T>) -> bool {
    forall|i: int, j: int|
        #![trigger s[i], s[j]]
        0 <= i < j < s.len() ==> lex_lt(s[i].spec_key(), s[j].spec_key())
}

/// Whether some element has the key `key`.
pub open spec fn has_key<T: Keyed>(s: Seq<T>, key: Seq<u8>) -> bool {
    exists|i: int| 0 <= i < s.len() && (#[trigger] s[i]).spec_key() == key
}

proof fn lemma_lex_lt_transitive(a: Seq<u8>, b: Seq<u8>, c: Seq<u8>)
    requires
        lex_lt(a, b),
        lex_lt(b, c),
    ensures
        lex_lt(a, c),
{
    lemma_lex_total(a, b);
    lemma_lex_total(b, c);
    if lex_le(c, a) {
        lemma_lex_transitive(c, a, b);
    }
}

/// Where an element with the key `key` is, or where it would have to be
/// inserted.
pub(crate) fn position<T: Keyed>(items: &Vec<T>, key: &[u8]) -> (res: (bool, usize))
    requires
        strictly_ascending(items@),
    ensures
        res.1 <= items@.len(),
        res.0 == has_key(items@, key@),
        res.0 ==> res.1 < items@.len() && items@[res.1 as int].spec_key() == key@,
        !res.0 ==> forall|i: int|
            0 <= i < items@.len() ==> if i < res.1 {
                lex_lt((#[trigger] items@[i]).spec_key(), key@)
            } else {
                lex_lt(key@, items@[i].spec_key())
            },
{
    let mut low: usize = 0;
    let mut high: usize = items.len();
    while low < high
        invariant
            low <= high <= items@.len(),
            strictly_ascending(items@),
            forall|i: int| 0 <= i < low ==> lex_lt((#[trigger] items@[i]).spec_key(), key@),
            forall|i: int|
                high <= i < items@.len() ==> lex_lt(key@, (#[trigger] items@[i]).spec_key()),
        decreases high - low,
    {
        let mid: usize = low + (high - low) / 2;
        match rank(items[mid].key(), key) {
            Rank::Same => {
                return (true, mid);
            },
            Rank::Before => {
                proof {
                    let bound = items@[mid as int].spec_key();
                    assert forall|i: int| 0 <= i < mid + 1 implies lex_lt(
                        (#[trigger] items@[i]).spec_key(),
                        key@,
                    ) by {
                        if i < mid {
                            lemma_lex_lt_transitive(items@[i].spec_key(), bound, key@);
                        }
                    }
                }
                low = mid + 1;
            },
            Rank::After => {
                proof {
                    let bound = items@[mid as int].spec_key();
                    assert forall|i: int| mid <= i < items@.len() implies lex_lt(
                        key@,
                        (#[trigger] items@[i]).spec_key(),
                    ) by {
                        if i > mid {
                            lemma_lex_lt_transitive(key@, bound, items@[i].spec_key());
                        }
                    }
                }
                high = mid;
            },
        }
    }
    proof {
        if has_key(items@, key@) {
            let i = choose|i: int| 0 <= i < items@.len() && (#[trigger] items@[i]).spec_key() == key@;
            lemma_lex_total(key@, key@);
        }
    }
    (false, low)
}

/// What stands at a position of a strictly ascending sequence can be replaced
/// by something with the same key.
pub proof fn lemma_ascending_update<T: Keyed>(s: Seq<T>, at: int, x: T)
    requires
        strictly_ascending(s),
        0 <= at < s.len(),
        x.spec_key() == s[at].spec_key(),
    ensures
        strictly_ascending(s.update(at, x)),
        forall|key: Seq<u8>| #[trigger] has_key(s.update(at, x), key) == has_key(s, key),
        forall|i: int| 0 <= i < s.len() && i != at ==> (#[trigger] s[i]).spec_key() != x.spec_key(),
{
    lemma_ascending_like(s, s.update(at, x));
    assert forall|i: int| 0 <= i < s.len() && i != at implies (#[trigger] s[i]).spec_key()
        != x.spec_key() by {
        lemma_lex_total(s[i].spec_key(), s[at].spec_key());
    }
}

/// Something with a new key can be inserted at its place in a strictly
/// ascending sequence.
pub proof fn lemma_ascending_insert<T: Keyed>(s: Seq<T>, at: int, x: T)
    requires
        strictly_ascending(s),
        0 <= at <= s.len(),
        forall|i: int|
            0 <= i < s.len() ==> if i < at {
                lex_lt((#[trigger] s[i]).spec_key(), x.spec_key())
            } else {
                lex_lt(x.spec_key(), s[i].spec_key())
            },
    ensures
        strictly_ascending(s.insert(at, x)),
        forall|key: Seq<u8>| #[trigger]
            has_key(s.insert(at, x), key) == (has_key(s, key) || key == x.spec_key()),
        forall|i: int| 0 <= i < s.len() ==> (#[trigger] s[i]).spec_key() != x.spec_key(),
{
    let t = s.insert(at, x);
    assert forall|i: int, j: int| #![trigger t[i], t[j]] 0 <= i < j < t.len() implies lex_lt(
        t[i].spec_key(),
        t[j].spec_key(),
    ) by {
        let k = if i < at { i } else { i - 1 };
        let l = if j < at { j } else { j - 1 };
        if i != at {
            assert(t[i] == s[k]);
        }
        if j != at {
            assert(t[j] == s[l]);
        }
    }
    assert forall|key: Seq<u8>| #[trigger] has_key(t, key) == (has_key(s, key) || key
        == x.spec_key()) by {
        if has_key(s, key) {
            let k = choose|k: int| 0 <= k < s.len() && (#[trigger] s[k]).spec_key() == key;
            let l = if k < at { k } else { k + 1 };
            assert(t[l].spec_key() == key);
        }
        if key == x.spec_key() {
            assert(t[at].spec_key() == key);
        }
        if has_key(t, key) {
            let l = choose|l: int| 0 <= l < t.len() && (#[trigger] t[l]).spec_key() == key;
            let k = if l < at { l } else { l - 1 };
            if l != at {
                assert(s[k].spec_key() == key);
            }
        }
    }
    assert forall|i: int| 0 <= i < s.len() implies (#[trigger] s[i]).spec_key() != x.spec_key() by {
        lemma_lex_total(x.spec_key(), x.spec_key());
    }
}

/// What has the same keys as a strictly ascending sequence, in the same order,
/// is strictly ascending too.
pub proof fn lemma_ascending_like<T: Keyed, U: Keyed>(s: Seq<T>, t: Seq<U>)
    requires
        strictly_ascending(s),
        s.len() == t.len(),
        forall|i: int| 0 <= i < t.len() ==> (#[trigger] t[i]).spec_key() == s[i].spec_key(),
    ensures
        strictly_ascending(t),
        forall|key: Seq<u8>| #[trigger] has_key(t, key) == has_key(s, key),
{
    assert forall|i: int, j: int| #![trigger t[i], t[j]] 0 <= i < j < t.len() implies lex_lt(
        t[i].spec_key(),
        t[j].spec_key(),
    ) by {
        assert(lex_lt(s[i].spec_key(), s[j].spec_key()));
    }
    assert forall|key: Seq<u8>| #[trigger] has_key(t, key) == has_key(s, key) by {
        if has_key(s, key) {
            let k = choose|k: int| 0 <= k < s.len() && (#[trigger] s[k]).spec_key() == key;
            assert(t[k].spec_key() == key);
        }
        if has_key(t, key) {
            let k = choose|k: int| 0 <= k < t.len() && (#[trigger] t[k]).spec_key() == key;
            assert(s[k].spec_key() == key);
        }
    }
}

/// Something greater can be put behind a strictly ascending sequence.
pub proof fn lemma_ascending_push<T: Keyed>(s: Seq<T>, x: T)
    requires
        strictly_ascending(s),
        forall|i: int| 0 <= i < s.len() ==> lex_lt((#[trigger] s[i]).spec_key(), x.spec_key()),
    ensures
        strictly_ascending(s.push(x)),
        forall|key: Seq<u8>| #[trigger]
            has_key(s.push(x), key) == (has_key(s, key) || key == x.spec_key()),
{
    lemma_ascending_insert(s, s.len() as int, x);
    assert(s.insert(s.len() as int, x) =~= s.push(x));
}

} // verus!
