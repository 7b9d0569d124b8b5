//! Ordering records by text keys, the way `str` compares: character by
//! character, a prefix first. The sort is stable, as std's `sort_by` is.

use vstd::prelude::*;

use crate::text::deep;

verus! {

/// Character by character from `k`, a proper prefix before the longer text.
pub open spec fn str_lt_from(a: Seq<char>, b: Seq<char>, k: int) -> bool
    decreases a.len() - k,
{
    if k < 0 || k >= b.len() {
        false
    } else if k >= a.len() {
        true
    } else if a[k] != b[k] {
        (a[k] as int) < (b[k] as int)
    } else {
        str_lt_from(a, b, k + 1)
    }
}

/// `a < b` for strings.
pub open spec fn str_lt(a: Seq<char>, b: Seq<char>) -> bool {
    str_lt_from(a, b, 0)
}

/// Key by key from `k`, each compared as a string.
pub open spec fn keys_lt_from(a: Seq<Seq<char>>, b: Seq<Seq<char>>, k: int) -> bool
    decreases a.len() - k,
{
    if k < 0 || k >= b.len() {
        false
    } else if k >= a.len() {
        true
    } else if a[k] != b[k] {
        str_lt(a[k], b[k])
    } else {
        keys_lt_from(a, b, k + 1)
    }
}

/// `a < b` for tuples of strings, compared in order.
pub open spec fn keys_lt(a: Seq<Seq<char>>, b: Seq<Seq<char>>) -> bool {
    keys_lt_from(a, b, 0)
}

/// A record ordered by a tuple of strings.
pub trait Keyed {
    spec fn key_spec(&self) -> Seq<Seq<char>>;

    fn key(&self) -> (r: Vec<Vec<char>>)
        ensures
            deep(r@) == self.key_spec(),
    ;
}

/// Inserts `x` after every record whose key is not greater than its own.
pub open spec fn ins<T: Keyed>(s: Seq<T>, x: T) -> Seq<T>
    decreases s.len(),
{
    if s.len() == 0 {
        seq![x]
    } else if keys_lt(x.key_spec(), s.last().key_spec()) {
        ins(s.drop_last(), x).push(s.last())
    } else {
        s.push(x)
    }
}

/// The records ordered by key, records with equal keys in their first order.
pub open spec fn sort_spec<T: Keyed>(s: Seq<T>) -> Seq<T>
    decreases s.len(),
{
    if s.len() == 0 {
        s
    } else {
        ins(sort_spec(s.drop_last()), s.last())
    }
}

/// No record has a greater key than a later one.
pub open spec fn sorted<T: Keyed>(s: Seq<T>) -> bool {
    forall|i: int, j: int| 0 <= i < j < s.len() ==> !keys_lt(#[trigger] s[j].key_spec(), #[trigger] s[i].key_spec())
}

// ---------------------------------------------------------------------------
// `<` on strings and keys is a strict total order.
// ---------------------------------------------------------------------------

proof fn lemma_str_lt_irrefl(a: Seq<char>, k: int)
    requires
        0 <= k,
    ensures
        !str_lt_from(a, a, k),
    decreases a.len() - k,
{
    if k < a.len() {
        lemma_str_lt_irrefl(a, k + 1);
    }
}

proof fn lemma_str_lt_trans(a: Seq<char>, b: Seq<char>, c: Seq<char>, k: int)
    requires
        0 <= k,
        str_lt_from(a, b, k),
        str_lt_from(b, c, k),
    ensures
        str_lt_from(a, c, k),
    decreases a.len() - k,
{
    if k < a.len() && k < b.len() && k < c.len() && a[k] == b[k] && b[k] == c[k] {
        lemma_str_lt_trans(a, b, c, k + 1);
    }
}

proof fn lemma_str_lt_total(a: Seq<char>, b: Seq<char>, k: int)
    requires
        0 <= k,
        k <= a.len(),
        k <= b.len(),
        a.subrange(0, k) == b.subrange(0, k),
        !str_lt_from(a, b, k),
        !str_lt_from(b, a, k),
    ensures
        a == b,
    decreases a.len() - k,
{
    if k < a.len() && k < b.len() {
        assert(a[k] == b[k]);
        assert(a.subrange(0, k + 1) == a.subrange(0, k).push(a[k]));
        assert(b.subrange(0, k + 1) == b.subrange(0, k).push(b[k]));
        lemma_str_lt_total(a, b, k + 1);
    } else {
        assert(a.len() == k && b.len() == k);
        assert(a == a.subrange(0, k));
        assert(b == b.subrange(0, k));
    }
}

proof fn lemma_keys_lt_irrefl(a: Seq<Seq<char>>, k: int)
    requires
        0 <= k,
    ensures
        !keys_lt_from(a, a, k),
    decreases a.len() - k,
{
    if k < a.len() {
        lemma_keys_lt_irrefl(a, k + 1);
    }
}

proof fn lemma_keys_lt_trans(a: Seq<Seq<char>>, b: Seq<Seq<char>>, c: Seq<Seq<char>>, k: int)
    requires
        0 <= k,
        keys_lt_from(a, b, k),
        keys_lt_from(b, c, k),
    ensures
        keys_lt_from(a, c, k),
    decreases a.len() - k,
{
    if k < a.len() && k < b.len() && k < c.len() {
        if a[k] == b[k] && b[k] == c[k] {
            lemma_keys_lt_trans(a, b, c, k + 1);
        } else if a[k] == b[k] {
        } else if b[k] == c[k] {
        } else {
            lemma_str_lt_trans(a[k], b[k], c[k], 0);
            if a[k] == c[k] {
                lemma_str_lt_trans(a[k], b[k], a[k], 0);
                lemma_str_lt_irrefl(a[k], 0);
            }
        }
    }
}

proof fn lemma_keys_lt_total(a: Seq<Seq<char>>, b: Seq<Seq<char>>, k: int)
    requires
        0 <= k,
        k <= a.len(),
        k <= b.len(),
        a.subrange(0, k) == b.subrange(0, k),
        !keys_lt_from(a, b, k),
        !keys_lt_from(b, a, k),
    ensures
        a == b,
    decreases a.len() - k,
{
    if k < a.len() && k < b.len() {
        if a[k] != b[k] {
            assert(a[k].subrange(0, 0) =~= b[k].subrange(0, 0));
            lemma_str_lt_total(a[k], b[k], 0);
        }
        assert(a.subrange(0, k + 1) == a.subrange(0, k).push(a[k]));
        assert(b.subrange(0, k + 1) == b.subrange(0, k).push(b[k]));
        lemma_keys_lt_total(a, b, k + 1);
    } else {
        assert(a == a.subrange(0, k));
        assert(b == b.subrange(0, k));
    }
}

/// `!(b < a)` and `!(c < b)` give `!(c < a)`.
proof fn lemma_keys_le_trans(a: Seq<Seq<char>>, b: Seq<Seq<char>>, c: Seq<Seq<char>>)
    requires
        !keys_lt(b, a),
        !keys_lt(c, b),
    ensures
        !keys_lt(c, a),
{
    if keys_lt(c, a) {
        if keys_lt(a, b) {
            lemma_keys_lt_trans(c, a, b, 0);
        } else {
            assert(a.subrange(0, 0) == b.subrange(0, 0));
            lemma_keys_lt_total(a, b, 0);
        }
    }
}

// ---------------------------------------------------------------------------
// What sorting keeps.
// ---------------------------------------------------------------------------

proof fn lemma_ins<T: Keyed>(s: Seq<T>, x: T)
    ensures
        ins(s, x).len() == s.len() + 1,
        ins(s, x).to_multiset() == s.to_multiset().insert(x),
        sorted(s) ==> sorted(ins(s, x)),
    decreases s.len(),
{
    broadcast use vstd::seq_lib::group_to_multiset_ensures;
    if s.len() == 0 {
        assert(ins(s, x) == seq![x]);
        assert(seq![x] == Seq::<T>::empty().push(x));
    } else if keys_lt(x.key_spec(), s.last().key_spec()) {
        let init = s.drop_last();
        let last = s.last();
        lemma_ins(init, x);
        assert(s == init.push(last));
        assert(ins(init, x).push(last).to_multiset() == ins(init, x).to_multiset().insert(last));
        assert(s.to_multiset() == init.to_multiset().insert(last));
        assert(ins(s, x).to_multiset() =~= s.to_multiset().insert(x));
        if sorted(s) {
            let r = ins(s, x);
            let m = ins(init, x);
            assert(sorted(init));
            assert forall|i: int, j: int| 0 <= i < j < r.len() implies !keys_lt(#[trigger] r[j].key_spec(), #[trigger] r[i].key_spec()) by {
                if j == r.len() - 1 {
                    assert(r[j] == last);
                    assert(m.to_multiset().contains(m[i]));
                    assert(init.to_multiset().insert(x).contains(m[i]));
                    if m[i] == x {
                        if keys_lt(last.key_spec(), x.key_spec()) {
                            lemma_keys_lt_trans(x.key_spec(), last.key_spec(), x.key_spec(), 0);
                            lemma_keys_lt_irrefl(x.key_spec(), 0);
                        }
                    } else {
                        assert(init.to_multiset().contains(m[i]));
                        let k = init.index_of(m[i]);
                        assert(init[k] == m[i]);
                        assert(s[k] == init[k]);
                        assert(s[s.len() - 1] == last);
                    }
                } else {
                    assert(r[i] == m[i]);
                    assert(r[j] == m[j]);
                }
            }
        }
    } else {
        assert(ins(s, x) == s.push(x));
        if sorted(s) {
            let r = s.push(x);
            assert forall|i: int, j: int| 0 <= i < j < r.len() implies !keys_lt(#[trigger] r[j].key_spec(), #[trigger] r[i].key_spec()) by {
                if j == r.len() - 1 {
                    if i < s.len() - 1 {
                        lemma_keys_le_trans(s[i].key_spec(), s.last().key_spec(), x.key_spec());
                    }
                }
            }
        }
    }
}

/// Sorting orders the records by key and keeps every one of them.
pub proof fn law_sort_orders_and_keeps<T: Keyed>(s: Seq<T>)
    ensures
        sorted(sort_spec(s)),
        sort_spec(s).to_multiset() == s.to_multiset(),
    decreases s.len(),
{
    broadcast use vstd::seq_lib::group_to_multiset_ensures;
    if s.len() > 0 {
        law_sort_orders_and_keeps(s.drop_last());
        lemma_ins(sort_spec(s.drop_last()), s.last());
        assert(s == s.drop_last().push(s.last()));
    }
}

/// No two records share a key.
pub open spec fn distinct_keys<T: Keyed>(s: Seq<T>) -> bool {
    forall|i: int, j: int| 0 <= i < j < s.len() ==> #[trigger] s[i].key_spec() != #[trigger] s[j].key_spec()
}

proof fn lemma_ins_distinct<T: Keyed>(s: Seq<T>, x: T)
    requires
        distinct_keys(s),
        forall|i: int| 0 <= i < s.len() ==> #[trigger] s[i].key_spec() != x.key_spec(),
    ensures
        distinct_keys(ins(s, x)),
    decreases s.len(),
{
    broadcast use vstd::seq_lib::group_to_multiset_ensures;
    if s.len() == 0 {
        assert(ins(s, x) == seq![x]);
    } else if keys_lt(x.key_spec(), s.last().key_spec()) {
        let init = s.drop_last();
        let last = s.last();
        lemma_ins_distinct(init, x);
        lemma_ins(init, x);
        let m = ins(init, x);
        let r = m.push(last);
        assert(ins(s, x) == r);
        assert forall|i: int, j: int| 0 <= i < j < r.len() implies #[trigger] r[i].key_spec() != #[trigger] r[j].key_spec() by {
            if j == r.len() - 1 {
                assert(r[j] == last);
                assert(r[i] == m[i]);
                assert(m.to_multiset().contains(m[i]));
                assert(init.to_multiset().insert(x).contains(m[i]));
                if m[i] != x {
                    assert(init.to_multiset().contains(m[i]));
                    let k = init.index_of(m[i]);
                    assert(s[k] == m[i]);
                    assert(s[s.len() - 1] == last);
                } else {
                    assert(s[s.len() - 1] == last);
                }
            } else {
                assert(r[i] == m[i]);
                assert(r[j] == m[j]);
            }
        }
    } else {
        let r = s.push(x);
        assert(ins(s, x) == r);
        assert forall|i: int, j: int| 0 <= i < j < r.len() implies #[trigger] r[i].key_spec() != #[trigger] r[j].key_spec() by {
            if j == r.len() - 1 {
                assert(r[i] == s[i]);
            } else {
                assert(r[i] == s[i]);
                assert(r[j] == s[j]);
            }
        }
    }
}

proof fn lemma_sort_distinct<T: Keyed>(s: Seq<T>)
    requires
        distinct_keys(s),
    ensures
        distinct_keys(sort_spec(s)),
    decreases s.len(),
{
    broadcast use vstd::seq_lib::group_to_multiset_ensures;
    if s.len() > 0 {
        let init = s.drop_last();
        let x = s.last();
        assert forall|i: int, j: int| 0 <= i < j < init.len() implies #[trigger] init[i].key_spec() != #[trigger] init[j].key_spec() by {
            assert(init[i] == s[i]);
            assert(init[j] == s[j]);
        }
        lemma_sort_distinct(init);
        law_sort_orders_and_keeps(init);
        let m = sort_spec(init);
        assert forall|i: int| 0 <= i < m.len() implies #[trigger] m[i].key_spec() != x.key_spec() by {
            assert(m.to_multiset().contains(m[i]));
            assert(init.to_multiset().contains(m[i]));
            let k = init.index_of(m[i]);
            assert(s[k] == m[i]);
            assert(s[s.len() - 1] == x);
        }
        lemma_ins_distinct(m, x);
    }
}

/// Sorted with distinct keys, each key is below every later one.
proof fn lemma_strictly_sorted<T: Keyed>(s: Seq<T>, i: int, j: int)
    requires
        sorted(s),
        distinct_keys(s),
        0 <= i < j < s.len(),
    ensures
        keys_lt(s[i].key_spec(), s[j].key_spec()),
{
    assert(!keys_lt(s[j].key_spec(), s[i].key_spec()));
    if !keys_lt(s[i].key_spec(), s[j].key_spec()) {
        assert(s[i].key_spec().subrange(0, 0) == s[j].key_spec().subrange(0, 0));
        lemma_keys_lt_total(s[i].key_spec(), s[j].key_spec(), 0);
    }
}

/// Two sorted orders of the same records with distinct keys are the same order.
proof fn lemma_sorted_unique<T: Keyed>(s: Seq<T>, t: Seq<T>)
    requires
        sorted(s),
        sorted(t),
        distinct_keys(s),
        distinct_keys(t),
        s.to_multiset() == t.to_multiset(),
    ensures
        s == t,
    decreases s.len(),
{
    broadcast use vstd::seq_lib::group_to_multiset_ensures;
    assert(s.len() == s.to_multiset().len());
    assert(t.len() == t.to_multiset().len());
    if s.len() > 0 {
        let n = s.len() - 1;
        let x = s.last();
        let y = t.last();
        if x != y {
            assert(t.to_multiset().contains(y));
            assert(s.to_multiset().contains(y));
            let k = s.index_of(y);
            assert(s.to_multiset().contains(x));
            assert(t.to_multiset().contains(x));
            let m = t.index_of(x);
            assert(s[n] == x);
            assert(t[n] == y);
            assert(k != n);
            assert(m != n);
            lemma_strictly_sorted(s, k, n);
            lemma_strictly_sorted(t, m, n);
            lemma_keys_lt_trans(y.key_spec(), x.key_spec(), y.key_spec(), 0);
            lemma_keys_lt_irrefl(y.key_spec(), 0);
        }
        let s2 = s.drop_last();
        let t2 = t.drop_last();
        assert(s == s2.push(x));
        assert(t == t2.push(x));
        assert(s2.to_multiset() =~= s.to_multiset().remove(x));
        assert(t2.to_multiset() =~= t.to_multiset().remove(x));
        assert forall|i: int, j: int| 0 <= i < j < s2.len() implies !keys_lt(#[trigger] s2[j].key_spec(), #[trigger] s2[i].key_spec()) by {
            assert(s2[i] == s[i] && s2[j] == s[j]);
        }
        assert forall|i: int, j: int| 0 <= i < j < t2.len() implies !keys_lt(#[trigger] t2[j].key_spec(), #[trigger] t2[i].key_spec()) by {
            assert(t2[i] == t[i] && t2[j] == t[j]);
        }
        assert forall|i: int, j: int| 0 <= i < j < s2.len() implies #[trigger] s2[i].key_spec() != #[trigger] s2[j].key_spec() by {
            assert(s2[i] == s[i] && s2[j] == s[j]);
        }
        assert forall|i: int, j: int| 0 <= i < j < t2.len() implies #[trigger] t2[i].key_spec() != #[trigger] t2[j].key_spec() by {
            assert(t2[i] == t[i] && t2[j] == t[j]);
        }
        lemma_sorted_unique(s2, t2);
    }
}

/// Records with distinct keys come out of the sort in one order, whatever
/// order they arrived in: a report lists files by path, not in the order
/// they finished.
pub proof fn law_sort_ignores_arrival_order<T: Keyed>(a: Seq<T>, b: Seq<T>)
    requires
        a.to_multiset() == b.to_multiset(),
        distinct_keys(a),
        distinct_keys(b),
    ensures
        sort_spec(a) == sort_spec(b),
{
    law_sort_orders_and_keeps(a);
    law_sort_orders_and_keeps(b);
    lemma_sort_distinct(a);
    lemma_sort_distinct(b);
    lemma_sorted_unique(sort_spec(a), sort_spec(b));
}

/// The records with key `k`, in order.
pub open spec fn with_key<T: Keyed>(s: Seq<T>, k: Seq<Seq<char>>) -> Seq<T>
    decreases s.len(),
{
    if s.len() == 0 {
        s
    } else if s.last().key_spec() == k {
        with_key(s.drop_last(), k).push(s.last())
    } else {
        with_key(s.drop_last(), k)
    }
}

proof fn lemma_ins_with_key<T: Keyed>(s: Seq<T>, x: T, k: Seq<Seq<char>>)
    ensures
        with_key(ins(s, x), k) == if x.key_spec() == k { with_key(s, k).push(x) } else { with_key(s, k) },
    decreases s.len(),
{
    if s.len() == 0 {
        assert(ins(s, x) == seq![x]);
        assert(seq![x].drop_last() == s);
    } else if keys_lt(x.key_spec(), s.last().key_spec()) {
        let init = s.drop_last();
        let last = s.last();
        lemma_ins_with_key(init, x, k);
        let r = ins(init, x).push(last);
        assert(r.drop_last() == ins(init, x));
        if x.key_spec() == k {
            if last.key_spec() == k {
                lemma_keys_lt_irrefl(k, 0);
            }
        }
    } else {
        assert(s.push(x).drop_last() == s);
    }
}

/// Sorting a sorted list changes nothing.
proof fn lemma_sort_sorted<T: Keyed>(s: Seq<T>)
    requires
        sorted(s),
    ensures
        sort_spec(s) == s,
    decreases s.len(),
{
    if s.len() > 0 {
        let init = s.drop_last();
        assert(sorted(init)) by {
            assert forall|i: int, j: int| 0 <= i < j < init.len() implies !keys_lt(#[trigger] init[j].key_spec(), #[trigger] init[i].key_spec()) by {
                assert(init[i] == s[i] && init[j] == s[j]);
            }
        }
        lemma_sort_sorted(init);
        if init.len() > 0 {
            assert(init.last() == s[s.len() - 2]);
            assert(!keys_lt(s.last().key_spec(), init.last().key_spec()));
        }
        assert(init.push(s.last()) == s);
    }
}

/// The sort is stable: records with equal keys come out in the order they
/// went in; and sorting a sorted list again changes nothing.
pub proof fn law_sort_is_stable_and_idempotent<T: Keyed>(s: Seq<T>, k: Seq<Seq<char>>)
    ensures
        with_key(sort_spec(s), k) == with_key(s, k),
        sort_spec(sort_spec(s)) == sort_spec(s),
    decreases s.len(),
{
    if s.len() > 0 {
        law_sort_is_stable_and_idempotent(s.drop_last(), k);
        lemma_ins_with_key(sort_spec(s.drop_last()), s.last(), k);
    }
    law_sort_orders_and_keeps(s);
    lemma_sort_sorted(sort_spec(s));
}

// ---------------------------------------------------------------------------
// The code.
// ---------------------------------------------------------------------------

/// Compares two strings, or `None` when they are equal: whether `a < b`.
fn str_less(a: &Vec<char>, b: &Vec<char>) -> (r: Option<bool>)
    ensures
        match r {
            Some(lt) => a@ != b@ && lt == str_lt(a@, b@),
            None => a@ == b@,
        },
{
    let mut k: usize = 0;
    while k < a.len() && k < b.len() && a[k] == b[k]
        invariant
            k <= a.len(),
            k <= b.len(),
            a@.subrange(0, k as int) == b@.subrange(0, k as int),
            str_lt_from(a@, b@, 0) == str_lt_from(a@, b@, k as int),
        decreases a.len() - k,
    {
        assert(a@.subrange(0, k + 1) == a@.subrange(0, k as int).push(a@[k as int]));
        assert(b@.subrange(0, k + 1) == b@.subrange(0, k as int).push(b@[k as int]));
        k += 1;
    }
    if k == a.len() && k == b.len() {
        assert(a@ == a@.subrange(0, k as int));
        assert(b@ == b@.subrange(0, k as int));
        return None;
    }
    if k == b.len() {
        assert(a@.len() != b@.len());
        return Some(false);
    }
    if k == a.len() {
        assert(a@.len() != b@.len());
        return Some(true);
    }
    assert(a@[k as int] != b@[k as int]);
    Some(a[k] < b[k])
}

/// Whether key `a` is less than key `b`.
pub fn keys_less(a: &Vec<Vec<char>>, b: &Vec<Vec<char>>) -> (r: bool)
    ensures
        r == keys_lt(deep(a@), deep(b@)),
{
    let ghost da = deep(a@);
    let ghost db = deep(b@);
    let mut k: usize = 0;
    while k < a.len() && k < b.len()
        invariant
            k <= a.len(),
            k <= b.len(),
            da == deep(a@),
            db == deep(b@),
            keys_lt_from(da, db, 0) == keys_lt_from(da, db, k as int),
        decreases a.len() - k,
    {
        match str_less(&a[k], &b[k]) {
            Some(lt) => {
                return lt;
            },
            None => {},
        }
        k += 1;
    }
    k < b.len()
}

/// Sorts the records by key, records with equal keys keeping their order.
pub fn stable_sort<T: Keyed>(v: &mut Vec<T>)
    ensures
        final(v)@ == sort_spec(old(v)@),
{
    let ghost orig = v@;
    let n = v.len();
    let mut i: usize = 0;
    assert(orig.subrange(0, 0) == Seq::<T>::empty());
    assert(v@ =~= sort_spec(orig.subrange(0, 0)) + orig.subrange(0, n as int));
    while i < n
        invariant
            n == orig.len(),
            i <= n,
            sort_spec(orig.subrange(0, i as int)).len() == i,
            v@ == sort_spec(orig.subrange(0, i as int)) + orig.subrange(i as int, n as int),
        decreases n - i,
    {
        let ghost sorted_part = sort_spec(orig.subrange(0, i as int));
        let x = v.remove(i);
        assert(x == orig[i as int]);
        assert(v@ =~= sorted_part + orig.subrange(i + 1, n as int));
        let xk = x.key();
        let mut j: usize = i;
        assert(sorted_part.subrange(0, i as int) == sorted_part);
        assert(ins(sorted_part, x) =~= ins(sorted_part.subrange(0, i as int), x) + sorted_part.subrange(i as int, i as int));
        while j > 0 && keys_less(&xk, &v[j - 1].key())
            invariant
                j <= i < n,
                v@ == sorted_part + orig.subrange(i + 1, n as int),
                sorted_part.len() == i,
                deep(xk@) == x.key_spec(),
                ins(sorted_part, x) == ins(sorted_part.subrange(0, j as int), x) + sorted_part.subrange(j as int, i as int),
            decreases j,
        {
            let ghost pre = sorted_part.subrange(0, j as int);
            assert(pre.drop_last() == sorted_part.subrange(0, j - 1));
            assert(pre.last() == v@[j - 1]);
            assert(sorted_part.subrange(j - 1, i as int) == seq![pre.last()] + sorted_part.subrange(j as int, i as int));
            assert(ins(pre, x) == ins(pre.drop_last(), x).push(pre.last()));
            assert(ins(pre.drop_last(), x).push(pre.last()) + sorted_part.subrange(j as int, i as int)
                =~= ins(pre.drop_last(), x) + sorted_part.subrange(j - 1, i as int));
            j -= 1;
        }
        proof {
            let pre = sorted_part.subrange(0, j as int);
            if j > 0 {
                assert(pre.last() == v@[j - 1]);
                assert(ins(pre, x) == pre.push(x));
            } else {
                assert(pre.len() == 0);
                assert(ins(pre, x) == seq![x]);
            }
            assert(orig.subrange(0, i + 1).drop_last() == orig.subrange(0, i as int));
            assert(orig.subrange(0, i + 1).last() == x);
            lemma_ins(sorted_part, x);
        }
        v.insert(j, x);
        proof {
            let pre = sorted_part.subrange(0, j as int);
            assert(v@ =~= pre.push(x) + sorted_part.subrange(j as int, i as int) + orig.subrange(i + 1, n as int));
            assert(sort_spec(orig.subrange(0, i + 1)) == ins(sorted_part, x));
        }
        i += 1;
    }
    assert(orig.subrange(0, n as int) == orig);
    assert(v@ =~= sort_spec(orig));
}

} // verus!
