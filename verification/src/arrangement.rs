//! Arrangements: the count vector of a sequence, what it means to put given
//! values in the order that a count vector describes, and why at most one
//! order fits.

use crate::order::distinct;
use crate::order::increasing;
use crate::order::precedes;
use crate::order::strict_order;
use vstd::multiset::group_multiset_axioms;
use vstd::prelude::*;
use vstd::seq_lib::lemma_multiset_commutative;
use vstd::seq_lib::to_multiset_build;
use vstd::seq_lib::to_multiset_contains;
use vstd::seq_lib::to_multiset_remove;

verus! {

/// How many entries of `s` precede `x`.
pub open spec fn count_before<T: Ord>(s: Seq<T>, x: T) -> nat
    decreases s.len(),
{
    if s.len() == 0 {
        0
    } else {
        count_before(s.drop_last(), x) + if precedes(s.last(), x) {
            1nat
        } else {
            0nat
        }
    }
}

/// The count vector of `s`: entry `i` is the number of entries to the left
/// of place `i` that precede the entry at place `i`.
pub open spec fn count_vector<T: Ord>(s: Seq<T>) -> Seq<nat> {
    Seq::new(s.len(), |i: int| count_before(s.take(i), s[i]))
}

/// No more entries of `s` precede a value than `s` has.
pub proof fn lemma_count_before_bound<T: Ord>(s: Seq<T>, x: T)
    ensures
        count_before(s, x) <= s.len(),
    decreases s.len(),
{
    if s.len() > 0 {
        lemma_count_before_bound(s.drop_last(), x);
    }
}

/// Dropping the last entry of a sequence drops the last entry of its count
/// vector.
pub proof fn lemma_count_vector_drop_last<T: Ord>(s: Seq<T>)
    requires
        s.len() > 0,
    ensures
        count_vector(s.drop_last()) == count_vector(s).drop_last(),
        count_vector(s).last() == count_before(s.drop_last(), s.last()),
{
    let rest = s.drop_last();
    assert forall|i: int| 0 <= i < rest.len() implies count_vector(rest)[i] == count_vector(
        s,
    ).drop_last()[i] by {
        assert(rest.take(i) =~= s.take(i));
    }
    assert(count_vector(rest) =~= count_vector(s).drop_last());
    assert(s.take(s.len() - 1) =~= rest);
}

/// `a` and `b` hold the same entries, each as often as the other.
pub open spec fn same_entries<T>(a: Seq<T>, b: Seq<T>) -> bool {
    a.to_multiset() == b.to_multiset()
}

/// `t` holds the entries of `data` in the order that `counts` describes.
pub open spec fn is_arrangement<T: Ord>(t: Seq<T>, data: Seq<T>, counts: Seq<nat>) -> bool {
    same_entries(t, data) && count_vector(t) == counts
}

/// The entries of `data` in the order that `counts` describes, where there
/// is such an order.
pub open spec fn arrangement<T: Ord>(data: Seq<T>, counts: Seq<nat>) -> Seq<T> {
    choose|t: Seq<T>| is_arrangement(t, data, counts)
}

/// Every entry of `out` is equal to, or a clone of, the entry of `t` at its
/// place.
pub open spec fn clones_of<T: Clone>(t: Seq<T>, out: Seq<T>) -> bool {
    &&& out.len() == t.len()
    &&& forall|i: int| 0 <= i < t.len() ==> cloned(#[trigger] t[i], out[i])
}

/// `out` is made of the entries of `data`, or clones of them, in some
/// order.
pub open spec fn holds_entries_of<T: Clone>(out: Seq<T>, data: Seq<T>) -> bool {
    exists|t: Seq<T>| same_entries(t, data) && #[trigger] clones_of(t, out)
}

/// Taking an entry out of a sequence lowers the count of entries that
/// precede `x` by one if that entry precedes `x`, and not otherwise.
pub proof fn lemma_count_before_remove<T: Ord>(s: Seq<T>, k: int, x: T)
    requires
        0 <= k < s.len(),
    ensures
        count_before(s, x) == count_before(s.remove(k), x) + if precedes(s[k], x) {
            1nat
        } else {
            0nat
        },
    decreases s.len(),
{
    if k == s.len() - 1 {
        assert(s.remove(k) =~= s.drop_last());
    } else {
        lemma_count_before_remove(s.drop_last(), k, x);
        assert(s.remove(k).drop_last() =~= s.drop_last().remove(k));
    }
}

/// How many entries precede `x` does not depend on the order of the
/// entries.
pub proof fn lemma_count_before_same_entries<T: Ord>(a: Seq<T>, b: Seq<T>, x: T)
    requires
        same_entries(a, b),
    ensures
        count_before(a, x) == count_before(b, x),
    decreases a.len(),
{
    broadcast use group_multiset_axioms;

    a.to_multiset_ensures();
    b.to_multiset_ensures();
    if a.len() > 0 {
        let last = a.last();
        let rest = a.drop_last();
        assert(rest.push(last) =~= a);
        to_multiset_build(rest, last);
        to_multiset_contains(b, last);
        assert(b.to_multiset().count(last) > 0);
        let k = choose|k: int| 0 <= k < b.len() && b[k] == last;
        to_multiset_remove(b, k);
        assert(rest.to_multiset() =~= b.remove(k).to_multiset());
        lemma_count_before_same_entries(rest, b.remove(k), x);
        lemma_count_before_remove(b, k, x);
    } else {
        assert(b.len() == 0);
    }
}

/// If `x` precedes `y`, whatever precedes `x` precedes `y`.
pub proof fn lemma_count_before_monotonic<T: Ord>(s: Seq<T>, x: T, y: T)
    requires
        strict_order::<T>(),
        precedes(x, y),
    ensures
        count_before(s, x) <= count_before(s, y),
    decreases s.len(),
{
    if s.len() > 0 {
        lemma_count_before_monotonic(s.drop_last(), x, y);
        if precedes(s.last(), x) {
            assert(precedes(s.last(), y));
        }
    }
}

/// If an entry of `s` precedes `y`, more entries of `s` precede `y` than
/// precede that entry.
pub proof fn lemma_count_before_strict<T: Ord>(s: Seq<T>, k: int, y: T)
    requires
        strict_order::<T>(),
        0 <= k < s.len(),
        precedes(s[k], y),
    ensures
        count_before(s, s[k]) < count_before(s, y),
{
    let x = s[k];
    lemma_count_before_remove(s, k, x);
    lemma_count_before_remove(s, k, y);
    lemma_count_before_monotonic(s.remove(k), x, y);
    assert(!(precedes(x, x) && precedes(x, x)));
}

/// In a strictly increasing sequence, the entries that precede the entry at
/// place `d` are the `d` entries to its left.
pub proof fn lemma_count_before_in_increasing<T: Ord>(s: Seq<T>, d: int)
    requires
        strict_order::<T>(),
        increasing(s),
        0 <= d < s.len(),
    ensures
        count_before(s, s[d]) == d,
        count_before(s.remove(d), s[d]) == d,
    decreases s.len(),
{
    let x = s[d];
    assert(!(precedes(x, x) && precedes(x, x)));
    if d == s.len() - 1 {
        lemma_count_before_all(s.drop_last(), x);
    } else {
        assert(precedes(s[d], s.last()));
        assert(!(precedes(x, s.last()) && precedes(s.last(), x)));
        lemma_count_before_in_increasing(s.drop_last(), d);
    }
    lemma_count_before_remove(s, d, x);
}

/// If every entry of `s` precedes `x`, their number is the length of `s`.
pub proof fn lemma_count_before_all<T: Ord>(s: Seq<T>, x: T)
    requires
        forall|i: int| 0 <= i < s.len() ==> precedes(#[trigger] s[i], x),
    ensures
        count_before(s, x) == s.len(),
    decreases s.len(),
{
    if s.len() > 0 {
        lemma_count_before_all(s.drop_last(), x);
    }
}

/// Two orders of the same distinct entries that have the same count vector
/// are the same order.
pub proof fn lemma_arrangement_unique<T: Ord>(p: Seq<T>, q: Seq<T>)
    requires
        strict_order::<T>(),
        distinct(p),
        same_entries(p, q),
        count_vector(p) == count_vector(q),
    ensures
        p == q,
    decreases p.len(),
{
    broadcast use group_multiset_axioms;

    p.to_multiset_ensures();
    q.to_multiset_ensures();
    if p.len() == 0 {
        assert(q.len() == 0);
        assert(p =~= q);
    } else {
        let n = p.len() as int;
        assert(q.len() == n);
        let x = p.last();
        let y = q.last();
        let p0 = p.drop_last();
        let q0 = q.drop_last();
        lemma_count_vector_drop_last(p);
        lemma_count_vector_drop_last(q);
        assert(!(precedes(x, x) && precedes(x, x)));
        assert(!(precedes(y, y) && precedes(y, y)));
        // x and y have the same number of predecessors among the entries
        assert(count_before(p, x) == count_before(p0, x));
        assert(count_before(q, y) == count_before(q0, y));
        lemma_count_before_same_entries(p, q, y);
        assert(count_before(p, x) == count_before(p, y));
        if x != y {
            to_multiset_contains(p, y);
            assert(q.contains(y));
            to_multiset_contains(q, y);
            let k = choose|k: int| 0 <= k < p.len() && p[k] == y;
            assert(k != n - 1);
            assert(precedes(p[k], p[n - 1]) || precedes(p[n - 1], p[k]));
            if precedes(y, x) {
                lemma_count_before_strict(p, k, x);
            } else {
                lemma_count_before_strict(p, n - 1, y);
            }
            assert(false);
        }
        assert(p0.push(x) =~= p);
        assert(q0.push(y) =~= q);
        to_multiset_build(p0, x);
        to_multiset_build(q0, y);
        assert(p0.to_multiset() =~= p.to_multiset().remove(x));
        assert(q0.to_multiset() =~= q.to_multiset().remove(x));
        lemma_arrangement_unique(p0, q0);
    }
}

/// Distinct entries are pairwise different.
pub proof fn lemma_distinct_no_duplicates<T: Ord>(s: Seq<T>)
    requires
        strict_order::<T>(),
        distinct(s),
    ensures
        s.no_duplicates(),
{
    assert forall|i: int, j: int| 0 <= i < s.len() && 0 <= j < s.len() && i != j implies s[i]
        != s[j] by {
        if s[i] == s[j] {
            assert(!(precedes(s[i], s[i]) && precedes(s[i], s[i])));
            if i < j {
                assert(precedes(s[i], s[j]) || precedes(s[j], s[i]));
            } else {
                assert(precedes(s[j], s[i]) || precedes(s[i], s[j]));
            }
        }
    }
}

/// Any order of distinct entries has distinct entries.
pub proof fn lemma_distinct_same_entries<T: Ord>(a: Seq<T>, b: Seq<T>)
    requires
        strict_order::<T>(),
        distinct(a),
        same_entries(a, b),
    ensures
        distinct(b),
{
    broadcast use group_multiset_axioms;

    lemma_distinct_no_duplicates(a);
    a.lemma_multiset_has_no_duplicates();
    b.lemma_multiset_has_no_duplicates_conv();
    assert forall|i: int, j: int| 0 <= i < j < b.len() implies precedes(
        #[trigger] b[i],
        #[trigger] b[j],
    ) || precedes(b[j], b[i]) by {
        to_multiset_contains(b, b[i]);
        to_multiset_contains(b, b[j]);
        to_multiset_contains(a, b[i]);
        to_multiset_contains(a, b[j]);
        assert(b.contains(b[i]));
        assert(b.contains(b[j]));
        let m = choose|m: int| 0 <= m < a.len() && a[m] == b[i];
        let n = choose|n: int| 0 <= n < a.len() && a[n] == b[j];
        assert(b[i] != b[j]);
        if m < n {
            assert(precedes(a[m], a[n]) || precedes(a[n], a[m]));
        } else {
            assert(precedes(a[n], a[m]) || precedes(a[m], a[n]));
        }
    }
}

/// Moving an entry from one sequence to the end of another leaves the
/// entries of the two together as they were.
pub proof fn lemma_move_entry<T>(pool: Seq<T>, d: int, placed: Seq<T>)
    requires
        0 <= d < pool.len(),
    ensures
        same_entries(pool.remove(d) + placed.push(pool[d]), pool + placed),
{
    broadcast use group_multiset_axioms;

    lemma_multiset_commutative(pool.remove(d), placed.push(pool[d]));
    lemma_multiset_commutative(pool, placed);
    to_multiset_remove(pool, d);
    to_multiset_build(placed, pool[d]);
    to_multiset_contains(pool, pool[d]);
    assert(pool.contains(pool[d]));
    assert((pool.remove(d) + placed.push(pool[d])).to_multiset() =~= (pool + placed).to_multiset());
}

} // verus!
