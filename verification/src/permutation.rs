//! Permutation coding: the order of distinct values as a number in the
//! factorial number system.

use crate::arith::factorial;
use crate::arith::factorial_of;
use crate::arith::lemma_factorial_monotonic;
use crate::arith::lemma_factorial_positive;
use crate::arrangement::arrangement;
use crate::arrangement::clones_of;
use crate::arrangement::count_before;
use crate::arrangement::count_vector;
use crate::arrangement::holds_entries_of;
use crate::arrangement::is_arrangement;
use crate::arrangement::lemma_arrangement_unique;
use crate::arrangement::lemma_count_before_bound;
use crate::arrangement::lemma_count_before_in_increasing;
use crate::arrangement::lemma_count_before_same_entries;
use crate::arrangement::lemma_distinct_same_entries;
use crate::arrangement::lemma_move_entry;
use crate::arrangement::same_entries;
use crate::order::distinct;
use crate::order::increasing;
use crate::order::less;
use crate::order::order_specified;
use crate::order::precedes;
use crate::order::strict_order;
use vstd::arithmetic::div_mod::lemma_fundamental_div_mod;
use vstd::arithmetic::div_mod::lemma_fundamental_div_mod_converse;
use vstd::arithmetic::div_mod::lemma_mod_bound;
use vstd::multiset::group_multiset_axioms;
use vstd::multiset::Multiset;
use vstd::prelude::*;
use vstd::seq_lib::to_multiset_build;
use vstd::seq_lib::to_multiset_contains;
use vstd::seq_lib::to_multiset_insert;
use vstd::seq_lib::to_multiset_len;
use vstd::std_specs::convert::TryFromSpec;
use vstd::std_specs::convert::TryIntoSpec;

verus! {

/// Entry `i` of a count vector is at most `i`.
pub open spec fn counts_in_range(counts: Seq<nat>) -> bool {
    forall|i: int| 0 <= i < counts.len() ==> #[trigger] counts[i] <= i
}

/// The number that a count vector writes in the factorial number system:
/// entry `i` has the place value `i!`.
pub open spec fn counts_value(counts: Seq<nat>) -> nat
    decreases counts.len(),
{
    if counts.len() == 0 {
        0
    } else {
        counts_value(counts.drop_last()) + counts.last() * factorial((counts.len() - 1) as nat)
    }
}

/// The `n` factorial digits of `code`, read from the highest place down:
/// the digit of place `n - 1` is the quotient by `(n - 1)!`, and the
/// remainder holds the lower places.
pub open spec fn factorial_digits(code: nat, n: nat) -> Seq<nat>
    decreases n,
{
    if n == 0 {
        Seq::empty()
    } else {
        let place = factorial((n - 1) as nat);
        factorial_digits(code % place, (n - 1) as nat).push(code / place)
    }
}

/// The code of the order of `s`.
pub open spec fn lehmer_code<T: Ord>(s: Seq<T>) -> nat {
    counts_value(count_vector(s))
}

/// The count vector of a sequence has one entry per place, each in range.
pub proof fn lemma_count_vector_in_range<T: Ord>(s: Seq<T>)
    ensures
        count_vector(s).len() == s.len(),
        counts_in_range(count_vector(s)),
{
    assert forall|i: int| 0 <= i < s.len() implies #[trigger] count_vector(s)[i] <= i by {
        lemma_count_before_bound(s.take(i), s[i]);
    }
}

/// A count vector of `n` entries in range writes a number below `n!`.
pub proof fn lemma_counts_value_bound(counts: Seq<nat>)
    requires
        counts_in_range(counts),
    ensures
        counts_value(counts) < factorial(counts.len()),
    decreases counts.len(),
{
    if counts.len() > 0 {
        let rest = counts.drop_last();
        let m = rest.len();
        lemma_counts_value_bound(rest);
        let f = factorial(m);
        let d = counts.last();
        assert(d <= m);
        assert(factorial(counts.len()) == (m + 1) * f);
        assert(counts_value(rest) + d * f < (m + 1) * f) by (nonlinear_arith)
            requires
                counts_value(rest) < f,
                d <= m,
        ;
    }
}

/// The value of a prefix of a count vector never exceeds the value of the
/// whole.
pub proof fn lemma_counts_value_prefix(counts: Seq<nat>, i: int)
    requires
        0 <= i <= counts.len(),
    ensures
        counts_value(counts.take(i)) <= counts_value(counts),
    decreases counts.len(),
{
    if i == counts.len() {
        assert(counts.take(i) =~= counts);
    } else {
        lemma_counts_value_prefix(counts.drop_last(), i);
        assert(counts.drop_last().take(i) =~= counts.take(i));
        assert(counts.last() * factorial((counts.len() - 1) as nat) >= 0) by (nonlinear_arith);
    }
}

/// The factorial digits of the value of a count vector in range are the
/// count vector.
pub proof fn lemma_factorial_digits_of_value(counts: Seq<nat>)
    requires
        counts_in_range(counts),
    ensures
        factorial_digits(counts_value(counts), counts.len()) == counts,
    decreases counts.len(),
{
    if counts.len() == 0 {
        assert(counts =~= Seq::<nat>::empty());
    } else {
        let rest = counts.drop_last();
        let f = factorial(rest.len());
        let d = counts.last();
        lemma_counts_value_bound(rest);
        lemma_factorial_digits_of_value(rest);
        lemma_factorial_positive(rest.len());
        assert(d * f + counts_value(rest) == counts_value(counts)) by (nonlinear_arith)
            requires
                counts_value(counts) == counts_value(rest) + d * f,
        ;
        lemma_fundamental_div_mod_converse(
            counts_value(counts) as int,
            f as int,
            d as int,
            counts_value(rest) as int,
        );
        assert(rest.push(d) =~= counts);
    }
}

/// A code below `n!` has `n` factorial digits in range, and they write the
/// code.
pub proof fn lemma_value_of_factorial_digits(code: nat, n: nat)
    ensures
        factorial_digits(code, n).len() == n,
        code < factorial(n) ==> counts_in_range(factorial_digits(code, n)) && counts_value(
            factorial_digits(code, n),
        ) == code,
    decreases n,
{
    if n > 0 {
        let m = (n - 1) as nat;
        let f = factorial(m);
        lemma_factorial_positive(m);
        lemma_mod_bound(code as int, f as int);
        lemma_value_of_factorial_digits(code % f, m);
        if code < factorial(n) {
            let d = code / f;
            let digits = factorial_digits(code, n);
            lemma_fundamental_div_mod(code as int, f as int);
            assert(d <= m) by (nonlinear_arith)
                requires
                    code < n * f,
                    f > 0,
                    d == code / f,
                    m == n - 1,
            ;
            assert(digits.drop_last() =~= factorial_digits(code % f, m));
            assert(f * d == d * f) by (nonlinear_arith);
        }
    }
}

/// The code of the order of any `n` values is below `n!`.
pub proof fn lemma_lehmer_code_bound<T: Ord>(s: Seq<T>)
    ensures
        lehmer_code(s) < factorial(s.len()),
{
    lemma_count_vector_in_range(s);
    lemma_counts_value_bound(count_vector(s));
}

/// The values that a sequence of references points to.
pub open spec fn values<T>(refs: Seq<&T>) -> Seq<T> {
    refs.map_values(|r: &T| *r)
}

/// The order on `T` is one that the coder can work with, and no two entries
/// of `data` are equal in it.
pub open spec fn orderable<T: Ord>(data: Seq<T>) -> bool {
    order_specified::<T>() && strict_order::<T>() && distinct(data)
}

/// The entries of `data` in the order whose code is `code`, where there is
/// such an order.
pub open spec fn permutation_of_code<T: Ord>(code: nat, data: Seq<T>) -> Seq<T> {
    arrangement(data, factorial_digits(code, data.len()))
}

/// References to the entries of `data`, from the least to the greatest.
pub fn sorted_pool<'a, T: Ord>(data: &'a [T]) -> (pool: Vec<&'a T>)
    ensures
        pool@.len() == data@.len(),
        same_entries(values(pool@), data@),
        orderable(data@) ==> increasing(values(pool@)),
{
    let mut pool: Vec<&'a T> = Vec::new();
    let mut i: usize = 0;
    proof {
        assert(values(pool@) =~= data@.take(0));
    }
    while i < data.len()
        invariant
            i <= data@.len(),
            pool@.len() == i,
            same_entries(values(pool@), data@.take(i as int)),
            orderable(data@) ==> increasing(values(pool@)),
        decreases data@.len() - i,
    {
        let x: &'a T = &data[i];
        let mut p: usize = 0;
        while p < pool.len() && less(pool[p], x)
            invariant
                p <= pool@.len(),
                order_specified::<T>() ==> forall|k: int|
                    0 <= k < p ==> precedes(#[trigger] values(pool@)[k], *x),
            decreases pool@.len() - p,
        {
            p += 1;
        }
        let ghost before = values(pool@);
        pool.insert(p, x);
        proof {
            let after = values(pool@);
            assert(after =~= before.insert(p as int, *x));
            to_multiset_insert(before, p as int, *x);
            assert(data@.take(i + 1) =~= data@.take(i as int).push(*x));
            to_multiset_build(data@.take(i as int), *x);
            if orderable(data@) {
                if p < before.len() {
                    let y = before[p as int];
                    to_multiset_contains(before, y);
                    to_multiset_contains(data@.take(i as int), y);
                    assert(before.contains(y));
                    let j = choose|j: int| 0 <= j < i && data@.take(i as int)[j] == y;
                    assert(precedes(data@[j], data@[i as int]) || precedes(
                        data@[i as int],
                        data@[j],
                    ));
                    assert(precedes(*x, y));
                    assert forall|k: int| p < k < before.len() implies precedes(
                        *x,
                        #[trigger] before[k],
                    ) by {
                        assert(precedes(before[p as int], before[k]));
                    }
                }
                assert forall|a: int, b: int| 0 <= a < b < after.len() implies precedes(
                    #[trigger] after[a],
                    #[trigger] after[b],
                ) by {
                    if a < p && b > p {
                        assert(precedes(before[a], before[b - 1]));
                    } else if a < p && b < p {
                        assert(precedes(before[a], before[b]));
                    } else if a > p {
                        assert(precedes(before[a - 1], before[b - 1]));
                    }
                }
            }
        }
        i += 1;
    }
    proof {
        assert(data@.take(i as int) =~= data@);
    }
    pool
}

/// The count vector of a permutation: the digits of its code in the
/// factorial number system, lowest place first.
pub struct PermutationCounts {
    pub counts: Vec<usize>,
}

impl View for PermutationCounts {
    type V = Seq<nat>;

    open spec fn view(&self) -> Seq<nat> {
        self.counts@.map_values(|c: usize| c as nat)
    }
}

impl PermutationCounts {
    /// Counts the entries among the first `pos` of `data` that precede `x`.
    pub fn calculate_count<T: Ord>(pos: usize, x: &T, data: &[T]) -> (count: usize)
        ensures
            count <= pos,
            count <= data@.len(),
            order_specified::<T>() ==> count == count_before(
                data@.take(
                    if pos <= data@.len() {
                        pos as int
                    } else {
                        data@.len() as int
                    },
                ),
                *x,
            ),
    {
        let end: usize = if pos <= data.len() {
            pos
        } else {
            data.len()
        };
        let mut count: usize = 0;
        let mut j: usize = 0;
        proof {
            assert(data@.take(0) =~= Seq::<T>::empty());
        }
        while j < end
            invariant
                j <= end <= data@.len(),
                count <= j,
                order_specified::<T>() ==> count == count_before(data@.take(j as int), *x),
            decreases end - j,
        {
            proof {
                assert(data@.take(j + 1).drop_last() =~= data@.take(j as int));
            }
            if less(&data[j], x) {
                count += 1;
            }
            j += 1;
        }
        count
    }

    /// The weight of one entry of a count vector: the count times the
    /// factorial of its index.
    pub fn encode_count(indexed_count: (usize, usize)) -> (weight: usize)
        requires
            factorial(indexed_count.0 as nat) <= usize::MAX,
            indexed_count.1 * factorial(indexed_count.0 as nat) <= usize::MAX,
        ensures
            weight == indexed_count.1 * factorial(indexed_count.0 as nat),
    {
        let (index, count) = indexed_count;
        count * factorial_of(index)
    }

    /// The number that the count vector writes in the factorial number
    /// system.
    pub fn encode(&self) -> (code: usize)
        requires
            self@.len() > 0 ==> factorial((self@.len() - 1) as nat) <= usize::MAX,
            counts_value(self@) <= usize::MAX,
        ensures
            code == counts_value(self@),
    {
        let mut code: usize = 0;
        let mut i: usize = 0;
        proof {
            assert(self@.take(0) =~= Seq::<nat>::empty());
        }
        while i < self.counts.len()
            invariant
                i <= self@.len(),
                self@.len() == self.counts@.len(),
                self@.len() > 0 ==> factorial((self@.len() - 1) as nat) <= usize::MAX,
                counts_value(self@) <= usize::MAX,
                code == counts_value(self@.take(i as int)),
            decreases self@.len() - i,
        {
            proof {
                lemma_counts_value_prefix(self@, i + 1);
                lemma_factorial_monotonic(i as nat, (self@.len() - 1) as nat);
                assert(self@.take(i + 1).drop_last() =~= self@.take(i as int));
                assert(self@.take(i + 1).last() == self.counts@[i as int] as nat);
            }
            code += Self::encode_count((i, self.counts[i]));
            i += 1;
        }
        proof {
            assert(self@.take(i as int) =~= self@);
        }
        code
    }

    /// The count vector of `data`.
    pub fn from_data<T: Ord>(data: &[T]) -> (r: Self)
        ensures
            r@.len() == data@.len(),
            counts_in_range(r@),
            order_specified::<T>() ==> r@ == count_vector(data@),
    {
        let mut counts: Vec<usize> = Vec::new();
        let mut i: usize = 0;
        while i < data.len()
            invariant
                i <= data@.len(),
                counts@.len() == i,
                forall|k: int| 0 <= k < i ==> #[trigger] counts@[k] <= k,
                order_specified::<T>() ==> forall|k: int|
                    0 <= k < i ==> #[trigger] counts@[k] as nat == count_before(
                        data@.take(k),
                        data@[k],
                    ),
            decreases data@.len() - i,
        {
            let count = Self::calculate_count(i, &data[i], data);
            counts.push(count);
            i += 1;
        }
        let r = PermutationCounts { counts };
        proof {
            if order_specified::<T>() {
                assert(r@ =~= count_vector(data@));
            }
        }
        r
    }

    /// Takes the digit of place `index` off the code: the quotient by
    /// `index!` is the digit, and the remainder stays in `permutation`.
    pub fn decode_count(index: usize, permutation: &mut usize) -> (count: usize)
        requires
            factorial(index as nat) <= usize::MAX,
        ensures
            count == *old(permutation) as nat / factorial(index as nat),
            *final(permutation) == *old(permutation) as nat % factorial(index as nat),
    {
        let place = factorial_of(index);
        proof {
            lemma_factorial_positive(index as nat);
        }
        let count = *permutation / place;
        *permutation = *permutation % place;
        count
    }

    /// The `n` factorial digits of `permutation`.
    pub fn decode(permutation: usize, n: usize) -> (r: Self)
        requires
            n > 0 ==> factorial((n - 1) as nat) <= usize::MAX,
        ensures
            r@ == factorial_digits(permutation as nat, n as nat),
            r@.len() == n,
            permutation < factorial(n as nat) ==> counts_in_range(r@),
    {
        let mut counts: Vec<usize> = Vec::new();
        let mut index: usize = 0;
        while index < n
            invariant
                index <= n,
                counts@.len() == index,
            decreases n - index,
        {
            counts.push(0);
            index += 1;
        }
        let mut rest: usize = permutation;
        // The highest place comes off first: each division leaves the
        // lower places in the remainder.
        while index > 0
            invariant
                index <= n,
                counts@.len() == n,
                n > 0 ==> factorial((n - 1) as nat) <= usize::MAX,
                factorial_digits(permutation as nat, n as nat) =~= factorial_digits(
                    rest as nat,
                    index as nat,
                ) + counts@.subrange(index as int, n as int).map_values(|c: usize| c as nat),
            decreases index,
        {
            index -= 1;
            proof {
                lemma_factorial_monotonic(index as nat, (n - 1) as nat);
            }
            let ghost before = counts@;
            let count = Self::decode_count(index, &mut rest);
            counts.set(index, count);
            proof {
                assert(counts@.subrange(index as int, n as int).map_values(|c: usize| c as nat)
                    =~= seq![count as nat] + before.subrange(index + 1, n as int).map_values(
                    |c: usize| c as nat,
                ));
            }
        }
        let r = PermutationCounts { counts };
        proof {
            assert(r@ =~= factorial_digits(permutation as nat, n as nat));
            lemma_value_of_factorial_digits(permutation as nat, n as nat);
        }
        r
    }

    /// Takes the entry with `n` smaller entries out of a pool that holds
    /// the entries not yet placed, from the least to the greatest.
    pub fn nth_smallest<'a, T: Ord>(n: usize, pool: &mut Vec<&'a T>) -> (x: &'a T)
        requires
            n < old(pool)@.len(),
        ensures
            *x == values(old(pool)@)[n as int],
            final(pool)@ == old(pool)@.remove(n as int),
            values(final(pool)@) == values(old(pool)@).remove(n as int),
    {
        let x = pool.remove(n);
        proof {
            assert(values(pool@) =~= values(old(pool)@).remove(n as int));
        }
        x
    }

    /// Puts the entries of `data` in the order that the count vector
    /// describes: from the last place to the first, each place takes, of the
    /// entries not yet placed, the one with as many smaller ones as its
    /// count says.
    pub fn apply<T: Ord + Clone>(&self, data: &[T]) -> (out: Vec<T>)
        requires
            self@.len() == data@.len(),
            counts_in_range(self@),
        ensures
            out@.len() == data@.len(),
            holds_entries_of(out@, data@),
            orderable(data@) ==> is_arrangement(arrangement(data@, self@), data@, self@)
                && clones_of(arrangement(data@, self@), out@),
    {
        let n: usize = data.len();
        let mut pool = sorted_pool(data);
        let mut picks: Vec<&T> = Vec::new();
        let mut i: usize = n;
        proof {
            broadcast use group_multiset_axioms;

            assert(values(picks@) =~= Seq::<T>::empty());
            to_multiset_len(values(picks@));
            assert(values(picks@).to_multiset() =~= Multiset::<T>::empty());
        }
        while i > 0
            invariant
                i <= n,
                n == data@.len(),
                self@.len() == n,
                counts_in_range(self@),
                pool@.len() == i,
                picks@.len() == n - i,
                values(pool@).to_multiset().add(values(picks@).to_multiset())
                    =~= data@.to_multiset(),
                orderable(data@) ==> increasing(values(pool@)),
                orderable(data@) ==> forall|k: int|
                    0 <= k < n - i ==> count_before(
                        values(pool@) + values(picks@).skip(k + 1),
                        #[trigger] values(picks@)[k],
                    ) == self@[n - 1 - k],
            decreases i,
        {
            i -= 1;
            let ghost pool_before = values(pool@);
            let ghost picks_before = values(picks@);
            let d: usize = self.counts[i];
            assert(self@[i as int] == d as nat);
            let x = Self::nth_smallest(d, &mut pool);
            picks.push(x);
            proof {
                broadcast use group_multiset_axioms;

                let pool_after = values(pool@);
                let picks_after = values(picks@);
                assert(picks_after =~= picks_before.push(*x));
                to_multiset_build(picks_before, *x);
                vstd::seq_lib::to_multiset_remove(pool_before, d as int);
                to_multiset_contains(pool_before, *x);
                assert(pool_before.contains(*x));
                if orderable(data@) {
                    assert forall|k: int| 0 <= k < n - i implies count_before(
                        pool_after + picks_after.skip(k + 1),
                        #[trigger] picks_after[k],
                    ) == self@[n - 1 - k] by {
                        if k < picks_before.len() {
                            lemma_move_entry(pool_before, d as int, picks_before.skip(k + 1));
                            assert(picks_after.skip(k + 1) =~= picks_before.skip(k + 1).push(*x));
                            lemma_count_before_same_entries(
                                pool_after + picks_after.skip(k + 1),
                                pool_before + picks_before.skip(k + 1),
                                picks_before[k],
                            );
                        } else {
                            assert(pool_after + picks_after.skip(k + 1) =~= pool_after);
                            lemma_count_before_in_increasing(pool_before, d as int);
                        }
                    }
                    assert forall|a: int, b: int| 0 <= a < b < pool_after.len() implies precedes(
                        #[trigger] pool_after[a],
                        #[trigger] pool_after[b],
                    ) by {
                        let a0 = if a < d { a } else { a + 1 };
                        let b0 = if b < d { b } else { b + 1 };
                        assert(precedes(pool_before[a0], pool_before[b0]));
                    }
                }
            }
        }
        let ghost chosen = values(picks@);
        let ghost target = Seq::new(n as nat, |j: int| chosen[n - 1 - j]);
        proof {
            broadcast use group_multiset_axioms;

            assert(values(pool@) =~= Seq::<T>::empty());
            to_multiset_len(values(pool@));
            assert(values(pool@).to_multiset() =~= Multiset::<T>::empty());
            assert(target =~= chosen.reverse());
            chosen.lemma_reverse_to_multiset();
            assert(chosen.to_multiset() =~= data@.to_multiset());
            assert(target.to_multiset() =~= data@.to_multiset());
            assert(same_entries(target, data@));
            if orderable(data@) {
                assert forall|j: int| 0 <= j < n implies count_vector(target)[j] == self@[j] by {
                    let k = n - 1 - j;
                    assert(values(pool@) + chosen.skip(k + 1) =~= chosen.skip(k + 1));
                    assert(target.take(j) =~= chosen.skip(k + 1).reverse());
                    chosen.skip(k + 1).lemma_reverse_to_multiset();
                    lemma_count_before_same_entries(target.take(j), chosen.skip(k + 1), chosen[k]);
                }
                assert(count_vector(target) =~= self@);
                assert(is_arrangement(target, data@, self@));
                let t = arrangement(data@, self@);
                assert(is_arrangement(t, data@, self@));
                lemma_distinct_same_entries(data@, target);
                lemma_arrangement_unique(target, t);
            }
        }
        let mut out: Vec<T> = Vec::new();
        let mut j: usize = 0;
        while j < n
            invariant
                j <= n,
                picks@.len() == n,
                out@.len() == j,
                forall|m: int| 0 <= m < j ==> cloned(*picks@[n - 1 - m], #[trigger] out@[m]),
            decreases n - j,
        {
            let x: &T = picks[n - 1 - j];
            out.push(x.clone());
            j += 1;
        }
        proof {
            assert(clones_of(target, out@));
        }
        out
    }
}

/// Encodes the order of the entries of `data` as one number, narrowed to
/// `Encoded`; a code that does not fit is the conversion's error. For `n`
/// entries the code is below `n!`: 5! fits 8 bits, 8! fits 16 bits, 12! fits
/// 32 bits and 20! fits 64 bits.
pub fn encode_permutation<T: Ord, Encoded: TryFrom<usize>>(data: &[T]) -> (r: Result<
    Encoded,
    Encoded::Error,
>)
    requires
        factorial(data@.len()) <= usize::MAX,
    ensures
        order_specified::<T>() && Encoded::obeys_try_from_spec() ==> r == Encoded::try_from_spec(
            lehmer_code(data@) as usize,
        ),
{
    let counts = PermutationCounts::from_data(data);
    proof {
        lemma_counts_value_bound(counts@);
        if data@.len() > 0 {
            lemma_factorial_monotonic((data@.len() - 1) as nat, data@.len());
        }
    }
    let code = counts.encode();
    Encoded::try_from(code)
}

/// Decodes the code of an order into the entries of `data` in that order.
/// `data` holds the entries in any order. A `permutation` that cannot be
/// read as a `usize` is the conversion's error.
pub fn decode_permutation<'a, T: Ord + Clone, ToDecode: TryInto<usize>>(
    permutation: ToDecode,
    data: &'a [T],
) -> (r: Result<Vec<T>, ToDecode::Error>)
    requires
        data@.len() > 0 ==> factorial((data@.len() - 1) as nat) <= usize::MAX,
        ToDecode::obeys_try_into_spec(),
        permutation.try_into_spec() matches Ok(code) ==> code < factorial(data@.len()),
    ensures
        match permutation.try_into_spec() {
            Ok(code) => r matches Ok(out) && out@.len() == data@.len() && holds_entries_of(
                out@,
                data@,
            ) && (orderable(data@) ==> {
                &&& same_entries(permutation_of_code(code as nat, data@), data@)
                &&& lehmer_code(permutation_of_code(code as nat, data@)) == code
                &&& clones_of(permutation_of_code(code as nat, data@), out@)
            }),
            Err(e) => r matches Err(err) && err == e,
        },
{
    match permutation.try_into() {
        Ok(code) => {
            let counts = PermutationCounts::decode(code, data.len());
            proof {
                lemma_value_of_factorial_digits(code as nat, data@.len());
            }
            let out = counts.apply(data);
            proof {
                if orderable(data@) {
                    lemma_arrangement_code(
                        permutation_of_code(code as nat, data@),
                        data@,
                        code as nat,
                    );
                }
            }
            Ok(out)
        },
        Err(e) => Err(e),
    }
}

/// An order of `n` entries whose count vector is the factorial digits of a
/// code below `n!` has that code.
pub proof fn lemma_arrangement_code<T: Ord>(t: Seq<T>, data: Seq<T>, code: nat)
    requires
        code < factorial(data.len()),
        is_arrangement(t, data, factorial_digits(code, data.len())),
    ensures
        lehmer_code(t) == code,
{
    lemma_value_of_factorial_digits(code, data.len());
}

/// Decoding the code of an order of distinct entries, against those entries
/// in any order, gives that order back.
pub proof fn lemma_permutation_round_trip<T: Ord>(p: Seq<T>, data: Seq<T>)
    requires
        strict_order::<T>(),
        distinct(p),
        same_entries(p, data),
    ensures
        permutation_of_code(lehmer_code(p), data) == p,
{
    broadcast use group_multiset_axioms;

    p.to_multiset_ensures();
    data.to_multiset_ensures();
    lemma_count_vector_in_range(p);
    lemma_factorial_digits_of_value(count_vector(p));
    let counts = factorial_digits(lehmer_code(p), data.len());
    assert(counts == count_vector(p));
    assert(is_arrangement(p, data, counts));
    let t = arrangement(data, counts);
    assert(is_arrangement(t, data, counts));
    lemma_arrangement_unique(p, t);
}

} // verus!
