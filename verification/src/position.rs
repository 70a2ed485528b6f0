//! Position coding: which places of a sequence hold the marked elements,
//! as a number in the combinatorial number system.

use crate::arith::binomial;
use crate::arith::binomial_of;
use vstd::prelude::*;
use vstd::std_specs::convert::TryFromSpec;
use vstd::std_specs::convert::TryIntoSpec;

verus! {

/// How many entries of `flags` are set.
pub open spec fn count_true(flags: Seq<bool>) -> nat
    decreases flags.len(),
{
    if flags.len() == 0 {
        0
    } else {
        count_true(flags.drop_last()) + if flags.last() {
            1nat
        } else {
            0nat
        }
    }
}

/// The code of a marking. Every unmarked place `i` that has `k >= 1` marked
/// places to its left contributes `C(i, k - 1)`; all other places contribute
/// nothing.
pub open spec fn position_code(flags: Seq<bool>) -> nat
    decreases flags.len(),
{
    if flags.len() == 0 {
        0
    } else {
        let rest = flags.drop_last();
        let k = count_true(rest);
        position_code(rest) + if !flags.last() && k > 0 {
            binomial((flags.len() - 1) as nat, (k - 1) as nat)
        } else {
            0nat
        }
    }
}

/// The marking of `len` places that the greedy scan from the highest place
/// down reads out of `code` when `marked` marks are still to be placed: a
/// place is marked when the code is below the place's cutoff
/// `C(len - 1, marked - 1)`, and otherwise the cutoff is taken off the code.
pub open spec fn position_flags(code: nat, marked: nat, len: nat) -> Seq<bool>
    decreases len,
{
    if len == 0 {
        Seq::empty()
    } else {
        let cutoff = if marked > 0 {
            binomial((len - 1) as nat, (marked - 1) as nat)
        } else {
            0nat
        };
        if code < cutoff {
            position_flags(code, (marked - 1) as nat, (len - 1) as nat).push(true)
        } else {
            position_flags((code - cutoff) as nat, marked, (len - 1) as nat).push(false)
        }
    }
}

/// `flags` is a possible outcome of asking `is_interesting` about each
/// element of `data` in turn.
pub open spec fn tagging<T, F: Fn(&T) -> bool>(data: Seq<T>, is_interesting: &F, flags: Seq<bool>) -> bool {
    &&& flags.len() == data.len()
    &&& forall|i: int|
        0 <= i < data.len() ==> call_ensures(is_interesting, (&data[i],), #[trigger] flags[i])
}

/// A marking has no more marks than places.
pub proof fn lemma_count_true_bound(flags: Seq<bool>)
    ensures
        count_true(flags) <= flags.len(),
    decreases flags.len(),
{
    if flags.len() > 0 {
        lemma_count_true_bound(flags.drop_last());
    }
}

/// The code of a marking of `n` places with `k` marks is below `C(n, k)`.
pub proof fn lemma_position_code_bound(flags: Seq<bool>)
    ensures
        position_code(flags) < binomial(flags.len(), count_true(flags)),
    decreases flags.len(),
{
    if flags.len() > 0 {
        let rest = flags.drop_last();
        let k = count_true(rest);
        lemma_position_code_bound(rest);
        if flags.last() {
            assert(binomial(flags.len(), k + 1) == binomial(rest.len(), k) + binomial(
                rest.len(),
                k + 1,
            ));
        } else if k > 0 {
            assert(binomial(flags.len(), k) == binomial(rest.len(), (k - 1) as nat) + binomial(
                rest.len(),
                k,
            ));
        } else {
            assert(binomial(flags.len(), 0) == 1);
        }
    }
}

/// The code of a prefix never exceeds the code of the whole marking.
pub proof fn lemma_position_code_prefix(flags: Seq<bool>, i: int)
    requires
        0 <= i <= flags.len(),
    ensures
        position_code(flags.take(i)) <= position_code(flags),
    decreases flags.len(),
{
    if i == flags.len() {
        assert(flags.take(i) =~= flags);
    } else {
        lemma_position_code_prefix(flags.drop_last(), i);
        assert(flags.drop_last().take(i) =~= flags.take(i));
    }
}

/// Decoding the code of a marking, given its number of marks and its
/// length, gives the marking back.
pub proof fn lemma_position_round_trip(flags: Seq<bool>)
    ensures
        position_flags(position_code(flags), count_true(flags), flags.len()) == flags,
    decreases flags.len(),
{
    if flags.len() > 0 {
        let rest = flags.drop_last();
        let k = count_true(rest);
        lemma_position_round_trip(rest);
        lemma_position_code_bound(rest);
        assert(rest.push(flags.last()) =~= flags);
    } else {
        assert(flags =~= Seq::<bool>::empty());
    }
}

/// Encodes a marking given as booleans.
pub fn encode_flags(flags: &[bool]) -> (code: usize)
    requires
        binomial(flags@.len(), count_true(flags@)) <= usize::MAX,
    ensures
        code == position_code(flags@),
        code < binomial(flags@.len(), count_true(flags@)),
{
    let mut code: usize = 0;
    let mut seen: usize = 0;
    let mut i: usize = 0;
    proof {
        lemma_position_code_bound(flags@);
        assert(flags@.take(0) =~= Seq::<bool>::empty());
    }
    while i < flags.len()
        invariant
            i <= flags@.len(),
            seen == count_true(flags@.take(i as int)),
            code == position_code(flags@.take(i as int)),
            position_code(flags@) <= usize::MAX,
        decreases flags@.len() - i,
    {
        proof {
            lemma_position_code_prefix(flags@, i + 1);
            lemma_count_true_bound(flags@.take(i + 1));
            assert(flags@.take(i + 1).drop_last() =~= flags@.take(i as int));
        }
        if flags[i] {
            seen += 1;
        } else if seen > 0 {
            code += binomial_of(i, seen - 1);
        }
        i += 1;
    }
    proof {
        assert(flags@.take(i as int) =~= flags@);
    }
    code
}

/// Decodes a position code into a marking of `len` places.
pub fn decode_flags(code: usize, num_interesting: usize, len: usize) -> (flags: Vec<bool>)
    requires
        forall|i: nat, j: nat|
            i < len && j < num_interesting ==> #[trigger] binomial(i, j) <= usize::MAX,
    ensures
        flags@ == position_flags(code as nat, num_interesting as nat, len as nat),
        flags@.len() == len,
{
    let mut flags: Vec<bool> = Vec::new();
    let mut n: usize = 0;
    while n < len
        invariant
            n <= len,
            flags@.len() == n,
        decreases len - n,
    {
        flags.push(false);
        n += 1;
    }
    let mut rest: usize = code;
    let mut left: usize = num_interesting;
    while n > 0
        invariant
            n <= len,
            left <= num_interesting,
            flags@.len() == len,
            forall|i: nat, j: nat|
                i < len && j < num_interesting ==> #[trigger] binomial(i, j) <= usize::MAX,
            position_flags(code as nat, num_interesting as nat, len as nat) =~= position_flags(
                rest as nat,
                left as nat,
                n as nat,
            ) + flags@.subrange(n as int, len as int),
        decreases n,
    {
        let index: usize = n - 1;
        let cutoff: usize = if left > 0 {
            binomial_of(index, left - 1)
        } else {
            0
        };
        let ghost before = flags@;
        if rest < cutoff {
            left -= 1;
            flags.set(index, true);
        } else {
            rest -= cutoff;
            flags.set(index, false);
        }
        n = index;
        proof {
            assert(flags@.subrange(n as int, len as int) =~= seq![flags@[n as int]]
                + before.subrange(n + 1, len as int));
        }
    }
    flags
}

/// Encodes which elements of `data` are interesting, whatever their order
/// among themselves. `is_interesting` is asked once about each element, from
/// the first to the last; the code of the marking it gives is then narrowed
/// to `Encoded`, and a code that does not fit is the conversion's error.
pub fn encode_position<T: Ord, Encoded: TryFrom<usize>>(
    data: &[T],
    is_interesting: &impl Fn(&T) -> bool,
) -> (r: Result<Encoded, Encoded::Error>)
    requires
        forall|i: int| 0 <= i < data@.len() ==> call_requires(is_interesting, (&data@[i],)),
        forall|flags: Seq<bool>| #[trigger]
            tagging(data@, is_interesting, flags) ==> binomial(data@.len(), count_true(flags))
                <= usize::MAX,
    ensures
        exists|flags: Seq<bool>|
            {
                &&& #[trigger] tagging(data@, is_interesting, flags)
                &&& Encoded::obeys_try_from_spec() ==> r == Encoded::try_from_spec(
                    position_code(flags) as usize,
                )
            },
{
    let mut flags: Vec<bool> = Vec::new();
    let mut i: usize = 0;
    while i < data.len()
        invariant
            i <= data@.len(),
            flags@.len() == i,
            forall|k: int| 0 <= k < data@.len() ==> call_requires(is_interesting, (&data@[k],)),
            forall|k: int|
                0 <= k < i ==> call_ensures(is_interesting, (&data@[k],), #[trigger] flags@[k]),
        decreases data@.len() - i,
    {
        let flag = is_interesting(&data[i]);
        flags.push(flag);
        i += 1;
    }
    assert(tagging(data@, is_interesting, flags@));
    let code = encode_flags(flags.as_slice());
    Encoded::try_from(code)
}

/// Decodes a position code into a marking of `len` places, `true` where an
/// interesting element stands. A `position` that cannot be read as a `usize`
/// is the conversion's error.
pub fn decode_position<ToDecode: TryInto<usize>>(
    position: ToDecode,
    num_interesting: usize,
    len: usize,
) -> (r: Result<Vec<bool>, ToDecode::Error>)
    requires
        forall|i: nat, j: nat|
            i < len && j < num_interesting ==> #[trigger] binomial(i, j) <= usize::MAX,
    ensures
        ToDecode::obeys_try_into_spec() ==> match position.try_into_spec() {
            Ok(code) => r matches Ok(flags) && flags@ == position_flags(
                code as nat,
                num_interesting as nat,
                len as nat,
            ),
            Err(e) => r matches Err(err) && err == e,
        },
{
    match position.try_into() {
        Ok(code) => Ok(decode_flags(code, num_interesting, len)),
        Err(e) => Err(e),
    }
}

} // verus!
