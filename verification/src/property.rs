//! Property coding: one base-`B` digit per element, where the digits of a
//! whole sequence add up to a multiple of `B`. All digits but the last are
//! stored, most significant first; the last follows from the others.

use vstd::arithmetic::div_mod::lemma_add_mod_noop;
use vstd::arithmetic::div_mod::lemma_fundamental_div_mod_converse;
use vstd::arithmetic::div_mod::lemma_small_mod;
use vstd::arithmetic::power::lemma_pow0;
use vstd::arithmetic::power::pow;
use vstd::prelude::*;
use vstd::std_specs::convert::TryFromSpec;
use vstd::std_specs::convert::TryIntoSpec;
use vstd::string::StrSliceExecFns;

verus! {

/// The number that `digits` writes in base `base`, most significant digit
/// first.
pub open spec fn digits_value(digits: Seq<u8>, base: nat) -> nat
    decreases digits.len(),
{
    if digits.len() == 0 {
        0
    } else {
        digits_value(digits.drop_last(), base) * base + digits.last() as nat
    }
}

/// The sum of the digits.
pub open spec fn digit_sum(digits: Seq<u8>) -> nat
    decreases digits.len(),
{
    if digits.len() == 0 {
        0
    } else {
        digit_sum(digits.drop_last()) + digits.last() as nat
    }
}

/// Every digit is below the base.
pub open spec fn digits_in_base(digits: Seq<u8>, base: nat) -> bool {
    forall|i: int| 0 <= i < digits.len() ==> (#[trigger] digits[i] as nat) < base
}

/// The digit that brings the sum of `stored` up to a multiple of `base`.
pub open spec fn parity_digit(stored: Seq<u8>, base: nat) -> nat {
    ((base - digit_sum(stored) % base) % (base as int)) as nat
}

/// The `width` least significant base-`base` digits of `code`, most
/// significant first.
pub open spec fn fixed_digits(code: nat, base: nat, width: nat) -> Seq<u8>
    recommends
        1 <= base <= 256,
    decreases width,
{
    if width == 0 {
        Seq::empty()
    } else {
        fixed_digits(code / base, base, (width - 1) as nat).push((code % base) as u8)
    }
}

/// The `len` digits that a property code stands for: the `len - 1` stored
/// digits, then the digit that parity gives.
pub open spec fn property_digits(code: nat, base: nat, len: nat) -> Seq<u8> {
    let stored = fixed_digits(code, base, (len - 1) as nat);
    stored.push(parity_digit(stored, base) as u8)
}

/// `value` in positional notation in base `base`, most significant digit
/// first, with no leading zero; zero is the single digit 0.
pub open spec fn radix_digits(value: nat, base: nat) -> Seq<u8>
    recommends
        2 <= base <= 256,
    decreases value,
    when base >= 2
{
    if value < base {
        seq![value as u8]
    } else {
        proof {
            assert(value / base < value) by (nonlinear_arith)
                requires
                    value >= base,
                    base >= 2,
            ;
        }
        radix_digits(value / base, base).push((value % base) as u8)
    }
}

/// The character that writes the digit `d`: `0` to `9`, then `a` to `z`.
pub open spec fn digit_char(d: u8) -> char {
    if d < 10 {
        (48 + d) as char
    } else {
        (87 + d) as char
    }
}

/// The digit that the character `c` writes.
pub open spec fn char_digit(c: char) -> u8 {
    if (c as u32) < 58 {
        (c as u32 - 48) as u8
    } else {
        (c as u32 - 87) as u8
    }
}

/// `value` written out in base `base` with the characters of `digit_char`.
pub open spec fn radix_text(value: nat, base: nat) -> Seq<char> {
    radix_digits(value, base).map_values(|d: u8| digit_char(d))
}

/// `digits` is a possible outcome of asking `property_mapping` about each
/// element of `data` but the last, in turn.
pub open spec fn labeling<T, F: Fn(&T) -> u8>(
    data: Seq<T>,
    property_mapping: &F,
    digits: Seq<u8>,
) -> bool {
    &&& digits.len() == data.len() - 1
    &&& forall|i: int|
        0 <= i < data.len() - 1 ==> call_ensures(
            property_mapping,
            (&data[i],),
            #[trigger] digits[i],
        )
}

/// A number written with `n` digits in base `base` is below `base^n`.
pub proof fn lemma_digits_value_bound(digits: Seq<u8>, base: nat)
    requires
        digits_in_base(digits, base),
    ensures
        digits_value(digits, base) < pow(base as int, digits.len()),
    decreases digits.len(),
{
    if digits.len() == 0 {
        lemma_pow0(base as int);
    } else {
        let rest = digits.drop_last();
        lemma_digits_value_bound(rest, base);
        let v = digits_value(rest, base) as int;
        let p = pow(base as int, rest.len());
        let d = digits.last() as int;
        let b = base as int;
        assert(pow(b, digits.len()) == b * p) by {
            reveal(pow);
        }
        assert(v * b + d < b * p) by (nonlinear_arith)
            requires
                0 <= v < p,
                0 <= d < b,
        ;
    }
}

/// The value of a prefix never exceeds the value of the whole.
pub proof fn lemma_digits_value_prefix(digits: Seq<u8>, base: nat, i: int)
    requires
        0 <= i <= digits.len(),
        base >= 1,
    ensures
        digits_value(digits.take(i), base) <= digits_value(digits, base),
    decreases digits.len(),
{
    if i == digits.len() {
        assert(digits.take(i) =~= digits);
    } else {
        lemma_digits_value_prefix(digits.drop_last(), base, i);
        assert(digits.drop_last().take(i) =~= digits.take(i));
        let v = digits_value(digits.drop_last(), base);
        assert(v * base >= v) by (nonlinear_arith)
            requires
                base >= 1,
        ;
    }
}

/// Reading back as many digits as were written gives the digits written.
pub proof fn lemma_fixed_digits_of_value(digits: Seq<u8>, base: nat)
    requires
        digits_in_base(digits, base),
    ensures
        fixed_digits(digits_value(digits, base), base, digits.len()) == digits,
    decreases digits.len(),
{
    if digits.len() == 0 {
        assert(digits =~= Seq::<u8>::empty());
    } else {
        let rest = digits.drop_last();
        lemma_fixed_digits_of_value(rest, base);
        let v = digits_value(rest, base) as int;
        let d = digits.last() as int;
        lemma_fundamental_div_mod_converse(v * base + d, base as int, v, d);
        assert(rest.push(digits.last()) =~= digits);
    }
}

/// The fixed-width digits of a number are digits of the base.
pub proof fn lemma_fixed_digits_in_base(code: nat, base: nat, width: nat)
    requires
        1 <= base <= 256,
    ensures
        fixed_digits(code, base, width).len() == width,
        digits_in_base(fixed_digits(code, base, width), base),
    decreases width,
{
    if width > 0 {
        lemma_fixed_digits_in_base(code / base, base, (width - 1) as nat);
    }
}

/// The digits of positional notation are digits of the base, and there is
/// at least one.
pub proof fn lemma_radix_digits_in_base(value: nat, base: nat)
    requires
        2 <= base <= 256,
    ensures
        radix_digits(value, base).len() >= 1,
        digits_in_base(radix_digits(value, base), base),
    decreases value,
{
    if value >= base {
        assert(value / base < value) by (nonlinear_arith)
            requires
                value >= base,
                base >= 2,
        ;
        lemma_radix_digits_in_base(value / base, base);
    }
}

/// A number below `base^width` is written with at most `width` digits.
pub proof fn lemma_radix_digits_len(value: nat, base: nat, width: nat)
    requires
        base >= 2,
        width >= 1,
        value < pow(base as int, width),
    ensures
        radix_digits(value, base).len() <= width,
    decreases value,
{
    if value >= base {
        let b = base as int;
        let p = pow(b, (width - 1) as nat);
        assert(pow(b, width) == b * p) by {
            reveal(pow);
        }
        if width == 1 {
            lemma_pow0(b);
        }
        assert(value / base < p && value / base < value) by (nonlinear_arith)
            requires
                value < b * p,
                value >= b,
                b == base,
                b >= 2,
        ;
        lemma_radix_digits_len(value / base, base, (width - 1) as nat);
    }
}

/// Fixed-width digits are positional notation padded with zeros on the
/// left.
pub proof fn lemma_fixed_digits_pad(value: nat, base: nat, width: nat)
    requires
        base >= 2,
        radix_digits(value, base).len() <= width,
    ensures
        fixed_digits(value, base, width) == Seq::new(
            (width - radix_digits(value, base).len()) as nat,
            |i: int| 0u8,
        ) + radix_digits(value, base),
    decreases width,
{
    let digits = radix_digits(value, base);
    let pad = Seq::new((width - digits.len()) as nat, |i: int| 0u8);
    if value < base {
        if width > 0 {
            lemma_small_mod(value, base);
            assert(value / base == 0) by (nonlinear_arith)
                requires
                    value < base,
            ;
            lemma_fixed_digits_zero(base, (width - 1) as nat);
            assert(fixed_digits(value, base, width) =~= pad + digits);
        }
    } else {
        assert(value / base < value) by (nonlinear_arith)
            requires
                value >= base,
                base >= 2,
        ;
        lemma_fixed_digits_pad(value / base, base, (width - 1) as nat);
        assert(fixed_digits(value, base, width) =~= pad + digits);
    }
}

/// The digits of zero are zeros.
pub proof fn lemma_fixed_digits_zero(base: nat, width: nat)
    requires
        base >= 2,
    ensures
        fixed_digits(0, base, width) == Seq::new(width, |i: int| 0u8),
    decreases width,
{
    if width > 0 {
        lemma_fixed_digits_zero(base, (width - 1) as nat);
        assert(0nat / base == 0) by (nonlinear_arith)
            requires
                base >= 2,
        ;
        assert(0nat % base == 0) by (nonlinear_arith)
            requires
                base >= 2,
        ;
        assert(fixed_digits(0, base, width) =~= Seq::new(width, |i: int| 0u8));
    } else {
        assert(fixed_digits(0, base, width) =~= Seq::new(width, |i: int| 0u8));
    }
}

/// Digits that add up to a multiple of the base are found again from their
/// code: the stored digits are read back, and parity gives the last.
pub proof fn lemma_property_round_trip(digits: Seq<u8>, base: nat)
    requires
        digits.len() >= 1,
        2 <= base <= 256,
        digits_in_base(digits, base),
        digit_sum(digits) % base == 0,
    ensures
        property_digits(digits_value(digits.drop_last(), base), base, digits.len()) == digits,
{
    let stored = digits.drop_last();
    lemma_fixed_digits_of_value(stored, base);
    let s = digit_sum(stored) as int;
    let d = digits.last() as int;
    let b = base as int;
    lemma_add_mod_noop(s, d, b);
    lemma_small_mod(d as nat, base);
    assert((b - s % b) % b == d) by {
        if s % b == 0 {
            assert((0 + d) % b == 0);
            assert(b % b == 0) by (nonlinear_arith)
                requires
                    b >= 2,
            ;
        } else {
            assert(0 < s % b + d < 2 * b);
            assert(s % b + d == b) by (nonlinear_arith)
                requires
                    0 < s % b + d < 2 * b,
                    (s % b + d) % b == 0,
                    b >= 2,
            ;
            lemma_small_mod((b - s % b) as nat, base);
        }
    }
    assert(stored.push(digits.last()) =~= digits);
}

/// Calls `radix_fmt::radix` and formats what it returns with `{}`. The
/// crate writes the number in positional notation in the given base, most
/// significant digit first, with the digits `0` to `9` and then `a` to `z`,
/// and zero as `0`; it panics when the base is not between 2 and 36.
#[verifier::external_body]
pub(crate) fn render_radix(value: usize, base: u8) -> (text: String)
    requires
        2 <= base <= 36,
    ensures
        text@ == radix_text(value as nat, base as nat),
{
    format!("{}", radix_fmt::radix(value, base))
}

/// Reads one character of a rendered number as a digit.
pub fn digit_of_char(c: char) -> (d: u8)
    requires
        (48 <= (c as u32) && (c as u32) < 58) || (97 <= (c as u32) && (c as u32) < 123),
    ensures
        d == char_digit(c),
{
    let v: u32 = c as u32;
    if v < 58 {
        (v - 48) as u8
    } else {
        (v - 87) as u8
    }
}

/// Encodes stored digits: the number they write in base `base`.
pub fn encode_digits(stored: &[u8], base: u8) -> (code: usize)
    requires
        base >= 1,
        digits_value(stored@, base as nat) <= usize::MAX,
    ensures
        code == digits_value(stored@, base as nat),
{
    let mut code: usize = 0;
    let mut i: usize = 0;
    proof {
        assert(stored@.take(0) =~= Seq::<u8>::empty());
    }
    while i < stored.len()
        invariant
            i <= stored@.len(),
            base >= 1,
            code == digits_value(stored@.take(i as int), base as nat),
            digits_value(stored@, base as nat) <= usize::MAX,
        decreases stored@.len() - i,
    {
        proof {
            lemma_digits_value_prefix(stored@, base as nat, i + 1);
            assert(stored@.take(i + 1).drop_last() =~= stored@.take(i as int));
        }
        code = code * (base as usize) + (stored[i] as usize);
        i += 1;
    }
    proof {
        assert(stored@.take(i as int) =~= stored@);
    }
    code
}

/// Decodes a property code into `len` digits: the `len - 1` stored digits,
/// padded with zeros on the left, then the digit that parity gives.
pub fn decode_digits(code: usize, base: u8, len: usize) -> (digits: Vec<u8>)
    requires
        2 <= base <= 36,
        len >= 2,
        code < pow(base as int, (len - 1) as nat),
    ensures
        digits@ == property_digits(code as nat, base as nat, len as nat),
        digits@.len() == len,
        digits_in_base(digits@, base as nat),
{
    let text = render_radix(code, base);
    let written = text.as_str().unicode_len();
    let ghost rendered = radix_digits(code as nat, base as nat);
    proof {
        lemma_radix_digits_len(code as nat, base as nat, (len - 1) as nat);
        lemma_radix_digits_in_base(code as nat, base as nat);
        lemma_fixed_digits_pad(code as nat, base as nat, (len - 1) as nat);
        lemma_fixed_digits_in_base(code as nat, base as nat, (len - 1) as nat);
    }
    let pad: usize = len - 1 - written;
    let mut digits: Vec<u8> = Vec::new();
    let mut i: usize = 0;
    while i < pad
        invariant
            i <= pad,
            digits@ == Seq::new(i as nat, |k: int| 0u8),
            digit_sum(digits@) == 0,
        decreases pad - i,
    {
        digits.push(0);
        i += 1;
        proof {
            assert(digits@.drop_last() =~= Seq::new((i - 1) as nat, |k: int| 0u8));
            assert(digits@ =~= Seq::new(i as nat, |k: int| 0u8));
        }
    }
    let mut sum: u8 = 0;
    let mut j: usize = 0;
    while j < written
        invariant
            j <= written,
            2 <= base <= 36,
            written == rendered.len(),
            pad + written == len - 1,
            text@ == rendered.map_values(|d: u8| digit_char(d)),
            digits_in_base(rendered, base as nat),
            digits@ == Seq::new(pad as nat, |k: int| 0u8) + rendered.take(j as int),
            sum < base,
            sum == digit_sum(digits@) % (base as nat),
        decreases written - j,
    {
        let c = text.as_str().get_char(j);
        proof {
            assert(c == digit_char(rendered[j as int]));
            assert((rendered[j as int] as nat) < base);
        }
        let d = digit_of_char(c);
        assert(d == rendered[j as int]);
        let ghost before = digits@;
        digits.push(d);
        proof {
            assert(digits@.drop_last() =~= before);
            lemma_add_mod_noop(digit_sum(before) as int, d as int, base as int);
            lemma_small_mod(d as nat, base as nat);
            assert(rendered.take(j + 1) =~= rendered.take(j as int).push(d));
        }
        sum = (sum + d) % base;
        j += 1;
    }
    proof {
        assert(rendered.take(j as int) =~= rendered);
    }
    let last: u8 = (base - sum) % base;
    digits.push(last);
    digits
}

/// Encodes the property of each element of `data` but the last as one
/// number. `property_mapping` is asked once about each of those elements,
/// from the first on; the number its digits write in base `base` is then
/// narrowed to `Encoded`, and a number that does not fit is the conversion's
/// error. The last element's digit is left out: for digits that add up to a
/// multiple of `base` it follows from the others, and nothing here checks
/// that they do.
pub fn encode_property<T: Ord, Encoded: TryFrom<usize>>(
    data: &[T],
    property_mapping: &impl Fn(&T) -> u8,
    base: u8,
) -> (r: Result<Encoded, Encoded::Error>)
    requires
        data@.len() >= 2,
        2 <= base <= 36,
        forall|i: int| 0 <= i < data@.len() - 1 ==> call_requires(property_mapping, (&data@[i],)),
        forall|digits: Seq<u8>| #[trigger]
            labeling(data@, property_mapping, digits) ==> digits_in_base(digits, base as nat)
                && digits_value(digits, base as nat) <= usize::MAX,
    ensures
        exists|digits: Seq<u8>|
            {
                &&& #[trigger] labeling(data@, property_mapping, digits)
                &&& Encoded::obeys_try_from_spec() ==> r == Encoded::try_from_spec(
                    digits_value(digits, base as nat) as usize,
                )
            },
{
    let stored_len: usize = data.len() - 1;
    let mut stored: Vec<u8> = Vec::new();
    let mut i: usize = 0;
    while i < stored_len
        invariant
            i <= stored_len,
            stored_len == data@.len() - 1,
            stored@.len() == i,
            forall|k: int|
                0 <= k < data@.len() - 1 ==> call_requires(property_mapping, (&data@[k],)),
            forall|k: int|
                0 <= k < i ==> call_ensures(property_mapping, (&data@[k],), #[trigger] stored@[k]),
        decreases stored_len - i,
    {
        let digit = property_mapping(&data[i]);
        stored.push(digit);
        i += 1;
    }
    assert(labeling(data@, property_mapping, stored@));
    let code = encode_digits(stored.as_slice(), base);
    Encoded::try_from(code)
}

/// Decodes a property code into the `len` digits it stands for. A
/// `property` that cannot be read as a `usize` is the conversion's error.
pub fn decode_property<ToDecode: TryInto<usize>>(property: ToDecode, base: u8, len: usize) -> (r:
    Result<Vec<u8>, ToDecode::Error>)
    requires
        2 <= base <= 36,
        len >= 2,
        ToDecode::obeys_try_into_spec(),
        property.try_into_spec() matches Ok(code) ==> code < pow(base as int, (len - 1) as nat),
    ensures
        match property.try_into_spec() {
            Ok(code) => r matches Ok(digits) && digits@ == property_digits(
                code as nat,
                base as nat,
                len as nat,
            ),
            Err(e) => r matches Err(err) && err == e,
        },
{
    match property.try_into() {
        Ok(code) => Ok(decode_digits(code, base, len)),
        Err(e) => Err(e),
    }
}

} // verus!
