//! The width of a code: every encoder computes in `usize` and narrows the
//! result to the integer type that the caller asks for.

use vstd::prelude::*;
use vstd::std_specs::convert::TryFromSpec;

verus! {

/// Narrowing to an unsigned width is checked: a code within the range of
/// the width is kept as it is, and a code above it is an error, never a
/// wrapped or truncated value.
pub proof fn lemma_narrowing_is_checked(code: usize)
    ensures
        code <= u8::MAX ==> (<u8 as TryFromSpec<usize>>::try_from_spec(code) matches Ok(v) && v
            == code),
        code > u8::MAX ==> <u8 as TryFromSpec<usize>>::try_from_spec(code) is Err,
        code <= u16::MAX ==> (<u16 as TryFromSpec<usize>>::try_from_spec(code) matches Ok(v) && v
            == code),
        code > u16::MAX ==> <u16 as TryFromSpec<usize>>::try_from_spec(code) is Err,
        code <= u32::MAX ==> (<u32 as TryFromSpec<usize>>::try_from_spec(code) matches Ok(v) && v
            == code),
        code > u32::MAX ==> <u32 as TryFromSpec<usize>>::try_from_spec(code) is Err,
        <u64 as TryFromSpec<usize>>::try_from_spec(code) matches Ok(v) && v == code,
        <u8 as TryFromSpec<usize>>::obeys_try_from_spec(),
        <u16 as TryFromSpec<usize>>::obeys_try_from_spec(),
        <u32 as TryFromSpec<usize>>::obeys_try_from_spec(),
        <u64 as TryFromSpec<usize>>::obeys_try_from_spec(),
{
}

} // verus!
