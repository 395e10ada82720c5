//! Data-independent selection and comparison, delegated to the `subtle`
//! crate. Nothing in this file is proved: each contract restates what
//! `subtle` documents of the function that the body calls.
use subtle::Choice;
use subtle::ConditionallySelectable;
use subtle::ConstantTimeEq;
use vstd::prelude::*;

verus! {

/// `<u64 as subtle::ConditionallySelectable>::conditional_select`:
/// returns `a` for a clear choice and `b` for a set one, by masking
/// rather than branching.
#[verifier::external_body]
pub(crate) fn select_u64(a: u64, b: u64, choice: bool) -> (r: u64)
    ensures
        r == if choice { b } else { a },
{
    u64::conditional_select(&a, &b, Choice::from(choice as u8))
}

/// `<u32 as subtle::ConditionallySelectable>::conditional_select`:
/// returns `a` for a clear choice and `b` for a set one, by masking
/// rather than branching.
#[verifier::external_body]
pub(crate) fn select_u32(a: u32, b: u32, choice: bool) -> (r: u32)
    ensures
        r == if choice { b } else { a },
{
    u32::conditional_select(&a, &b, Choice::from(choice as u8))
}

/// `<[u8] as subtle::ConstantTimeEq>::ct_eq` on the two arrays seen as
/// slices: true exactly when they hold the same bytes, decided in time
/// that does not depend on the bytes.
#[verifier::external_body]
pub(crate) fn bytes_ct_eq(a: &[u8; 56], b: &[u8; 56]) -> (r: bool)
    ensures
        r == (a@ == b@),
{
    a[..].ct_eq(&b[..]).into()
}

/// `<[u32] as subtle::ConstantTimeEq>::ct_eq` on the two arrays seen as
/// slices: true exactly when they hold the same words, decided in time
/// that does not depend on the words.
#[verifier::external_body]
pub(crate) fn words_ct_eq(a: &[u32; 16], b: &[u32; 16]) -> (r: bool)
    ensures
        r == (a@ == b@),
{
    a[..].ct_eq(&b[..]).into()
}

/// `<subtle::Choice as core::ops::BitAnd>::bitand`: the conjunction of
/// two choices, computed on their bytes without a branch.
#[verifier::external_body]
pub(crate) fn both(a: bool, b: bool) -> (r: bool)
    ensures
        r == (a && b),
{
    (Choice::from(a as u8) & Choice::from(b as u8)).into()
}

/// `<subtle::Choice as core::ops::BitOr>::bitor`: the disjunction of two
/// choices, computed on their bytes without a branch.
#[verifier::external_body]
pub(crate) fn either(a: bool, b: bool) -> (r: bool)
    ensures
        r == (a || b),
{
    (Choice::from(a as u8) | Choice::from(b as u8)).into()
}

} // verus!
