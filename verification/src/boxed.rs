//! Owned slices: sealing a growing `Vec` into the boxed slice a finished value
//! holds, and sharing a value behind an `Arc`.
use std::sync::Arc;

use vstd::prelude::*;

verus! {

/// The boxed slice whose elements are `s`.
///
/// Two boxed slices with the same elements are equal, so this names the one slice
/// [`seal`] builds from a vector holding `s`.
pub open spec fn boxed<T>(s: Seq<T>) -> Box<[T]> {
    choose|b: Box<[T]>| #[trigger] b@ == s
}

/// `Vec::into_boxed_slice`: the same elements in the same order, in a boxed slice.
#[verifier::external_body]
fn into_boxed<T>(v: Vec<T>) -> (b: Box<[T]>)
    ensures
        b@ == v@,
{
    v.into_boxed_slice()
}

/// Seal a finished vector.
pub fn seal<T>(v: Vec<T>) -> (b: Box<[T]>)
    ensures
        b@ == v@,
        b == boxed(v@),
{
    let ghost s = v@;
    let b = into_boxed(v);
    proof {
        lemma_boxed(b);
    }
    b
}

/// A boxed slice is the one [`boxed`] names for its elements.
pub proof fn lemma_boxed<T>(b: Box<[T]>)
    ensures
        b == boxed(b@),
        boxed(b@)@ == b@,
{
    let c = boxed(b@);
    assert(c@ == b@);
    assert(c =~= b);
}

/// Two boxed slices with the same elements are the same value.
pub proof fn lemma_boxed_ext<T>(a: Box<[T]>, b: Box<[T]>)
    requires
        a@ == b@,
    ensures
        a == b,
{
    assert(a =~= b);
}

/// `Arc::clone`: another handle on the same value.
#[verifier::external_body]
pub(crate) fn share<T>(a: &Arc<T>) -> (r: Arc<T>)
    ensures
        r == *a,
{
    Arc::clone(a)
}

/// A copy of a slice of plain values, sealed.
pub fn seal_copy<T: Copy>(s: &[T]) -> (b: Box<[T]>)
    ensures
        b@ == s@,
        b == boxed(s@),
{
    seal(vstd::slice::slice_to_vec(s))
}

} // verus!
