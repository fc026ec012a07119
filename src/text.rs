use vstd::prelude::*;

verus! {

/// Relies on `Vec::shrink_to_fit`: it releases capacity and keeps the
/// elements.
#[verifier::external_body]
pub(crate) fn shrink<T>(v: &mut Vec<T>)
    ensures
        final(v)@ == old(v)@,
{
    v.shrink_to_fit()
}

} // verus!
