//! Sharing of reference-counted values.

use vstd::prelude::*;
use std::rc::Rc;

verus! {

/// The value behind a reference-counted pointer.
pub open spec fn held<T>(rc: Rc<T>) -> T {
    *rc
}

/// Makes a second pointer to the value behind `rc` with `Rc::clone`: the
/// value itself is not copied, so the result stands for the same value.
#[verifier::external_body]
pub(crate) fn share_rc<T>(rc: &Rc<T>) -> (other: Rc<T>)
    ensures
        other == *rc,
{
    Rc::clone(rc)
}

} // verus!
