//! Trusted declarations for the parts of std that vstd does not specify.

use vstd::prelude::*;
use std::sync::Mutex;

verus! {

/// `std::sync::Mutex`, carried as an opaque value.
#[verifier::external_type_specification]
#[verifier::external_body]
#[verifier::reject_recursive_types(T)]
pub struct ExMutex<T: ?Sized>(Mutex<T>);

/// Calls `std::sync::Mutex::new(())`: a fresh, unlocked mutex guarding no data.
/// Nothing is stated of it: the value is only carried to the code that locks it.
#[verifier::external_body]
pub(crate) fn new_unit_mutex() -> Mutex<()> {
    Mutex::new(())
}

/// Calls `Vec::into_boxed_slice`, which per std's documentation keeps the
/// elements and their order.
#[verifier::external_body]
pub(crate) fn vec_into_boxed_slice<T>(v: Vec<T>) -> (b: Box<[T]>)
    ensures
        b@ == v@,
{
    v.into_boxed_slice()
}

/// Calls `<Box<[T]> as AsMut<[T]>>::as_mut`: the boxed slice, borrowed for
/// change in place. The borrow starts with the box's elements, the box holds
/// afterwards what was left in the borrow, and a borrowed slice's length is
/// part of the reference, so it cannot change through the borrow. The call
/// only reborrows, so it never panics.
#[verifier::external_body]
pub(crate) fn boxed_slice_as_mut<T>(b: &mut Box<[T]>) -> (s: &mut [T])
    ensures
        s@ == old(b)@,
        final(b)@ == final(s)@,
        final(s)@.len() == s@.len(),
    no_unwind
{
    b.as_mut()
}

} // verus!
