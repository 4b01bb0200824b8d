//! The fixed-capacity step buffer, a `heapless::Vec<i8, 32>`, as the verified
//! code sees it.
//!
//! Verus cannot look inside a `heapless::Vec`. What the buffer holds is given
//! the name [`held`], and each method of `heapless::Vec` that the library
//! calls has a small function here whose contract is believed, not proved.

use vstd::prelude::*;

verus! {

/// How many steps a buffer takes before further ones are dropped.
pub const CAPACITY: usize = 32;

/// One jiggle cycle's displacement steps, in the order they are sent.
pub type StepBuffer = heapless::Vec<i8, CAPACITY>;

#[verifier::external_type_specification]
#[verifier::external_body]
#[verifier::reject_recursive_types(T)]
pub struct ExHeaplessVec<T, const N: usize>(heapless::Vec<T, N>);

/// The steps that a buffer holds, oldest first.
pub uninterp spec fn held(buf: heapless::Vec<i8, CAPACITY>) -> Seq<i8>;

/// The number of steps that still fit after `len` of them.
pub open spec fn room_after(len: nat) -> nat {
    if len <= CAPACITY {
        (CAPACITY - len) as nat
    } else {
        0
    }
}

/// `heapless::Vec::new`: a buffer that holds nothing.
#[verifier::external_body]
pub(crate) fn empty() -> (buf: StepBuffer)
    ensures
        held(buf) == Seq::<i8>::empty(),
{
    heapless::Vec::new()
}

/// `heapless::Vec::as_slice`: the steps held, as a slice in the same order.
/// A buffer never holds more than its capacity.
#[verifier::external_body]
pub(crate) fn as_slice(buf: &StepBuffer) -> (steps: &[i8])
    ensures
        steps@ == held(*buf),
        steps@.len() <= CAPACITY,
{
    buf.as_slice()
}

/// `heapless::Vec::is_full`: true exactly when the buffer holds `CAPACITY`
/// steps.
#[verifier::external_body]
pub(crate) fn is_full(buf: &StepBuffer) -> (full: bool)
    ensures
        full == (held(*buf).len() == CAPACITY),
{
    buf.is_full()
}

/// `heapless::Vec::push`: below capacity the step is appended and `Ok(())`
/// comes back; at capacity the buffer is left as it was and the step comes
/// back in `Err`.
#[verifier::external_body]
pub(crate) fn push(buf: &mut StepBuffer, step: i8) -> (pushed: Result<(), i8>)
    ensures
        pushed.is_ok() <==> held(*old(buf)).len() < CAPACITY,
        pushed.is_ok() ==> held(*final(buf)) == held(*old(buf)).push(step),
        pushed matches Err(back) ==> back == step && held(*final(buf)) == held(*old(buf)),
{
    buf.push(step)
}

} // verus!
