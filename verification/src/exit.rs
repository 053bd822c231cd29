//! How a process ends: with status 0 where nothing went wrong, with status 1
//! after any fault.

use crate::layout::LayoutFault;
use crate::text::DecodeFault;
use vstd::prelude::*;

verus! {

/// The status of a process that ran to its end.
pub const EXIT_SUCCESS: i32 = 0;

/// The status of a process that met a fault.
pub const EXIT_FAILURE: i32 = 1;

/// The kinds of fault. None of them can be recovered from.
#[derive(Debug, Clone, Copy, PartialEq, Eq, Structural)]
pub enum Fault {
    /// The bytes of an argument are not valid text.
    Encoding,
    /// The allocator could not serve a request.
    Allocation,
    /// Anything else that the process cannot go on after.
    Generic,
}

/// The status that a process ends with: `end` is the fault that stopped it,
/// if one did.
pub open spec fn status_of(end: Option<Fault>) -> i32 {
    if end is None {
        EXIT_SUCCESS
    } else {
        EXIT_FAILURE
    }
}

/// The kind of fault that a byte run without text counts as.
pub open spec fn kind_of(fault: DecodeFault) -> Fault {
    match fault {
        DecodeFault::InvalidText => Fault::Encoding,
        DecodeFault::Unterminated => Fault::Generic,
    }
}

/// Sorts the fault of a byte run into the kinds of fault: bytes that are no
/// text are an encoding fault, a missing NUL byte is a generic one.
pub fn classify(fault: DecodeFault) -> (kind: Fault)
    ensures
        kind == kind_of(fault),
{
    match fault {
        DecodeFault::InvalidText => Fault::Encoding,
        DecodeFault::Unterminated => Fault::Generic,
    }
}

/// Sorts the fault of a stack image into the kinds of fault: an image that
/// cannot be read is neither bad text nor a failed allocation.
pub fn classify_layout(fault: LayoutFault) -> (kind: Fault)
    ensures
        kind == Fault::Generic,
{
    Fault::Generic
}

/// The status to end the process with: 0 where no fault stopped it, 1 where
/// one did, whatever its kind.
pub fn exit_code(end: Option<Fault>) -> (code: i32)
    ensures
        code == status_of(end),
        end is None <==> code == 0,
        end is Some <==> code == 1,
{
    match end {
        None => EXIT_SUCCESS,
        Some(_) => EXIT_FAILURE,
    }
}

} // verus!
