//! The state that a jump out of a request handler restores.
use vstd::prelude::*;

verus! {

/// How a call of `setjmp` came to return.
#[derive(Debug, Clone, Copy, PartialEq, Eq, Structural)]
pub enum SetJmp {
    /// It was called, and has stored the state.
    Called,
    /// A jump has restored the state, and handed over this value.
    Jumped(u32),
}

impl SetJmp {
    /// Reads the value that `setjmp` returns: zero when it was called.
    pub fn from_return_value(value: u32) -> (result: SetJmp)
        ensures
            result == if value == 0 {
                SetJmp::Called
            } else {
                SetJmp::Jumped(value)
            },
    {
        if value == 0 {
            SetJmp::Called
        } else {
            SetJmp::Jumped(value)
        }
    }
}

/// The value that `setjmp` returns when `longjmp` is given `ret`. A zero is changed to one, so
/// that a jump can always be told from a call.
pub fn longjmp_value(ret: u32) -> (value: u32)
    ensures
        value == if ret == 0 {
            1
        } else {
            ret
        },
{
    if ret == 0 {
        1
    } else {
        ret
    }
}

/// Room for the registers that have to survive a call, the stack pointer and the return address.
#[derive(Debug, Clone, Copy)]
pub struct JumpBuf(pub [usize; 8]);

impl JumpBuf {
    pub fn new() -> (buffer: Self)
        ensures
            forall|i: int| 0 <= i < 8 ==> #[trigger] buffer.0@[i] == 0,
    {
        Self([0, 0, 0, 0, 0, 0, 0, 0])
    }
}

} // verus!
