//! Failures of the device.
use vstd::prelude::*;

verus! {

/// The code with which a runtime call reports success.
pub const SUCCESS: u32 = 0;

/// A runtime call that failed, by its code, and what it was made for.
#[derive(Clone, Copy, Debug)]
pub struct Error {
    pub code: u32,
    pub context: &'static str,
}

/// `value` where a runtime call succeeded, its error otherwise.
pub fn to_result<T>(value: T, code: u32, context: &'static str) -> (r: Result<T, Error>)
    ensures
        code == 0 ==> r == Ok::<T, Error>(value),
        code != 0 ==> r == Err::<T, Error>(Error { code, context }),
{
    if code == SUCCESS {
        Ok(value)
    } else {
        Err(Error { code, context })
    }
}

} // verus!
