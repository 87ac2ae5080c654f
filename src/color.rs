//! The colour red, as a one-byte value.

use vstd::prelude::*;

verus! {

/// The colour red.
#[derive(Debug)]
pub struct Red {
    pub val: [u8; 1],
}

impl Red {
    /// Red with its byte at zero.
    pub fn default() -> (r: Self)
        ensures
            r.val@ == seq![0u8],
    {
        let r = Red { val: [0u8; 1] };
        assert(r.val@ =~= seq![0u8]);
        r
    }
}

} // verus!
