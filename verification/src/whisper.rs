//! The whisper-chain exercise: a value is relayed through a chain of
//! stages, and each stage distorts it by an increment of one.

use vstd::prelude::*;

verus! {

/// One relay stage: pass the value on with its distortion of one.
pub fn whisper(n: usize) -> (r: usize)
    requires
        n < usize::MAX,
    ensures
        r == n + 1,
{
    n + 1
}

} // verus!
