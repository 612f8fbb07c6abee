//! The generator that weights, shuffles and samples are drawn from.

use vstd::prelude::*;

verus! {

/// The state that follows a state of the generator.
pub open spec fn drawn(state: u64) -> u64 {
    let a = state ^ (state << 13);
    let b = a ^ (a >> 7);
    b ^ (b << 17)
}

/// The state after `n` steps.
pub open spec fn drawn_after(state: u64, n: nat) -> u64
    decreases n,
{
    if n == 0 {
        state
    } else {
        drawn(drawn_after(state, (n - 1) as nat))
    }
}

/// One step of the generator.
pub fn draw(state: u64) -> (r: u64)
    ensures
        r == drawn(state),
{
    let a: u64 = state ^ (state << 13);
    let b: u64 = a ^ (a >> 7);
    b ^ (b << 17)
}

/// The generator never leaves its other states for zero.
pub proof fn generator_never_dies(state: u64)
    requires
        state != 0,
    ensures
        drawn(state) != 0,
{
    let a = state ^ (state << 13);
    assert(a != 0) by (bit_vector)
        requires
            state != 0,
            a == state ^ (state << 13),
    ;
    let b = a ^ (a >> 7);
    assert(b != 0) by (bit_vector)
        requires
            a != 0,
            b == a ^ (a >> 7),
    ;
    assert(b ^ (b << 17) != 0) by (bit_vector)
        requires
            b != 0,
    ;
}

} // verus!
