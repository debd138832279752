//! Deterministic pseudo-random generator: the "multiply-with-carry"
//! generator of G. Marsaglia.  It is used only to perturb symbol
//! statistics between optimization rounds.  The state starts from
//! fixed constants (never from entropy) and the transition is pinned
//! exactly by spec functions, so the generated sequence is
//! reproducible bit for bit: which runs escape a local minimum, and
//! hence the final parse, depend on it.

use vstd::prelude::*;

verus! {

/// State of the multiply-with-carry generator: two 32-bit words.
pub struct RanState {
    m_w: u32,
    m_z: u32,
}

/// The `z` word after one advance.
pub open spec fn spec_next_z(z: u32) -> u32 {
    (36969 * (z & 0xffff) + (z >> 16)) as u32
}

/// The `w` word after one advance.
pub open spec fn spec_next_w(w: u32) -> u32 {
    (18000 * (w & 0xffff) + (w >> 16)) as u32
}

/// The 32-bit value produced by one advance from `(z, w)`.
pub open spec fn spec_ran_value(z: u32, w: u32) -> u32 {
    ((spec_next_z(z) * 0x10000 + spec_next_w(w)) % 0x1_0000_0000) as u32
}

impl RanState {
    /// The `z` word of the state.
    pub closed spec fn z(self) -> u32 {
        self.m_z
    }

    /// The `w` word of the state.
    pub closed spec fn w(self) -> u32 {
        self.m_w
    }

    /// A fresh generator state, at the fixed starting point.
    pub fn new() -> (r: RanState)
        ensures
            r.w() == 1,
            r.z() == 2,
    {
        RanState { m_w: 1, m_z: 2 }
    }
}

/// Reset a generator state to the fixed starting point.
#[allow(non_snake_case)]
pub fn InitRanState(state: &mut RanState)
    ensures
        final(state).w() == 1,
        final(state).z() == 2,
{
    state.m_w = 1;
    state.m_z = 2;
}

/// Advance the generator once and return the drawn 32-bit value.
pub fn random_marsaglia(state: &mut RanState) -> (r: u32)
    ensures
        final(state).z() == spec_next_z(old(state).z()),
        final(state).w() == spec_next_w(old(state).w()),
        r == spec_ran_value(old(state).z(), old(state).w()),
{
    proof {
        let z = old(state).z();
        let w = old(state).w();
        assert(z & 0xffff <= 0xffff && z >> 16 <= 0xffff) by (bit_vector);
        assert(w & 0xffff <= 0xffff && w >> 16 <= 0xffff) by (bit_vector);
    }
    state.m_z = 36969 * (state.m_z & 0xffff) + (state.m_z >> 16);
    state.m_w = 18000 * (state.m_w & 0xffff) + (state.m_w >> 16);
    let r64: u64 = ((state.m_z as u64) * 0x10000 + (state.m_w as u64)) % 0x1_0000_0000;
    r64 as u32
}

} // verus!
