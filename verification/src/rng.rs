//! A small xorshift pseudo-random generator; the benchmark harness draws the
//! random test signals from it.
use vstd::prelude::*;

verus! {

/// One step of the 64-bit xorshift recurrence (shift amounts 13, 7, 17).
pub open spec fn xorshift_step(s: u64) -> u64 {
    let a = s ^ (s << 13u64);
    let b = a ^ (a >> 7u64);
    b ^ (b << 17u64)
}

/// The xorshift map is invertible, so a nonzero state never reaches zero.
pub proof fn lemma_xorshift_step_nonzero(s: u64)
    by (bit_vector)
    requires
        s != 0,
    ensures
        xorshift_step(s) != 0,
{
}

/// A 64-bit xorshift pseudo-random generator. Its one invariant: the state is
/// never zero (zero is the fixed point of the recurrence).
pub struct XorShift64 {
    state: u64,
}

impl View for XorShift64 {
    type V = u64;

    closed spec fn view(&self) -> u64 {
        self.state
    }
}

impl XorShift64 {
    /// The state is nonzero.
    pub open spec fn wf(&self) -> bool {
        self@ != 0
    }

    /// Seeds the generator; a zero seed is bumped to one, since zero would
    /// freeze the recurrence.
    pub fn new(seed: u64) -> (r: XorShift64)
        ensures
            r@ == if seed == 0 {
                1u64
            } else {
                seed
            },
            r.wf(),
    {
        XorShift64 { state: if seed == 0 { 1 } else { seed } }
    }

    /// Advances the state by one xorshift step and returns it.
    pub fn next_u64(&mut self) -> (r: u64)
        ensures
            r == xorshift_step(old(self)@),
            final(self)@ == r,
            old(self).wf() ==> final(self).wf(),
    {
        proof {
            if old(self)@ != 0 {
                lemma_xorshift_step_nonzero(old(self)@);
            }
        }
        let mut x = self.state;
        x ^= x << 13;
        x ^= x >> 7;
        x ^= x << 17;
        self.state = x;
        x
    }
}

} // verus!
