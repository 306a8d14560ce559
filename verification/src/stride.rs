//! Stride scheduling: each task owns a stride that grows, on every step, by
//! a pass inversely proportional to its priority.
use vstd::prelude::*;

verus! {

/// The pass a task of priority 1 adds to its stride on each step.
pub const BIG_STRIDE: usize = usize::MAX / 10000;

/// The pass a task of priority `prio` adds to its stride on each step.
pub open spec fn pass(prio: nat) -> nat
    recommends
        prio > 0,
{
    BIG_STRIDE as nat / prio
}

/// A task's accumulated stride.
#[derive(Clone, Copy)]
pub struct Stride(usize);

impl Stride {
    pub closed spec fn view(&self) -> nat {
        self.0 as nat
    }

    /// A stride starting at `value`.
    pub fn new(value: usize) -> (s: Stride)
        ensures
            s@ == value,
    {
        Stride(value)
    }

    /// The accumulated stride.
    pub fn value(&self) -> (v: usize)
        ensures
            v == self@,
    {
        self.0
    }

    /// Advance the stride by one step of a task of priority `prio`.
    pub fn step(&mut self, prio: usize)
        requires
            prio > 0,
            old(self)@ + pass(prio as nat) <= usize::MAX,
        ensures
            final(self)@ == old(self)@ + pass(prio as nat),
    {
        let pass = BIG_STRIDE / prio;
        self.0 = self.0 + pass;
    }
}

impl Default for Stride {
    fn default() -> (s: Stride)
        ensures
            s@ == 0,
    {
        Stride(0)
    }
}

/// A task of higher priority value moves by a smaller (or equal) pass.
pub proof fn lemma_pass_antitone(p1: nat, p2: nat)
    requires
        0 < p1 <= p2,
    ensures
        pass(p2) <= pass(p1),
{
    assert(BIG_STRIDE as nat / p2 <= BIG_STRIDE as nat / p1) by (nonlinear_arith)
        requires
            0 < p1 <= p2,
    ;
}

/// The pass of priority `prio` is `BIG_STRIDE / prio` rounded down: `prio`
/// passes never exceed `BIG_STRIDE`, and one more pass would.
pub proof fn lemma_pass_bounds(prio: nat)
    requires
        prio > 0,
    ensures
        pass(prio) * prio <= BIG_STRIDE,
        BIG_STRIDE < (pass(prio) + 1) * prio,
        prio <= BIG_STRIDE ==> pass(prio) > 0,
{
    let b = BIG_STRIDE as nat;
    assert(b / prio * prio <= b && b < (b / prio + 1) * prio) by (nonlinear_arith)
        requires
            prio > 0,
    ;
    if prio <= b {
        assert(b / prio >= 1) by (nonlinear_arith)
            requires
                0 < prio <= b,
        ;
    }
}

} // verus!
