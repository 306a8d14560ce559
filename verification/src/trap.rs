//! The trap context saved on entry to the kernel and restored on return to
//! user mode.
use vstd::prelude::*;

verus! {

/// Bit of `sstatus` holding the previous privilege mode (1 = supervisor).
pub const SSTATUS_SPP: usize = 0x100;

/// Bit of `sstatus` holding the previous interrupt-enable state.
pub const SSTATUS_SPIE: usize = 0x20;

/// `sstatus` for entering user mode with interrupts enabled: SPP cleared
/// (return to user mode), SPIE set, every other bit kept.
pub open spec fn user_sstatus_spec(bits: usize) -> usize {
    (bits & !SSTATUS_SPP) | SSTATUS_SPIE
}

/// The `sstatus` value a new user program starts with, from the current one.
pub fn user_sstatus(bits: usize) -> (r: usize)
    ensures
        r == user_sstatus_spec(bits),
        r & SSTATUS_SPP == 0,
        r & SSTATUS_SPIE == SSTATUS_SPIE,
        r & !(SSTATUS_SPP | SSTATUS_SPIE) == bits & !(SSTATUS_SPP | SSTATUS_SPIE),
{
    let r = (bits & !SSTATUS_SPP) | SSTATUS_SPIE;
    assert(r & 0x100 == 0 && r & 0x20 == 0x20 && r & !(0x100usize | 0x20usize) == bits & !(0x100usize | 0x20usize))
        by (bit_vector)
        requires
            r == (bits & !0x100usize) | 0x20usize,
    ;
    r
}

/// Registers saved across a trap: general-purpose registers `x0`..`x31`,
/// `sstatus` (its raw bits) and `sepc`.
#[derive(Debug, Clone, Copy)]
pub struct TrapContext {
    pub x: [usize; 32],
    pub sstatus: usize,
    pub sepc: usize,
}

impl TrapContext {
    /// Set the stack pointer (`x2`).
    pub fn set_sp(&mut self, sp: usize)
        ensures
            final(self).x@ == old(self).x@.update(2, sp),
            final(self).sstatus == old(self).sstatus,
            final(self).sepc == old(self).sepc,
    {
        self.x[2] = sp;
    }

    /// The context a new user program starts from: all registers zero but
    /// the stack pointer `sp`, `sepc` at `entry`, and `sstatus` derived
    /// from the current `sstatus` bits by `user_sstatus`.
    pub fn app_init_context(entry: usize, sp: usize, sstatus: usize) -> (cx: TrapContext)
        ensures
            cx.x@ == Seq::new(32, |i: int| 0usize).update(2, sp),
            cx.sepc == entry,
            cx.sstatus == user_sstatus_spec(sstatus),
    {
        let sstatus = user_sstatus(sstatus);
        let mut cx = TrapContext { x: [0usize; 32], sstatus, sepc: entry };
        cx.set_sp(sp);
        assert(cx.x@ =~= Seq::new(32, |i: int| 0usize).update(2, sp));
        cx
    }
}

/// Preparing `sstatus` for user mode twice is the same as once.
pub proof fn lemma_user_sstatus_idempotent(bits: usize)
    ensures
        user_sstatus_spec(user_sstatus_spec(bits)) == user_sstatus_spec(bits),
{
    assert(((((bits & !0x100usize) | 0x20usize) & !0x100usize) | 0x20usize) == ((bits & !0x100usize) | 0x20usize))
        by (bit_vector);
}

} // verus!
