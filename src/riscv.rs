//! Saved general-purpose state of a RISC-V hart.
use vstd::prelude::*;

verus! {

#[derive(Clone, Copy, Debug, PartialEq, Eq, Structural)]
pub struct RegisterState {
    pub ra: usize,
    pub a0: isize,
    pub a1: isize,
    pub a2: usize,
    pub a3: usize,
    pub a4: usize,
    pub a5: usize,
    pub a6: usize,
    pub a7: usize,
    pub t0: usize,
    pub t1: usize,
    pub t2: usize,
    pub t3: usize,
    pub t4: usize,
    pub t5: usize,
    pub t6: usize,
    pub zero: usize,
    pub gp: usize,
    pub tp: usize,
    pub s0: usize,
    pub s1: usize,
    pub s2: usize,
    pub s3: usize,
    pub s4: usize,
    pub s5: usize,
    pub s6: usize,
    pub s7: usize,
    pub s8: usize,
    pub s9: usize,
    pub s10: usize,
    pub s11: usize,
    pub mepc: usize,
    pub mstatus: usize,
}

impl RegisterState {
    /// Every register cleared.
    pub open spec fn is_cleared(&self) -> bool {
        &&& self.ra == 0 && self.a0 == 0 && self.a1 == 0 && self.a2 == 0 && self.a3 == 0
        &&& self.a4 == 0 && self.a5 == 0 && self.a6 == 0 && self.a7 == 0
        &&& self.t0 == 0 && self.t1 == 0 && self.t2 == 0 && self.t3 == 0
        &&& self.t4 == 0 && self.t5 == 0 && self.t6 == 0
        &&& self.zero == 0 && self.gp == 0 && self.tp == 0
        &&& self.s0 == 0 && self.s1 == 0 && self.s2 == 0 && self.s3 == 0 && self.s4 == 0 && self.s5 == 0
        &&& self.s6 == 0 && self.s7 == 0 && self.s8 == 0 && self.s9 == 0 && self.s10 == 0 && self.s11 == 0
        &&& self.mepc == 0 && self.mstatus == 0
    }

    pub fn const_default() -> (r: RegisterState)
        ensures
            r.is_cleared(),
    {
        RegisterState {
            ra: 0,
            a0: 0,
            a1: 0,
            a2: 0,
            a3: 0,
            a4: 0,
            a5: 0,
            a6: 0,
            a7: 0,
            t0: 0,
            t1: 0,
            t2: 0,
            t3: 0,
            t4: 0,
            t5: 0,
            t6: 0,
            zero: 0,
            gp: 0,
            tp: 0,
            s0: 0,
            s1: 0,
            s2: 0,
            s3: 0,
            s4: 0,
            s5: 0,
            s6: 0,
            s7: 0,
            s8: 0,
            s9: 0,
            s10: 0,
            s11: 0,
            mepc: 0,
            mstatus: 0,
        }
    }
}

} // verus!
