use vstd::prelude::*;

use crate::registers::RegisterName;

verus! {

broadcast use vstd::seq_lib::group_seq_properties;

/// A finite set of registers.
#[derive(Debug)]
pub struct RegisterSet {
    registers: Vec<RegisterName>,
}

impl View for RegisterSet {
    type V = Set<RegisterName>;

    closed spec fn view(&self) -> Set<RegisterName> {
        self.registers@.to_set()
    }
}

impl RegisterSet {
    /// The set of registers is always finite.
    pub broadcast proof fn lemma_finite(s: &RegisterSet)
        ensures
            #[trigger] s@.finite(),
    {
    }

    pub fn new() -> (r: Self)
        ensures
            r@ == Set::<RegisterName>::empty(),
    {
        let r = RegisterSet { registers: Vec::new() };
        assert(r@ =~= Set::<RegisterName>::empty());
        r
    }

    /// The set of the registers listed, duplicates counted once.
    pub fn from_registers(regs: &[RegisterName]) -> (r: Self)
        ensures
            r@ == regs@.to_set(),
    {
        let mut r = RegisterSet::new();
        let mut i: usize = 0;
        while i < regs.len()
            invariant
                0 <= i <= regs.len(),
                r@ == regs@.subrange(0, i as int).to_set(),
            decreases regs.len() - i,
        {
            r.insert(regs[i]);
            assert(regs@.subrange(0, i + 1) == regs@.subrange(0, i as int).push(regs@[i as int]));
            i = i + 1;
        }
        assert(regs@.subrange(0, regs@.len() as int) == regs@);
        r
    }

    pub fn contains(&self, reg: RegisterName) -> (r: bool)
        ensures
            r == self@.contains(reg),
    {
        let mut i: usize = 0;
        while i < self.registers.len()
            invariant
                0 <= i <= self.registers.len(),
                forall|k: int| 0 <= k < i ==> self.registers@[k] != reg,
            decreases self.registers.len() - i,
        {
            if self.registers[i] == reg {
                return true;
            }
            i = i + 1;
        }
        false
    }

    pub fn insert(&mut self, reg: RegisterName)
        ensures
            final(self)@ == old(self)@.insert(reg),
    {
        if !self.contains(reg) {
            self.registers.push(reg);
        }
        assert(self@ =~= old(self)@.insert(reg));
    }

    /// The registers in either set.
    pub fn union(&self, other: &RegisterSet) -> (r: Self)
        ensures
            r@ == self@.union(other@),
    {
        let mut r = RegisterSet { registers: self.registers.clone() };
        assert(r.registers@ =~= self.registers@);
        let mut i: usize = 0;
        while i < other.registers.len()
            invariant
                0 <= i <= other.registers.len(),
                r@ == self@.union(other.registers@.subrange(0, i as int).to_set()),
            decreases other.registers.len() - i,
        {
            r.insert(other.registers[i]);
            assert(other.registers@.subrange(0, i + 1) == other.registers@.subrange(
                0,
                i as int,
            ).push(other.registers@[i as int]));
            assert(r@ =~= self@.union(other.registers@.subrange(0, i + 1).to_set()));
            i = i + 1;
        }
        assert(other.registers@.subrange(0, other.registers@.len() as int) == other.registers@);
        r
    }

    /// The registers of this set other than `reg`.
    pub fn without(&self, reg: RegisterName) -> (r: Self)
        ensures
            r@ == self@.remove(reg),
    {
        let mut kept: Vec<RegisterName> = Vec::new();
        let mut i: usize = 0;
        while i < self.registers.len()
            invariant
                0 <= i <= self.registers.len(),
                kept@.to_set() == self.registers@.subrange(0, i as int).to_set().remove(reg),
            decreases self.registers.len() - i,
        {
            let x = self.registers[i];
            assert(self.registers@.subrange(0, i + 1) == self.registers@.subrange(
                0,
                i as int,
            ).push(x));
            assert(self.registers@.subrange(0, i + 1).to_set() =~= self.registers@.subrange(
                0,
                i as int,
            ).to_set().insert(x));
            let ghost prev = kept@;
            if x != reg {
                kept.push(x);
                assert(kept@.to_set() =~= prev.to_set().insert(x));
            }
            assert(kept@.to_set() =~= self.registers@.subrange(0, i + 1).to_set().remove(reg));
            i = i + 1;
        }
        assert(self.registers@.subrange(0, self.registers@.len() as int) == self.registers@);
        RegisterSet { registers: kept }
    }

    /// Whether every register of this set is in `other`.
    pub fn is_subset_of(&self, other: &RegisterSet) -> (r: bool)
        ensures
            r == self@.subset_of(other@),
    {
        let mut i: usize = 0;
        while i < self.registers.len()
            invariant
                0 <= i <= self.registers.len(),
                forall|k: int| 0 <= k < i ==> other@.contains(#[trigger] self.registers@[k]),
            decreases self.registers.len() - i,
        {
            if !other.contains(self.registers[i]) {
                return false;
            }
            i = i + 1;
        }
        true
    }
}

impl PartialEq for RegisterSet {
    /// Set equality: the same registers, in whatever order they were added.
    fn eq(&self, other: &RegisterSet) -> (r: bool) {
        let r = self.is_subset_of(other) && other.is_subset_of(self);
        assert(r ==> self@ =~= other@);
        r
    }
}

impl vstd::std_specs::cmp::PartialEqSpecImpl for RegisterSet {
    open spec fn obeys_eq_spec() -> bool {
        true
    }

    open spec fn eq_spec(&self, other: &RegisterSet) -> bool {
        self@ == other@
    }
}

impl Eq for RegisterSet {

}

} // verus!
