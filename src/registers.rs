use std::collections::HashMap;
use vstd::prelude::*;

verus! {

broadcast use vstd::std_specs::hash::group_hash_axioms;

/// A register of the machine, named by a caller-chosen index.
#[derive(Clone, Copy, PartialEq, Eq, Structural, Hash, Debug)]
pub struct RegisterName(usize);

impl RegisterName {
    /// The index that names this register.
    pub closed spec fn index(self) -> usize {
        self.0
    }

    pub fn with_value(x: usize) -> (r: Self)
        ensures
            r.index() == x,
    {
        Self(x)
    }

}

/// A jump target, named by a caller-chosen index.
#[derive(Clone, Copy, PartialEq, Eq, Structural, Hash, Debug)]
pub struct LabelName(usize);

impl LabelName {
    /// The index that names this label.
    pub closed spec fn index(self) -> usize {
        self.0
    }

    pub fn with_value(x: usize) -> (r: Self)
        ensures
            r.index() == x,
    {
        Self(x)
    }

    pub fn value(self) -> (r: usize)
        ensures
            r == self.index(),
    {
        self.0
    }

    /// Two label names are equal exactly when their indices are.
    pub broadcast proof fn lemma_index_determines(a: Self, b: Self)
        ensures
            #[trigger] a.index() == #[trigger] b.index() <==> a == b,
    {
    }
}

/// The abstract state of the machine: every register holds a value (the map
/// is total), and the program counter names the next instruction.
pub struct MachineState {
    pub registers: Map<RegisterName, u64>,
    pub program_counter: nat,
}

/// The state every run starts from: all registers zero, program counter zero.
pub open spec fn initial_state() -> MachineState {
    MachineState { registers: Map::total(|r: RegisterName| 0u64), program_counter: 0 }
}

/// Register contents, stored sparsely: a register never written reads as zero.
pub struct RegisterFile {
    pub(crate) general_purpose: HashMap<usize, u64>,
    pub program_counter: usize,
}

impl RegisterFile {
    /// The value of every register.
    pub open(crate) spec fn registers(&self) -> Map<RegisterName, u64> {
        Map::total(
            |r: RegisterName|
                if self.general_purpose@.contains_key(r.index()) {
                    self.general_purpose@[r.index()]
                } else {
                    0u64
                },
        )
    }
}

impl View for RegisterFile {
    type V = MachineState;

    open(crate) spec fn view(&self) -> MachineState {
        MachineState { registers: self.registers(), program_counter: self.program_counter as nat }
    }
}

impl RegisterFile {
    pub fn new() -> (r: Self)
        ensures
            r@ == initial_state(),
    {
        let r = RegisterFile { general_purpose: HashMap::new(), program_counter: 0 };
        assert(r.registers() =~= initial_state().registers);
        r
    }

    /// Reads a register; one never written reads as zero. The file is left as it was.
    pub fn get(&mut self, reg: RegisterName) -> (r: u64)
        ensures
            r == old(self)@.registers[reg],
            *final(self) == *old(self),
    {
        match self.general_purpose.get(&reg.0) {
            Some(v) => *v,
            None => 0,
        }
    }

    /// Stores a value in a register; the program counter is unchanged.
    pub fn set(&mut self, reg: RegisterName, new_value: u64)
        ensures
            final(self)@.registers == old(self)@.registers.insert(reg, new_value),
            final(self)@.program_counter == old(self)@.program_counter,
    {
        self.general_purpose.insert(reg.0, new_value);
        assert(self.registers() =~= old(self).registers().insert(reg, new_value));
    }
}

} // verus!
