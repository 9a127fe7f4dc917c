use vstd::prelude::*;

use crate::labels::LabelIndex;
use crate::registers::{LabelName, MachineState, RegisterFile, RegisterName};
use crate::MachineError;

verus! {

/// The instruction set of the machine.
#[derive(Clone, Copy, PartialEq, Eq, Structural, Debug)]
pub enum Instruction {
    /// Stores a constant in a register.
    LoadImmediate(RegisterName, u64),
    /// Stores `lhs - rhs`, wrapping around modulo 2^64, in `assignee`.
    Subtract { assignee: RegisterName, lhs: RegisterName, rhs: RegisterName },
    /// Jumps to the label when the register holds zero; falls through otherwise.
    JumpIfZero(RegisterName, LabelName),
    /// Marks a jump target; does nothing when executed.
    Label(LabelName),
}

impl Instruction {
    /// The registers whose values this instruction consumes.
    pub open spec fn reads(self) -> Set<RegisterName> {
        match self {
            Instruction::Subtract { lhs, rhs, .. } => set![lhs, rhs],
            Instruction::JumpIfZero(tested, _) => set![tested],
            _ => Set::empty(),
        }
    }

    /// The one register, if any, that this instruction overwrites.
    pub open spec fn writes(self) -> Option<RegisterName> {
        match self {
            Instruction::LoadImmediate(assignee, _) => Some(assignee),
            Instruction::Subtract { assignee, .. } => Some(assignee),
            _ => None,
        }
    }

    /// One step of execution from state `s`, with `labels` giving the point of
    /// each label. Fails only on a taken jump to a label that `labels` lacks.
    pub open spec fn step(self, s: MachineState, labels: Map<LabelName, nat>) -> Result<
        MachineState,
        MachineError,
    > {
        let next = s.program_counter + 1;
        match self {
            Instruction::LoadImmediate(assignee, value) => Ok(
                MachineState { registers: s.registers.insert(assignee, value), program_counter: next },
            ),
            Instruction::Subtract { assignee, lhs, rhs } => Ok(
                MachineState {
                    registers: s.registers.insert(
                        assignee,
                        s.registers[lhs].wrapping_sub(s.registers[rhs]),
                    ),
                    program_counter: next,
                },
            ),
            Instruction::JumpIfZero(tested, target) => {
                if s.registers[tested] != 0 {
                    Ok(MachineState { program_counter: next, ..s })
                } else if labels.contains_key(target) {
                    Ok(MachineState { program_counter: labels[target], ..s })
                } else {
                    Err(MachineError::UnresolvedLabel(target))
                }
            },
            Instruction::Label(_) => Ok(MachineState { program_counter: next, ..s }),
        }
    }

    /// Executes this instruction against the register file, advancing or
    /// redirecting its program counter. On failure the file is left as it was.
    pub fn run(&self, rf: &mut RegisterFile, label_indices: &LabelIndex) -> (r: Result<
        (),
        MachineError,
    >)
        requires
            old(rf)@.program_counter < usize::MAX,
        ensures
            match self.step(old(rf)@, label_indices@) {
                Ok(s) => r is Ok && final(rf)@ == s,
                Err(e) => r == Err::<(), MachineError>(e) && *final(rf) == *old(rf),
            },
    {
        match *self {
            Instruction::LoadImmediate(assignee, imm) => {
                rf.set(assignee, imm);
                rf.program_counter = rf.program_counter + 1;
            },
            Instruction::Subtract { assignee, lhs, rhs } => {
                let a = rf.get(lhs);
                let b = rf.get(rhs);
                rf.set(assignee, a.wrapping_sub(b));
                rf.program_counter = rf.program_counter + 1;
            },
            Instruction::Label(_) => {
                rf.program_counter = rf.program_counter + 1;
            },
            Instruction::JumpIfZero(tested, target) => {
                if rf.get(tested) == 0 {
                    match label_indices.get(target) {
                        Some(point) => {
                            rf.program_counter = point;
                        },
                        None => {
                            return Err(MachineError::UnresolvedLabel(target));
                        },
                    }
                } else {
                    rf.program_counter = rf.program_counter + 1;
                }
            },
        }
        Ok(())
    }
}

} // verus!
