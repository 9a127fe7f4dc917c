use register_machine::instructions::Instruction;
use register_machine::instructions::Instruction::{JumpIfZero, Label, LoadImmediate, Subtract};
use register_machine::labels::LabelIndex;
use register_machine::liveness_analysis::{
    determine_liveness, InstructionLiveness, InstructionLivenessBuilder,
};
use register_machine::register_set::RegisterSet;
use register_machine::registers::{LabelName, RegisterName};
use register_machine::MachineError;

fn reg(i: usize) -> RegisterName {
    RegisterName::with_value(i)
}

fn label(i: usize) -> LabelName {
    LabelName::with_value(i)
}

fn set(regs: &[RegisterName]) -> RegisterSet {
    RegisterSet::from_registers(regs)
}

fn live(in_live: &[RegisterName], out_live: &[RegisterName]) -> InstructionLiveness {
    InstructionLiveness { in_live: set(in_live), out_live: set(out_live) }
}

fn straight_line_program() -> Vec<Instruction> {
    vec![
        LoadImmediate(reg(1), 90),
        Subtract { assignee: reg(1), lhs: reg(1), rhs: reg(0) },
        LoadImmediate(reg(2), 100),
        Subtract { assignee: reg(1), lhs: reg(2), rhs: reg(1) },
    ]
}

fn simple_loop_program() -> Vec<Instruction> {
    vec![
        LoadImmediate(reg(1), 1),
        LoadImmediate(reg(2), 6),
        LoadImmediate(reg(3), 10),
        Label(label(0)),
        Subtract { assignee: reg(2), lhs: reg(2), rhs: reg(1) },
        Subtract { assignee: reg(3), lhs: reg(3), rhs: reg(1) },
        JumpIfZero(reg(2), label(1)),
        JumpIfZero(reg(0), label(0)),
        Label(label(1)),
    ]
}

#[test]
fn basic_info() {
    let label_liveness = InstructionLivenessBuilder::from_instruction(
        0,
        &LabelIndex::new(),
        Label(label(0)),
        false,
    )
    .unwrap();
    assert_eq!(
        label_liveness,
        InstructionLivenessBuilder {
            reads_from: RegisterSet::new(),
            writes_to: None,
            next_instruction_indices: vec![1],
            out_live: RegisterSet::new(),
            in_live: RegisterSet::new(),
        }
    );

    let mut label_indices = LabelIndex::new();
    label_indices.insert(label(0), 2);
    let jump_liveness = InstructionLivenessBuilder::from_instruction(
        0,
        &label_indices,
        JumpIfZero(reg(1), label(0)),
        false,
    )
    .unwrap();
    assert_eq!(
        jump_liveness,
        InstructionLivenessBuilder {
            reads_from: set(&[reg(1)]),
            writes_to: None,
            next_instruction_indices: vec![1, 2],
            out_live: RegisterSet::new(),
            in_live: RegisterSet::new(),
        }
    );

    let load_imm_liveness = InstructionLivenessBuilder::from_instruction(
        0,
        &LabelIndex::new(),
        LoadImmediate(reg(1), 90),
        false,
    )
    .unwrap();
    assert_eq!(
        load_imm_liveness,
        InstructionLivenessBuilder {
            reads_from: RegisterSet::new(),
            writes_to: Some(reg(1)),
            next_instruction_indices: vec![1],
            out_live: RegisterSet::new(),
            in_live: RegisterSet::new(),
        }
    );

    let subtract_liveness = InstructionLivenessBuilder::from_instruction(
        0,
        &LabelIndex::new(),
        Subtract { assignee: reg(1), lhs: reg(2), rhs: reg(3) },
        false,
    )
    .unwrap();
    assert_eq!(
        subtract_liveness,
        InstructionLivenessBuilder {
            reads_from: set(&[reg(2), reg(3)]),
            writes_to: Some(reg(1)),
            next_instruction_indices: vec![1],
            out_live: RegisterSet::new(),
            in_live: RegisterSet::new(),
        }
    );
}

#[test]
fn basic_straight_line() {
    assert_eq!(
        determine_liveness(&straight_line_program()).unwrap(),
        vec![
            live(&[reg(0)], &[reg(1), reg(0)]),
            live(&[reg(1), reg(0)], &[reg(1)]),
            live(&[reg(1)], &[reg(2), reg(1)]),
            // Nothing after the last instruction reads a register.
            live(&[reg(1), reg(2)], &[]),
        ]
    );
}

#[test]
fn straight_line_live_at_ends() {
    let liveness = determine_liveness(&straight_line_program()).unwrap();
    assert_eq!(liveness[0].in_live, set(&[reg(0)]));
    assert_eq!(liveness[3].out_live, RegisterSet::new());
}

#[test]
fn last_point_has_no_fall_through() {
    let b = InstructionLivenessBuilder::from_instruction(
        3,
        &LabelIndex::new(),
        LoadImmediate(reg(0), 1),
        true,
    )
    .unwrap();
    assert_eq!(b.next_instruction_indices, Vec::<usize>::new());
    assert_eq!(b.writes_to, Some(reg(0)));

    let mut label_indices = LabelIndex::new();
    label_indices.insert(label(5), 0);
    let jump = InstructionLivenessBuilder::from_instruction(
        3,
        &label_indices,
        JumpIfZero(reg(2), label(5)),
        true,
    )
    .unwrap();
    assert_eq!(jump.next_instruction_indices, vec![0]);
    assert_eq!(jump.writes_to, None);
}

#[test]
fn jump_to_next_point_lists_it_once() {
    let mut label_indices = LabelIndex::new();
    label_indices.insert(label(0), 5);
    let b = InstructionLivenessBuilder::from_instruction(
        4,
        &label_indices,
        JumpIfZero(reg(0), label(0)),
        false,
    )
    .unwrap();
    assert_eq!(b.next_instruction_indices, vec![5]);
}

#[test]
fn builder_reports_missing_label() {
    let r = InstructionLivenessBuilder::from_instruction(
        0,
        &LabelIndex::new(),
        JumpIfZero(reg(0), label(9)),
        false,
    );
    assert_eq!(r.err(), Some(MachineError::UnresolvedLabel(label(9))));
}

#[test]
fn branch_liveness() {
    let program = [JumpIfZero(reg(0), label(0)), LoadImmediate(reg(1), 90), Label(label(0))];
    assert_eq!(
        determine_liveness(&program).unwrap(),
        vec![live(&[reg(0)], &[]), live(&[], &[]), live(&[], &[])]
    );
}

#[test]
fn loop_liveness() {
    let all = [reg(0), reg(1), reg(2), reg(3)];
    assert_eq!(
        determine_liveness(&simple_loop_program()).unwrap(),
        vec![
            live(&[reg(0)], &[reg(0), reg(1)]),
            live(&[reg(0), reg(1)], &[reg(0), reg(1), reg(2)]),
            live(&[reg(0), reg(1), reg(2)], &all),
            live(&all, &all),
            live(&all, &all),
            live(&all, &all),
            live(&all, &all),
            live(&all, &all),
            live(&[], &[]),
        ]
    );
}

#[test]
fn reads_are_live_on_entry() {
    let program = simple_loop_program();
    let liveness = determine_liveness(&program).unwrap();
    assert!(set(&[reg(2), reg(1)]).is_subset_of(&liveness[4].in_live));
    assert!(set(&[reg(3), reg(1)]).is_subset_of(&liveness[5].in_live));
    assert!(set(&[reg(2)]).is_subset_of(&liveness[6].in_live));
    assert!(set(&[reg(0)]).is_subset_of(&liveness[7].in_live));
}

#[test]
fn repeated_analysis_gives_same_result() {
    let program = simple_loop_program();
    assert_eq!(determine_liveness(&program).unwrap(), determine_liveness(&program).unwrap());
}

#[test]
fn liveness_of_empty_program() {
    assert_eq!(determine_liveness(&[]).unwrap(), Vec::<InstructionLiveness>::new());
}

#[test]
fn liveness_reports_unresolved_label() {
    let program = [
        Label(label(0)),
        JumpIfZero(reg(0), label(2)),
        JumpIfZero(reg(0), label(1)),
    ];
    assert_eq!(determine_liveness(&program).err(), Some(MachineError::UnresolvedLabel(label(2))));
}

#[test]
fn liveness_reports_duplicate_label() {
    let program = [Label(label(0)), JumpIfZero(reg(0), label(5)), Label(label(0))];
    assert_eq!(determine_liveness(&program).err(), Some(MachineError::DuplicateLabel(label(0))));
}

#[test]
fn register_set_operations() {
    let a = set(&[reg(1), reg(2), reg(1)]);
    let b = set(&[reg(2), reg(3)]);
    assert_eq!(a, set(&[reg(2), reg(1)]));
    assert!(a.contains(reg(1)));
    assert!(!a.contains(reg(3)));
    assert_eq!(a.union(&b), set(&[reg(1), reg(2), reg(3)]));
    assert_eq!(a.without(reg(1)), set(&[reg(2)]));
    assert_eq!(a.without(reg(7)), a);
    assert!(set(&[reg(2)]).is_subset_of(&a));
    assert!(!b.is_subset_of(&a));
    let mut c = RegisterSet::new();
    c.insert(reg(4));
    c.insert(reg(4));
    assert_eq!(c, set(&[reg(4)]));
    assert_ne!(c, RegisterSet::new());
}
