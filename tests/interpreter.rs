use register_machine::instructions::Instruction;
use register_machine::instructions::Instruction::{JumpIfZero, Label, LoadImmediate, Subtract};
use register_machine::labels::{create_label_indices, LabelIndex};
use register_machine::registers::{LabelName, RegisterFile, RegisterName};
use register_machine::{run, run_with_step_limit, MachineError};

fn reg(i: usize) -> RegisterName {
    RegisterName::with_value(i)
}

fn label(i: usize) -> LabelName {
    LabelName::with_value(i)
}

fn basic_straight_line() -> Vec<Instruction> {
    vec![
        LoadImmediate(reg(1), 90),
        Subtract { assignee: reg(1), lhs: reg(1), rhs: reg(0) },
        LoadImmediate(reg(2), 100),
        Subtract { assignee: reg(1), lhs: reg(2), rhs: reg(1) },
    ]
}

fn simple_branch_program() -> Vec<Instruction> {
    vec![
        JumpIfZero(reg(0), label(0)),
        LoadImmediate(reg(1), 90), // Doesn't get executed.
        Label(label(0)),
    ]
}

fn simple_loop_program() -> Vec<Instruction> {
    let decrement = reg(1);
    let before_loop = label(0);
    let after_loop = label(1);
    vec![
        LoadImmediate(decrement, 1),
        LoadImmediate(reg(2), 6),
        LoadImmediate(reg(3), 10),
        Label(before_loop),
        Subtract { assignee: reg(2), lhs: reg(2), rhs: decrement },
        Subtract { assignee: reg(3), lhs: reg(3), rhs: decrement },
        JumpIfZero(reg(2), after_loop),
        JumpIfZero(reg(0), before_loop),
        Label(after_loop),
    ]
}

#[test]
fn subtract() {
    let mut rf = RegisterFile::new();
    let program = [
        LoadImmediate(reg(0), 50),
        LoadImmediate(reg(1), 30),
        Subtract { assignee: reg(1), lhs: reg(0), rhs: reg(1) },
    ];

    for instruction in program {
        instruction.run(&mut rf, &LabelIndex::new()).unwrap();
    }
    assert_eq!(rf.get(reg(1)), 20);
}

#[test]
fn load_immediate() {
    let mut rf = RegisterFile::new();
    LoadImmediate(reg(0), 42).run(&mut rf, &LabelIndex::new()).unwrap();
    assert_eq!(rf.get(reg(0)), 42);
}

#[test]
fn jump_if_zero() {
    let mut rf = RegisterFile::new();
    let mut label_indices = LabelIndex::new();
    label_indices.insert(label(0), 44);

    // Jump Not Taken:
    LoadImmediate(reg(1), 20).run(&mut rf, &label_indices).unwrap();
    JumpIfZero(reg(1), label(0)).run(&mut rf, &label_indices).unwrap();
    assert_eq!(rf.program_counter, 2);

    // Jump Taken:
    LoadImmediate(reg(2), 0).run(&mut rf, &label_indices).unwrap();
    JumpIfZero(reg(2), label(0)).run(&mut rf, &label_indices).unwrap();
    assert_eq!(rf.program_counter, 44);
}

#[test]
fn straight_line() {
    let mut final_rf = run(&basic_straight_line()).unwrap();
    assert_eq!(final_rf.get(reg(0)), 0);
    assert_eq!(final_rf.get(reg(1)), 10);
    assert_eq!(final_rf.get(reg(2)), 100);
}

#[test]
fn simple_branch() {
    let mut final_rf = run(&simple_branch_program()).unwrap();
    assert_eq!(final_rf.get(reg(0)), 0);
    assert_eq!(final_rf.get(reg(1)), 0);
}

#[test]
fn simple_loop() {
    let mut final_rf = run(&simple_loop_program()).unwrap();
    assert_eq!(final_rf.get(reg(0)), 0);
    assert_eq!(final_rf.get(reg(1)), 1);
    assert_eq!(final_rf.get(reg(2)), 0);
    assert_eq!(final_rf.get(reg(3)), 4);
}

#[test]
fn fresh_register_file_reads_zero() {
    let mut rf = RegisterFile::new();
    assert_eq!(rf.program_counter, 0);
    assert_eq!(rf.get(reg(0)), 0);
    assert_eq!(rf.get(reg(usize::MAX)), 0);
}

#[test]
fn set_overwrites_only_its_register() {
    let mut rf = RegisterFile::new();
    rf.set(reg(3), 7);
    rf.set(reg(usize::MAX), 9);
    rf.set(reg(3), 8);
    assert_eq!(rf.get(reg(3)), 8);
    assert_eq!(rf.get(reg(usize::MAX)), 9);
    assert_eq!(rf.get(reg(2)), 0);
    assert_eq!(rf.program_counter, 0);
}

#[test]
fn subtract_wraps_below_zero() {
    let program = [
        LoadImmediate(reg(1), 1),
        Subtract { assignee: reg(2), lhs: reg(0), rhs: reg(1) },
    ];
    let mut final_rf = run(&program).unwrap();
    assert_eq!(final_rf.get(reg(2)), u64::MAX);
}

#[test]
fn label_is_a_no_op() {
    let mut rf = RegisterFile::new();
    rf.set(reg(0), 5);
    Label(label(0)).run(&mut rf, &LabelIndex::new()).unwrap();
    assert_eq!(rf.program_counter, 1);
    assert_eq!(rf.get(reg(0)), 5);
}

#[test]
fn taken_jump_to_missing_label_fails_and_changes_nothing() {
    let mut rf = RegisterFile::new();
    let r = JumpIfZero(reg(0), label(3)).run(&mut rf, &LabelIndex::new());
    assert_eq!(r, Err(MachineError::UnresolvedLabel(label(3))));
    assert_eq!(rf.program_counter, 0);
}

#[test]
fn untaken_jump_to_missing_label_falls_through() {
    let mut rf = RegisterFile::new();
    rf.set(reg(0), 1);
    JumpIfZero(reg(0), label(3)).run(&mut rf, &LabelIndex::new()).unwrap();
    assert_eq!(rf.program_counter, 1);
}

#[test]
fn run_reports_unresolved_label() {
    let program = [LoadImmediate(reg(1), 4), JumpIfZero(reg(0), label(7))];
    assert_eq!(run(&program).err(), Some(MachineError::UnresolvedLabel(label(7))));
}

#[test]
fn run_skips_unreached_bad_jump() {
    let program = [LoadImmediate(reg(0), 4), JumpIfZero(reg(0), label(7))];
    let mut final_rf = run(&program).unwrap();
    assert_eq!(final_rf.get(reg(0)), 4);
    assert_eq!(final_rf.program_counter, 2);
}

#[test]
fn run_reports_duplicate_label() {
    let program = [
        Label(label(1)),
        Label(label(0)),
        Label(label(2)),
        Label(label(0)),
        Label(label(1)),
    ];
    assert_eq!(run(&program).err(), Some(MachineError::DuplicateLabel(label(0))));
}

#[test]
fn run_of_empty_program_halts_at_once() {
    let final_rf = run(&[]).unwrap();
    assert_eq!(final_rf.program_counter, 0);
}

#[test]
fn endless_loop_hits_step_limit() {
    let program = [Label(label(0)), JumpIfZero(reg(0), label(0))];
    assert_eq!(
        run_with_step_limit(&program, 1000).err(),
        Some(MachineError::StepLimitReached)
    );
}

#[test]
fn step_limit_counts_every_step() {
    let program = basic_straight_line();
    assert_eq!(
        run_with_step_limit(&program, 3).err(),
        Some(MachineError::StepLimitReached)
    );
    let mut final_rf = run_with_step_limit(&program, 4).unwrap();
    assert_eq!(final_rf.get(reg(1)), 10);
}

#[test]
fn label_index_records_each_label() {
    let program = simple_loop_program();
    let idx = create_label_indices(&program).unwrap();
    assert_eq!(idx.get(label(0)), Some(3));
    assert_eq!(idx.get(label(1)), Some(8));
    assert_eq!(idx.get(label(2)), None);
}

#[test]
fn label_index_rejects_duplicate() {
    let program = [Label(label(4)), LoadImmediate(reg(0), 1), Label(label(4))];
    assert_eq!(
        create_label_indices(&program).err(),
        Some(MachineError::DuplicateLabel(label(4)))
    );
}
