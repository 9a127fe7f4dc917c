pub mod dataflow;
pub mod instructions;
pub mod labels;
pub mod liveness_analysis;
pub mod register_set;
pub mod registers;

use vstd::prelude::*;

use instructions::Instruction;
use labels::{create_label_indices, duplicate_label_error, label_positions, labels_unique};
use registers::{initial_state, LabelName, MachineState, RegisterFile};

verus! {

/// What can make a run or an analysis fail.
#[derive(Clone, Copy, PartialEq, Eq, Structural, Debug)]
pub enum MachineError {
    /// Two `Label` instructions declare this label.
    DuplicateLabel(LabelName),
    /// A jump names this label, which no instruction declares.
    UnresolvedLabel(LabelName),
    /// The run used up its step budget before the program counter reached
    /// the end of the program.
    StepLimitReached,
}

/// Executes `program` from state `s` for at most `fuel` steps. The machine
/// halts once the program counter reaches the end of the program.
pub open spec fn run_from(
    program: Seq<Instruction>,
    labels: Map<LabelName, nat>,
    s: MachineState,
    fuel: nat,
) -> Result<MachineState, MachineError>
    decreases fuel,
{
    if s.program_counter >= program.len() {
        Ok(s)
    } else if fuel == 0 {
        Err(MachineError::StepLimitReached)
    } else {
        match program[s.program_counter as int].step(s, labels) {
            Ok(t) => run_from(program, labels, t, (fuel - 1) as nat),
            Err(e) => Err(e),
        }
    }
}

/// The outcome of running `program` from the initial state for at most
/// `fuel` steps; a program that declares a label twice does not run.
pub open spec fn run_program(program: Seq<Instruction>, fuel: nat) -> Result<
    MachineState,
    MachineError,
> {
    if labels_unique(program) {
        run_from(program, label_positions(program), initial_state(), fuel)
    } else {
        Err(duplicate_label_error(program))
    }
}

/// Steps the machine in `rf` through `program` until its program counter
/// reaches the end, for at most `max_steps` steps.
fn run_against_rf(rf: &mut RegisterFile, program: &[Instruction], max_steps: u64) -> (r: Result<
    (),
    MachineError,
>)
    ensures
        match r {
            Ok(()) => labels_unique(program@) && run_from(
                program@,
                label_positions(program@),
                old(rf)@,
                max_steps as nat,
            ) == Ok::<MachineState, MachineError>(final(rf)@),
            Err(e) => if labels_unique(program@) {
                run_from(program@, label_positions(program@), old(rf)@, max_steps as nat) == Err::<
                    MachineState,
                    MachineError,
                >(e)
            } else {
                e == duplicate_label_error(program@)
            },
        },
{
    let label_indices = match create_label_indices(program) {
        Ok(idx) => idx,
        Err(e) => return Err(e),
    };
    let ghost labels = label_positions(program@);
    let ghost outcome = run_from(program@, labels, rf@, max_steps as nat);
    let mut steps: u64 = 0;
    while rf.program_counter < program.len()
        invariant
            labels_unique(program@),
            labels == label_positions(program@),
            label_indices@ == labels,
            steps <= max_steps,
            run_from(program@, labels, rf@, (max_steps - steps) as nat) == outcome,
            outcome == run_from(program@, labels, old(rf)@, max_steps as nat),
        decreases max_steps - steps,
    {
        if steps == max_steps {
            assert(run_from(program@, labels, rf@, 0) == Err::<MachineState, MachineError>(
                MachineError::StepLimitReached,
            ));
            return Err(MachineError::StepLimitReached);
        }
        let ghost before = rf@;
        let ghost fuel = (max_steps - steps) as nat;
        assert(run_from(program@, labels, before, fuel) == match program@[
            before.program_counter as int
        ].step(before, labels) {
            Ok(t) => run_from(program@, labels, t, (fuel - 1) as nat),
            Err(e) => Err(e),
        });
        match program[rf.program_counter].run(rf, &label_indices) {
            Ok(()) => {},
            Err(e) => return Err(e),
        }
        steps = steps + 1;
    }
    Ok(())
}

/// Runs `program` from a fresh register file until its program counter
/// reaches the end, for at most `max_steps` steps, and returns the final
/// register file.
pub fn run_with_step_limit(program: &[Instruction], max_steps: u64) -> (r: Result<
    RegisterFile,
    MachineError,
>)
    ensures
        match run_program(program@, max_steps as nat) {
            Ok(s) => r is Ok && r->Ok_0@ == s,
            Err(e) => r is Err && r->Err_0 == e,
        },
{
    let mut rf = RegisterFile::new();
    match run_against_rf(&mut rf, program, max_steps) {
        Ok(()) => Ok(rf),
        Err(e) => Err(e),
    }
}

/// Runs `program` from a fresh register file until its program counter
/// reaches the end. Every verified loop must terminate, so the run is bounded
/// by `u64::MAX` steps, far more than any program can take in practice.
pub fn run(program: &[Instruction]) -> (r: Result<RegisterFile, MachineError>)
    ensures
        match run_program(program@, u64::MAX as nat) {
            Ok(s) => r is Ok && r->Ok_0@ == s,
            Err(e) => r is Err && r->Err_0 == e,
        },
{
    run_with_step_limit(program, u64::MAX)
}

} // verus!
