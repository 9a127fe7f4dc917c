use vstd::prelude::*;

use crate::dataflow::{
    all_jumps_resolved, below, is_first_unresolved, is_fixpoint, is_least_fixpoint, iterate,
    jump_unresolved, lemma_iterate_below_fixpoint, lemma_least_fixpoint_is_liveness,
    lemma_pass_within, lemma_passes_never_shrink, lemma_registers_read, lemma_total_size_bounded,
    lemma_total_size_grows, live_by_walks, liveness_error, pass, program_successors,
    registers_read, successors, total_size, within, LiveSets,
};
use crate::instructions::Instruction;
use crate::labels::{create_label_indices, declares, label_positions, labels_unique, LabelIndex};
use crate::register_set::RegisterSet;
use crate::registers::{LabelName, RegisterName};
use crate::MachineError;

verus! {

broadcast use RegisterSet::lemma_finite;

/// The facts of one instruction that the analysis needs, and its live sets.
#[derive(Debug, PartialEq, Eq)]
pub struct InstructionLivenessBuilder {
    pub reads_from: RegisterSet,
    /// Instructions write to at most one register.
    pub writes_to: Option<RegisterName>,
    pub next_instruction_indices: Vec<usize>,
    pub out_live: RegisterSet,
    pub in_live: RegisterSet,
}

/// The registers live on entry to and on exit from one instruction.
#[derive(Debug, PartialEq, Eq)]
pub struct InstructionLiveness {
    pub in_live: RegisterSet,
    pub out_live: RegisterSet,
}

impl InstructionLiveness {
    pub open spec fn live_sets(&self) -> LiveSets {
        LiveSets { in_live: self.in_live@, out_live: self.out_live@ }
    }
}

/// The live sets of each instruction, in order.
pub open spec fn live_sets_of(v: Seq<InstructionLiveness>) -> Seq<LiveSets> {
    v.map_values(|x: InstructionLiveness| x.live_sets())
}

impl InstructionLivenessBuilder {
    /// The successor points, as a set.
    pub open spec fn successor_set(&self) -> Set<nat> {
        Set::new(
            |p: nat|
                exists|k: int|
                    0 <= k < self.next_instruction_indices@.len()
                        && self.next_instruction_indices@[k] as nat == p,
        )
    }

    pub open spec fn live_sets(&self) -> LiveSets {
        LiveSets { in_live: self.in_live@, out_live: self.out_live@ }
    }

    /// The builder holds the facts of point `i` of `program`, and its
    /// successors are points of the program.
    pub open spec fn holds_facts_of(
        &self,
        program: Seq<Instruction>,
        labels: Map<LabelName, nat>,
        i: int,
    ) -> bool {
        &&& self.reads_from@ == program[i].reads()
        &&& self.writes_to == program[i].writes()
        &&& self.successor_set() == program_successors(program, labels, i)
        &&& forall|k: int|
            0 <= k < self.next_instruction_indices@.len() ==> #[trigger] self.next_instruction_indices@[k]
                < program.len()
    }

    /// The facts of `instruction` at point `index`, with empty live sets. A
    /// jump to a label missing from `label_indices` is an error.
    pub fn from_instruction(
        index: usize,
        label_indices: &LabelIndex,
        instruction: Instruction,
        is_last: bool,
    ) -> (r: Result<Self, MachineError>)
        requires
            is_last || index < usize::MAX,
        ensures
            match r {
                Ok(b) => {
                    &&& instruction is JumpIfZero ==> label_indices@.contains_key(
                        instruction->JumpIfZero_1,
                    )
                    &&& b.reads_from@ == instruction.reads()
                    &&& b.writes_to == instruction.writes()
                    &&& b.successor_set() == successors(
                        index as nat,
                        is_last,
                        instruction,
                        label_indices@,
                    )
                    &&& b.in_live@ == Set::<RegisterName>::empty()
                    &&& b.out_live@ == Set::<RegisterName>::empty()
                },
                Err(e) => {
                    &&& instruction is JumpIfZero
                    &&& !label_indices@.contains_key(instruction->JumpIfZero_1)
                    &&& e == MachineError::UnresolvedLabel(instruction->JumpIfZero_1)
                },
            },
    {
        let reads = match instruction {
            Instruction::Subtract { lhs, rhs, .. } => RegisterSet::from_registers(&[lhs, rhs]),
            Instruction::JumpIfZero(tested, _) => RegisterSet::from_registers(&[tested]),
            _ => RegisterSet::new(),
        };
        proof {
            match instruction {
                Instruction::Subtract { lhs, rhs, .. } => {
                    assert(seq![lhs, rhs].to_set() =~= set![lhs, rhs]) by {
                        assert(seq![lhs, rhs][0] == lhs && seq![lhs, rhs][1] == rhs);
                    }
                },
                Instruction::JumpIfZero(tested, _) => {
                    assert(seq![tested].to_set() =~= set![tested]) by {
                        assert(seq![tested][0] == tested);
                    }
                },
                _ => {},
            }
        }
        let writes = match instruction {
            Instruction::LoadImmediate(assignee, _) => Some(assignee),
            Instruction::Subtract { assignee, .. } => Some(assignee),
            _ => None,
        };
        let mut next_instruction_indices: Vec<usize> = Vec::new();
        if !is_last {
            next_instruction_indices.push(index + 1);
        }
        if let Instruction::JumpIfZero(_, target) = instruction {
            match label_indices.get(target) {
                Some(point) => {
                    if is_last || point != index + 1 {
                        next_instruction_indices.push(point);
                    }
                },
                None => return Err(MachineError::UnresolvedLabel(target)),
            }
        }
        let b = InstructionLivenessBuilder {
            reads_from: reads,
            writes_to: writes,
            next_instruction_indices,
            out_live: RegisterSet::new(),
            in_live: RegisterSet::new(),
        };
        proof {
            let want = successors(index as nat, is_last, instruction, label_indices@);
            let v = b.next_instruction_indices@;
            assert forall|p: nat| b.successor_set().contains(p) <==> want.contains(p) by {
                if want.contains(p) {
                    if !is_last && p == index + 1 {
                        assert(v[0] as nat == p);
                    } else {
                        assert(v[v.len() - 1] as nat == p);
                    }
                }
            }
            assert(b.successor_set() =~= want);
        }
        Ok(b)
    }
}

/// The live sets after one pass over `builders`, which hold the facts of
/// `program` and the previous snapshot.
fn next_pass(
    builders: &Vec<InstructionLivenessBuilder>,
    Ghost(program): Ghost<Seq<Instruction>>,
    Ghost(labels): Ghost<Map<LabelName, nat>>,
) -> (r: Vec<InstructionLiveness>)
    requires
        builders@.len() == program.len(),
        forall|i: int| 0 <= i < builders@.len() ==> #[trigger] builders@[i].holds_facts_of(program, labels, i),
    ensures
        live_sets_of(r@) == pass(program, labels, builders@.map_values(|b: InstructionLivenessBuilder| b.live_sets())),
{
    let ghost snapshot = builders@.map_values(|b: InstructionLivenessBuilder| b.live_sets());
    let mut r: Vec<InstructionLiveness> = Vec::new();
    let mut i: usize = 0;
    while i < builders.len()
        invariant
            0 <= i <= builders@.len(),
            builders@.len() == program.len(),
            forall|j: int| 0 <= j < builders@.len() ==> #[trigger] builders@[j].holds_facts_of(program, labels, j),
            snapshot == builders@.map_values(|b: InstructionLivenessBuilder| b.live_sets()),
            r@.len() == i,
            forall|j: int| 0 <= j < i ==> (#[trigger] r@[j]).live_sets() == pass(program, labels, snapshot)[j],
        decreases builders.len() - i,
    {
        let b = &builders[i];
        assert(b.holds_facts_of(program, labels, i as int));
        let in_live = match b.writes_to {
            Some(w) => b.reads_from.union(&b.out_live.without(w)),
            None => b.reads_from.union(&b.out_live),
        };
        let mut out_live = RegisterSet::new();
        let mut k: usize = 0;
        while k < b.next_instruction_indices.len()
            invariant
                0 <= k <= b.next_instruction_indices@.len(),
                builders@.len() == program.len(),
                b.holds_facts_of(program, labels, i as int),
                b == builders@[i as int],
                snapshot == builders@.map_values(|b: InstructionLivenessBuilder| b.live_sets()),
                out_live@ == Set::new(
                    |x: RegisterName|
                        exists|j: int|
                            0 <= j < k && snapshot[b.next_instruction_indices@[j] as int].in_live.contains(x),
                ),
            decreases b.next_instruction_indices.len() - k,
        {
            let s = b.next_instruction_indices[k];
            assert(s < builders@.len());
            out_live = out_live.union(&builders[s].in_live);
            assert(out_live@ =~= Set::new(
                |x: RegisterName|
                    exists|j: int|
                        0 <= j < k + 1 && snapshot[b.next_instruction_indices@[j] as int].in_live.contains(x),
            )) by {
                assert(snapshot[s as int] == builders@[s as int].live_sets());
                assert forall|x: RegisterName| out_live@.contains(x) implies exists|j: int|
                        0 <= j < k + 1 && snapshot[b.next_instruction_indices@[j] as int].in_live.contains(x) by {
                    if builders@[s as int].in_live@.contains(x) {
                        assert(b.next_instruction_indices@[k as int] == s);
                    }
                }
            }
            k = k + 1;
        }
        proof {
            let want = pass(program, labels, snapshot)[i as int];
            assert(snapshot[i as int] == b.live_sets());
            assert(in_live@ =~= want.in_live);
            assert forall|x: RegisterName| out_live@.contains(x) <==> want.out_live.contains(x) by {
                if out_live@.contains(x) {
                    let j = choose|j: int|
                        0 <= j < k && snapshot[b.next_instruction_indices@[j] as int].in_live.contains(x);
                    let s = b.next_instruction_indices@[j];
                    assert(b.successor_set().contains(s as nat));
                    assert(program_successors(program, labels, i as int).contains(s as nat));
                }
                if want.out_live.contains(x) {
                    let s = choose|s: nat|
                        #[trigger] program_successors(program, labels, i as int).contains(s) && s < snapshot.len()
                            && snapshot[s as int].in_live.contains(x);
                    assert(b.successor_set().contains(s));
                    let j = choose|j: int|
                        0 <= j < b.next_instruction_indices@.len()
                            && b.next_instruction_indices@[j] as nat == s;
                    assert(snapshot[b.next_instruction_indices@[j] as int].in_live.contains(x));
                }
            }
            assert(out_live@ =~= want.out_live);
        }
        r.push(InstructionLiveness { in_live, out_live });
        i = i + 1;
    }
    assert(live_sets_of(r@) =~= pass(program, labels, snapshot));
    r
}

/// The live sets of the builders, in order.
pub open spec fn builder_live_sets(builders: Seq<InstructionLivenessBuilder>) -> Seq<LiveSets> {
    builders.map_values(|b: InstructionLivenessBuilder| b.live_sets())
}

/// Whether a pass left every live set as it was.
fn same_live_sets(builders: &Vec<InstructionLivenessBuilder>, next: &Vec<InstructionLiveness>) -> (r:
    bool)
    requires
        builders@.len() == next@.len(),
    ensures
        r == (builder_live_sets(builders@) == live_sets_of(next@)),
{
    let mut i: usize = 0;
    while i < builders.len()
        invariant
            0 <= i <= builders@.len(),
            builders@.len() == next@.len(),
            forall|j: int| 0 <= j < i ==> builder_live_sets(builders@)[j] == live_sets_of(next@)[j],
        decreases builders.len() - i,
    {
        if !(builders[i].in_live == next[i].in_live) || !(builders[i].out_live == next[i].out_live) {
            assert(builder_live_sets(builders@)[i as int] != live_sets_of(next@)[i as int]);
            return false;
        }
        i = i + 1;
    }
    assert(builder_live_sets(builders@) =~= live_sets_of(next@));
    true
}

/// Computes, for every point of `program`, the registers live on entry and on
/// exit: the least solution of the dataflow equations, found by repeating
/// passes from empty sets until one changes nothing. A label declared twice,
/// or a jump to a label never declared, is an error.
pub fn determine_liveness(program: &[Instruction]) -> (r: Result<Vec<InstructionLiveness>, MachineError>)
    ensures
        match r {
            Ok(v) => {
                &&& liveness_error(program@) is None
                &&& is_least_fixpoint(program@, label_positions(program@), live_sets_of(v@))
                &&& exists|k: nat| live_sets_of(v@) == iterate(program@, label_positions(program@), k)
                &&& live_sets_of(v@) == live_by_walks(program@, label_positions(program@))
                &&& forall|i: int|
                    0 <= i < v@.len() ==> program@[i].reads().subset_of(#[trigger] v@[i].in_live@)
            },
            Err(e) => liveness_error(program@) == Some(e),
        },
{
    let label_indices = match create_label_indices(program) {
        Ok(idx) => idx,
        Err(e) => return Err(e),
    };
    let ghost labels = label_positions(program@);
    let n = program.len();
    let mut builders: Vec<InstructionLivenessBuilder> = Vec::new();
    let mut i: usize = 0;
    while i < n
        invariant
            n == program@.len(),
            labels == label_positions(program@),
            labels_unique(program@),
            label_indices@ == labels,
            0 <= i <= n,
            builders@.len() == i,
            forall|j: int| 0 <= j < i ==> #[trigger] builders@[j].holds_facts_of(program@, labels, j),
            forall|j: int| 0 <= j < i ==> #[trigger] builders@[j].live_sets() == (LiveSets { in_live: Set::empty(), out_live: Set::empty() }),
            forall|j: int| j < i ==> !jump_unresolved(program@, labels, j),
        decreases n - i,
    {
        match InstructionLivenessBuilder::from_instruction(i, &label_indices, program[i], i + 1 == n) {
            Ok(b) => {
                proof {
                    assert forall|m: int| 0 <= m < b.next_instruction_indices@.len() implies #[trigger] b.next_instruction_indices@[m] < n by {
                        assert(b.successor_set().contains(b.next_instruction_indices@[m] as nat));
                        if let Instruction::JumpIfZero(_, t) = program@[i as int] {
                            assert(declares(program@, labels[t] as int, t));
                        }
                    }
                    assert(!jump_unresolved(program@, labels, i as int));
                }
                builders.push(b);
            },
            Err(e) => {
                proof {
                    assert(is_first_unresolved(program@, labels, i as int));
                    let j = choose|j: int| is_first_unresolved(program@, labels, j);
                    if j < i {
                        assert(!jump_unresolved(program@, labels, j));
                    } else if i < j {
                        assert(!jump_unresolved(program@, labels, i as int));
                    }
                }
                return Err(e);
            },
        }
        i = i + 1;
    }
    proof {
        lemma_registers_read(program@);
        assert(builder_live_sets(builders@) =~= iterate(program@, labels, 0));
    }
    let ghost universe = registers_read(program@);
    let ghost mut k: nat = 0;
    loop
        invariant
            n == program@.len(),
            labels == label_positions(program@),
            labels_unique(program@),
            all_jumps_resolved(program@, labels),
            universe == registers_read(program@),
            universe.finite(),
            builders@.len() == n,
            forall|j: int| 0 <= j < n ==> #[trigger] builders@[j].holds_facts_of(program@, labels, j),
            builder_live_sets(builders@) == iterate(program@, labels, k),
            within(iterate(program@, labels, k), universe),
        decreases 2 * n * universe.len() - total_size(iterate(program@, labels, k)),
    {
        proof {
            lemma_total_size_bounded(iterate(program@, labels, k), universe);
        }
        let mut next = next_pass(&builders, Ghost(program@), Ghost(labels));
        assert(live_sets_of(next@).len() == next@.len());
        if same_live_sets(&builders, &next) {
            proof {
                let facts = iterate(program@, labels, k);
                assert(is_fixpoint(program@, labels, facts));
                assert forall|other: Seq<LiveSets>| #[trigger] is_fixpoint(program@, labels, other) implies below(facts, other) by {
                    lemma_iterate_below_fixpoint(program@, labels, k, other);
                }
                assert(live_sets_of(next@) == iterate(program@, labels, k));
                lemma_least_fixpoint_is_liveness(program@, labels, facts);
                assert forall|j: int| 0 <= j < next@.len() implies program@[j].reads().subset_of(#[trigger] next@[j].in_live@) by {
                    assert(live_sets_of(next@)[j] == next@[j].live_sets());
                }
            }
            return Ok(next);
        }
        let ghost before = builders@;
        let ghost fresh = live_sets_of(next@);
        let mut j: usize = 0;
        while j < n
            invariant
                0 <= j <= n,
                builders@.len() == n,
                next@.len() == n,
                fresh.len() == n,
                before.len() == n,
                forall|m: int| 0 <= m < n ==> (#[trigger] builders@[m]).reads_from == before[m].reads_from
                    && builders@[m].writes_to == before[m].writes_to
                    && builders@[m].next_instruction_indices == before[m].next_instruction_indices,
                forall|m: int| 0 <= m < j ==> (#[trigger] builders@[m]).live_sets() == fresh[m],
                forall|m: int| j <= m < n ==> (#[trigger] next@[m]).live_sets() == fresh[m],
            decreases n - j,
        {
            std::mem::swap(&mut builders[j].in_live, &mut next[j].in_live);
            std::mem::swap(&mut builders[j].out_live, &mut next[j].out_live);
            j = j + 1;
        }
        proof {
            assert forall|m: int| 0 <= m < n implies #[trigger] builders@[m].holds_facts_of(program@, labels, m) by {
                assert(before[m].holds_facts_of(program@, labels, m));
            }
            let old_facts = iterate(program@, labels, k);
            let new_facts = iterate(program@, labels, k + 1);
            assert(builder_live_sets(builders@) =~= new_facts);
            lemma_pass_within(program@, labels, old_facts);
            assert(within(new_facts, universe)) by {
                assert forall|m: int| 0 <= m < new_facts.len() implies (#[trigger] new_facts[m]).in_live.finite() && new_facts[m].out_live.finite() by {
                    assert(new_facts[m] == builders@[m].live_sets());
                }
            }
            lemma_passes_never_shrink(program@, labels, k);
            lemma_total_size_grows(old_facts, new_facts, universe);
            lemma_total_size_bounded(new_facts, universe);
            k = k + 1;
        }
    }
}

} // verus!
