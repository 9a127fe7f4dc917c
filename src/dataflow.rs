use vstd::prelude::*;

use crate::instructions::Instruction;
use crate::labels::{declares, duplicate_label_error, label_positions, labels_unique};
use crate::registers::{LabelName, RegisterName};
use crate::MachineError;

verus! {

/// The registers live on entry to and on exit from one instruction.
pub struct LiveSets {
    pub in_live: Set<RegisterName>,
    pub out_live: Set<RegisterName>,
}

/// The points that control may reach after the instruction at `index`: the
/// next point unless this one is the last, and for a jump also its target.
pub open spec fn successors(
    index: nat,
    is_last: bool,
    instruction: Instruction,
    labels: Map<LabelName, nat>,
) -> Set<nat> {
    let fall_through = if is_last {
        Set::empty()
    } else {
        set![index + 1]
    };
    match instruction {
        Instruction::JumpIfZero(_, target) => fall_through.insert(labels[target]),
        _ => fall_through,
    }
}

/// The successors of point `i` of `program`.
pub open spec fn program_successors(
    program: Seq<Instruction>,
    labels: Map<LabelName, nat>,
    i: int,
) -> Set<nat> {
    successors(i as nat, i + 1 == program.len(), program[i], labels)
}

/// Live on exit from point `i`: live on entry to some successor.
pub open spec fn live_out_from(
    program: Seq<Instruction>,
    labels: Map<LabelName, nat>,
    facts: Seq<LiveSets>,
    i: int,
) -> Set<RegisterName> {
    Set::new(
        |r: RegisterName|
            exists|s: nat|
                #[trigger] program_successors(program, labels, i).contains(s) && s < facts.len()
                    && facts[s as int].in_live.contains(r),
    )
}

/// The live-on-exit set with the register that the instruction writes taken out.
pub open spec fn survivors(instruction: Instruction, out_live: Set<RegisterName>) -> Set<
    RegisterName,
> {
    match instruction.writes() {
        Some(w) => out_live.remove(w),
        None => out_live,
    }
}

/// Live on entry to point `i`: what it reads, and what is live on exit
/// without being overwritten here.
pub open spec fn live_in_from(program: Seq<Instruction>, facts: Seq<LiveSets>, i: int) -> Set<
    RegisterName,
> {
    program[i].reads().union(survivors(program[i], facts[i].out_live))
}

/// One pass of the analysis: both dataflow equations evaluated at every point
/// against the previous snapshot.
pub open spec fn pass(
    program: Seq<Instruction>,
    labels: Map<LabelName, nat>,
    facts: Seq<LiveSets>,
) -> Seq<LiveSets> {
    Seq::new(
        facts.len(),
        |i: int|
            LiveSets {
                in_live: live_in_from(program, facts, i),
                out_live: live_out_from(program, labels, facts, i),
            },
    )
}

/// Empty live sets at each of `n` points: where the analysis starts.
pub open spec fn no_facts(n: nat) -> Seq<LiveSets> {
    Seq::new(n, |i: int| LiveSets { in_live: Set::empty(), out_live: Set::empty() })
}

/// The snapshot after `k` passes from `start`.
pub open spec fn iterate_from(
    program: Seq<Instruction>,
    labels: Map<LabelName, nat>,
    start: Seq<LiveSets>,
    k: nat,
) -> Seq<LiveSets>
    decreases k,
{
    if k == 0 {
        start
    } else {
        pass(program, labels, iterate_from(program, labels, start, (k - 1) as nat))
    }
}

/// The snapshot after `k` passes from empty sets.
pub open spec fn iterate(program: Seq<Instruction>, labels: Map<LabelName, nat>, k: nat) -> Seq<
    LiveSets,
> {
    iterate_from(program, labels, no_facts(program.len()), k)
}

/// Live sets for every point that satisfy both dataflow equations.
pub open spec fn is_fixpoint(
    program: Seq<Instruction>,
    labels: Map<LabelName, nat>,
    facts: Seq<LiveSets>,
) -> bool {
    facts.len() == program.len() && pass(program, labels, facts) == facts
}

/// Pointwise inclusion of live sets.
pub open spec fn below(a: Seq<LiveSets>, b: Seq<LiveSets>) -> bool {
    &&& a.len() == b.len()
    &&& forall|i: int|
        0 <= i < a.len() ==> (#[trigger] a[i]).in_live.subset_of(b[i].in_live)
            && a[i].out_live.subset_of(b[i].out_live)
}

/// The fixpoint contained in every other fixpoint.
pub open spec fn is_least_fixpoint(
    program: Seq<Instruction>,
    labels: Map<LabelName, nat>,
    facts: Seq<LiveSets>,
) -> bool {
    &&& is_fixpoint(program, labels, facts)
    &&& forall|other: Seq<LiveSets>| #[trigger]
        is_fixpoint(program, labels, other) ==> below(facts, other)
}

/// Point `i` is a jump to a label that `labels` lacks.
pub open spec fn jump_unresolved(program: Seq<Instruction>, labels: Map<LabelName, nat>, i: int) -> bool {
    &&& 0 <= i < program.len()
    &&& program[i] is JumpIfZero
    &&& !labels.contains_key(program[i]->JumpIfZero_1)
}

/// Every jump of the program names a label in `labels`.
pub open spec fn all_jumps_resolved(program: Seq<Instruction>, labels: Map<LabelName, nat>) -> bool {
    forall|i: int| !jump_unresolved(program, labels, i)
}

/// Point `j` is the first unresolved jump in program order.
pub open spec fn is_first_unresolved(
    program: Seq<Instruction>,
    labels: Map<LabelName, nat>,
    j: int,
) -> bool {
    jump_unresolved(program, labels, j) && forall|k: int| k < j ==> !jump_unresolved(program, labels, k)
}

/// Why the analysis of `program` fails, if it does: a label declared twice,
/// else the first jump to a label that is never declared.
pub open spec fn liveness_error(program: Seq<Instruction>) -> Option<MachineError> {
    let labels = label_positions(program);
    if !labels_unique(program) {
        Some(duplicate_label_error(program))
    } else if !all_jumps_resolved(program, labels) {
        let j = choose|j: int| is_first_unresolved(program, labels, j);
        Some(MachineError::UnresolvedLabel(program[j]->JumpIfZero_1))
    } else {
        None
    }
}

/// Every register that some instruction of the program reads.
pub open spec fn registers_read(program: Seq<Instruction>) -> Set<RegisterName>
    decreases program.len(),
{
    if program.len() == 0 {
        Set::empty()
    } else {
        registers_read(program.drop_last()).union(program.last().reads())
    }
}

/// The sum of the sizes of all live sets.
pub open spec fn total_size(facts: Seq<LiveSets>) -> nat
    decreases facts.len(),
{
    if facts.len() == 0 {
        0
    } else {
        total_size(facts.drop_last()) + facts.last().in_live.len() + facts.last().out_live.len()
    }
}

/// All live sets are finite and within `universe`.
pub open spec fn within(facts: Seq<LiveSets>, universe: Set<RegisterName>) -> bool {
    forall|i: int|
        0 <= i < facts.len() ==> (#[trigger] facts[i]).in_live.subset_of(universe)
            && facts[i].out_live.subset_of(universe) && facts[i].in_live.finite()
            && facts[i].out_live.finite()
}

pub(crate) proof fn lemma_registers_read(program: Seq<Instruction>)
    ensures
        registers_read(program).finite(),
        forall|i: int|
            0 <= i < program.len() ==> (#[trigger] program[i]).reads().subset_of(
                registers_read(program),
            ),
    decreases program.len(),
{
    if program.len() > 0 {
        let rest = program.drop_last();
        lemma_registers_read(rest);
        assert forall|i: int| 0 <= i < program.len() implies (#[trigger] program[i]).reads().subset_of(
            registers_read(program),
        ) by {
            if i < rest.len() {
                assert(rest[i] == program[i]);
            }
        }
        let last = program.last();
        match last {
            Instruction::Subtract { lhs, rhs, .. } => {
                assert(set![lhs, rhs].finite());
            },
            Instruction::JumpIfZero(tested, _) => {
                assert(set![tested].finite());
            },
            _ => {},
        }
    }
}

/// A pass maps included snapshots to included snapshots.
proof fn lemma_pass_monotone(
    program: Seq<Instruction>,
    labels: Map<LabelName, nat>,
    a: Seq<LiveSets>,
    b: Seq<LiveSets>,
)
    requires
        below(a, b),
    ensures
        below(pass(program, labels, a), pass(program, labels, b)),
{
    let pa = pass(program, labels, a);
    let pb = pass(program, labels, b);
    assert forall|i: int| 0 <= i < pa.len() implies (#[trigger] pa[i]).in_live.subset_of(
        pb[i].in_live,
    ) && pa[i].out_live.subset_of(pb[i].out_live) by {
        assert(a[i].out_live.subset_of(b[i].out_live));
        assert forall|r: RegisterName| #[trigger] pa[i].out_live.contains(r) implies pb[i].out_live.contains(r) by {
            let s = choose|s: nat|
                #[trigger] program_successors(program, labels, i).contains(s) && s < a.len()
                    && a[s as int].in_live.contains(r);
            assert(a[s as int].in_live.subset_of(b[s as int].in_live));
        }
    }
}

/// Every snapshot of the analysis lies below every fixpoint.
pub(crate) proof fn lemma_iterate_below_fixpoint(
    program: Seq<Instruction>,
    labels: Map<LabelName, nat>,
    k: nat,
    sol: Seq<LiveSets>,
)
    requires
        is_fixpoint(program, labels, sol),
    ensures
        below(iterate(program, labels, k), sol),
    decreases k,
{
    if k > 0 {
        lemma_iterate_below_fixpoint(program, labels, (k - 1) as nat, sol);
        lemma_pass_monotone(program, labels, iterate(program, labels, (k - 1) as nat), sol);
    }
}

/// Each snapshot has one entry per program point.
proof fn lemma_iterate_len(program: Seq<Instruction>, labels: Map<LabelName, nat>, start: Seq<LiveSets>, k: nat)
    ensures
        iterate_from(program, labels, start, k).len() == start.len(),
    decreases k,
{
    if k > 0 {
        lemma_iterate_len(program, labels, start, (k - 1) as nat);
    }
}

/// Across passes of the analysis, no live set ever shrinks.
pub proof fn lemma_passes_never_shrink(
    program: Seq<Instruction>,
    labels: Map<LabelName, nat>,
    k: nat,
)
    ensures
        below(iterate(program, labels, k), iterate(program, labels, k + 1)),
    decreases k,
{
    lemma_iterate_len(program, labels, no_facts(program.len()), k + 1);
    if k > 0 {
        lemma_passes_never_shrink(program, labels, (k - 1) as nat);
        lemma_pass_monotone(
            program,
            labels,
            iterate(program, labels, (k - 1) as nat),
            iterate(program, labels, k),
        );
    }
}

/// Passes started from a fixpoint change nothing, however many are run.
pub proof fn lemma_rerun_changes_nothing(
    program: Seq<Instruction>,
    labels: Map<LabelName, nat>,
    facts: Seq<LiveSets>,
    k: nat,
)
    requires
        is_fixpoint(program, labels, facts),
    ensures
        iterate_from(program, labels, facts, k) == facts,
    decreases k,
{
    if k > 0 {
        lemma_rerun_changes_nothing(program, labels, facts, (k - 1) as nat);
    }
}

/// Each point but the last falls through to the next one; the last has no
/// fall-through successor, since every jump of the program lands on one of
/// its points.
pub proof fn lemma_fall_through(program: Seq<Instruction>, i: int)
    requires
        0 <= i < program.len(),
        all_jumps_resolved(program, label_positions(program)),
    ensures
        i + 1 < program.len() ==> program_successors(program, label_positions(program), i).contains(
            (i + 1) as nat,
        ),
        i + 1 == program.len() ==> !program_successors(
            program,
            label_positions(program),
            i,
        ).contains((i + 1) as nat),
{
    let labels = label_positions(program);
    if let Instruction::JumpIfZero(_, target) = program[i] {
        assert(!jump_unresolved(program, labels, i));
        assert(declares(program, labels[target] as int, target));
    }
}

/// A pass keeps the live sets within the registers that the program reads.
pub(crate) proof fn lemma_pass_within(
    program: Seq<Instruction>,
    labels: Map<LabelName, nat>,
    facts: Seq<LiveSets>,
)
    requires
        facts.len() == program.len(),
        within(facts, registers_read(program)),
    ensures
        forall|i: int|
            0 <= i < facts.len() ==> (#[trigger] pass(program, labels, facts)[i]).in_live.subset_of(
                registers_read(program),
            ) && pass(program, labels, facts)[i].out_live.subset_of(registers_read(program)),
{
    lemma_registers_read(program);
    let u = registers_read(program);
    let p = pass(program, labels, facts);
    assert forall|i: int| 0 <= i < facts.len() implies (#[trigger] p[i]).in_live.subset_of(u)
        && p[i].out_live.subset_of(u) by {
        assert(program[i].reads().subset_of(u));
        assert(facts[i].out_live.subset_of(u));
        assert forall|r: RegisterName| #[trigger] p[i].out_live.contains(r) implies u.contains(r) by {
            let s = choose|s: nat|
                #[trigger] program_successors(program, labels, i).contains(s) && s < facts.len()
                    && facts[s as int].in_live.contains(r);
            assert(facts[s as int].in_live.subset_of(u));
        }
    }
}

/// Finite live sets within `universe` have a bounded total size.
pub(crate) proof fn lemma_total_size_bounded(facts: Seq<LiveSets>, universe: Set<RegisterName>)
    requires
        universe.finite(),
        within(facts, universe),
    ensures
        total_size(facts) <= 2 * facts.len() * universe.len(),
    decreases facts.len(),
{
    if facts.len() > 0 {
        let rest = facts.drop_last();
        assert(within(rest, universe)) by {
            assert forall|i: int| 0 <= i < rest.len() implies (#[trigger] rest[i]) == facts[i] by {}
        }
        lemma_total_size_bounded(rest, universe);
        let last = facts.last();
        assert(last == facts[facts.len() - 1]);
        vstd::set_lib::lemma_len_subset(last.in_live, universe);
        vstd::set_lib::lemma_len_subset(last.out_live, universe);
        let n = facts.len();
        let m = universe.len();
        assert(2 * (n - 1) * m + 2 * m == 2 * n * m) by (nonlinear_arith);
    }
}

/// A finite set strictly inside another finite set is smaller.
proof fn lemma_len_strict_subset(a: Set<RegisterName>, b: Set<RegisterName>)
    requires
        b.finite(),
        a.subset_of(b),
        a != b,
    ensures
        a.len() < b.len(),
{
    assert(exists|x: RegisterName| b.contains(x) && !a.contains(x)) by {
        if forall|x: RegisterName| b.contains(x) ==> a.contains(x) {
            assert(a =~= b);
        }
    }
    let x = choose|x: RegisterName| b.contains(x) && !a.contains(x);
    vstd::set_lib::lemma_len_subset(a, b.remove(x));
}

/// When live sets grow, the total size grows, strictly if any set changed.
pub(crate) proof fn lemma_total_size_grows(a: Seq<LiveSets>, b: Seq<LiveSets>, universe: Set<RegisterName>)
    requires
        below(a, b),
        within(b, universe),
    ensures
        total_size(a) <= total_size(b),
        a != b ==> total_size(a) < total_size(b),
    decreases a.len(),
{
    if a.len() > 0 {
        let (ra, rb) = (a.drop_last(), b.drop_last());
        assert(below(ra, rb)) by {
            assert forall|i: int| 0 <= i < ra.len() implies (#[trigger] ra[i]) == a[i] && rb[i] == b[i] by {}
        }
        assert(within(rb, universe)) by {
            assert forall|i: int| 0 <= i < rb.len() implies (#[trigger] rb[i]) == b[i] by {}
        }
        lemma_total_size_grows(ra, rb, universe);
        let (la, lb) = (a.last(), b.last());
        assert(la == a[a.len() - 1] && lb == b[b.len() - 1]);
        vstd::set_lib::lemma_len_subset(la.in_live, lb.in_live);
        vstd::set_lib::lemma_len_subset(la.out_live, lb.out_live);
        if a != b {
            if ra == rb {
                assert(la != lb) by {
                    if la == lb {
                        assert(a =~= b) by {
                            assert forall|i: int| 0 <= i < a.len() implies a[i] == b[i] by {
                                if i < ra.len() {
                                    assert(ra[i] == rb[i]);
                                }
                            }
                        }
                    }
                }
                if la.in_live != lb.in_live {
                    lemma_len_strict_subset(la.in_live, lb.in_live);
                } else {
                    lemma_len_strict_subset(la.out_live, lb.out_live);
                }
            }
        }
    } else {
        assert(a =~= b);
    }
}

/// `path` is a walk through the program along successor edges.
pub open spec fn is_path(program: Seq<Instruction>, labels: Map<LabelName, nat>, path: Seq<int>) -> bool {
    &&& path.len() >= 1
    &&& forall|t: int| 0 <= t < path.len() ==> 0 <= #[trigger] path[t] < program.len()
    &&& forall|t: int|
        0 <= t < path.len() - 1 ==> #[trigger] program_successors(program, labels, path[t]).contains(
            path[t + 1] as nat,
        )
}

/// Register `r` is read at the end of `path`, and no instruction before that
/// end overwrites it.
pub open spec fn reads_before_write(program: Seq<Instruction>, path: Seq<int>, r: RegisterName) -> bool {
    &&& program[path.last()].reads().contains(r)
    &&& forall|t: int| 0 <= t < path.len() - 1 ==> program[#[trigger] path[t]].writes() != Some(r)
}

/// Register `r` is live on entry to point `i`: along some walk from `i`, it is
/// read before it is overwritten.
pub open spec fn live_at(program: Seq<Instruction>, labels: Map<LabelName, nat>, i: int, r: RegisterName) -> bool {
    exists|path: Seq<int>|
        is_path(program, labels, path) && path[0] == i && #[trigger] reads_before_write(program, path, r)
}

/// The live sets that walks through the program give.
pub open spec fn live_by_walks(program: Seq<Instruction>, labels: Map<LabelName, nat>) -> Seq<LiveSets> {
    Seq::new(
        program.len(),
        |i: int|
            LiveSets {
                in_live: Set::new(|r: RegisterName| live_at(program, labels, i, r)),
                out_live: Set::new(
                    |r: RegisterName|
                        exists|s: nat|
                            #[trigger] program_successors(program, labels, i).contains(s) && s
                                < program.len() && live_at(program, labels, s as int, r),
                ),
            },
    )
}

/// Every fixpoint holds each register that walks show live.
proof fn lemma_walks_within_fixpoint(
    program: Seq<Instruction>,
    labels: Map<LabelName, nat>,
    facts: Seq<LiveSets>,
    path: Seq<int>,
    r: RegisterName,
)
    requires
        is_fixpoint(program, labels, facts),
        is_path(program, labels, path),
        reads_before_write(program, path, r),
    ensures
        facts[path[0]].in_live.contains(r),
    decreases path.len(),
{
    let i = path[0];
    assert(0 <= i < program.len());
    assert(facts[i] == pass(program, labels, facts)[i]);
    if path.len() > 1 {
        let rest = path.drop_first();
        assert(is_path(program, labels, rest)) by {
            assert forall|t: int| 0 <= t < rest.len() implies 0 <= #[trigger] rest[t] < program.len() by {
                assert(rest[t] == path[t + 1]);
            }
            assert forall|t: int| 0 <= t < rest.len() - 1 implies #[trigger] program_successors(
                program,
                labels,
                rest[t],
            ).contains(rest[t + 1] as nat) by {
                assert(rest[t] == path[t + 1] && rest[t + 1] == path[t + 2]);
            }
        }
        assert(reads_before_write(program, rest, r)) by {
            assert(rest.last() == path.last());
            assert forall|t: int| 0 <= t < rest.len() - 1 implies program[#[trigger] rest[t]].writes() != Some(r) by {
                assert(rest[t] == path[t + 1]);
            }
        }
        lemma_walks_within_fixpoint(program, labels, facts, rest, r);
        let s = path[1];
        assert(program_successors(program, labels, i).contains(s as nat));
        assert(facts[i].out_live.contains(r));
        assert(program[path[0]].writes() != Some(r));
    }
}

/// The live sets that walks give are a fixpoint of the dataflow equations.
proof fn lemma_walks_are_fixpoint(program: Seq<Instruction>, labels: Map<LabelName, nat>)
    ensures
        is_fixpoint(program, labels, live_by_walks(program, labels)),
{
    let w = live_by_walks(program, labels);
    let p = pass(program, labels, w);
    assert forall|i: int| 0 <= i < program.len() implies #[trigger] p[i] == w[i] by {
        assert(p[i].out_live =~= w[i].out_live);
        assert forall|r: RegisterName| p[i].in_live.contains(r) <==> w[i].in_live.contains(r) by {
            if program[i].reads().contains(r) {
                let path = seq![i];
                assert(is_path(program, labels, path));
                assert(reads_before_write(program, path, r));
            } else if survivors(program[i], w[i].out_live).contains(r) {
                let s = choose|s: nat|
                    #[trigger] program_successors(program, labels, i).contains(s) && s < program.len()
                        && live_at(program, labels, s as int, r);
                let q = choose|q: Seq<int>|
                    is_path(program, labels, q) && q[0] == s as int && #[trigger] reads_before_write(
                        program,
                        q,
                        r,
                    );
                assert(is_path(program, labels, q));
                assert(forall|t: int|
                    0 <= t < q.len() - 1 ==> #[trigger] program_successors(program, labels, q[t]).contains(
                        q[t + 1] as nat,
                    ));
                let path = seq![i] + q;
                assert(is_path(program, labels, path)) by {
                    assert forall|t: int| 0 <= t < path.len() implies 0 <= #[trigger] path[t] < program.len() by {
                        if t > 0 {
                            assert(path[t] == q[t - 1]);
                        }
                    }
                    assert forall|t: int| 0 <= t < path.len() - 1 implies #[trigger] program_successors(
                        program,
                        labels,
                        path[t],
                    ).contains(path[t + 1] as nat) by {
                        if t > 0 {
                            assert(path[t] == q[t - 1] && path[t + 1] == q[t]);
                            let u = t - 1;
                            assert(path.len() == q.len() + 1);
                            assert(0 <= u < q.len() - 1);
                            assert(q[u + 1] == q[t]);
                            assert(program_successors(program, labels, q[u]).contains(q[u + 1] as nat));
                        } else {
                            assert(path[0] == i && path[1] == q[0]);
                            assert(q[0] as nat == s);
                        }
                    }
                }
                assert(reads_before_write(program, path, r)) by {
                    assert(path.last() == q.last());
                    assert forall|t: int| 0 <= t < path.len() - 1 implies program[#[trigger] path[t]].writes() != Some(r) by {
                        if t > 0 {
                            assert(path[t] == q[t - 1]);
                        }
                    }
                }
                assert(path[0] == i);
            }
            if w[i].in_live.contains(r) {
                let path = choose|path: Seq<int>|
                    is_path(program, labels, path) && path[0] == i && #[trigger] reads_before_write(
                        program,
                        path,
                        r,
                    );
                if path.len() > 1 {
                    let rest = path.drop_first();
                    assert(is_path(program, labels, rest)) by {
                        assert forall|t: int| 0 <= t < rest.len() implies 0 <= #[trigger] rest[t] < program.len() by {
                            assert(rest[t] == path[t + 1]);
                        }
                        assert forall|t: int| 0 <= t < rest.len() - 1 implies #[trigger] program_successors(
                            program,
                            labels,
                            rest[t],
                        ).contains(rest[t + 1] as nat) by {
                            assert(rest[t] == path[t + 1] && rest[t + 1] == path[t + 2]);
                        }
                    }
                    assert(reads_before_write(program, rest, r)) by {
                        assert(rest.last() == path.last());
                        assert forall|t: int| 0 <= t < rest.len() - 1 implies program[#[trigger] rest[t]].writes() != Some(r) by {
                            assert(rest[t] == path[t + 1]);
                        }
                    }
                    assert(live_at(program, labels, rest[0], r));
                    assert(program_successors(program, labels, i).contains(path[1] as nat));
                    assert(w[i].out_live.contains(r));
                    assert(program[path[0]].writes() != Some(r));
                } else {
                    assert(path.last() == i);
                }
            }
        }
        assert(p[i].in_live =~= w[i].in_live);
    }
    assert(p =~= w);
}

/// The least fixpoint of the dataflow equations is liveness itself: a register
/// is live on entry to a point exactly when some walk from there reads it
/// before overwriting it, and live on exit exactly when that holds at some
/// successor.
pub proof fn lemma_least_fixpoint_is_liveness(
    program: Seq<Instruction>,
    labels: Map<LabelName, nat>,
    facts: Seq<LiveSets>,
)
    requires
        is_least_fixpoint(program, labels, facts),
    ensures
        facts == live_by_walks(program, labels),
{
    let w = live_by_walks(program, labels);
    lemma_walks_are_fixpoint(program, labels);
    assert(below(facts, w));
    assert forall|i: int| 0 <= i < program.len() implies #[trigger] facts[i] == w[i] by {
        assert forall|r: RegisterName| w[i].in_live.contains(r) implies facts[i].in_live.contains(r) by {
            let path = choose|path: Seq<int>|
                is_path(program, labels, path) && path[0] == i && #[trigger] reads_before_write(
                    program,
                    path,
                    r,
                );
            lemma_walks_within_fixpoint(program, labels, facts, path, r);
        }
        assert(facts[i].in_live =~= w[i].in_live);
        assert(facts[i] == pass(program, labels, facts)[i]);
        assert forall|r: RegisterName| w[i].out_live.contains(r) implies facts[i].out_live.contains(r) by {
            let s = choose|s: nat|
                #[trigger] program_successors(program, labels, i).contains(s) && s < program.len()
                    && live_at(program, labels, s as int, r);
            let path = choose|path: Seq<int>|
                is_path(program, labels, path) && path[0] == s as int && #[trigger] reads_before_write(
                    program,
                    path,
                    r,
                );
            lemma_walks_within_fixpoint(program, labels, facts, path, r);
        }
        assert(facts[i].out_live =~= w[i].out_live);
    }
    assert(facts =~= w);
}

} // verus!
