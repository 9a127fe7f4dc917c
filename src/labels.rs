use std::collections::HashMap;
use vstd::prelude::*;

use crate::instructions::Instruction;
use crate::registers::LabelName;
use crate::MachineError;

verus! {

broadcast use {vstd::std_specs::hash::group_hash_axioms, LabelName::lemma_index_determines};

/// Point `i` of the program is the instruction `Label(l)`.
pub open spec fn declares(program: Seq<Instruction>, i: int, l: LabelName) -> bool {
    0 <= i < program.len() && program[i] == Instruction::Label(l)
}

/// Point `j` declares a label that an earlier point already declared.
pub open spec fn redeclares(program: Seq<Instruction>, j: int) -> bool {
    exists|i: int, l: LabelName| i < j && declares(program, i, l) && declares(program, j, l)
}

/// No label is declared twice.
pub open spec fn labels_unique(program: Seq<Instruction>) -> bool {
    forall|j: int| !redeclares(program, j)
}

/// Point `j` is the first, in program order, to declare a label a second time.
pub open spec fn is_first_redeclaration(program: Seq<Instruction>, j: int) -> bool {
    redeclares(program, j) && forall|k: int| k < j ==> !redeclares(program, k)
}

/// The point that declares each label of the program.
pub open spec fn label_positions(program: Seq<Instruction>) -> Map<LabelName, nat> {
    Map::new(
        |l: LabelName| exists|i: int| declares(program, i, l),
        |l: LabelName| (choose|i: int| declares(program, i, l)) as nat,
    )
}

/// The error for a program that declares a label twice: it names the label of
/// the first redeclaration.
pub open spec fn duplicate_label_error(program: Seq<Instruction>) -> MachineError {
    let j = choose|j: int| is_first_redeclaration(program, j);
    MachineError::DuplicateLabel(program[j]->Label_0)
}

/// At most one point is the first redeclaration.
pub proof fn lemma_first_redeclaration_unique(program: Seq<Instruction>, j: int, k: int)
    requires
        is_first_redeclaration(program, j),
        is_first_redeclaration(program, k),
    ensures
        j == k,
{
    if j < k {
        assert(!redeclares(program, j));
    } else if k < j {
        assert(!redeclares(program, k));
    }
}

/// In a program without duplicates, a label's declaring point is the one
/// `label_positions` gives.
pub proof fn lemma_unique_position(program: Seq<Instruction>, i: int, l: LabelName)
    requires
        labels_unique(program),
        declares(program, i, l),
    ensures
        label_positions(program).contains_key(l),
        label_positions(program)[l] == i,
{
    let c = choose|c: int| declares(program, c, l);
    if c < i {
        assert(redeclares(program, i));
    } else if i < c {
        assert(redeclares(program, c));
    }
}

/// Where each label stands in a program.
pub struct LabelIndex {
    positions: HashMap<usize, usize>,
}

impl View for LabelIndex {
    type V = Map<LabelName, nat>;

    closed spec fn view(&self) -> Map<LabelName, nat> {
        Map::new(
            |l: LabelName| self.positions@.contains_key(l.index()),
            |l: LabelName| self.positions@[l.index()] as nat,
        )
    }
}

impl LabelIndex {
    pub fn new() -> (r: Self)
        ensures
            r@ == Map::<LabelName, nat>::empty(),
    {
        let r = LabelIndex { positions: HashMap::new() };
        assert(r@ =~= Map::<LabelName, nat>::empty());
        r
    }

    /// Records that `label` stands at `point`.
    pub fn insert(&mut self, label: LabelName, point: usize)
        ensures
            final(self)@ == old(self)@.insert(label, point as nat),
    {
        self.positions.insert(label.value(), point);
        assert(self@ =~= old(self)@.insert(label, point as nat));
    }

    /// The point where `label` stands, if it is recorded.
    pub fn get(&self, label: LabelName) -> (r: Option<usize>)
        ensures
            match r {
                Some(p) => self@.contains_key(label) && self@[label] == p,
                None => !self@.contains_key(label),
            },
    {
        match self.positions.get(&label.value()) {
            Some(p) => Some(*p),
            None => None,
        }
    }
}

/// Builds the index of a program's labels in one forward scan. A label
/// declared twice is an error that names the first redeclaration.
pub fn create_label_indices(program: &[Instruction]) -> (r: Result<LabelIndex, MachineError>)
    ensures
        match r {
            Ok(idx) => labels_unique(program@) && idx@ == label_positions(program@),
            Err(e) => !labels_unique(program@) && e == duplicate_label_error(program@),
        },
{
    let mut idx = LabelIndex::new();
    let mut i: usize = 0;
    while i < program.len()
        invariant
            0 <= i <= program.len(),
            forall|j: int| j < i ==> !redeclares(program@, j),
            forall|l: LabelName|
                idx@.contains_key(l) <==> exists|k: int| k < i && declares(program@, k, l),
            forall|l: LabelName| #[trigger]
                idx@.contains_key(l) ==> idx@[l] < i && declares(program@, idx@[l] as int, l),
        decreases program.len() - i,
    {
        if let Instruction::Label(l) = program[i] {
            match idx.get(l) {
                Some(earlier) => {
                    proof {
                        assert(declares(program@, earlier as int, l));
                        assert(declares(program@, i as int, l));
                        assert(redeclares(program@, i as int));
                        assert(is_first_redeclaration(program@, i as int));
                        let j = choose|j: int| is_first_redeclaration(program@, j);
                        lemma_first_redeclaration_unique(program@, i as int, j);
                    }
                    return Err(MachineError::DuplicateLabel(l));
                },
                None => {
                    proof {
                        assert forall|k: int| !(k < i && declares(program@, k, l)) by {
                            if k < i && declares(program@, k, l) {
                                assert(idx@.contains_key(l));
                            }
                        }
                        assert(!redeclares(program@, i as int));
                    }
                    idx.insert(l, i);
                    proof {
                        assert forall|m: LabelName|
                            idx@.contains_key(m) <==> exists|k: int|
                                k < i + 1 && declares(program@, k, m) by {
                            if m == l {
                                assert(declares(program@, i as int, l));
                            } else if exists|k: int| k < i + 1 && declares(program@, k, m) {
                                let k = choose|k: int| k < i + 1 && declares(program@, k, m);
                                assert(k < i);
                            }
                        }
                    }
                },
            }
        } else {
            proof {
                assert(!redeclares(program@, i as int));
                assert forall|m: LabelName|
                    idx@.contains_key(m) <==> exists|k: int| k < i + 1 && declares(program@, k, m) by {
                    if exists|k: int| k < i + 1 && declares(program@, k, m) {
                        let k = choose|k: int| k < i + 1 && declares(program@, k, m);
                        assert(k < i);
                    }
                }
            }
        }
        i = i + 1;
    }
    proof {
        assert forall|j: int| !redeclares(program@, j) by {
            if j >= program.len() {
                assert(!declares(program@, j, program@[0]->Label_0));
            }
        }
        assert forall|l: LabelName| #[trigger] idx@.contains_key(l) implies idx@[l]
            == label_positions(program@)[l] by {
            lemma_unique_position(program@, idx@[l] as int, l);
        }
        assert(idx@ =~= label_positions(program@));
    }
    Ok(idx)
}

} // verus!
