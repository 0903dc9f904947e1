//! The intermediate representation: three-address instructions in basic
//! blocks, each block closed by one terminator.

use vstd::prelude::*;
use crate::ast::BOp;
use crate::ident::{lemma_name_lt_irreflexive, Id};
use crate::idset::{ascending, find_slot, lemma_ascending_no_duplicates, names_of, IdSet};

verus! {

/// An instruction that does not end a block.
#[derive(Debug, PartialEq, Eq)]
pub enum Instruction {
    Copy { dst: Id, src: Id },
    Const { dst: Id, value: i64 },
    Arith { op: BOp, dst: Id, lhs: Id, rhs: Id },
    Read(Id),
    Print(Id),
}

/// What an instruction is, over names.
pub enum InstructionView {
    Copy { dst: Seq<char>, src: Seq<char> },
    Const { dst: Seq<char>, value: i64 },
    Arith { op: BOp, dst: Seq<char>, lhs: Seq<char>, rhs: Seq<char> },
    Read(Seq<char>),
    Print(Seq<char>),
}

impl View for Instruction {
    type V = InstructionView;

    open spec fn view(&self) -> InstructionView {
        match *self {
            Instruction::Copy { dst, src } => InstructionView::Copy { dst: dst@, src: src@ },
            Instruction::Const { dst, value } => InstructionView::Const { dst: dst@, value },
            Instruction::Arith { op, dst, lhs, rhs } => InstructionView::Arith {
                op,
                dst: dst@,
                lhs: lhs@,
                rhs: rhs@,
            },
            Instruction::Read(x) => InstructionView::Read(x@),
            Instruction::Print(x) => InstructionView::Print(x@),
        }
    }
}

impl Clone for Instruction {
    fn clone(&self) -> (r: Self)
        ensures
            r@ == self@,
    {
        match self {
            Instruction::Copy { dst, src } => Instruction::Copy { dst: dst.clone(), src: src.clone() },
            Instruction::Const { dst, value } => Instruction::Const { dst: dst.clone(), value: *value },
            Instruction::Arith { op, dst, lhs, rhs } => Instruction::Arith {
                op: *op,
                dst: dst.clone(),
                lhs: lhs.clone(),
                rhs: rhs.clone(),
            },
            Instruction::Read(x) => Instruction::Read(x.clone()),
            Instruction::Print(x) => Instruction::Print(x.clone()),
        }
    }
}

/// The instruction that ends a block and says where control goes.
#[derive(Debug, PartialEq, Eq)]
pub enum Terminator {
    Exit,
    Jump(Id),
    Branch { guard: Id, if_true: Id, if_false: Id },
}

/// What a terminator is, over names.
pub enum TerminatorView {
    Exit,
    Jump(Seq<char>),
    Branch { guard: Seq<char>, if_true: Seq<char>, if_false: Seq<char> },
}

impl TerminatorView {
    /// Whether control may go to the label from here.
    pub open spec fn targets(self, label: Seq<char>) -> bool {
        match self {
            TerminatorView::Exit => false,
            TerminatorView::Jump(l) => l == label,
            TerminatorView::Branch { guard, if_true, if_false } => if_true == label || if_false == label,
        }
    }
}

impl View for Terminator {
    type V = TerminatorView;

    open spec fn view(&self) -> TerminatorView {
        match *self {
            Terminator::Exit => TerminatorView::Exit,
            Terminator::Jump(l) => TerminatorView::Jump(l@),
            Terminator::Branch { guard, if_true, if_false } => TerminatorView::Branch {
                guard: guard@,
                if_true: if_true@,
                if_false: if_false@,
            },
        }
    }
}

impl Clone for Terminator {
    fn clone(&self) -> (r: Self)
        ensures
            r@ == self@,
    {
        match self {
            Terminator::Exit => Terminator::Exit,
            Terminator::Jump(l) => Terminator::Jump(l.clone()),
            Terminator::Branch { guard, if_true, if_false } => Terminator::Branch {
                guard: guard.clone(),
                if_true: if_true.clone(),
                if_false: if_false.clone(),
            },
        }
    }
}

/// The views of a sequence of instructions.
pub open spec fn instruction_views(insn: Seq<Instruction>) -> Seq<InstructionView> {
    insn.map_values(|i: Instruction| i@)
}

/// A basic block: straight-line instructions, then one terminator.
#[derive(Debug, PartialEq, Eq)]
pub struct Block {
    pub insn: Vec<Instruction>,
    pub term: Terminator,
}

/// What a block is, over names.
pub struct BlockView {
    pub insn: Seq<InstructionView>,
    pub term: TerminatorView,
}

impl View for Block {
    type V = BlockView;

    open spec fn view(&self) -> BlockView {
        BlockView { insn: instruction_views(self.insn@), term: self.term@ }
    }
}

/// The blocks of a program by label, kept in ascending order of label.
#[derive(Debug)]
pub struct BlockMap {
    labels: Vec<Id>,
    blocks: Vec<Block>,
}

impl View for BlockMap {
    type V = Map<Seq<char>, BlockView>;

    closed spec fn view(&self) -> Map<Seq<char>, BlockView> {
        Map::new(
            |l: Seq<char>| names_of(self.labels@).contains(l),
            |l: Seq<char>| self.blocks[names_of(self.labels@).index_of(l)]@,
        )
    }
}

impl BlockMap {
    /// The labels in ascending order.
    pub closed spec fn labels(&self) -> Seq<Seq<char>> {
        names_of(self.labels@)
    }

    /// The labels stand in ascending order, each once, and each has its block.
    pub closed spec fn wf(&self) -> bool {
        &&& ascending(names_of(self.labels@))
        &&& self.labels.len() == self.blocks.len()
    }

    /// The map holds the labels of its ascending sequence, and no others.
    pub proof fn lemma_labels(&self)
        requires
            self.wf(),
        ensures
            ascending(self.labels()),
            self@.dom() == self.labels().to_set(),
            self@.dom().finite(),
            self@.dom().len() == self.labels().len(),
    {
        let names = self.labels();
        assert(self@.dom() =~= names.to_set());
        vstd::seq_lib::seq_to_set_is_finite(names);
        assert(names.no_duplicates()) by {
            assert forall|i: int, j: int| 0 <= i < names.len() && 0 <= j < names.len() && i != j implies names[i]
                != names[j] by {
                if names[i] == names[j] {
                    lemma_ascending_no_duplicates(names, i, j);
                }
            }
        }
        names.unique_seq_to_set();
    }

    proof fn lemma_index(&self, i: int)
        requires
            self.wf(),
            0 <= i < self.labels.len(),
        ensures
            self@.dom().contains(self.labels[i]@),
            self@[self.labels[i]@] == self.blocks[i]@,
    {
        let names = names_of(self.labels@);
        assert(names[i] == self.labels[i]@);
        let j = names.index_of(names[i]);
        lemma_ascending_no_duplicates(names, i, j);
    }

    /// The map without blocks.
    pub fn new() -> (r: BlockMap)
        ensures
            r.wf(),
            r@ == Map::<Seq<char>, BlockView>::empty(),
    {
        let r = BlockMap { labels: Vec::new(), blocks: Vec::new() };
        assert(r@ =~= Map::<Seq<char>, BlockView>::empty());
        r
    }

    /// The number of blocks.
    pub fn len(&self) -> (r: usize)
        requires
            self.wf(),
        ensures
            r == self.labels().len(),
            r == self@.dom().len(),
    {
        proof {
            self.lemma_labels();
        }
        self.labels.len()
    }

    /// The label at the given place of the ascending order.
    pub fn label_at(&self, i: usize) -> (r: &Id)
        requires
            self.wf(),
            i < self.labels().len(),
        ensures
            r@ == self.labels()[i as int],
    {
        &self.labels[i]
    }

    /// The block at the given place of the ascending order of labels.
    pub fn block_at(&self, i: usize) -> (r: &Block)
        requires
            self.wf(),
            i < self.labels().len(),
        ensures
            self@.dom().contains(self.labels()[i as int]),
            r@ == self@[self.labels()[i as int]],
    {
        proof {
            self.lemma_index(i as int);
        }
        &self.blocks[i]
    }

    /// Whether a block has the label.
    pub fn contains_key(&self, label: &Id) -> (r: bool)
        requires
            self.wf(),
        ensures
            r == self@.dom().contains(label@),
    {
        let (_, found) = find_slot(&self.labels, label);
        found
    }

    /// The block with the label, if there is one.
    pub fn get(&self, label: &Id) -> (r: Option<&Block>)
        requires
            self.wf(),
        ensures
            match r {
                Some(b) => self@.dom().contains(label@) && b@ == self@[label@],
                None => !self@.dom().contains(label@),
            },
    {
        let (k, found) = find_slot(&self.labels, label);
        if found {
            proof {
                self.lemma_index(k as int);
            }
            Some(&self.blocks[k])
        } else {
            None
        }
    }

    /// Puts the block under the label, in place of the block that the label
    /// had, if it had one.
    pub fn insert(&mut self, label: Id, block: Block)
        requires
            old(self).wf(),
        ensures
            final(self).wf(),
            final(self)@ == old(self)@.insert(label@, block@),
    {
        let (k, found) = find_slot(&self.labels, &label);
        let ghost before = names_of(self.labels@);
        if found {
            self.blocks.set(k, block);
            proof {
                assert forall|l: Seq<char>| before.contains(l) implies #[trigger] self@[l] == old(self)@.insert(
                    label@,
                    block@,
                )[l] by {
                    let i = before.index_of(l);
                    if l == label@ {
                        lemma_ascending_no_duplicates(before, i, k as int);
                    } else {
                        assert(before[k as int] == label@);
                    }
                }
                assert(self@ =~= old(self)@.insert(label@, block@));
            }
        } else {
            self.labels.insert(k, label);
            self.blocks.insert(k, block);
            proof {
                let after = names_of(self.labels@);
                assert(after =~= before.insert(k as int, label@));
                assert forall|i: int, j: int| 0 <= i < j < after.len() implies crate::ident::name_lt(
                    #[trigger] after[i],
                    #[trigger] after[j],
                ) by {
                    if i < k && j > k {
                        assert(crate::ident::name_lt(before[i], before[j - 1]));
                    } else if i < k && j < k {
                        assert(crate::ident::name_lt(before[i], before[j]));
                    } else if i > k {
                        assert(crate::ident::name_lt(before[i - 1], before[j - 1]));
                    } else if i == k {
                        assert(before[j - 1] == old(self).labels[j - 1]@);
                    } else {
                        assert(before[i] == old(self).labels[i]@);
                    }
                }
                lemma_name_lt_irreflexive(label@);
                assert forall|l: Seq<char>| after.contains(l) <==> before.contains(l) || l == label@ by {
                    if after.contains(l) {
                        let i = choose|i: int| 0 <= i < after.len() && after[i] == l;
                        if i < k {
                            assert(before[i] == l);
                        } else if i > k {
                            assert(before[i - 1] == l);
                        }
                    }
                    if before.contains(l) {
                        let i = choose|i: int| 0 <= i < before.len() && before[i] == l;
                        if i < k {
                            assert(after[i] == l);
                        } else {
                            assert(after[i + 1] == l);
                        }
                    }
                    if l == label@ {
                        assert(after[k as int] == l);
                    }
                }
                assert forall|l: Seq<char>| after.contains(l) implies #[trigger] self@[l] == old(self)@.insert(
                    label@,
                    block@,
                )[l] by {
                    let j = after.index_of(l);
                    if l == label@ {
                        lemma_ascending_no_duplicates(after, j, k as int);
                    } else {
                        let i = before.index_of(l);
                        let i2 = if i < k { i } else { i + 1 };
                        assert(after[i2] == l);
                        lemma_ascending_no_duplicates(after, j, i2);
                    }
                }
                assert(self@ =~= old(self)@.insert(label@, block@));
            }
        }
    }
}

/// Every label that a block's terminator names is the label of a block.
pub open spec fn closed_graph(blocks: Map<Seq<char>, BlockView>) -> bool {
    forall|l: Seq<char>, m: Seq<char>|
        blocks.dom().contains(l) && #[trigger] blocks[l].term.targets(m) ==> blocks.dom().contains(m)
}

/// A lowered program.
#[derive(Debug)]
pub struct Program {
    /// The variables that the source names.
    pub declared: IdSet,
    /// The basic blocks by label.
    pub blocks: BlockMap,
}

/// What a lowered program is, over names.
pub struct ProgramView {
    pub declared: Set<Seq<char>>,
    pub blocks: Map<Seq<char>, BlockView>,
}

impl View for Program {
    type V = ProgramView;

    open spec fn view(&self) -> ProgramView {
        ProgramView { declared: self.declared@, blocks: self.blocks@ }
    }
}

} // verus!
