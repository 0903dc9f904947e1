//! The text of a lowered program: its declared variables in ascending order,
//! then its blocks in ascending order of label.

use vstd::prelude::*;
use vstd::string::*;
use crate::ast::BOp;
use crate::ident::{decimal, decimal_text};
use crate::tir::{Block, BlockView, Instruction, InstructionView, Program, Terminator, TerminatorView};

verus! {

/// The name of an operator.
pub open spec fn op_text(op: BOp) -> Seq<char> {
    match op {
        BOp::Add => "add"@,
        BOp::Sub => "sub"@,
        BOp::Mul => "mul"@,
        BOp::Div => "div"@,
    }
}

/// An integer in decimal, with a minus sign before a negative one.
pub open spec fn int_text(n: int) -> Seq<char> {
    if n < 0 {
        "-"@ + decimal((-n) as nat)
    } else {
        decimal(n as nat)
    }
}

/// The text of an instruction.
pub open spec fn instruction_text(i: InstructionView) -> Seq<char> {
    match i {
        InstructionView::Copy { dst, src } => dst + " = $copy "@ + src,
        InstructionView::Const { dst, value } => dst + " = $const "@ + int_text(value as int),
        InstructionView::Arith { op, dst, lhs, rhs } => dst + " = $arith "@ + op_text(op) + " "@ + lhs
            + " "@ + rhs,
        InstructionView::Read(x) => "$read "@ + x,
        InstructionView::Print(x) => "$print "@ + x,
    }
}

/// The text of a terminator.
pub open spec fn terminator_text(t: TerminatorView) -> Seq<char> {
    match t {
        TerminatorView::Exit => "$exit"@,
        TerminatorView::Jump(l) => "$jump "@ + l,
        TerminatorView::Branch { guard, if_true, if_false } => "$branch "@ + guard + " "@ + if_true
            + " "@ + if_false,
    }
}

/// The lines of instructions, each indented by four spaces.
pub open spec fn instructions_text(insn: Seq<InstructionView>) -> Seq<char>
    decreases insn.len(),
{
    if insn.len() == 0 {
        Seq::empty()
    } else {
        instructions_text(insn.drop_last()) + "    "@ + instruction_text(insn.last()) + "\n"@
    }
}

/// The text of a block: its label and a colon, its instructions, its
/// terminator.
pub open spec fn block_text(label: Seq<char>, b: BlockView) -> Seq<char> {
    label + ":\n"@ + instructions_text(b.insn) + "    "@ + terminator_text(b.term) + "\n"@
}

/// The declared variables, each followed by a comma and a space.
pub open spec fn names_text(names: Seq<Seq<char>>) -> Seq<char>
    decreases names.len(),
{
    if names.len() == 0 {
        Seq::empty()
    } else {
        names_text(names.drop_last()) + names.last() + ", "@
    }
}

/// The texts of the blocks with the given labels, in that order.
pub open spec fn blocks_text(labels: Seq<Seq<char>>, blocks: Map<Seq<char>, BlockView>) -> Seq<char>
    decreases labels.len(),
{
    if labels.len() == 0 {
        Seq::empty()
    } else {
        blocks_text(labels.drop_last(), blocks) + block_text(labels.last(), blocks[labels.last()])
    }
}

/// The text of a program: a line with the declared variables, then the
/// blocks.
pub open spec fn program_text(
    names: Seq<Seq<char>>,
    labels: Seq<Seq<char>>,
    blocks: Map<Seq<char>, BlockView>,
) -> Seq<char> {
    "let "@ + names_text(names) + "\n"@ + blocks_text(labels, blocks)
}

impl BOp {
    /// The operator's name.
    pub fn to_text(&self) -> (r: &'static str)
        ensures
            r@ == op_text(*self),
    {
        match self {
            BOp::Add => "add",
            BOp::Sub => "sub",
            BOp::Mul => "mul",
            BOp::Div => "div",
        }
    }
}

/// Writes an integer in decimal.
pub fn int_to_text(n: i64) -> (r: String)
    ensures
        r@ == int_text(n as int),
{
    if n < 0 {
        let magnitude: u128 = (-(n as i128)) as u128;
        let mut s = String::from_str("-");
        s.append(decimal_text(magnitude).as_str());
        s
    } else {
        decimal_text(n as u128)
    }
}

impl Instruction {
    /// The instruction as text.
    pub fn to_text(&self) -> (r: String)
        ensures
            r@ == instruction_text(self@),
    {
        match self {
            Instruction::Copy { dst, src } => {
                let mut s = String::from_str(dst.as_str());
                s.append(" = $copy ");
                s.append(src.as_str());
                s
            },
            Instruction::Const { dst, value } => {
                let mut s = String::from_str(dst.as_str());
                s.append(" = $const ");
                s.append(int_to_text(*value).as_str());
                s
            },
            Instruction::Arith { op, dst, lhs, rhs } => {
                let mut s = String::from_str(dst.as_str());
                s.append(" = $arith ");
                s.append(op.to_text());
                s.append(" ");
                s.append(lhs.as_str());
                s.append(" ");
                s.append(rhs.as_str());
                s
            },
            Instruction::Read(x) => {
                let mut s = String::from_str("$read ");
                s.append(x.as_str());
                s
            },
            Instruction::Print(x) => {
                let mut s = String::from_str("$print ");
                s.append(x.as_str());
                s
            },
        }
    }
}

impl Terminator {
    /// The terminator as text.
    pub fn to_text(&self) -> (r: String)
        ensures
            r@ == terminator_text(self@),
    {
        match self {
            Terminator::Exit => String::from_str("$exit"),
            Terminator::Jump(l) => {
                let mut s = String::from_str("$jump ");
                s.append(l.as_str());
                s
            },
            Terminator::Branch { guard, if_true, if_false } => {
                let mut s = String::from_str("$branch ");
                s.append(guard.as_str());
                s.append(" ");
                s.append(if_true.as_str());
                s.append(" ");
                s.append(if_false.as_str());
                s
            },
        }
    }
}

impl Block {
    /// Writes the block under its label at the end of the text.
    pub fn write_text(&self, label: &str, text: &mut String)
        ensures
            final(text)@ == old(text)@ + block_text(label@, self@),
    {
        let ghost start = text@;
        let ghost insn = self@.insn;
        let mut body = String::from_str(label);
        body.append(":\n");
        let ghost head = body@;
        let mut i: usize = 0;
        while i < self.insn.len()
            invariant
                i <= self.insn.len(),
                insn == self@.insn,
                body@ == head + instructions_text(insn.take(i as int)),
            decreases self.insn.len() - i,
        {
            proof {
                assert(insn.take(i + 1).drop_last() =~= insn.take(i as int));
                assert(insn.take(i + 1).last() == self.insn[i as int]@);
            }
            let ghost lines = instructions_text(insn.take(i as int));
            let line = self.insn[i].to_text();
            body.append("    ");
            body.append(line.as_str());
            body.append("\n");
            assert(body@ =~= head + (lines + "    "@ + line@ + "\n"@));
            i += 1;
        }
        assert(insn.take(i as int) =~= insn);
        body.append("    ");
        body.append(self.term.to_text().as_str());
        body.append("\n");
        text.append(body.as_str());
        assert(body@ =~= block_text(label@, self@));
    }
}

impl Program {
    /// The program as text: `let` and the declared variables in ascending
    /// order, then the blocks in ascending order of label.
    pub fn to_text(&self) -> (r: String)
        requires
            self.declared.wf(),
            self.blocks.wf(),
        ensures
            r@ == program_text(self.declared.names(), self.blocks.labels(), self.blocks@),
    {
        let ghost names = self.declared.names();
        let ghost labels = self.blocks.labels();
        let mut decls = String::new();
        let mut i: usize = 0;
        while i < self.declared.len()
            invariant
                i <= names.len(),
                names == self.declared.names(),
                decls@ == names_text(names.take(i as int)),
            decreases names.len() - i,
        {
            proof {
                assert(names.take(i + 1).drop_last() =~= names.take(i as int));
                assert(names.take(i + 1).last() == names[i as int]);
            }
            decls.append(self.declared.get(i).as_str());
            decls.append(", ");
            i += 1;
        }
        assert(names.take(i as int) =~= names);
        let mut body = String::new();
        let mut k: usize = 0;
        while k < self.blocks.len()
            invariant
                k <= labels.len(),
                self.blocks.wf(),
                labels == self.blocks.labels(),
                body@ == blocks_text(labels.take(k as int), self.blocks@),
            decreases labels.len() - k,
        {
            proof {
                assert(labels.take(k + 1).drop_last() =~= labels.take(k as int));
                assert(labels.take(k + 1).last() == labels[k as int]);
            }
            self.blocks.block_at(k).write_text(self.blocks.label_at(k).as_str(), &mut body);
            k += 1;
        }
        assert(labels.take(k as int) =~= labels);
        let mut text = String::from_str("let ");
        text.append(decls.as_str());
        text.append("\n");
        text.append(body.as_str());
        text
    }
}

} // verus!
