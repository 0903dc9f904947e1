//! Where the operands of a lowered program come from: each is a declared
//! variable or was written earlier in the same block.

use vstd::prelude::*;
use crate::ast::{Expr, Stmt};
use crate::cfg::{assemble, is_last_run, lemma_last_run_exists, lemma_runs_closed, run_block, runs_of, stream_fault, RunView};
use crate::ident::{entry_name, label_name};
use crate::lower::{lin_arith, lin_const, lin_expr, lin_program, lin_stmt, lin_stmts, EntryView, LowerView};
use crate::tir::{closed_graph, BlockView, InstructionView, ProgramView, TerminatorView};

verus! {

impl InstructionView {
    /// The name that the instruction writes, if it writes one.
    pub open spec fn writes(self) -> Option<Seq<char>> {
        match self {
            InstructionView::Copy { dst, src } => Some(dst),
            InstructionView::Const { dst, value } => Some(dst),
            InstructionView::Arith { op, dst, lhs, rhs } => Some(dst),
            InstructionView::Read(x) => Some(x),
            InstructionView::Print(x) => None,
        }
    }

    /// Whether the instruction reads the name as an operand.
    pub open spec fn uses(self, o: Seq<char>) -> bool {
        match self {
            InstructionView::Copy { dst, src } => src == o,
            InstructionView::Const { dst, value } => false,
            InstructionView::Arith { op, dst, lhs, rhs } => lhs == o || rhs == o,
            InstructionView::Read(x) => false,
            InstructionView::Print(x) => x == o,
        }
    }
}

impl TerminatorView {
    /// Whether the terminator reads the name as an operand.
    pub open spec fn uses(self, o: Seq<char>) -> bool {
        match self {
            TerminatorView::Branch { guard, if_true, if_false } => guard == o,
            _ => false,
        }
    }
}

/// Whether one of the instructions writes the name.
pub open spec fn written_in(insn: Seq<InstructionView>, o: Seq<char>) -> bool {
    exists|j: int| 0 <= j < insn.len() && (#[trigger] insn[j]).writes() == Some(o)
}

/// The names that the instructions write.
pub open spec fn written_set(insn: Seq<InstructionView>) -> Set<Seq<char>> {
    Set::new(|o: Seq<char>| written_in(insn, o))
}

/// Each operand of the instructions is declared or written by an earlier one
/// of them.
pub open spec fn instructions_defined(insn: Seq<InstructionView>, declared: Set<Seq<char>>) -> bool {
    forall|i: int, o: Seq<char>|
        0 <= i < insn.len() && #[trigger] insn[i].uses(o) ==> declared.contains(o) || written_in(
            insn.take(i),
            o,
        )
}

impl BlockView {
    /// Each operand of the block is declared or written earlier in the block.
    pub open spec fn operands_defined(self, declared: Set<Seq<char>>) -> bool {
        &&& instructions_defined(self.insn, declared)
        &&& forall|o: Seq<char>| #[trigger]
            self.term.uses(o) ==> declared.contains(o) || written_in(self.insn, o)
    }
}

impl ProgramView {
    /// Each operand of each block is declared or written earlier in its
    /// block.
    pub open spec fn operands_defined(self) -> bool {
        forall|l: Seq<char>| #[trigger]
            self.blocks.dom().contains(l) ==> self.blocks[l].operands_defined(self.declared)
    }
}

impl ProgramView {
    /// What every lowered program is: it has the block `entry`, every label
    /// that a terminator names is the label of a block, and each operand is
    /// declared or written earlier in its block.
    pub open spec fn well_formed(self) -> bool {
        &&& self.blocks.dom().contains(entry_name())
        &&& closed_graph(self.blocks)
        &&& self.operands_defined()
    }
}

/// Whether the entry reads the name as an operand.
pub open spec fn entry_uses(e: EntryView, o: Seq<char>) -> bool {
    match e {
        EntryView::Label(l) => false,
        EntryView::Inner(i) => i.uses(o),
        EntryView::Term(t) => t.uses(o),
    }
}

/// The names written since the last marker of the stream.
pub open spec fn written_since_label(stream: Seq<EntryView>) -> Set<Seq<char>>
    decreases stream.len(),
{
    if stream.len() == 0 {
        Set::empty()
    } else {
        match stream.last() {
            EntryView::Label(l) => Set::empty(),
            EntryView::Inner(i) => match i.writes() {
                Some(o) => written_since_label(stream.drop_last()).insert(o),
                None => written_since_label(stream.drop_last()),
            },
            EntryView::Term(t) => written_since_label(stream.drop_last()),
        }
    }
}

/// Each operand of the stream is declared or written since the marker before
/// it.
pub open spec fn uses_defined(stream: Seq<EntryView>, declared: Set<Seq<char>>) -> bool {
    forall|i: int, o: Seq<char>|
        0 <= i < stream.len() && #[trigger] entry_uses(stream[i], o) ==> declared.contains(o)
            || written_since_label(stream.take(i)).contains(o)
}

proof fn lemma_uses_more(stream: Seq<EntryView>, declared: Set<Seq<char>>, more: Set<Seq<char>>)
    requires
        uses_defined(stream, declared),
        declared.subset_of(more),
    ensures
        uses_defined(stream, more),
{
}

proof fn lemma_uses_push(stream: Seq<EntryView>, declared: Set<Seq<char>>, e: EntryView)
    requires
        uses_defined(stream, declared),
        forall|o: Seq<char>| #[trigger]
            entry_uses(e, o) ==> declared.contains(o) || written_since_label(stream).contains(o),
    ensures
        uses_defined(stream.push(e), declared),
        !(e is Label) ==> written_since_label(stream).subset_of(written_since_label(stream.push(e))),
        e is Inner && e->Inner_0.writes() is Some ==> written_since_label(stream.push(e)).contains(
            e->Inner_0.writes()->0,
        ),
{
    let after = stream.push(e);
    assert(after.drop_last() =~= stream);
    assert forall|i: int, o: Seq<char>|
        0 <= i < after.len() && #[trigger] entry_uses(after[i], o) implies declared.contains(o)
        || written_since_label(after.take(i)).contains(o) by {
        if i < stream.len() {
            assert(after.take(i) =~= stream.take(i));
            assert(entry_uses(stream[i], o));
        } else {
            assert(after.take(i) =~= stream);
        }
    }
}

/// Lowering an expression keeps every operand defined, and the name it gives
/// is declared or written since the last marker.
pub proof fn lemma_uses_expr(e: Expr, s: LowerView)
    requires
        uses_defined(s.stream, s.declared),
    ensures
        uses_defined(lin_expr(e, s).0.stream, lin_expr(e, s).0.declared),
        s.declared.subset_of(lin_expr(e, s).0.declared),
        written_since_label(s.stream).subset_of(written_since_label(lin_expr(e, s).0.stream)),
        lin_expr(e, s).0.declared.contains(lin_expr(e, s).1) || written_since_label(
            lin_expr(e, s).0.stream,
        ).contains(lin_expr(e, s).1),
    decreases e,
{
    match e {
        Expr::Var(x) => {
            lemma_uses_more(s.stream, s.declared, s.declared.insert(x@));
        },
        Expr::Const(n) => {
            lemma_uses_push(s.stream, s.declared, lin_const(n, s).0.stream.last());
        },
        Expr::BinOp { op, lhs, rhs } => {
            lemma_uses_expr(*lhs, s);
            let (s1, lv) = lin_expr(*lhs, s);
            lemma_uses_expr(*rhs, s1);
            let (s2, rv) = lin_expr(*rhs, s1);
            lemma_uses_push(s2.stream, s2.declared, lin_arith(op, lv, rv, s2).0.stream.last());
        },
        Expr::Negate(inner) => {
            let (s1, zero) = lin_const(0, s);
            lemma_uses_push(s.stream, s.declared, s1.stream.last());
            lemma_uses_expr(*inner, s1);
            let (s2, rv) = lin_expr(*inner, s1);
            lemma_uses_push(s2.stream, s2.declared, lin_arith(crate::ast::BOp::Sub, zero, rv, s2).0.stream.last());
        },
    }
}

/// Lowering a statement keeps every operand defined.
pub proof fn lemma_uses_stmt(st: Stmt, s: LowerView)
    requires
        uses_defined(s.stream, s.declared),
    ensures
        uses_defined(lin_stmt(st, s).stream, lin_stmt(st, s).declared),
    decreases st,
{
    match st {
        Stmt::Assign(x, e) => {
            lemma_uses_expr(e, s);
            let (s1, v) = lin_expr(e, s);
            lemma_uses_more(s1.stream, s1.declared, s1.declared.insert(x@));
            lemma_uses_push(
                s1.stream,
                s1.declared.insert(x@),
                EntryView::Inner(InstructionView::Copy { dst: x@, src: v }),
            );
        },
        Stmt::Print(e) => {
            lemma_uses_expr(e, s);
            let (s1, v) = lin_expr(e, s);
            lemma_uses_push(s1.stream, s1.declared, EntryView::Inner(InstructionView::Print(v)));
        },
        Stmt::Read(x) => {
            lemma_uses_more(s.stream, s.declared, s.declared.insert(x@));
            lemma_uses_push(s.stream, s.declared.insert(x@), EntryView::Inner(InstructionView::Read(x@)));
        },
        Stmt::If { guard, then_branch, else_branch } => {
            lemma_uses_expr(guard, s);
            let (s1, g) = lin_expr(guard, s);
            let n = s1.labels;
            let branch = EntryView::Term(
                TerminatorView::Branch { guard: g, if_true: label_name(n + 1), if_false: label_name(n + 2) },
            );
            let jump = TerminatorView::Jump(label_name(n + 3));
            lemma_uses_push(s1.stream, s1.declared, branch);
            lemma_uses_push(s1.stream.push(branch), s1.declared, EntryView::Label(label_name(n + 1)));
            let s2 = LowerView { labels: n + 3, ..s1 }.emit(branch).emit(EntryView::Label(label_name(n + 1)));
            lemma_uses_stmts(then_branch@, s2);
            let t1 = lin_stmts(then_branch@, s2);
            lemma_uses_push(t1.stream, t1.declared, EntryView::Term(jump));
            let t2 = t1.close(jump);
            lemma_uses_push(t2.stream, t2.declared, EntryView::Label(label_name(n + 2)));
            let s3 = t2.emit(EntryView::Label(label_name(n + 2)));
            lemma_uses_stmts(else_branch@, s3);
            let e1 = lin_stmts(else_branch@, s3);
            lemma_uses_push(e1.stream, e1.declared, EntryView::Term(jump));
            let e2 = e1.close(jump);
            lemma_uses_push(e2.stream, e2.declared, EntryView::Label(label_name(n + 3)));
        },
    }
}

/// Lowering statements keeps every operand defined.
pub proof fn lemma_uses_stmts(stmts: Seq<Stmt>, s: LowerView)
    requires
        uses_defined(s.stream, s.declared),
    ensures
        uses_defined(lin_stmts(stmts, s).stream, lin_stmts(stmts, s).declared),
    decreases stmts,
{
    if stmts.len() > 0 {
        lemma_uses_stmts(stmts.drop_last(), s);
        lemma_uses_stmt(stmts.last(), lin_stmts(stmts.drop_last(), s));
    }
}

/// In the stream of a program each operand is declared or written since the
/// marker before it.
pub proof fn lemma_program_uses_defined(stmts: Seq<Stmt>)
    ensures
        uses_defined(lin_program(stmts).stream, lin_program(stmts).declared),
{
    let s0 = LowerView::initial().emit(EntryView::Label(entry_name()));
    lemma_uses_push(LowerView::initial().stream, Set::empty(), EntryView::Label(entry_name()));
    lemma_uses_stmts(stmts, s0);
    let s1 = lin_stmts(stmts, s0);
    lemma_uses_push(s1.stream, s1.declared, EntryView::Term(TerminatorView::Exit));
}

/// Each operand of the run is declared or written earlier in the run.
pub open spec fn run_defined(r: RunView, declared: Set<Seq<char>>) -> bool {
    &&& instructions_defined(r.insn, declared)
    &&& r.end matches Some(t) ==> forall|o: Seq<char>| #[trigger]
        t.uses(o) ==> declared.contains(o) || written_in(r.insn, o)
}

proof fn lemma_written_push(insn: Seq<InstructionView>, x: InstructionView, o: Seq<char>)
    ensures
        written_in(insn.push(x), o) <==> written_in(insn, o) || x.writes() == Some(o),
{
    let after = insn.push(x);
    if written_in(insn, o) {
        let j = choose|j: int| 0 <= j < insn.len() && (#[trigger] insn[j]).writes() == Some(o);
        assert(after[j].writes() == Some(o));
    }
    if x.writes() == Some(o) {
        assert(after[insn.len() as int].writes() == Some(o));
    }
    if written_in(after, o) {
        let j = choose|j: int| 0 <= j < after.len() && (#[trigger] after[j]).writes() == Some(o);
        if j < insn.len() {
            assert(insn[j].writes() == Some(o));
        }
    }
}

/// The runs of a stream whose operands are defined have their operands
/// defined, and the last run has written what the stream has written since
/// its last marker.
pub proof fn lemma_runs_defined(stream: Seq<EntryView>, declared: Set<Seq<char>>)
    requires
        uses_defined(stream, declared),
    ensures
        forall|k: int| 0 <= k < runs_of(stream).len() ==> run_defined(#[trigger] runs_of(stream)[k], declared),
        runs_of(stream).len() > 0 ==> written_since_label(stream) == written_set(
            runs_of(stream).last().insn,
        ),
    decreases stream.len(),
{
    let runs = runs_of(stream);
    if stream.len() > 0 {
        let front = stream.drop_last();
        let before = runs_of(front);
        assert forall|i: int, o: Seq<char>|
            0 <= i < front.len() && #[trigger] entry_uses(front[i], o) implies declared.contains(o)
            || written_since_label(front.take(i)).contains(o) by {
            assert(entry_uses(stream[i], o));
            assert(stream.take(i) =~= front.take(i));
        }
        lemma_runs_defined(front, declared);
        assert(stream.take(stream.len() - 1) =~= front);
        match stream.last() {
            EntryView::Label(l) => {
                assert(written_since_label(stream) =~= written_set(runs.last().insn));
                assert forall|k: int| 0 <= k < runs.len() implies run_defined(#[trigger] runs[k], declared) by {
                    if k < before.len() {
                        assert(runs[k] == before[k]);
                    }
                }
            },
            EntryView::Inner(x) => {
                if before.len() > 0 {
                    let last = before.last();
                    let r = runs.last();
                    assert(r.insn == last.insn.push(x));
                    assert(written_since_label(stream) =~= written_set(r.insn)) by {
                        assert forall|o: Seq<char>|
                            written_in(r.insn, o) <==> written_in(last.insn, o) || x.writes() == Some(o) by {
                            lemma_written_push(last.insn, x, o);
                        }
                    }
                    assert(instructions_defined(r.insn, declared)) by {
                        assert forall|i: int, o: Seq<char>|
                            0 <= i < r.insn.len() && #[trigger] r.insn[i].uses(o) implies declared.contains(o)
                            || written_in(r.insn.take(i), o) by {
                            if i < last.insn.len() {
                                assert(last.insn[i].uses(o));
                                assert(r.insn.take(i) =~= last.insn.take(i));
                            } else {
                                assert(r.insn.take(i) =~= last.insn);
                                assert(entry_uses(stream[stream.len() - 1], o));
                            }
                        }
                    }
                    assert forall|k: int| 0 <= k < runs.len() implies run_defined(#[trigger] runs[k], declared) by {
                        if k < before.len() - 1 {
                            assert(runs[k] == before[k]);
                        }
                    }
                }
            },
            EntryView::Term(t) => {
                if before.len() > 0 {
                    let last = before.last();
                    let r = runs.last();
                    assert(r.insn == last.insn);
                    assert(written_since_label(stream) =~= written_set(r.insn));
                    assert forall|o: Seq<char>| #[trigger] t.uses(o) implies declared.contains(o) || written_in(
                        r.insn,
                        o,
                    ) by {
                        assert(entry_uses(stream[stream.len() - 1], o));
                    }
                    assert forall|k: int| 0 <= k < runs.len() implies run_defined(#[trigger] runs[k], declared) by {
                        if k < before.len() - 1 {
                            assert(runs[k] == before[k]);
                        }
                    }
                }
            },
        }
    }
}

/// The blocks of a sound stream whose operands are defined have their
/// operands defined.
pub proof fn lemma_blocks_defined(stream: Seq<EntryView>, declared: Set<Seq<char>>)
    requires
        stream_fault(stream) is None,
        uses_defined(stream, declared),
    ensures
        (ProgramView { declared, blocks: assemble(stream) }).operands_defined(),
{
    let runs = runs_of(stream);
    let blocks = assemble(stream);
    lemma_runs_defined(stream, declared);
    lemma_runs_closed(stream);
    assert forall|l: Seq<char>| #[trigger] blocks.dom().contains(l) implies blocks[l].operands_defined(
        declared,
    ) by {
        let n = choose|k: int| 0 <= k < runs.len() && (#[trigger] runs[k]).label == l;
        lemma_last_run_exists(runs, l, n);
        let k = choose|k: int| is_last_run(runs, k, l);
        assert(run_defined(runs[k], declared));
        assert(blocks[l] == run_block(runs, k));
    }
}

} // verus!
