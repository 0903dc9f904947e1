//! Lowering: flattening a source program into a stream of labels,
//! instructions and terminators, and from there into basic blocks.

use vstd::prelude::*;
use crate::ast::{stmts_vars, BOp, Expr, Program as Source, Stmt};
use crate::cfg::{assemble, build_blocks};
use crate::ident::{entry_name, label_name, temp_name, Id};
use crate::idset::IdSet;
use crate::laws::law_well_formed;
use crate::stream::lemma_declared;
use crate::tir::{Instruction, InstructionView, Program, ProgramView, Terminator, TerminatorView};

verus! {

/// An entry of the stream that linearization writes.
#[derive(Debug, PartialEq, Eq)]
pub enum TvEntry {
    /// The start of the block with this label.
    Label(Id),
    /// An instruction that does not end a block.
    Inner(Instruction),
    /// An instruction that ends a block.
    Term(Terminator),
}

/// What a stream entry is, over names.
pub enum EntryView {
    Label(Seq<char>),
    Inner(InstructionView),
    Term(TerminatorView),
}

impl View for TvEntry {
    type V = EntryView;

    open spec fn view(&self) -> EntryView {
        match *self {
            TvEntry::Label(l) => EntryView::Label(l@),
            TvEntry::Inner(i) => EntryView::Inner(i@),
            TvEntry::Term(t) => EntryView::Term(t@),
        }
    }
}

impl TvEntry {
    /// The instruction of an `Inner` entry.
    pub fn get_inner(self) -> (r: Option<Instruction>)
        ensures
            r == match self {
                TvEntry::Inner(i) => Some(i),
                _ => None::<Instruction>,
            },
    {
        if let TvEntry::Inner(i) = self {
            Some(i)
        } else {
            None
        }
    }
}

/// The views of a stream's entries.
pub open spec fn entry_views(tv: Seq<TvEntry>) -> Seq<EntryView> {
    tv.map_values(|e: TvEntry| e@)
}

/// The prefix of the temporaries that hold constants.
pub open spec fn const_prefix() -> Seq<char> {
    seq!['_', 'c', 'o', 'n', 's', 't']
}

/// The prefix of the temporaries that hold results of arithmetic.
pub open spec fn arith_prefix() -> Seq<char> {
    seq!['_', 't']
}

/// The state of a lowering: what it has written and how many names it has
/// made up.
pub struct LowerView {
    /// The variables recorded so far.
    pub declared: Set<Seq<char>>,
    /// The stream written so far.
    pub stream: Seq<EntryView>,
    /// The number of temporaries made so far.
    pub temps: nat,
    /// The number of labels made so far.
    pub labels: nat,
}

impl LowerView {
    /// The state before anything is lowered.
    pub open spec fn initial() -> LowerView {
        LowerView { declared: Set::empty(), stream: Seq::empty(), temps: 0, labels: 0 }
    }

    /// The state after one more entry is written.
    pub open spec fn emit(self, e: EntryView) -> LowerView {
        LowerView { stream: self.stream.push(e), ..self }
    }

    /// The state after one more variable is recorded.
    pub open spec fn declare(self, x: Seq<char>) -> LowerView {
        LowerView { declared: self.declared.insert(x), ..self }
    }

    /// The state after the open block is closed by a jump to the label,
    /// unless a terminator has closed it already.
    pub open spec fn close(self, t: TerminatorView) -> LowerView {
        if self.stream.len() > 0 && self.stream.last() is Term {
            self
        } else {
            self.emit(EntryView::Term(t))
        }
    }
}

/// Loading a constant: a fresh temporary and the instruction that fills it.
pub open spec fn lin_const(n: i64, s: LowerView) -> (LowerView, Seq<char>) {
    let t = temp_name(const_prefix(), s.temps + 1);
    let s1 = LowerView { temps: s.temps + 1, ..s };
    (s1.emit(EntryView::Inner(InstructionView::Const { dst: t, value: n })), t)
}

/// Combining two values: a fresh temporary and the instruction that fills it.
pub open spec fn lin_arith(op: BOp, lhs: Seq<char>, rhs: Seq<char>, s: LowerView) -> (
    LowerView,
    Seq<char>,
) {
    let t = temp_name(arith_prefix(), s.temps + 1);
    let s1 = LowerView { temps: s.temps + 1, ..s };
    (s1.emit(EntryView::Inner(InstructionView::Arith { op, dst: t, lhs, rhs })), t)
}

/// Lowering an expression: the state afterwards and the name that holds the
/// expression's value. Operands are lowered from left to right; a negation is
/// zero minus its operand.
pub open spec fn lin_expr(e: Expr, s: LowerView) -> (LowerView, Seq<char>)
    decreases e,
{
    match e {
        Expr::Var(x) => (s.declare(x@), x@),
        Expr::Const(n) => lin_const(n, s),
        Expr::BinOp { op, lhs, rhs } => {
            let (s1, lv) = lin_expr(*lhs, s);
            let (s2, rv) = lin_expr(*rhs, s1);
            lin_arith(op, lv, rv, s2)
        },
        Expr::Negate(inner) => {
            let (s1, zero) = lin_const(0, s);
            let (s2, rv) = lin_expr(*inner, s1);
            lin_arith(BOp::Sub, zero, rv, s2)
        },
    }
}

/// Lowering a statement: the state afterwards.
pub open spec fn lin_stmt(st: Stmt, s: LowerView) -> LowerView
    decreases st,
{
    match st {
        Stmt::Assign(x, e) => {
            let (s1, v) = lin_expr(e, s);
            s1.declare(x@).emit(EntryView::Inner(InstructionView::Copy { dst: x@, src: v }))
        },
        Stmt::Print(e) => {
            let (s1, v) = lin_expr(e, s);
            s1.emit(EntryView::Inner(InstructionView::Print(v)))
        },
        Stmt::Read(x) => s.declare(x@).emit(EntryView::Inner(InstructionView::Read(x@))),
        Stmt::If { guard, then_branch, else_branch } => {
            let (s1, g) = lin_expr(guard, s);
            let l_then = label_name(s1.labels + 1);
            let l_else = label_name(s1.labels + 2);
            let l_join = label_name(s1.labels + 3);
            let s2 = LowerView { labels: s1.labels + 3, ..s1 }.emit(
                EntryView::Term(
                    TerminatorView::Branch { guard: g, if_true: l_then, if_false: l_else },
                ),
            ).emit(EntryView::Label(l_then));
            let s3 = lin_stmts(then_branch@, s2).close(TerminatorView::Jump(l_join)).emit(
                EntryView::Label(l_else),
            );
            let s4 = lin_stmts(else_branch@, s3).close(TerminatorView::Jump(l_join));
            s4.emit(EntryView::Label(l_join))
        },
    }
}

/// Lowering statements in order: the state afterwards.
pub open spec fn lin_stmts(stmts: Seq<Stmt>, s: LowerView) -> LowerView
    decreases stmts,
{
    if stmts.len() == 0 {
        s
    } else {
        lin_stmt(stmts.last(), lin_stmts(stmts.drop_last(), s))
    }
}

/// Lowering a whole program: the entry label, the statements, and `Exit`.
pub open spec fn lin_program(stmts: Seq<Stmt>) -> LowerView {
    lin_stmts(stmts, LowerView::initial().emit(EntryView::Label(entry_name()))).close(
        TerminatorView::Exit,
    )
}

/// What lowering makes of a program: the variables it records, and the
/// blocks of its stream.
pub open spec fn lowered(stmts: Seq<Stmt>) -> ProgramView {
    ProgramView { declared: lin_program(stmts).declared, blocks: assemble(lin_program(stmts).stream) }
}

/// The working state of one lowering.
pub struct Lower {
    decl: IdSet,
    tv: Vec<TvEntry>,
    fresh_ctr: u128,
    bb_ctr: u128,
}

impl View for Lower {
    type V = LowerView;

    closed spec fn view(&self) -> LowerView {
        LowerView {
            declared: self.decl@,
            stream: entry_views(self.tv@),
            temps: self.fresh_ctr as nat,
            labels: self.bb_ctr as nat,
        }
    }
}

impl Lower {
    /// The recorded variables are kept in order.
    pub closed spec fn wf(&self) -> bool {
        self.decl.wf()
    }

    /// The counters are so far below their limit as the stream's length
    /// shows: each temporary has its instruction in the stream, and the three
    /// labels of a conditional come with one entry at least.
    pub open spec fn roomy(&self) -> bool {
        &&& self@.temps <= self@.stream.len()
        &&& self@.labels <= 3 * self@.stream.len()
    }

    /// The stream is no longer than a vector can be.
    pub proof fn lemma_stream_fits(&self)
        ensures
            self@.stream.len() <= usize::MAX,
    {
        assert(self.tv.len() <= usize::MAX);
    }

    /// A lowering that has not begun.
    pub fn new() -> (r: Lower)
        ensures
            r.wf(),
            r@ == LowerView::initial(),
    {
        let r = Lower { decl: IdSet::new(), tv: Vec::new(), fresh_ctr: 0, bb_ctr: 0 };
        assert(r@.stream =~= Seq::<EntryView>::empty());
        r
    }

    /// Records a variable of the source.
    pub fn add_decl(&mut self, var: Id)
        requires
            old(self).wf(),
        ensures
            final(self).wf(),
            final(self)@ == old(self)@.declare(var@),
    {
        self.decl.insert(var);
    }

    /// Makes a temporary that no earlier call has made: the prefix, an
    /// underscore and the next number.
    pub fn mk_var(&mut self, prefix: &str) -> (r: Id)
        requires
            old(self)@.temps < u128::MAX,
        ensures
            final(self).wf() == old(self).wf(),
            final(self)@ == (LowerView { temps: old(self)@.temps + 1, ..old(self)@ }),
            r@ == temp_name(prefix@, old(self)@.temps + 1),
    {
        self.fresh_ctr += 1;
        Id::temp(prefix, self.fresh_ctr)
    }

    /// Makes a block label that no earlier call has made: `lbl` and the next
    /// number.
    pub fn mk_label(&mut self) -> (r: Id)
        requires
            old(self)@.labels < u128::MAX,
        ensures
            final(self).wf() == old(self).wf(),
            final(self)@ == (LowerView { labels: old(self)@.labels + 1, ..old(self)@ }),
            r@ == label_name(old(self)@.labels + 1),
    {
        self.bb_ctr += 1;
        Id::label(self.bb_ctr)
    }

    /// Writes an entry at the end of the stream.
    pub fn emit(&mut self, e: TvEntry)
        ensures
            final(self).wf() == old(self).wf(),
            final(self)@ == old(self)@.emit(e@),
            old(self).roomy() ==> final(self).roomy(),
    {
        self.tv.push(e);
        assert(entry_views(self.tv@) =~= entry_views(old(self).tv@).push(e@));
    }

    /// Whether the last entry written is a terminator.
    pub fn is_closed(&self) -> (r: bool)
        ensures
            r == (self@.stream.len() > 0 && self@.stream.last() is Term),
    {
        let n = self.tv.len();
        if n == 0 {
            false
        } else {
            match &self.tv[n - 1] {
                TvEntry::Term(_) => true,
                _ => false,
            }
        }
    }

    /// Closes the open block with the terminator, unless a terminator has
    /// closed it already.
    pub fn close(&mut self, t: Terminator)
        ensures
            final(self).wf() == old(self).wf(),
            final(self)@ == old(self)@.close(t@),
            old(self).roomy() ==> final(self).roomy(),
    {
        if !self.is_closed() {
            self.emit(TvEntry::Term(t));
        }
    }

    fn emit_const(&mut self, n: i64) -> (r: Id)
        requires
            old(self).wf(),
            old(self).roomy(),
        ensures
            final(self).wf(),
            final(self).roomy(),
            (final(self)@, r@) == lin_const(n, old(self)@),
    {
        proof {
            reveal_strlit("_const");
            assert("_const"@ =~= const_prefix());
        }
        proof {
            self.lemma_stream_fits();
        }
        let dst = self.mk_var("_const");
        self.emit(TvEntry::Inner(Instruction::Const { dst: dst.clone(), value: n }));
        dst
    }

    fn emit_arith(&mut self, op: BOp, lhs: Id, rhs: Id) -> (r: Id)
        requires
            old(self).wf(),
            old(self).roomy(),
        ensures
            final(self).wf(),
            final(self).roomy(),
            (final(self)@, r@) == lin_arith(op, lhs@, rhs@, old(self)@),
    {
        proof {
            reveal_strlit("_t");
            assert("_t"@ =~= arith_prefix());
        }
        proof {
            self.lemma_stream_fits();
        }
        let dst = self.mk_var("_t");
        self.emit(TvEntry::Inner(Instruction::Arith { op, dst: dst.clone(), lhs, rhs }));
        dst
    }

    /// Lowers an expression and gives the name that holds its value.
    pub fn lower_expr(&mut self, e: &Expr) -> (r: Id)
        requires
            old(self).wf(),
            old(self).roomy(),
        ensures
            final(self).wf(),
            final(self).roomy(),
            (final(self)@, r@) == lin_expr(*e, old(self)@),
        decreases e,
    {
        match e {
            Expr::Var(x) => {
                self.add_decl(x.clone());
                x.clone()
            },
            Expr::Const(n) => self.emit_const(*n),
            Expr::BinOp { op, lhs, rhs } => {
                let lv = self.lower_expr(&**lhs);
                let rv = self.lower_expr(&**rhs);
                self.emit_arith(*op, lv, rv)
            },
            Expr::Negate(inner) => {
                let zero = self.emit_const(0);
                let rv = self.lower_expr(&**inner);
                self.emit_arith(BOp::Sub, zero, rv)
            },
        }
    }

    /// Lowers a statement.
    pub fn lower_stmt(&mut self, st: &Stmt)
        requires
            old(self).wf(),
            old(self).roomy(),
        ensures
            final(self).wf(),
            final(self).roomy(),
            final(self)@ == lin_stmt(*st, old(self)@),
        decreases st,
    {
        match st {
            Stmt::Assign(dst, e) => {
                let src = self.lower_expr(e);
                self.add_decl(dst.clone());
                self.emit(TvEntry::Inner(Instruction::Copy { dst: dst.clone(), src }));
            },
            Stmt::Print(e) => {
                let x = self.lower_expr(e);
                self.emit(TvEntry::Inner(Instruction::Print(x)));
            },
            Stmt::Read(x) => {
                self.add_decl(x.clone());
                self.emit(TvEntry::Inner(Instruction::Read(x.clone())));
            },
            Stmt::If { guard, then_branch, else_branch } => {
                let g = self.lower_expr(guard);
                        proof {
                    self.lemma_stream_fits();
                }
                let l_then = self.mk_label();
                let l_else = self.mk_label();
                let l_join = self.mk_label();
                self.emit(
                    TvEntry::Term(
                        Terminator::Branch { guard: g, if_true: l_then.clone(), if_false: l_else.clone() },
                    ),
                );
                self.emit(TvEntry::Label(l_then));
                self.lower_stmts(then_branch);
                self.close(Terminator::Jump(l_join.clone()));
                self.emit(TvEntry::Label(l_else));
                self.lower_stmts(else_branch);
                self.close(Terminator::Jump(l_join.clone()));
                self.emit(TvEntry::Label(l_join));
            },
        }
    }

    /// Lowers statements in order.
    pub fn lower_stmts(&mut self, stmts: &Vec<Stmt>)
        requires
            old(self).wf(),
            old(self).roomy(),
        ensures
            final(self).wf(),
            final(self).roomy(),
            final(self)@ == lin_stmts(stmts@, old(self)@),
        decreases stmts,
    {
        let mut i: usize = 0;
        while i < stmts.len()
            invariant
                i <= stmts.len(),
                self.wf(),
                self.roomy(),
                self@ == lin_stmts(stmts@.take(i as int), old(self)@),
            decreases stmts.len() - i,
        {
            assert(stmts@.take(i + 1).drop_last() =~= stmts@.take(i as int));
            assert(stmts@.take(i + 1).last() == stmts[i as int]);
            self.lower_stmt(&stmts[i]);
            i += 1;
        }
        assert(stmts@.take(i as int) =~= stmts@);
    }

    /// Lowers a whole program into this lowering's stream: the marker of the
    /// entry block, the statements, and `Exit`.
    pub fn linearize(&mut self, stmts: &Vec<Stmt>)
        requires
            old(self).wf(),
            old(self)@ == LowerView::initial(),
        ensures
            final(self).wf(),
            final(self)@ == lin_program(stmts@),
    {
        self.emit(TvEntry::Label(Id::entry()));
        self.lower_stmts(stmts);
        self.close(Terminator::Exit);
    }

    /// Ends the lowering: the stream written and the variables recorded.
    pub fn finish(self) -> (r: (Vec<TvEntry>, IdSet))
        requires
            self.wf(),
        ensures
            entry_views(r.0@) == self@.stream,
            r.1.wf(),
            r.1@ == self@.declared,
    {
        let Lower { decl, tv, fresh_ctr: _, bb_ctr: _ } = self;
        (tv, decl)
    }

    /// Lowers a program with a lowering that has not begun.
    ///
    /// The result has the block `entry`, every label that a terminator names
    /// is the label of a block, each operand is declared or written earlier in
    /// its block, and the declared variables are those that the source names.
    pub fn lower_program(self, program: Source) -> (r: Program)
        requires
            self.wf(),
            self@ == LowerView::initial(),
        ensures
            r@ == lowered(program.stmts@),
            r.declared.wf(),
            r.blocks.wf(),
            r@.well_formed(),
            r@.declared == stmts_vars(program.stmts@),
    {
        let mut this = self;
        this.linearize(&program.stmts);
        proof {
            law_well_formed(program.stmts@);
            lemma_declared(program.stmts@);
        }
        let (tv, decl) = this.finish();
        Program { declared: decl, blocks: build_blocks(tv) }
    }
}

/// Splits a program into the stream of its entries and the set of the
/// variables it names.
pub fn linearize(program: &Source) -> (r: (Vec<TvEntry>, IdSet))
    ensures
        entry_views(r.0@) == lin_program(program.stmts@).stream,
        r.1.wf(),
        r.1@ == lin_program(program.stmts@).declared,
{
    let mut state = Lower::new();
    state.linearize(&program.stmts);
    state.finish()
}

/// Lowers a program into basic blocks.
///
/// Every program lowers: there is no error to return. The result has the
/// block `entry`, every label that a terminator names is the label of a
/// block, each operand is declared or written earlier in its block, and the
/// declared variables are those that the source names.
pub fn lower(program: Source) -> (r: Program)
    ensures
        r@ == lowered(program.stmts@),
        r.declared.wf(),
        r.blocks.wf(),
        r@.well_formed(),
        r@.declared == stmts_vars(program.stmts@),
{
    let state = Lower::new();
    state.lower_program(program)
}

} // verus!
