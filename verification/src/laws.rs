//! What holds of every lowered program.

use vstd::prelude::*;
use crate::ast::{ifs_in, ifs_in_stmt, stmts_vars, BOp, Expr, Stmt};
use crate::cfg::{lemma_assemble_closed, lemma_runs_from_stream, run_block, run_step, stream_fault};
use crate::ident::{entry_name, label_name, lemma_label_name_injective, temp_name};
use crate::lower::{arith_prefix, const_prefix, lin_arith, lin_const, lin_expr, lin_program, lin_stmt, lin_stmts, lowered, EntryView, LowerView};
use crate::operands::{lemma_blocks_defined, lemma_program_uses_defined};
use crate::runs::{ends_run, in_run, instructions_of, lemma_first_marker, lemma_markers, lemma_one_block_per_marker, lemma_runs_keep_entries, lemma_single_run, markers, run_labels, single_run};
use crate::stream::{body_stream, generated_label, generated_temp, inner_entry, labels_distinct, lemma_declared, lemma_program_stream_parts, lemma_program_stream_sound, lemma_program_temps_fresh, lemma_temp_names_differ, program_stream, temps_fresh, terminators_end_runs};
use crate::tir::TerminatorView;
use crate::cfg::runs_of;

verus! {

/// Every program lowers to a well-formed program: it has the block `entry`,
/// every label that a terminator names is the label of a block, and each
/// operand is a declared variable or was written earlier in its block.
pub proof fn law_well_formed(stmts: Seq<Stmt>)
    ensures
        stream_fault(program_stream(stmts)) is None,
        lowered(stmts).well_formed(),
{
    lemma_program_stream_sound(stmts);
    lemma_assemble_closed(program_stream(stmts));
    lemma_program_uses_defined(stmts);
    lemma_blocks_defined(program_stream(stmts), lin_program(stmts).declared);
}

proof fn lemma_markers_push(stream: Seq<EntryView>, e: EntryView)
    ensures
        e is Label ==> markers(stream.push(e)) == markers(stream).push(e->Label_0),
        !(e is Label) ==> markers(stream.push(e)) == markers(stream),
{
    assert(stream.push(e).drop_last() =~= stream);
}

/// Lowering an expression makes no label and writes no marker.
pub proof fn lemma_count_expr(e: Expr, s: LowerView)
    ensures
        lin_expr(e, s).0.labels == s.labels,
        markers(lin_expr(e, s).0.stream) == markers(s.stream),
    decreases e,
{
    match e {
        Expr::Var(x) => {},
        Expr::Const(n) => {
            lemma_markers_push(s.stream, lin_const(n, s).0.stream.last());
        },
        Expr::BinOp { op, lhs, rhs } => {
            lemma_count_expr(*lhs, s);
            let (s1, lv) = lin_expr(*lhs, s);
            lemma_count_expr(*rhs, s1);
            let (s2, rv) = lin_expr(*rhs, s1);
            lemma_markers_push(s2.stream, lin_arith(op, lv, rv, s2).0.stream.last());
        },
        Expr::Negate(inner) => {
            let (s1, zero) = lin_const(0, s);
            lemma_markers_push(s.stream, s1.stream.last());
            lemma_count_expr(*inner, s1);
            let (s2, rv) = lin_expr(*inner, s1);
            lemma_markers_push(s2.stream, lin_arith(BOp::Sub, zero, rv, s2).0.stream.last());
        },
    }
}

/// Lowering a statement makes three labels for each of its conditionals and
/// writes a marker for each.
pub proof fn lemma_count_stmt(st: Stmt, s: LowerView)
    ensures
        lin_stmt(st, s).labels == s.labels + 3 * ifs_in_stmt(st),
        markers(lin_stmt(st, s).stream).len() == markers(s.stream).len() + 3 * ifs_in_stmt(st),
    decreases st,
{
    match st {
        Stmt::Assign(x, e) => {
            lemma_count_expr(e, s);
            lemma_markers_push(lin_expr(e, s).0.stream, lin_stmt(st, s).stream.last());
        },
        Stmt::Print(e) => {
            lemma_count_expr(e, s);
            lemma_markers_push(lin_expr(e, s).0.stream, lin_stmt(st, s).stream.last());
        },
        Stmt::Read(x) => {
            lemma_markers_push(s.stream, lin_stmt(st, s).stream.last());
        },
        Stmt::If { guard, then_branch, else_branch } => {
            lemma_count_expr(guard, s);
            let (s1, g) = lin_expr(guard, s);
            let n = s1.labels;
            let branch = EntryView::Term(
                TerminatorView::Branch { guard: g, if_true: label_name(n + 1), if_false: label_name(n + 2) },
            );
            let jump = TerminatorView::Jump(label_name(n + 3));
            lemma_markers_push(s1.stream, branch);
            lemma_markers_push(s1.stream.push(branch), EntryView::Label(label_name(n + 1)));
            let s2 = LowerView { labels: n + 3, ..s1 }.emit(branch).emit(EntryView::Label(label_name(n + 1)));
            lemma_count_stmts(then_branch@, s2);
            let t1 = lin_stmts(then_branch@, s2);
            lemma_markers_push(t1.stream, EntryView::Term(jump));
            let t2 = t1.close(jump);
            lemma_markers_push(t2.stream, EntryView::Label(label_name(n + 2)));
            let s3 = t2.emit(EntryView::Label(label_name(n + 2)));
            lemma_count_stmts(else_branch@, s3);
            let e1 = lin_stmts(else_branch@, s3);
            lemma_markers_push(e1.stream, EntryView::Term(jump));
            let e2 = e1.close(jump);
            lemma_markers_push(e2.stream, EntryView::Label(label_name(n + 3)));
        },
    }
}

/// Lowering statements makes three labels for each of their conditionals and
/// writes a marker for each.
pub proof fn lemma_count_stmts(stmts: Seq<Stmt>, s: LowerView)
    ensures
        lin_stmts(stmts, s).labels == s.labels + 3 * ifs_in(stmts),
        markers(lin_stmts(stmts, s).stream).len() == markers(s.stream).len() + 3 * ifs_in(stmts),
    decreases stmts,
{
    if stmts.len() > 0 {
        lemma_count_stmts(stmts.drop_last(), s);
        lemma_count_stmt(stmts.last(), lin_stmts(stmts.drop_last(), s));
    }
}

/// The stream of a program has the marker of the entry block and three
/// markers for each conditional.
pub proof fn lemma_program_count(stmts: Seq<Stmt>)
    ensures
        lin_program(stmts).labels == 3 * ifs_in(stmts),
        markers(program_stream(stmts)).len() == 1 + 3 * ifs_in(stmts),
{
    let s0 = LowerView::initial().emit(EntryView::Label(entry_name()));
    lemma_markers_push(LowerView::initial().stream, EntryView::Label(entry_name()));
    assert(markers(LowerView::initial().stream) =~= Seq::<Seq<char>>::empty());
    lemma_count_stmts(stmts, s0);
    let s1 = lin_stmts(stmts, s0);
    lemma_markers_push(s1.stream, EntryView::Term(TerminatorView::Exit));
}

/// No two blocks share a label. The stream of a program never repeats a
/// marker, and the blocks are the entry block and three for each conditional
/// of the source: one for each marker, under the label `entry` or a
/// generated one.
pub proof fn law_labels_unique(stmts: Seq<Stmt>)
    ensures
        labels_distinct(program_stream(stmts)),
        lowered(stmts).blocks.dom().finite(),
        lowered(stmts).blocks.dom().len() == 1 + 3 * ifs_in(stmts),
        forall|l: Seq<char>| #[trigger]
            lowered(stmts).blocks.dom().contains(l) ==> l == entry_name() || generated_label(
                l,
                3 * ifs_in(stmts),
            ),
{
    let stream = program_stream(stmts);
    lemma_program_stream_sound(stmts);
    lemma_one_block_per_marker(stream);
    lemma_program_count(stmts);
    lemma_assemble_closed(stream);
    assert forall|l: Seq<char>| #[trigger] lowered(stmts).blocks.dom().contains(l) implies l
        == entry_name() || generated_label(l, 3 * ifs_in(stmts)) by {
        assert(crate::cfg::has_label(stream, l));
        let i = choose|i: int| 0 <= i < stream.len() && stream[i] == EntryView::Label(l);
        assert(stream[i] is Label);
    }
}

/// Label allocation never repeats: generated labels with different numbers
/// differ, and none is `entry`.
pub proof fn law_fresh_labels(a: nat, b: nat)
    ensures
        label_name(a) == label_name(b) ==> a == b,
        label_name(a) != entry_name(),
{
    lemma_label_name_injective(a, b);
}

/// Whether a name begins with the underscore that is kept for temporaries.
pub open spec fn reserved(name: Seq<char>) -> bool {
    name.len() > 0 && name[0] == '_'
}

/// The declared variables are the variables that the source names, and each
/// load of a constant and each arithmetic instruction fills a temporary of
/// its own.
pub proof fn law_declared_are_source(stmts: Seq<Stmt>)
    ensures
        lowered(stmts).declared == stmts_vars(stmts),
        temps_fresh(program_stream(stmts), lin_program(stmts).temps),
{
    lemma_declared(stmts);
    lemma_program_temps_fresh(stmts);
}

/// Where no variable of the source begins with an underscore, no temporary
/// is declared, however deep the expressions nest.
pub proof fn law_temporaries_not_declared(stmts: Seq<Stmt>)
    requires
        forall|x: Seq<char>| stmts_vars(stmts).contains(x) ==> !reserved(x),
    ensures
        forall|name: Seq<char>, n: nat| #[trigger]
            generated_temp(name, n) ==> !lowered(stmts).declared.contains(name),
{
    lemma_declared(stmts);
    assert forall|name: Seq<char>, n: nat| #[trigger] generated_temp(name, n) implies !lowered(
        stmts,
    ).declared.contains(name) by {
        let k = choose|k: nat|
            1 <= k <= n && (name == #[trigger] temp_name(const_prefix(), k) || name == temp_name(
                arith_prefix(),
                k,
            ));
        lemma_temp_names_differ(k, k);
        assert(reserved(name));
    }
}

/// Every block has its one terminator, and nothing is left out: in the
/// stream of a program each terminator ends its run, each terminator of the
/// stream is the terminator of a block, and each instruction of the stream
/// is an instruction of a block.
pub proof fn law_terminators_end_blocks(stmts: Seq<Stmt>)
    ensures
        terminators_end_runs(program_stream(stmts)),
        forall|i: int|
            0 <= i < program_stream(stmts).len() && (#[trigger] program_stream(stmts)[i]) is Term
                ==> exists|l: Seq<char>|
                lowered(stmts).blocks.dom().contains(l) && (#[trigger] lowered(stmts).blocks[l]).term
                    == program_stream(stmts)[i]->Term_0,
        forall|i: int|
            0 <= i < program_stream(stmts).len() && (#[trigger] program_stream(stmts)[i]) is Inner
                ==> exists|l: Seq<char>|
                lowered(stmts).blocks.dom().contains(l) && (#[trigger] lowered(stmts).blocks[l]).insn.contains(
                    program_stream(stmts)[i]->Inner_0,
                ),
{
    let stream = program_stream(stmts);
    let runs = runs_of(stream);
    let blocks = lowered(stmts).blocks;
    lemma_program_stream_sound(stmts);
    lemma_one_block_per_marker(stream);
    lemma_runs_keep_entries(stream);
    assert forall|i: int| 0 <= i < stream.len() && (#[trigger] stream[i]) is Term implies exists|
        l: Seq<char>,
    |
        blocks.dom().contains(l) && (#[trigger] blocks[l]).term == stream[i]->Term_0 by {
        assert(ends_run(runs, stream[i]->Term_0));
        let k = choose|k: int| 0 <= k < runs.len() && (#[trigger] runs[k]).end == Some(stream[i]->Term_0);
        let l = runs[k].label;
        assert(blocks.dom().contains(l) && blocks[l].term == stream[i]->Term_0);
    }
    assert forall|i: int| 0 <= i < stream.len() && (#[trigger] stream[i]) is Inner implies exists|
        l: Seq<char>,
    |
        blocks.dom().contains(l) && (#[trigger] blocks[l]).insn.contains(stream[i]->Inner_0) by {
        assert(in_run(runs, stream[i]->Inner_0));
        let k = choose|k: int|
            0 <= k < runs.len() && (#[trigger] runs[k]).insn.contains(stream[i]->Inner_0);
        let l = runs[k].label;
        assert(blocks.dom().contains(l) && blocks[l].insn.contains(stream[i]->Inner_0));
    }
}

/// From the place `n` on the stream holds instructions only.
pub open spec fn only_instructions_from(stream: Seq<EntryView>, n: int) -> bool {
    forall|i: int| 0 <= n <= i < stream.len() ==> (#[trigger] stream[i]) is Inner
}

proof fn lemma_plain_push(stream: Seq<EntryView>, n: int, e: EntryView)
    requires
        only_instructions_from(stream, n),
        e is Inner,
    ensures
        only_instructions_from(stream.push(e), n),
{
    let after = stream.push(e);
    assert forall|i: int| 0 <= n <= i < after.len() implies (#[trigger] after[i]) is Inner by {
        if i < stream.len() {
            assert(after[i] == stream[i]);
        }
    }
}

/// Lowering an expression writes instructions only.
pub proof fn lemma_plain_expr(e: Expr, s: LowerView, n: int)
    requires
        only_instructions_from(s.stream, n),
    ensures
        only_instructions_from(lin_expr(e, s).0.stream, n),
    decreases e,
{
    match e {
        Expr::Var(x) => {},
        Expr::Const(c) => {
            lemma_plain_push(s.stream, n, lin_const(c, s).0.stream.last());
        },
        Expr::BinOp { op, lhs, rhs } => {
            lemma_plain_expr(*lhs, s, n);
            let (s1, lv) = lin_expr(*lhs, s);
            lemma_plain_expr(*rhs, s1, n);
            let (s2, rv) = lin_expr(*rhs, s1);
            lemma_plain_push(s2.stream, n, lin_arith(op, lv, rv, s2).0.stream.last());
        },
        Expr::Negate(inner) => {
            let (s1, zero) = lin_const(0, s);
            lemma_plain_push(s.stream, n, s1.stream.last());
            lemma_plain_expr(*inner, s1, n);
            let (s2, rv) = lin_expr(*inner, s1);
            lemma_plain_push(s2.stream, n, lin_arith(BOp::Sub, zero, rv, s2).0.stream.last());
        },
    }
}

/// Lowering statements without a conditional writes instructions only.
pub proof fn lemma_plain_stmts(stmts: Seq<Stmt>, s: LowerView, n: int)
    requires
        ifs_in(stmts) == 0,
        only_instructions_from(s.stream, n),
    ensures
        only_instructions_from(lin_stmts(stmts, s).stream, n),
    decreases stmts,
{
    if stmts.len() > 0 {
        lemma_plain_stmts(stmts.drop_last(), s, n);
        let s1 = lin_stmts(stmts.drop_last(), s);
        let done = lin_stmt(stmts.last(), s1).stream;
        match stmts.last() {
            Stmt::Assign(x, e) => {
                lemma_plain_expr(e, s1, n);
                lemma_plain_push(lin_expr(e, s1).0.stream, n, done.last());
            },
            Stmt::Print(e) => {
                lemma_plain_expr(e, s1, n);
                lemma_plain_push(lin_expr(e, s1).0.stream, n, done.last());
            },
            Stmt::Read(x) => {
                lemma_plain_push(s1.stream, n, done.last());
            },
            Stmt::If { guard, then_branch, else_branch } => {
                assert(ifs_in_stmt(stmts.last()) >= 1);
            },
        }
    }
}

/// A program without a conditional lowers to one block: `entry`, with the
/// instructions of the stream in order and the terminator `Exit`.
pub proof fn law_straight_line(stmts: Seq<Stmt>)
    requires
        ifs_in(stmts) == 0,
    ensures
        lowered(stmts).blocks.dom() == set![entry_name()],
        lowered(stmts).blocks[entry_name()].term == TerminatorView::Exit,
        lowered(stmts).blocks[entry_name()].insn == instructions_of(program_stream(stmts)),
{
    let stream = program_stream(stmts);
    lemma_program_stream_sound(stmts);
    let s0 = LowerView::initial().emit(EntryView::Label(entry_name()));
    assert(only_instructions_from(s0.stream, 1));
    lemma_plain_stmts(stmts, s0, 1);
    let s1 = lin_stmts(stmts, s0);
    assert(single_run(stream)) by {
        assert forall|i: int| 0 < i < stream.len() - 1 implies (#[trigger] stream[i]) is Inner by {
            assert(stream[i] == s1.stream[i]);
        }
    }
    lemma_single_run(stream);
}

/// A negation lowers as zero minus its operand does.
pub proof fn law_negate_is_subtraction(inner: Expr, s: LowerView)
    ensures
        lin_expr(Expr::Negate(Box::new(inner)), s) == lin_expr(
            Expr::BinOp { op: BOp::Sub, lhs: Box::new(Expr::Const(0)), rhs: Box::new(inner) },
            s,
        ),
{
    reveal_with_fuel(lin_expr, 2);
}

/// `Exit` ends the program and nothing else: it is the last entry of the
/// stream and no other, and the one block that it ends is the block of the
/// last marker.
pub proof fn law_single_exit(stmts: Seq<Stmt>)
    ensures
        forall|i: int|
            0 <= i < program_stream(stmts).len() ==> (#[trigger] program_stream(stmts)[i]
                == EntryView::Term(TerminatorView::Exit) <==> i == program_stream(stmts).len() - 1),
        forall|l: Seq<char>| #[trigger]
            lowered(stmts).blocks.dom().contains(l) ==> (lowered(stmts).blocks[l].term
                == TerminatorView::Exit <==> l == markers(program_stream(stmts)).last()),
{
    let stream = program_stream(stmts);
    let body = body_stream(stmts);
    let exit = EntryView::Term(TerminatorView::Exit);
    let blocks = lowered(stmts).blocks;
    lemma_program_stream_parts(stmts);
    lemma_program_stream_sound(stmts);
    assert forall|i: int| 0 <= i < stream.len() implies (#[trigger] stream[i] == exit <==> i
        == stream.len() - 1) by {
        if i < body.len() {
            assert(inner_entry(body[i]));
        }
    }
    let before = runs_of(body);
    let runs = runs_of(stream);
    assert(stream.drop_last() =~= body);
    assert(runs == run_step(before, exit));
    crate::cfg::lemma_runs_nonempty(body);
    lemma_runs_from_stream(body);
    lemma_one_block_per_marker(stream);
    lemma_markers(stream);
    let m = markers(stream);
    let last = runs.len() - 1;
    assert(run_labels(runs)[last] == runs[last].label);
    assert forall|l: Seq<char>| #[trigger] blocks.dom().contains(l) implies (blocks[l].term
        == TerminatorView::Exit <==> l == m.last()) by {
        let k = choose|k: int| 0 <= k < m.len() && m[k] == l;
        assert(run_labels(runs)[k] == runs[k].label);
        assert(blocks[l] == run_block(runs, k));
        if k < last {
            assert(runs[k] == before[k]);
            if before[k].end == Some(TerminatorView::Exit) {
                let i = choose|i: int| 0 <= i < body.len() && body[i] == exit;
                assert(inner_entry(body[i]));
            }
        }
    }
}

/// Control starts at `entry` and never comes back to it: no terminator of a
/// lowered program names the entry block.
pub proof fn law_entry_is_start(stmts: Seq<Stmt>)
    ensures
        lowered(stmts).blocks.dom().contains(entry_name()),
        forall|l: Seq<char>| #[trigger]
            lowered(stmts).blocks.dom().contains(l) ==> !lowered(stmts).blocks[l].term.targets(
                entry_name(),
            ),
{
    let stream = program_stream(stmts);
    let body = body_stream(stmts);
    let blocks = lowered(stmts).blocks;
    let runs = runs_of(stream);
    let m = markers(stream);
    lemma_program_stream_parts(stmts);
    lemma_program_stream_sound(stmts);
    lemma_assemble_closed(stream);
    lemma_runs_from_stream(stream);
    lemma_one_block_per_marker(stream);
    lemma_markers(stream);
    lemma_first_marker(stream);
    assert forall|l: Seq<char>| #[trigger] blocks.dom().contains(l) implies !blocks[l].term.targets(
        entry_name(),
    ) by {
        let k = choose|k: int| 0 <= k < m.len() && m[k] == l;
        assert(run_labels(runs)[k] == runs[k].label);
        assert(blocks[l] == run_block(runs, k));
        match runs[k].end {
            Some(t) => {
                let i = choose|i: int| 0 <= i < stream.len() && stream[i] == EntryView::Term(t);
                if i < body.len() {
                    assert(inner_entry(body[i]));
                    assert forall|a: nat| label_name(a) != entry_name() by {
                        lemma_label_name_injective(a, a);
                    }
                }
            },
            None => {
                assert(run_labels(runs)[k + 1] == runs[k + 1].label);
                assert(m[k + 1] != m[0]);
            },
        }
    }
}

} // verus!
