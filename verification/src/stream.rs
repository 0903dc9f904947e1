//! What holds of every stream that linearization writes: its labels are
//! distinct, its terminators end their runs, and every jump has a marker to
//! go to.

use vstd::prelude::*;
use crate::ast::{expr_vars, stmt_vars, stmts_vars, Expr, Stmt};
use crate::cfg::{entry_targets, has_label, lemma_first_dangling, stream_fault, targets_marked};
use crate::ident::{entry_name, label_name, lemma_label_name_injective, lemma_temp_name_injective, temp_name};
use crate::lower::{arith_prefix, const_prefix, lin_arith, lin_const, lin_expr, lin_program, lin_stmt, lin_stmts, EntryView, LowerView};
use crate::tir::{InstructionView, TerminatorView};

verus! {

/// Whether the label is one of the first `upto` generated labels.
pub open spec fn generated_label(l: Seq<char>, upto: nat) -> bool {
    exists|k: nat| 1 <= k <= upto && l == #[trigger] label_name(k)
}

/// Every marker of the stream has the entry label or one of the first `upto`
/// generated labels.
pub open spec fn labels_known(stream: Seq<EntryView>, upto: nat) -> bool {
    forall|i: int|
        0 <= i < stream.len() && (#[trigger] stream[i]) is Label ==> stream[i]->Label_0 == entry_name()
            || generated_label(stream[i]->Label_0, upto)
}

/// No two markers of the stream have the same label.
pub open spec fn labels_distinct(stream: Seq<EntryView>) -> bool {
    forall|i: int, j: int|
        0 <= i < j < stream.len() && (#[trigger] stream[i]) is Label && (#[trigger] stream[j]) is Label
            ==> stream[i] != stream[j]
}

/// Every label that a terminator names has its marker or is still to come.
pub open spec fn targets_covered(stream: Seq<EntryView>, pending: Set<Seq<char>>) -> bool {
    forall|i: int, l: Seq<char>|
        0 <= i < stream.len() && #[trigger] entry_targets(stream[i], l) ==> has_label(stream, l)
            || pending.contains(l)
}

/// The labels still to come are generated ones without a marker so far.
pub open spec fn pending_fresh(stream: Seq<EntryView>, upto: nat, pending: Set<Seq<char>>) -> bool {
    forall|l: Seq<char>| #[trigger]
        pending.contains(l) ==> generated_label(l, upto) && !has_label(stream, l)
}

/// Every terminator but one at the very end is followed by a marker: no
/// instruction stands between a terminator and the next block.
pub open spec fn terminators_end_runs(stream: Seq<EntryView>) -> bool {
    forall|i: int|
        0 <= i < stream.len() - 1 && (#[trigger] stream[i]) is Term ==> stream[i + 1] is Label
}

/// The stream's last block is open: it has not been closed by a terminator.
pub open spec fn open_end(stream: Seq<EntryView>) -> bool {
    stream.len() > 0 && !(stream.last() is Term)
}

/// What linearization keeps true of its stream while labels are pending.
#[verifier::opaque]
pub open spec fn orderly(stream: Seq<EntryView>, upto: nat, pending: Set<Seq<char>>) -> bool {
    &&& labels_known(stream, upto)
    &&& labels_distinct(stream)
    &&& targets_covered(stream, pending)
    &&& pending_fresh(stream, upto, pending)
    &&& terminators_end_runs(stream)
}

proof fn lemma_push_keeps_labels(stream: Seq<EntryView>, e: EntryView, l: Seq<char>)
    ensures
        has_label(stream, l) ==> has_label(stream.push(e), l),
        !(e is Label) ==> (has_label(stream.push(e), l) ==> has_label(stream, l)),
        e == EntryView::Label(l) ==> has_label(stream.push(e), l),
        has_label(stream.push(e), l) ==> has_label(stream, l) || e == EntryView::Label(l),
{
    let after = stream.push(e);
    if has_label(stream, l) {
        let i = choose|i: int| 0 <= i < stream.len() && stream[i] == EntryView::Label(l);
        assert(after[i] == EntryView::Label(l));
    }
    if has_label(after, l) {
        let i = choose|i: int| 0 <= i < after.len() && after[i] == EntryView::Label(l);
        if i < stream.len() {
            assert(stream[i] == EntryView::Label(l));
        }
    }
    if e == EntryView::Label(l) {
        assert(after[stream.len() as int] == EntryView::Label(l));
    }
}

proof fn lemma_emit_inner(stream: Seq<EntryView>, upto: nat, pending: Set<Seq<char>>, x: InstructionView)
    requires
        orderly(stream, upto, pending),
        open_end(stream),
    ensures
        orderly(stream.push(EntryView::Inner(x)), upto, pending),
        open_end(stream.push(EntryView::Inner(x))),
{
    reveal(orderly);
    let e = EntryView::Inner(x);
    let after = stream.push(e);
    assert forall|i: int, l: Seq<char>|
        0 <= i < after.len() && #[trigger] entry_targets(after[i], l) implies has_label(after, l)
        || pending.contains(l) by {
        assert(entry_targets(stream[i], l));
        lemma_push_keeps_labels(stream, e, l);
    }
    assert forall|l: Seq<char>| #[trigger] pending.contains(l) implies generated_label(l, upto)
        && !has_label(after, l) by {
        lemma_push_keeps_labels(stream, e, l);
    }
    assert forall|i: int| 0 <= i < after.len() - 1 && (#[trigger] after[i]) is Term implies after[i
        + 1] is Label by {
        assert(after[i] == stream[i]);
        if i + 1 < stream.len() {
            assert(after[i + 1] == stream[i + 1]);
        }
    }
    assert(labels_known(after, upto)) by {
        assert forall|i: int| 0 <= i < after.len() && (#[trigger] after[i]) is Label implies after[i]->Label_0
            == entry_name() || generated_label(after[i]->Label_0, upto) by {
            assert(after[i] == stream[i]);
        }
    }
    assert(labels_distinct(after)) by {
        assert forall|i: int, j: int|
            0 <= i < j < after.len() && (#[trigger] after[i]) is Label && (#[trigger] after[j]) is Label implies after[i]
            != after[j] by {
            assert(after[i] == stream[i] && after[j] == stream[j]);
        }
    }
}

proof fn lemma_emit_term(stream: Seq<EntryView>, upto: nat, pending: Set<Seq<char>>, t: TerminatorView)
    requires
        orderly(stream, upto, pending),
        open_end(stream),
        forall|l: Seq<char>| #[trigger] t.targets(l) ==> has_label(stream, l) || pending.contains(l),
    ensures
        orderly(stream.push(EntryView::Term(t)), upto, pending),
{
    reveal(orderly);
    let e = EntryView::Term(t);
    let after = stream.push(e);
    assert forall|i: int, l: Seq<char>|
        0 <= i < after.len() && #[trigger] entry_targets(after[i], l) implies has_label(after, l)
        || pending.contains(l) by {
        lemma_push_keeps_labels(stream, e, l);
        if i < stream.len() {
            assert(entry_targets(stream[i], l));
        } else {
            assert(t.targets(l));
        }
    }
    assert forall|l: Seq<char>| #[trigger] pending.contains(l) implies generated_label(l, upto)
        && !has_label(after, l) by {
        lemma_push_keeps_labels(stream, e, l);
    }
    assert forall|i: int| 0 <= i < after.len() - 1 && (#[trigger] after[i]) is Term implies after[i
        + 1] is Label by {
        assert(after[i] == stream[i]);
        if i + 1 < stream.len() {
            assert(after[i + 1] == stream[i + 1]);
        }
    }
    assert(labels_known(after, upto)) by {
        assert forall|i: int| 0 <= i < after.len() && (#[trigger] after[i]) is Label implies after[i]->Label_0
            == entry_name() || generated_label(after[i]->Label_0, upto) by {
            assert(after[i] == stream[i]);
        }
    }
    assert(labels_distinct(after)) by {
        assert forall|i: int, j: int|
            0 <= i < j < after.len() && (#[trigger] after[i]) is Label && (#[trigger] after[j]) is Label implies after[i]
            != after[j] by {
            assert(after[i] == stream[i] && after[j] == stream[j]);
        }
    }
}

proof fn lemma_emit_label(stream: Seq<EntryView>, upto: nat, pending: Set<Seq<char>>, l: Seq<char>)
    requires
        orderly(stream, upto, pending),
        pending.contains(l),
    ensures
        orderly(stream.push(EntryView::Label(l)), upto, pending.remove(l)),
        open_end(stream.push(EntryView::Label(l))),
{
    reveal(orderly);
    let e = EntryView::Label(l);
    let after = stream.push(e);
    let rest = pending.remove(l);
    assert forall|i: int, m: Seq<char>|
        0 <= i < after.len() && #[trigger] entry_targets(after[i], m) implies has_label(after, m)
        || rest.contains(m) by {
        lemma_push_keeps_labels(stream, e, m);
        assert(entry_targets(stream[i], m));
    }
    assert forall|m: Seq<char>| #[trigger] rest.contains(m) implies generated_label(m, upto)
        && !has_label(after, m) by {
        assert(pending.contains(m));
        lemma_push_keeps_labels(stream, e, m);
    }
    assert forall|i: int| 0 <= i < after.len() - 1 && (#[trigger] after[i]) is Term implies after[i
        + 1] is Label by {
        assert(after[i] == stream[i]);
        if i + 1 < stream.len() {
            assert(after[i + 1] == stream[i + 1]);
        }
    }
    assert(labels_known(after, upto)) by {
        assert forall|i: int| 0 <= i < after.len() && (#[trigger] after[i]) is Label implies after[i]->Label_0
            == entry_name() || generated_label(after[i]->Label_0, upto) by {
            if i < stream.len() {
                assert(after[i] == stream[i]);
            }
        }
    }
    assert(labels_distinct(after)) by {
        assert forall|i: int, j: int|
            0 <= i < j < after.len() && (#[trigger] after[i]) is Label && (#[trigger] after[j]) is Label implies after[i]
            != after[j] by {
            assert(after[i] == stream[i]);
            if j < stream.len() {
                assert(after[j] == stream[j]);
            } else if after[i] == after[j] {
                assert(stream[i] == EntryView::Label(l));
                assert(has_label(stream, l));
            }
        }
    }
}

proof fn lemma_three_labels(stream: Seq<EntryView>, n: nat, pending: Set<Seq<char>>)
    requires
        orderly(stream, n, pending),
    ensures
        orderly(
            stream,
            n + 3,
            pending.insert(label_name(n + 1)).insert(label_name(n + 2)).insert(label_name(n + 3)),
        ),
        !pending.contains(label_name(n + 1)),
        !pending.contains(label_name(n + 2)),
        !pending.contains(label_name(n + 3)),
        label_name(n + 1) != label_name(n + 2),
        label_name(n + 1) != label_name(n + 3),
        label_name(n + 2) != label_name(n + 3),
{
    reveal(orderly);
    let with_new = pending.insert(label_name(n + 1)).insert(label_name(n + 2)).insert(label_name(n + 3));
    lemma_label_name_injective(n + 1, n + 2);
    lemma_label_name_injective(n + 1, n + 3);
    lemma_label_name_injective(n + 2, n + 3);
    assert forall|k: nat| n < k implies !generated_label(#[trigger] label_name(k), n) by {
        if generated_label(label_name(k), n) {
            let j = choose|j: nat| 1 <= j <= n && label_name(k) == #[trigger] label_name(j);
            lemma_label_name_injective(k, j);
        }
    }
    assert forall|k: nat| n < k implies !has_label(stream, #[trigger] label_name(k)) by {
        let l = label_name(k);
        if has_label(stream, l) {
            let i = choose|i: int| 0 <= i < stream.len() && stream[i] == EntryView::Label(l);
            assert(stream[i] is Label);
            lemma_label_name_injective(k, 0);
        }
    }
    assert forall|l: Seq<char>| generated_label(l, n) implies generated_label(l, n + 3) by {
        let j = choose|j: nat| 1 <= j <= n && l == #[trigger] label_name(j);
        assert(1 <= j <= n + 3 && l == label_name(j));
    }
    assert forall|m: Seq<char>| #[trigger] with_new.contains(m) implies generated_label(m, n + 3)
        && !has_label(stream, m) by {
        if m == label_name(n + 1) {
            assert(1 <= n + 1 <= n + 3 && m == label_name(n + 1));
        } else if m == label_name(n + 2) {
            assert(1 <= n + 2 <= n + 3 && m == label_name(n + 2));
        } else if m == label_name(n + 3) {
            assert(1 <= n + 3 <= n + 3 && m == label_name(n + 3));
        } else {
            assert(pending.contains(m));
        }
    }
    assert forall|i: int| 0 <= i < stream.len() && (#[trigger] stream[i]) is Label implies stream[i]->Label_0
        == entry_name() || generated_label(stream[i]->Label_0, n + 3) by {}
    assert(!pending.contains(label_name(n + 1)));
    assert(!pending.contains(label_name(n + 2)));
    assert(!pending.contains(label_name(n + 3)));
}

proof fn lemma_prefix_self<A>(a: Seq<A>)
    ensures
        a.is_prefix_of(a),
{
    assert(a =~= a.subrange(0, a.len() as int));
}

proof fn lemma_prefix_push<A>(a: Seq<A>, b: Seq<A>, e: A)
    requires
        a.is_prefix_of(b),
    ensures
        a.is_prefix_of(b.push(e)),
{
    assert(a =~= b.push(e).subrange(0, a.len() as int));
}

proof fn lemma_prefix_chain<A>(a: Seq<A>, b: Seq<A>, c: Seq<A>)
    requires
        a.is_prefix_of(b),
        b.is_prefix_of(c),
    ensures
        a.is_prefix_of(c),
{
    assert(a =~= c.subrange(0, a.len() as int));
}

/// Lowering an expression writes instructions only: it makes no label and
/// leaves the stream orderly and open.
pub proof fn lemma_lin_expr(e: Expr, s: LowerView, pending: Set<Seq<char>>)
    requires
        orderly(s.stream, s.labels, pending),
        open_end(s.stream),
    ensures
        orderly(lin_expr(e, s).0.stream, s.labels, pending),
        open_end(lin_expr(e, s).0.stream),
        lin_expr(e, s).0.labels == s.labels,
    decreases e,
{
    match e {
        Expr::Var(x) => {},
        Expr::Const(n) => {
            lemma_emit_inner(
                s.stream,
                s.labels,
                pending,
                InstructionView::Const { dst: lin_const(n, s).1, value: n },
            );
        },
        Expr::BinOp { op, lhs, rhs } => {
            lemma_lin_expr(*lhs, s, pending);
            let (s1, lv) = lin_expr(*lhs, s);
            lemma_lin_expr(*rhs, s1, pending);
            let (s2, rv) = lin_expr(*rhs, s1);
            lemma_emit_inner(
                s2.stream,
                s.labels,
                pending,
                InstructionView::Arith { op, dst: lin_arith(op, lv, rv, s2).1, lhs: lv, rhs: rv },
            );
        },
        Expr::Negate(inner) => {
            let (s1, zero) = lin_const(0, s);
            lemma_emit_inner(s.stream, s.labels, pending, InstructionView::Const { dst: zero, value: 0 });
            lemma_lin_expr(*inner, s1, pending);
            let (s2, rv) = lin_expr(*inner, s1);
            lemma_emit_inner(
                s2.stream,
                s.labels,
                pending,
                InstructionView::Arith {
                    op: crate::ast::BOp::Sub,
                    dst: lin_arith(crate::ast::BOp::Sub, zero, rv, s2).1,
                    lhs: zero,
                    rhs: rv,
                },
            );
        },
    }
}

/// Lowering a statement leaves the stream orderly and open, with the same
/// labels pending as before.
pub proof fn lemma_lin_stmt(st: Stmt, s: LowerView, pending: Set<Seq<char>>)
    requires
        orderly(s.stream, s.labels, pending),
        open_end(s.stream),
    ensures
        orderly(lin_stmt(st, s).stream, lin_stmt(st, s).labels, pending),
        open_end(lin_stmt(st, s).stream),
    decreases st,
{
    match st {
        Stmt::Assign(x, e) => {
            lemma_lin_expr(e, s, pending);
            let (s1, v) = lin_expr(e, s);
            lemma_emit_inner(s1.stream, s.labels, pending, InstructionView::Copy { dst: x@, src: v });
        },
        Stmt::Print(e) => {
            lemma_lin_expr(e, s, pending);
            let (s1, v) = lin_expr(e, s);
            lemma_emit_inner(s1.stream, s.labels, pending, InstructionView::Print(v));
        },
        Stmt::Read(x) => {
            lemma_emit_inner(s.stream, s.labels, pending, InstructionView::Read(x@));
        },
        Stmt::If { guard, then_branch, else_branch } => {
            lemma_lin_expr(guard, s, pending);
            let (s1, g) = lin_expr(guard, s);
            let n = s1.labels;
            let l_then = label_name(n + 1);
            let l_else = label_name(n + 2);
            let l_join = label_name(n + 3);
            let with_new = pending.insert(l_then).insert(l_else).insert(l_join);
            lemma_three_labels(s1.stream, n, pending);
            let branch = TerminatorView::Branch { guard: g, if_true: l_then, if_false: l_else };
            lemma_emit_term(s1.stream, n + 3, with_new, branch);
            let a1 = s1.stream.push(EntryView::Term(branch));
            lemma_emit_label(a1, n + 3, with_new, l_then);
            let s2 = LowerView { labels: n + 3, ..s1 }.emit(EntryView::Term(branch)).emit(
                EntryView::Label(l_then),
            );
            let then_pending = with_new.remove(l_then);
            lemma_lin_stmts(then_branch@, s2, then_pending);
            let t1 = lin_stmts(then_branch@, s2);
            let jump = TerminatorView::Jump(l_join);
            lemma_emit_term(t1.stream, t1.labels, then_pending, jump);
            let t2 = t1.close(jump);
            lemma_emit_label(t2.stream, t2.labels, then_pending, l_else);
            let s3 = t2.emit(EntryView::Label(l_else));
            let else_pending = then_pending.remove(l_else);
            lemma_lin_stmts(else_branch@, s3, else_pending);
            let e1 = lin_stmts(else_branch@, s3);
            lemma_emit_term(e1.stream, e1.labels, else_pending, jump);
            let e2 = e1.close(jump);
            lemma_emit_label(e2.stream, e2.labels, else_pending, l_join);
            assert(else_pending.remove(l_join) =~= pending);
        },
    }
}

/// Lowering statements in order leaves the stream orderly and open, with the
/// same labels pending as before.
pub proof fn lemma_lin_stmts(stmts: Seq<Stmt>, s: LowerView, pending: Set<Seq<char>>)
    requires
        orderly(s.stream, s.labels, pending),
        open_end(s.stream),
    ensures
        orderly(lin_stmts(stmts, s).stream, lin_stmts(stmts, s).labels, pending),
        open_end(lin_stmts(stmts, s).stream),
    decreases stmts,
{
    if stmts.len() > 0 {
        lemma_lin_stmts(stmts.drop_last(), s, pending);
        lemma_lin_stmt(stmts.last(), lin_stmts(stmts.drop_last(), s), pending);
    }
}

/// The stream of a program's statements after the entry marker, before the
/// final `Exit`.
pub open spec fn body_stream(stmts: Seq<Stmt>) -> Seq<EntryView> {
    lin_stmts(stmts, LowerView::initial().emit(EntryView::Label(entry_name()))).stream
}

/// The stream of a whole program.
pub open spec fn program_stream(stmts: Seq<Stmt>) -> Seq<EntryView> {
    lin_program(stmts).stream
}

/// The stream of every program is sound. It begins with the marker of the
/// entry block and ends with `Exit`; no two of its markers have one label;
/// every label that a terminator names has its marker; and each terminator
/// ends its run. Block assembly therefore never fails on it.
pub proof fn lemma_program_stream_sound(stmts: Seq<Stmt>)
    ensures
        program_stream(stmts).len() >= 2,
        program_stream(stmts)[0] == EntryView::Label(entry_name()),
        program_stream(stmts).last() == EntryView::Term(TerminatorView::Exit),
        labels_distinct(program_stream(stmts)),
        labels_known(program_stream(stmts), lin_program(stmts).labels),
        terminators_end_runs(program_stream(stmts)),
        targets_marked(program_stream(stmts), program_stream(stmts).len()),
        stream_fault(program_stream(stmts)) is None,
{
    reveal(orderly);
    let none = Set::<Seq<char>>::empty();
    let s0 = LowerView::initial().emit(EntryView::Label(entry_name()));
    assert(s0.stream[0] == EntryView::Label(entry_name()));
    assert(orderly(s0.stream, 0, none)) by {
        assert(has_label(s0.stream, entry_name()));
    }
    lemma_lin_stmts(stmts, s0, none);
    let s1 = lin_stmts(stmts, s0);
    lemma_prefix_kept_stmts(stmts, s0);
    lemma_emit_term(s1.stream, s1.labels, none, TerminatorView::Exit);
    let f = program_stream(stmts);
    assert(f == s1.stream.push(EntryView::Term(TerminatorView::Exit)));
    assert(f[0] == s1.stream[0]);
    lemma_first_dangling(f, f.len());
}

/// Lowering an expression only adds to the stream.
pub proof fn lemma_prefix_kept_expr(e: Expr, s: LowerView)
    ensures
        s.stream.is_prefix_of(lin_expr(e, s).0.stream),
    decreases e,
{
    let done = lin_expr(e, s).0.stream;
    match e {
        Expr::Var(x) => {
            lemma_prefix_self(s.stream);
        },
        Expr::Const(n) => {
            lemma_prefix_self(s.stream);
            lemma_prefix_push(s.stream, s.stream, done.last());
        },
        Expr::BinOp { op, lhs, rhs } => {
            lemma_prefix_kept_expr(*lhs, s);
            let (s1, lv) = lin_expr(*lhs, s);
            lemma_prefix_kept_expr(*rhs, s1);
            let (s2, rv) = lin_expr(*rhs, s1);
            lemma_prefix_chain(s.stream, s1.stream, s2.stream);
            lemma_prefix_push(s.stream, s2.stream, done.last());
        },
        Expr::Negate(inner) => {
            let (s1, zero) = lin_const(0, s);
            lemma_prefix_self(s.stream);
            lemma_prefix_push(s.stream, s.stream, s1.stream.last());
            lemma_prefix_kept_expr(*inner, s1);
            let (s2, rv) = lin_expr(*inner, s1);
            lemma_prefix_chain(s.stream, s1.stream, s2.stream);
            lemma_prefix_push(s.stream, s2.stream, done.last());
        },
    }
}

/// Lowering a statement only adds to the stream.
pub proof fn lemma_prefix_kept_stmt(st: Stmt, s: LowerView)
    ensures
        s.stream.is_prefix_of(lin_stmt(st, s).stream),
    decreases st,
{
    let done = lin_stmt(st, s).stream;
    match st {
        Stmt::Assign(x, e) => {
            lemma_prefix_kept_expr(e, s);
            lemma_prefix_push(s.stream, lin_expr(e, s).0.stream, done.last());
        },
        Stmt::Print(e) => {
            lemma_prefix_kept_expr(e, s);
            lemma_prefix_push(s.stream, lin_expr(e, s).0.stream, done.last());
        },
        Stmt::Read(x) => {
            lemma_prefix_self(s.stream);
            lemma_prefix_push(s.stream, s.stream, done.last());
        },
        Stmt::If { guard, then_branch, else_branch } => {
            lemma_prefix_kept_expr(guard, s);
            let (s1, g) = lin_expr(guard, s);
            let n = s1.labels;
            let branch = EntryView::Term(
                TerminatorView::Branch { guard: g, if_true: label_name(n + 1), if_false: label_name(n + 2) },
            );
            let s2 = LowerView { labels: n + 3, ..s1 }.emit(branch).emit(EntryView::Label(label_name(n + 1)));
            lemma_prefix_push(s.stream, s1.stream, branch);
            lemma_prefix_push(s.stream, s1.stream.push(branch), EntryView::Label(label_name(n + 1)));
            lemma_prefix_kept_stmts(then_branch@, s2);
            let jump = TerminatorView::Jump(label_name(n + 3));
            let t1 = lin_stmts(then_branch@, s2);
            lemma_prefix_chain(s.stream, s2.stream, t1.stream);
            let t2 = t1.close(jump);
            lemma_prefix_push(s.stream, t1.stream, EntryView::Term(jump));
            let s3 = t2.emit(EntryView::Label(label_name(n + 2)));
            lemma_prefix_push(s.stream, t2.stream, EntryView::Label(label_name(n + 2)));
            lemma_prefix_kept_stmts(else_branch@, s3);
            let e1 = lin_stmts(else_branch@, s3);
            lemma_prefix_chain(s.stream, s3.stream, e1.stream);
            let e2 = e1.close(jump);
            lemma_prefix_push(s.stream, e1.stream, EntryView::Term(jump));
            lemma_prefix_push(s.stream, e2.stream, EntryView::Label(label_name(n + 3)));
        },
    }
}

/// Lowering statements only adds to the stream.
pub proof fn lemma_prefix_kept_stmts(stmts: Seq<Stmt>, s: LowerView)
    ensures
        s.stream.is_prefix_of(lin_stmts(stmts, s).stream),
    decreases stmts,
{
    if stmts.len() > 0 {
        let s1 = lin_stmts(stmts.drop_last(), s);
        lemma_prefix_kept_stmts(stmts.drop_last(), s);
        lemma_prefix_kept_stmt(stmts.last(), s1);
        lemma_prefix_chain(s.stream, s1.stream, lin_stmt(stmts.last(), s1).stream);
    } else {
        lemma_prefix_self(s.stream);
    }
}

/// Lowering an expression records the variables it names, and no others.
pub proof fn lemma_declared_expr(e: Expr, s: LowerView)
    ensures
        lin_expr(e, s).0.declared == s.declared + expr_vars(e),
    decreases e,
{
    match e {
        Expr::Var(x) => {
            assert(s.declared.insert(x@) =~= s.declared + set![x@]);
        },
        Expr::Const(n) => {
            assert(s.declared =~= s.declared + Set::<Seq<char>>::empty());
        },
        Expr::BinOp { op, lhs, rhs } => {
            lemma_declared_expr(*lhs, s);
            lemma_declared_expr(*rhs, lin_expr(*lhs, s).0);
            assert(s.declared + expr_vars(*lhs) + expr_vars(*rhs) =~= s.declared + (expr_vars(*lhs)
                + expr_vars(*rhs)));
        },
        Expr::Negate(inner) => {
            lemma_declared_expr(*inner, lin_const(0, s).0);
        },
    }
}

/// Lowering a statement records the variables it names, and no others.
pub proof fn lemma_declared_stmt(st: Stmt, s: LowerView)
    ensures
        lin_stmt(st, s).declared == s.declared + stmt_vars(st),
    decreases st,
{
    match st {
        Stmt::Assign(x, e) => {
            lemma_declared_expr(e, s);
            assert((s.declared + expr_vars(e)).insert(x@) =~= s.declared + expr_vars(e).insert(x@));
        },
        Stmt::Print(e) => {
            lemma_declared_expr(e, s);
        },
        Stmt::Read(x) => {
            assert(s.declared.insert(x@) =~= s.declared + set![x@]);
        },
        Stmt::If { guard, then_branch, else_branch } => {
            lemma_declared_expr(guard, s);
            let (s1, g) = lin_expr(guard, s);
            let n = s1.labels;
            let branch = TerminatorView::Branch {
                guard: g,
                if_true: label_name(n + 1),
                if_false: label_name(n + 2),
            };
            let s2 = LowerView { labels: n + 3, ..s1 }.emit(EntryView::Term(branch)).emit(
                EntryView::Label(label_name(n + 1)),
            );
            lemma_declared_stmts(then_branch@, s2);
            let jump = TerminatorView::Jump(label_name(n + 3));
            let s3 = lin_stmts(then_branch@, s2).close(jump).emit(EntryView::Label(label_name(n + 2)));
            lemma_declared_stmts(else_branch@, s3);
            assert(s.declared + expr_vars(guard) + stmts_vars(then_branch@) + stmts_vars(else_branch@)
                =~= s.declared + (expr_vars(guard) + stmts_vars(then_branch@) + stmts_vars(
                else_branch@,
            )));
        },
    }
}

/// Lowering statements records the variables they name, and no others.
pub proof fn lemma_declared_stmts(stmts: Seq<Stmt>, s: LowerView)
    ensures
        lin_stmts(stmts, s).declared == s.declared + stmts_vars(stmts),
    decreases stmts,
{
    if stmts.len() > 0 {
        let s1 = lin_stmts(stmts.drop_last(), s);
        lemma_declared_stmts(stmts.drop_last(), s);
        lemma_declared_stmt(stmts.last(), s1);
        assert(s.declared + stmts_vars(stmts.drop_last()) + stmt_vars(stmts.last()) =~= s.declared + (
        stmts_vars(stmts.drop_last()) + stmt_vars(stmts.last())));
    } else {
        assert(s.declared =~= s.declared + Set::<Seq<char>>::empty());
    }
}

/// The declared variables of a program are the variables that it names.
pub proof fn lemma_declared(stmts: Seq<Stmt>)
    ensures
        lin_program(stmts).declared == stmts_vars(stmts),
{
    let s0 = LowerView::initial().emit(EntryView::Label(entry_name()));
    lemma_declared_stmts(stmts, s0);
    assert(s0.declared + stmts_vars(stmts) =~= stmts_vars(stmts));
}

/// The temporary that the entry fills, if it is the load of a constant or
/// an arithmetic instruction.
pub open spec fn fills_temp(e: EntryView) -> Option<Seq<char>> {
    match e {
        EntryView::Inner(InstructionView::Const { dst, value }) => Some(dst),
        EntryView::Inner(InstructionView::Arith { op, dst, lhs, rhs }) => Some(dst),
        _ => None,
    }
}

/// Whether the name is that of one of the first `upto` temporaries.
pub open spec fn generated_temp(name: Seq<char>, upto: nat) -> bool {
    exists|k: nat|
        1 <= k <= upto && (name == #[trigger] temp_name(const_prefix(), k) || name == temp_name(
            arith_prefix(),
            k,
        ))
}

/// Every temporary that the stream fills is one of the first `upto`, and the
/// stream fills none twice.
pub open spec fn temps_fresh(stream: Seq<EntryView>, upto: nat) -> bool {
    &&& forall|i: int|
        0 <= i < stream.len() && fills_temp(#[trigger] stream[i]) is Some ==> generated_temp(
            fills_temp(stream[i])->0,
            upto,
        )
    &&& forall|i: int, j: int|
        0 <= i < j < stream.len() && fills_temp(#[trigger] stream[i]) is Some && fills_temp(
            #[trigger] stream[j],
        ) is Some ==> fills_temp(stream[i]) != fills_temp(stream[j])
}

/// Temporaries with different numbers have different names, whichever of the
/// two prefixes each has; and each begins with an underscore.
pub proof fn lemma_temp_names_differ(a: nat, b: nat)
    ensures
        temp_name(const_prefix(), a) != temp_name(arith_prefix(), b),
        a != b ==> temp_name(const_prefix(), a) != temp_name(const_prefix(), b),
        a != b ==> temp_name(arith_prefix(), a) != temp_name(arith_prefix(), b),
        temp_name(const_prefix(), a)[0] == '_',
        temp_name(arith_prefix(), a)[0] == '_',
{
    assert(temp_name(const_prefix(), a)[1] == 'c');
    assert(temp_name(arith_prefix(), b)[1] == 't');
    if temp_name(const_prefix(), a) == temp_name(const_prefix(), b) {
        lemma_temp_name_injective(const_prefix(), a, b);
    }
    if temp_name(arith_prefix(), a) == temp_name(arith_prefix(), b) {
        lemma_temp_name_injective(arith_prefix(), a, b);
    }
}

proof fn lemma_temps_push_plain(stream: Seq<EntryView>, upto: nat, e: EntryView)
    requires
        temps_fresh(stream, upto),
        fills_temp(e) is None,
    ensures
        temps_fresh(stream.push(e), upto),
{
    let after = stream.push(e);
    assert forall|i: int| 0 <= i < after.len() && fills_temp(#[trigger] after[i]) is Some implies generated_temp(
        fills_temp(after[i])->0,
        upto,
    ) by {
        assert(after[i] == stream[i]);
    }
    assert forall|i: int, j: int|
        0 <= i < j < after.len() && fills_temp(#[trigger] after[i]) is Some && fills_temp(
            #[trigger] after[j],
        ) is Some implies fills_temp(after[i]) != fills_temp(after[j]) by {
        assert(after[i] == stream[i] && after[j] == stream[j]);
    }
}

proof fn lemma_temps_push_new(stream: Seq<EntryView>, upto: nat, e: EntryView)
    requires
        temps_fresh(stream, upto),
        fills_temp(e) == Some(temp_name(const_prefix(), upto + 1)) || fills_temp(e) == Some(
            temp_name(arith_prefix(), upto + 1),
        ),
    ensures
        temps_fresh(stream.push(e), upto + 1),
{
    let after = stream.push(e);
    assert forall|n: Seq<char>| generated_temp(n, upto) implies generated_temp(n, upto + 1)
        && fills_temp(e) != Some(n) by {
        let k = choose|k: nat|
            1 <= k <= upto && (n == #[trigger] temp_name(const_prefix(), k) || n == temp_name(
                arith_prefix(),
                k,
            ));
        assert(1 <= k <= upto + 1 && (n == temp_name(const_prefix(), k) || n == temp_name(
            arith_prefix(),
            k,
        )));
        lemma_temp_names_differ(k, upto + 1);
        lemma_temp_names_differ(upto + 1, k);
    }
    assert(generated_temp(fills_temp(e)->0, upto + 1)) by {
        let k = upto + 1;
        assert(1 <= k <= upto + 1 && (fills_temp(e)->0 == temp_name(const_prefix(), k) || fills_temp(
            e,
        )->0 == temp_name(arith_prefix(), k)));
    }
    assert forall|i: int| 0 <= i < after.len() && fills_temp(#[trigger] after[i]) is Some implies generated_temp(
        fills_temp(after[i])->0,
        upto + 1,
    ) by {
        if i < stream.len() {
            assert(after[i] == stream[i]);
        }
    }
    assert forall|i: int, j: int|
        0 <= i < j < after.len() && fills_temp(#[trigger] after[i]) is Some && fills_temp(
            #[trigger] after[j],
        ) is Some implies fills_temp(after[i]) != fills_temp(after[j]) by {
        assert(after[i] == stream[i]);
        if j < stream.len() {
            assert(after[j] == stream[j]);
        } else {
            assert(generated_temp(fills_temp(stream[i])->0, upto));
        }
    }
}

/// Lowering an expression fills fresh temporaries only.
pub proof fn lemma_temps_expr(e: Expr, s: LowerView)
    requires
        temps_fresh(s.stream, s.temps),
    ensures
        temps_fresh(lin_expr(e, s).0.stream, lin_expr(e, s).0.temps),
    decreases e,
{
    match e {
        Expr::Var(x) => {},
        Expr::Const(n) => {
            lemma_temps_push_new(s.stream, s.temps, lin_const(n, s).0.stream.last());
        },
        Expr::BinOp { op, lhs, rhs } => {
            lemma_temps_expr(*lhs, s);
            let (s1, lv) = lin_expr(*lhs, s);
            lemma_temps_expr(*rhs, s1);
            let (s2, rv) = lin_expr(*rhs, s1);
            lemma_temps_push_new(s2.stream, s2.temps, lin_arith(op, lv, rv, s2).0.stream.last());
        },
        Expr::Negate(inner) => {
            let (s1, zero) = lin_const(0, s);
            lemma_temps_push_new(s.stream, s.temps, s1.stream.last());
            lemma_temps_expr(*inner, s1);
            let (s2, rv) = lin_expr(*inner, s1);
            lemma_temps_push_new(
                s2.stream,
                s2.temps,
                lin_arith(crate::ast::BOp::Sub, zero, rv, s2).0.stream.last(),
            );
        },
    }
}

/// Lowering a statement fills fresh temporaries only.
pub proof fn lemma_temps_stmt(st: Stmt, s: LowerView)
    requires
        temps_fresh(s.stream, s.temps),
    ensures
        temps_fresh(lin_stmt(st, s).stream, lin_stmt(st, s).temps),
    decreases st,
{
    match st {
        Stmt::Assign(x, e) => {
            lemma_temps_expr(e, s);
            let (s1, v) = lin_expr(e, s);
            lemma_temps_push_plain(
                s1.stream,
                s1.temps,
                EntryView::Inner(InstructionView::Copy { dst: x@, src: v }),
            );
        },
        Stmt::Print(e) => {
            lemma_temps_expr(e, s);
            let (s1, v) = lin_expr(e, s);
            lemma_temps_push_plain(s1.stream, s1.temps, EntryView::Inner(InstructionView::Print(v)));
        },
        Stmt::Read(x) => {
            lemma_temps_push_plain(s.stream, s.temps, EntryView::Inner(InstructionView::Read(x@)));
        },
        Stmt::If { guard, then_branch, else_branch } => {
            lemma_temps_expr(guard, s);
            let (s1, g) = lin_expr(guard, s);
            let n = s1.labels;
            let branch = EntryView::Term(
                TerminatorView::Branch { guard: g, if_true: label_name(n + 1), if_false: label_name(n + 2) },
            );
            let jump = TerminatorView::Jump(label_name(n + 3));
            lemma_temps_push_plain(s1.stream, s1.temps, branch);
            lemma_temps_push_plain(s1.stream.push(branch), s1.temps, EntryView::Label(label_name(n + 1)));
            let s2 = LowerView { labels: n + 3, ..s1 }.emit(branch).emit(EntryView::Label(label_name(n + 1)));
            lemma_temps_stmts(then_branch@, s2);
            let t1 = lin_stmts(then_branch@, s2);
            lemma_temps_push_plain(t1.stream, t1.temps, EntryView::Term(jump));
            let t2 = t1.close(jump);
            lemma_temps_push_plain(t2.stream, t2.temps, EntryView::Label(label_name(n + 2)));
            let s3 = t2.emit(EntryView::Label(label_name(n + 2)));
            lemma_temps_stmts(else_branch@, s3);
            let e1 = lin_stmts(else_branch@, s3);
            lemma_temps_push_plain(e1.stream, e1.temps, EntryView::Term(jump));
            let e2 = e1.close(jump);
            lemma_temps_push_plain(e2.stream, e2.temps, EntryView::Label(label_name(n + 3)));
        },
    }
}

/// Lowering statements fills fresh temporaries only.
pub proof fn lemma_temps_stmts(stmts: Seq<Stmt>, s: LowerView)
    requires
        temps_fresh(s.stream, s.temps),
    ensures
        temps_fresh(lin_stmts(stmts, s).stream, lin_stmts(stmts, s).temps),
    decreases stmts,
{
    if stmts.len() > 0 {
        lemma_temps_stmts(stmts.drop_last(), s);
        lemma_temps_stmt(stmts.last(), lin_stmts(stmts.drop_last(), s));
    }
}

/// In the stream of a program every load of a constant and every arithmetic
/// instruction fills a temporary of its own.
pub proof fn lemma_program_temps_fresh(stmts: Seq<Stmt>)
    ensures
        temps_fresh(program_stream(stmts), lin_program(stmts).temps),
{
    let s0 = LowerView::initial().emit(EntryView::Label(entry_name()));
    lemma_temps_push_plain(LowerView::initial().stream, 0, EntryView::Label(entry_name()));
    lemma_temps_stmts(stmts, s0);
    let s1 = lin_stmts(stmts, s0);
    lemma_temps_push_plain(s1.stream, s1.temps, EntryView::Term(TerminatorView::Exit));
}

/// Whether the label is a generated one.
pub open spec fn is_generated(l: Seq<char>) -> bool {
    exists|k: nat| l == #[trigger] label_name(k)
}

/// Whether the entry is one that lowering writes between the entry marker
/// and the final `Exit`: a marker, an instruction, or a jump or a branch to
/// generated labels.
pub open spec fn inner_entry(e: EntryView) -> bool {
    match e {
        EntryView::Term(TerminatorView::Exit) => false,
        EntryView::Term(TerminatorView::Jump(l)) => is_generated(l),
        EntryView::Term(TerminatorView::Branch { guard, if_true, if_false }) => is_generated(if_true)
            && is_generated(if_false),
        _ => true,
    }
}

/// No entry of the stream is `Exit`, and every jump and branch goes to
/// generated labels.
pub open spec fn no_exit(stream: Seq<EntryView>) -> bool {
    forall|i: int| 0 <= i < stream.len() ==> inner_entry(#[trigger] stream[i])
}

proof fn lemma_no_exit_push(stream: Seq<EntryView>, e: EntryView)
    requires
        no_exit(stream),
        inner_entry(e),
    ensures
        no_exit(stream.push(e)),
{
    let after = stream.push(e);
    assert forall|i: int| 0 <= i < after.len() implies inner_entry(#[trigger] after[i]) by {
        if i < stream.len() {
            assert(after[i] == stream[i]);
        }
    }
}

/// Lowering an expression writes no `Exit` and no jump.
pub proof fn lemma_no_exit_expr(e: Expr, s: LowerView)
    requires
        no_exit(s.stream),
    ensures
        no_exit(lin_expr(e, s).0.stream),
    decreases e,
{
    match e {
        Expr::Var(x) => {},
        Expr::Const(n) => {
            lemma_no_exit_push(s.stream, lin_const(n, s).0.stream.last());
        },
        Expr::BinOp { op, lhs, rhs } => {
            lemma_no_exit_expr(*lhs, s);
            let (s1, lv) = lin_expr(*lhs, s);
            lemma_no_exit_expr(*rhs, s1);
            let (s2, rv) = lin_expr(*rhs, s1);
            lemma_no_exit_push(s2.stream, lin_arith(op, lv, rv, s2).0.stream.last());
        },
        Expr::Negate(inner) => {
            let (s1, zero) = lin_const(0, s);
            lemma_no_exit_push(s.stream, s1.stream.last());
            lemma_no_exit_expr(*inner, s1);
            let (s2, rv) = lin_expr(*inner, s1);
            lemma_no_exit_push(s2.stream, lin_arith(crate::ast::BOp::Sub, zero, rv, s2).0.stream.last());
        },
    }
}

/// Lowering a statement writes no `Exit`, and jumps to generated labels only.
pub proof fn lemma_no_exit_stmt(st: Stmt, s: LowerView)
    requires
        no_exit(s.stream),
    ensures
        no_exit(lin_stmt(st, s).stream),
    decreases st,
{
    match st {
        Stmt::Assign(x, e) => {
            lemma_no_exit_expr(e, s);
            lemma_no_exit_push(lin_expr(e, s).0.stream, lin_stmt(st, s).stream.last());
        },
        Stmt::Print(e) => {
            lemma_no_exit_expr(e, s);
            lemma_no_exit_push(lin_expr(e, s).0.stream, lin_stmt(st, s).stream.last());
        },
        Stmt::Read(x) => {
            lemma_no_exit_push(s.stream, lin_stmt(st, s).stream.last());
        },
        Stmt::If { guard, then_branch, else_branch } => {
            lemma_no_exit_expr(guard, s);
            let (s1, g) = lin_expr(guard, s);
            let n = s1.labels;
            let branch = EntryView::Term(
                TerminatorView::Branch { guard: g, if_true: label_name(n + 1), if_false: label_name(n + 2) },
            );
            let jump = TerminatorView::Jump(label_name(n + 3));
            assert(is_generated(label_name(n + 1)) && is_generated(label_name(n + 2)) && is_generated(
                label_name(n + 3),
            ));
            lemma_no_exit_push(s1.stream, branch);
            lemma_no_exit_push(s1.stream.push(branch), EntryView::Label(label_name(n + 1)));
            let s2 = LowerView { labels: n + 3, ..s1 }.emit(branch).emit(EntryView::Label(label_name(n + 1)));
            lemma_no_exit_stmts(then_branch@, s2);
            let t1 = lin_stmts(then_branch@, s2);
            lemma_no_exit_push(t1.stream, EntryView::Term(jump));
            let t2 = t1.close(jump);
            lemma_no_exit_push(t2.stream, EntryView::Label(label_name(n + 2)));
            let s3 = t2.emit(EntryView::Label(label_name(n + 2)));
            lemma_no_exit_stmts(else_branch@, s3);
            let e1 = lin_stmts(else_branch@, s3);
            lemma_no_exit_push(e1.stream, EntryView::Term(jump));
            let e2 = e1.close(jump);
            lemma_no_exit_push(e2.stream, EntryView::Label(label_name(n + 3)));
        },
    }
}

/// Lowering statements writes no `Exit`, and jumps to generated labels only.
pub proof fn lemma_no_exit_stmts(stmts: Seq<Stmt>, s: LowerView)
    requires
        no_exit(s.stream),
    ensures
        no_exit(lin_stmts(stmts, s).stream),
    decreases stmts,
{
    if stmts.len() > 0 {
        lemma_no_exit_stmts(stmts.drop_last(), s);
        lemma_no_exit_stmt(stmts.last(), lin_stmts(stmts.drop_last(), s));
    }
}

/// The stream of a program is the stream of its statements after the entry
/// marker, which holds no `Exit` and jumps to generated labels only, and
/// then `Exit`.
pub proof fn lemma_program_stream_parts(stmts: Seq<Stmt>)
    ensures
        program_stream(stmts) == body_stream(stmts).push(EntryView::Term(TerminatorView::Exit)),
        body_stream(stmts).len() >= 1,
        body_stream(stmts)[0] == EntryView::Label(entry_name()),
        no_exit(body_stream(stmts)),
{
    let none = Set::<Seq<char>>::empty();
    let s0 = LowerView::initial().emit(EntryView::Label(entry_name()));
    lemma_no_exit_push(LowerView::initial().stream, EntryView::Label(entry_name()));
    lemma_no_exit_stmts(stmts, s0);
    assert(orderly(s0.stream, 0, none)) by {
        reveal(orderly);
        assert(s0.stream[0] == EntryView::Label(entry_name()));
        assert(has_label(s0.stream, entry_name()));
    }
    lemma_lin_stmts(stmts, s0, none);
    lemma_prefix_kept_stmts(stmts, s0);
    assert(body_stream(stmts)[0] == s0.stream[0]);
}

} // verus!
