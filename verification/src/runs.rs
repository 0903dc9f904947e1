//! How the runs and blocks of a stream relate to its entries: one run for
//! each marker, and, where terminators end their runs, nothing left out.

use vstd::prelude::*;
use crate::cfg::{assemble, has_label, is_last_run, lemma_runs_nonempty, run_block, run_step, runs_of, RunView};
use crate::lower::EntryView;
use crate::stream::{labels_distinct, terminators_end_runs};
use crate::tir::{InstructionView, TerminatorView};

verus! {

/// The labels of the stream's markers, in order.
pub open spec fn markers(stream: Seq<EntryView>) -> Seq<Seq<char>>
    decreases stream.len(),
{
    if stream.len() == 0 {
        Seq::empty()
    } else {
        match stream.last() {
            EntryView::Label(l) => markers(stream.drop_last()).push(l),
            _ => markers(stream.drop_last()),
        }
    }
}

/// The labels of the runs, in order.
pub open spec fn run_labels(runs: Seq<RunView>) -> Seq<Seq<char>> {
    runs.map_values(|r: RunView| r.label)
}

/// The markers hold the labels that the stream has a marker for.
pub proof fn lemma_markers(stream: Seq<EntryView>)
    ensures
        forall|l: Seq<char>| markers(stream).contains(l) <==> has_label(stream, l),
        labels_distinct(stream) ==> markers(stream).no_duplicates(),
        run_labels(runs_of(stream)) == markers(stream),
    decreases stream.len(),
{
    let m = markers(stream);
    if stream.len() > 0 {
        let front = stream.drop_last();
        let before = markers(front);
        lemma_markers(front);
        assert(stream =~= front.push(stream.last()));
        assert forall|l: Seq<char>| m.contains(l) <==> has_label(stream, l) by {
            if m.contains(l) {
                let k = choose|k: int| 0 <= k < m.len() && m[k] == l;
                if k < before.len() {
                    assert(before[k] == l);
                    assert(before.contains(l));
                    assert(has_label(front, l));
                    let i = choose|i: int| 0 <= i < front.len() && front[i] == EntryView::Label(l);
                    assert(stream[i] == EntryView::Label(l));
                } else {
                    assert(stream[stream.len() - 1] == EntryView::Label(l));
                }
            }
            if has_label(stream, l) {
                let i = choose|i: int| 0 <= i < stream.len() && stream[i] == EntryView::Label(l);
                if i < front.len() {
                    assert(front[i] == EntryView::Label(l));
                    assert(has_label(front, l));
                    assert(before.contains(l));
                    let k = choose|k: int| 0 <= k < before.len() && before[k] == l;
                    assert(m[k] == l);
                } else {
                    assert(m[m.len() - 1] == l);
                }
            }
        }
        if labels_distinct(stream) {
            assert(labels_distinct(front)) by {
                assert forall|i: int, j: int|
                    0 <= i < j < front.len() && (#[trigger] front[i]) is Label && (#[trigger] front[j]) is Label implies front[i]
                    != front[j] by {
                    assert(stream[i] == front[i] && stream[j] == front[j]);
                }
            }
            if let EntryView::Label(l) = stream.last() {
                if before.contains(l) {
                    assert(has_label(front, l));
                    let i = choose|i: int| 0 <= i < front.len() && front[i] == EntryView::Label(l);
                    assert(stream[i] == stream[stream.len() - 1]);
                }
            }
        }
        assert(run_labels(runs_of(stream)) =~= m);
    } else {
        assert(run_labels(runs_of(stream)) =~= m);
    }
}

/// The first marker of a stream that begins with one.
pub proof fn lemma_first_marker(stream: Seq<EntryView>)
    requires
        stream.len() > 0,
        stream[0] is Label,
    ensures
        markers(stream).len() > 0,
        markers(stream)[0] == stream[0]->Label_0,
    decreases stream.len(),
{
    if stream.len() > 1 {
        let front = stream.drop_last();
        assert(front[0] == stream[0]);
        lemma_first_marker(front);
    } else {
        assert(markers(stream.drop_last()) =~= Seq::<Seq<char>>::empty());
    }
}

/// Where no two markers have one label, the blocks are as many as the
/// markers, and each run gives the block of its label.
pub proof fn lemma_one_block_per_marker(stream: Seq<EntryView>)
    requires
        labels_distinct(stream),
    ensures
        assemble(stream).dom() == markers(stream).to_set(),
        assemble(stream).dom().finite(),
        assemble(stream).dom().len() == markers(stream).len(),
        runs_of(stream).len() == markers(stream).len(),
        forall|k: int|
            0 <= k < runs_of(stream).len() ==> assemble(stream).dom().contains(
                (#[trigger] runs_of(stream)[k]).label,
            ) && assemble(stream)[runs_of(stream)[k].label] == run_block(runs_of(stream), k),
{
    let runs = runs_of(stream);
    let m = markers(stream);
    let blocks = assemble(stream);
    lemma_markers(stream);
    assert(run_labels(runs).len() == runs.len());
    assert forall|l: Seq<char>| blocks.dom().contains(l) <==> m.to_set().contains(l) by {
        if blocks.dom().contains(l) {
            let k = choose|k: int| 0 <= k < runs.len() && (#[trigger] runs[k]).label == l;
            assert(run_labels(runs)[k] == l);
        }
        if m.contains(l) {
            let k = choose|k: int| 0 <= k < m.len() && m[k] == l;
            assert(run_labels(runs)[k] == l);
            assert(runs[k].label == l);
        }
    }
    assert(blocks.dom() =~= m.to_set());
    vstd::seq_lib::seq_to_set_is_finite(m);
    m.unique_seq_to_set();
    assert forall|k: int| 0 <= k < runs.len() implies blocks.dom().contains((#[trigger] runs[k]).label)
        && blocks[runs[k].label] == run_block(runs, k) by {
        let l = runs[k].label;
        assert(run_labels(runs)[k] == l);
        assert(is_last_run(runs, k, l)) by {
            assert forall|j: int| k < j < runs.len() implies (#[trigger] runs[j]).label != l by {
                assert(run_labels(runs)[j] == runs[j].label);
            }
        }
        let c = choose|c: int| is_last_run(runs, c, l);
        assert(run_labels(runs)[c] == l);
    }
}

/// Whether a run ends with the terminator.
pub open spec fn ends_run(runs: Seq<RunView>, t: TerminatorView) -> bool {
    exists|k: int| 0 <= k < runs.len() && (#[trigger] runs[k]).end == Some(t)
}

/// Whether a run holds the instruction.
pub open spec fn in_run(runs: Seq<RunView>, x: InstructionView) -> bool {
    exists|k: int| 0 <= k < runs.len() && (#[trigger] runs[k]).insn.contains(x)
}

proof fn lemma_step_keeps(before: Seq<RunView>, e: EntryView)
    requires
        before.len() > 0,
        e is Label || before.last().end is None,
    ensures
        forall|t: TerminatorView| ends_run(before, t) ==> #[trigger] ends_run(run_step(before, e), t),
        forall|x: InstructionView| in_run(before, x) ==> #[trigger] in_run(run_step(before, e), x),
        e is Term ==> ends_run(run_step(before, e), e->Term_0),
        e is Inner ==> in_run(run_step(before, e), e->Inner_0),
{
    let runs = run_step(before, e);
    assert forall|t: TerminatorView| ends_run(before, t) implies #[trigger] ends_run(runs, t) by {
        let k = choose|k: int| 0 <= k < before.len() && (#[trigger] before[k]).end == Some(t);
        assert(runs[k].end == Some(t));
    }
    assert forall|x: InstructionView| in_run(before, x) implies #[trigger] in_run(runs, x) by {
        let k = choose|k: int| 0 <= k < before.len() && (#[trigger] before[k]).insn.contains(x);
        let j = choose|j: int| 0 <= j < before[k].insn.len() && before[k].insn[j] == x;
        assert(runs[k].insn[j] == x);
    }
    if e is Term {
        assert(runs[runs.len() - 1].end == Some(e->Term_0));
    }
    if e is Inner {
        let r = runs[runs.len() - 1];
        assert(r.insn[r.insn.len() - 1] == e->Inner_0);
    }
}

/// Where each terminator ends its run, every terminator of the stream ends a
/// run of its own, and every instruction of the stream is in a run.
pub proof fn lemma_runs_keep_entries(stream: Seq<EntryView>)
    requires
        stream.len() > 0 ==> stream[0] is Label,
        terminators_end_runs(stream),
    ensures
        forall|i: int|
            0 <= i < stream.len() && (#[trigger] stream[i]) is Term ==> ends_run(
                runs_of(stream),
                stream[i]->Term_0,
            ),
        forall|i: int|
            0 <= i < stream.len() && (#[trigger] stream[i]) is Inner ==> in_run(
                runs_of(stream),
                stream[i]->Inner_0,
            ),
        runs_of(stream).len() > 0 && runs_of(stream).last().end is Some ==> stream.last() is Term,
    decreases stream.len(),
{
    let runs = runs_of(stream);
    if stream.len() > 1 {
        let front = stream.drop_last();
        let before = runs_of(front);
        let n = stream.len() - 1;
        assert(terminators_end_runs(front)) by {
            assert forall|i: int| 0 <= i < front.len() - 1 && (#[trigger] front[i]) is Term implies front[i
                + 1] is Label by {
                assert(stream[i] == front[i] && stream[i + 1] == front[i + 1]);
            }
        }
        assert(front[0] == stream[0]);
        lemma_runs_keep_entries(front);
        lemma_runs_nonempty(front);
        let e = stream.last();
        assert(stream[n - 1] == front.last());
        if !(e is Label) && before.last().end is Some {
            assert(stream[n - 1] is Term);
            assert(stream[n - 1 + 1] is Label);
        }
        lemma_step_keeps(before, e);
        assert forall|i: int| 0 <= i < stream.len() && (#[trigger] stream[i]) is Term implies ends_run(
            runs,
            stream[i]->Term_0,
        ) by {
            if i < n {
                assert(front[i] is Term);
                assert(ends_run(before, front[i]->Term_0));
            }
        }
        assert forall|i: int| 0 <= i < stream.len() && (#[trigger] stream[i]) is Inner implies in_run(
            runs,
            stream[i]->Inner_0,
        ) by {
            if i < n {
                assert(front[i] is Inner);
                assert(in_run(before, front[i]->Inner_0));
            }
        }
    } else if stream.len() == 1 {
        assert(stream.drop_last() =~= Seq::<EntryView>::empty());
        assert(runs_of(stream.drop_last()).len() == 0);
        assert(runs.len() == 1);
        assert(runs[0].end is None);
    }
}

/// The stream after its first marker holds no other marker and no
/// terminator but its last entry.
pub open spec fn single_run(stream: Seq<EntryView>) -> bool {
    &&& stream.len() >= 2
    &&& stream[0] is Label
    &&& stream.last() is Term
    &&& forall|i: int| 0 < i < stream.len() - 1 ==> (#[trigger] stream[i]) is Inner
}

/// The instructions of the stream, in order.
pub open spec fn instructions_of(stream: Seq<EntryView>) -> Seq<InstructionView>
    decreases stream.len(),
{
    if stream.len() == 0 {
        Seq::empty()
    } else {
        match stream.last() {
            EntryView::Inner(i) => instructions_of(stream.drop_last()).push(i),
            _ => instructions_of(stream.drop_last()),
        }
    }
}

proof fn lemma_single_run_prefix(stream: Seq<EntryView>, n: int)
    requires
        single_run(stream),
        1 <= n < stream.len(),
    ensures
        runs_of(stream.take(n)) == seq![
            RunView { label: stream[0]->Label_0, insn: instructions_of(stream.take(n)), end: None },
        ],
    decreases n,
{
    let p = stream.take(n);
    let front = p.drop_last();
    let l = stream[0]->Label_0;
    assert(front =~= stream.take(n - 1));
    assert(p.last() == stream[n - 1]);
    if n == 1 {
        assert(front =~= Seq::<EntryView>::empty());
        assert(runs_of(front) =~= Seq::<RunView>::empty());
        assert(instructions_of(front) =~= Seq::<InstructionView>::empty());
        assert(p.last() == EntryView::Label(l));
        assert(instructions_of(p) == instructions_of(front));
        assert(runs_of(p) == run_step(runs_of(front), p.last()));
        assert(runs_of(p) =~= seq![RunView { label: l, insn: instructions_of(p), end: None }]);
    } else {
        lemma_single_run_prefix(stream, n - 1);
        assert(stream[n - 1] is Inner);
        let x = stream[n - 1]->Inner_0;
        assert(p.last() == EntryView::Inner(x));
        let before = runs_of(front);
        assert(before == seq![RunView { label: l, insn: instructions_of(front), end: None }]);
        assert(before.len() == 1);
        assert(before.last() == RunView { label: l, insn: instructions_of(front), end: None });
        assert(instructions_of(p) == instructions_of(front).push(x));
        assert(runs_of(p) == run_step(before, p.last()));
        assert(runs_of(p) =~= seq![RunView { label: l, insn: instructions_of(p), end: None }]);
    }
}

/// A stream of one run gives one block: under the label of its marker, with
/// its instructions in order and its terminator.
pub proof fn lemma_single_run(stream: Seq<EntryView>)
    requires
        single_run(stream),
    ensures
        assemble(stream).dom() == set![stream[0]->Label_0],
        assemble(stream)[stream[0]->Label_0].insn == instructions_of(stream),
        assemble(stream)[stream[0]->Label_0].term == stream.last()->Term_0,
{
    let n = stream.len() - 1;
    let l = stream[0]->Label_0;
    lemma_single_run_prefix(stream, n);
    let front = stream.drop_last();
    assert(front =~= stream.take(n));
    let before = runs_of(front);
    assert(before.len() == 1);
    assert(before.last() == RunView { label: l, insn: instructions_of(front), end: None });
    let t = stream.last()->Term_0;
    assert(stream.last() == EntryView::Term(t));
    assert(instructions_of(stream) == instructions_of(front));
    let runs = runs_of(stream);
    assert(runs == run_step(before, stream.last()));
    assert(runs =~= seq![RunView { label: l, insn: instructions_of(stream), end: Some(t) }]);
    let blocks = assemble(stream);
    assert(runs[0].label == l);
    assert(blocks.dom() =~= set![l]);
    assert(is_last_run(runs, 0, l));
    let c = choose|c: int| is_last_run(runs, c, l);
    assert(c == 0);
}

} // verus!
