//! Block assembly: cutting a stream at its label markers into basic blocks,
//! and closing each block that runs into the next with a jump to it.

use vstd::prelude::*;
use crate::ident::Id;
use crate::idset::IdSet;
use crate::lower::{entry_views, EntryView, TvEntry};
use crate::tir::{closed_graph, instruction_views, Block, BlockMap, BlockView, Instruction, InstructionView, Terminator, TerminatorView};

verus! {

/// A stream that cannot be made into blocks.
#[derive(Debug, PartialEq, Eq)]
pub enum CfgError {
    /// The stream is empty or does not begin with a label marker.
    NoEntryLabel,
    /// The stream does not end with a terminator.
    Unterminated,
    /// A terminator names this label, and the stream has no marker for it.
    UnknownLabel(Id),
}

/// What an error is, over names.
pub enum CfgErrorView {
    NoEntryLabel,
    Unterminated,
    UnknownLabel(Seq<char>),
}

impl View for CfgError {
    type V = CfgErrorView;

    open spec fn view(&self) -> CfgErrorView {
        match *self {
            CfgError::NoEntryLabel => CfgErrorView::NoEntryLabel,
            CfgError::Unterminated => CfgErrorView::Unterminated,
            CfgError::UnknownLabel(l) => CfgErrorView::UnknownLabel(l@),
        }
    }
}

/// Whether the stream has a marker for the label.
pub open spec fn has_label(stream: Seq<EntryView>, l: Seq<char>) -> bool {
    stream.contains(EntryView::Label(l))
}

/// The first label that the terminator names and the stream has no marker
/// for; of a branch, the label taken on true comes first.
pub open spec fn dangling(stream: Seq<EntryView>, t: TerminatorView) -> Option<Seq<char>> {
    match t {
        TerminatorView::Exit => None,
        TerminatorView::Jump(l) => if has_label(stream, l) {
            None
        } else {
            Some(l)
        },
        TerminatorView::Branch { guard, if_true, if_false } => if !has_label(stream, if_true) {
            Some(if_true)
        } else if !has_label(stream, if_false) {
            Some(if_false)
        } else {
            None
        },
    }
}

/// The first label without a marker that a terminator among the first `n`
/// entries names.
pub open spec fn first_dangling(stream: Seq<EntryView>, n: nat) -> Option<Seq<char>>
    decreases n,
{
    if n == 0 {
        None
    } else {
        match first_dangling(stream, (n - 1) as nat) {
            Some(l) => Some(l),
            None => match stream[n - 1] {
                EntryView::Term(t) => dangling(stream, t),
                _ => None,
            },
        }
    }
}

/// Whether the entry is a terminator that names the label.
pub open spec fn entry_targets(e: EntryView, l: Seq<char>) -> bool {
    e matches EntryView::Term(t) && t.targets(l)
}

/// Every label that a terminator among the first `n` entries names has its
/// marker in the stream.
pub open spec fn targets_marked(stream: Seq<EntryView>, n: nat) -> bool {
    forall|i: int, l: Seq<char>|
        0 <= i < n && #[trigger] entry_targets(stream[i], l) ==> has_label(stream, l)
}

/// No label is left dangling exactly when every target has its marker.
pub proof fn lemma_first_dangling(stream: Seq<EntryView>, n: nat)
    requires
        n <= stream.len(),
    ensures
        first_dangling(stream, n) is None <==> targets_marked(stream, n),
        first_dangling(stream, n) matches Some(l) ==> !has_label(stream, l),
    decreases n,
{
    if n > 0 {
        lemma_first_dangling(stream, (n - 1) as nat);
        if first_dangling(stream, (n - 1) as nat) is None {
            match stream[n - 1] {
                EntryView::Term(t) => {
                    if let Some(l) = dangling(stream, t) {
                        assert(entry_targets(stream[n - 1], l));
                    }
                },
                _ => {},
            }
        }
    }
}

/// What is wrong with a stream, if anything: the first of the three faults
/// that it has.
pub open spec fn stream_fault(stream: Seq<EntryView>) -> Option<CfgErrorView> {
    if stream.len() == 0 || !(stream[0] is Label) {
        Some(CfgErrorView::NoEntryLabel)
    } else if !(stream.last() is Term) {
        Some(CfgErrorView::Unterminated)
    } else {
        match first_dangling(stream, stream.len()) {
            Some(l) => Some(CfgErrorView::UnknownLabel(l)),
            None => None,
        }
    }
}

/// A run of the stream: a label marker and what follows it up to the next
/// marker.
pub struct RunView {
    /// The label of the marker.
    pub label: Seq<char>,
    /// The instructions of the run, in order.
    pub insn: Seq<InstructionView>,
    /// The terminator that is the run's last entry, if its last entry is one.
    pub end: Option<TerminatorView>,
}

/// The runs after one more entry: a marker begins a run, and an
/// instruction or a terminator belongs to the last run so far. An entry
/// before the first marker belongs to no run.
pub open spec fn run_step(runs: Seq<RunView>, e: EntryView) -> Seq<RunView> {
    match e {
        EntryView::Label(l) => runs.push(RunView { label: l, insn: Seq::empty(), end: None }),
        EntryView::Inner(i) => if runs.len() == 0 {
            runs
        } else {
            runs.drop_last().push(RunView { insn: runs.last().insn.push(i), end: None, ..runs.last() })
        },
        EntryView::Term(t) => if runs.len() == 0 {
            runs
        } else {
            runs.drop_last().push(RunView { end: Some(t), ..runs.last() })
        },
    }
}

/// The runs of a stream, in order.
pub open spec fn runs_of(stream: Seq<EntryView>) -> Seq<RunView>
    decreases stream.len(),
{
    if stream.len() == 0 {
        Seq::empty()
    } else {
        run_step(runs_of(stream.drop_last()), stream.last())
    }
}

/// The block of the run at `k`: its instructions, and its own terminator or,
/// where it has none, a jump to the label of the next run.
pub open spec fn run_block(runs: Seq<RunView>, k: int) -> BlockView {
    BlockView {
        insn: runs[k].insn,
        term: match runs[k].end {
            Some(t) => t,
            None => TerminatorView::Jump(runs[k + 1].label),
        },
    }
}

/// Whether the run at `k` is the last one with the label.
pub open spec fn is_last_run(runs: Seq<RunView>, k: int, l: Seq<char>) -> bool {
    &&& 0 <= k < runs.len()
    &&& runs[k].label == l
    &&& forall|j: int| k < j < runs.len() ==> (#[trigger] runs[j]).label != l
}

/// The blocks of the runs by label. Of several runs with one label the last
/// gives the block.
pub open spec fn blocks_of(runs: Seq<RunView>) -> Map<Seq<char>, BlockView> {
    Map::new(
        |l: Seq<char>| exists|k: int| 0 <= k < runs.len() && (#[trigger] runs[k]).label == l,
        |l: Seq<char>| run_block(runs, choose|k: int| is_last_run(runs, k, l)),
    )
}

/// The blocks of a stream.
pub open spec fn assemble(stream: Seq<EntryView>) -> Map<Seq<char>, BlockView> {
    blocks_of(runs_of(stream))
}

/// A label that occurs among the runs has a last run.
pub proof fn lemma_last_run_exists(runs: Seq<RunView>, l: Seq<char>, n: int)
    requires
        0 <= n < runs.len(),
        runs[n].label == l,
    ensures
        exists|k: int| is_last_run(runs, k, l),
    decreases runs.len() - n,
{
    if exists|j: int| n < j < runs.len() && (#[trigger] runs[j]).label == l {
        let j = choose|j: int| n < j < runs.len() && (#[trigger] runs[j]).label == l;
        lemma_last_run_exists(runs, l, j);
    } else {
        assert(is_last_run(runs, n, l));
    }
}

/// Whether a run has the label.
pub open spec fn run_labelled(runs: Seq<RunView>, l: Seq<char>) -> bool {
    exists|k: int| 0 <= k < runs.len() && (#[trigger] runs[k]).label == l
}

/// The runs have the labels of the stream's markers, and a run's terminator
/// is a terminator of the stream.
pub proof fn lemma_runs_from_stream(stream: Seq<EntryView>)
    ensures
        forall|l: Seq<char>| #[trigger] run_labelled(runs_of(stream), l) <==> has_label(stream, l),
        forall|k: int|
            0 <= k < runs_of(stream).len() && (#[trigger] runs_of(stream)[k]).end is Some
                ==> stream.contains(EntryView::Term(runs_of(stream)[k].end->0)),
    decreases stream.len(),
{
    let runs = runs_of(stream);
    if stream.len() > 0 {
        let front = stream.drop_last();
        let before = runs_of(front);
        lemma_runs_from_stream(front);
        assert(stream =~= front.push(stream.last()));
        assert forall|l: Seq<char>| #[trigger] run_labelled(runs, l) <==> has_label(stream, l) by {
            if run_labelled(runs, l) {
                let k = choose|k: int| 0 <= k < runs.len() && (#[trigger] runs[k]).label == l;
                if k < before.len() && before[k].label == l {
                    assert(run_labelled(before, l));
                    let i = choose|i: int| 0 <= i < front.len() && front[i] == EntryView::Label(l);
                    assert(stream[i] == EntryView::Label(l));
                } else {
                    assert(stream[stream.len() - 1] == EntryView::Label(l));
                }
            }
            if has_label(stream, l) {
                let i = choose|i: int| 0 <= i < stream.len() && stream[i] == EntryView::Label(l);
                if i < front.len() {
                    assert(front[i] == EntryView::Label(l));
                    assert(run_labelled(before, l));
                    let k = choose|k: int| 0 <= k < before.len() && (#[trigger] before[k]).label == l;
                    assert(runs[k].label == l);
                } else {
                    assert(runs[runs.len() - 1].label == l);
                }
            }
        }
        assert forall|k: int| 0 <= k < runs.len() && (#[trigger] runs[k]).end is Some implies stream.contains(
            EntryView::Term(runs[k].end->0),
        ) by {
            if k < before.len() && before[k].end == runs[k].end {
                let t = EntryView::Term(before[k].end->0);
                let i = choose|i: int| 0 <= i < front.len() && front[i] == t;
                assert(stream[i] == t);
            } else {
                assert(stream[stream.len() - 1] == EntryView::Term(runs[k].end->0));
            }
        }
    }
}

/// The blocks of a sound stream: each marker's label has its block, the
/// first marker's among them, and every label that a block's terminator
/// names has its block.
pub proof fn lemma_assemble_closed(stream: Seq<EntryView>)
    requires
        stream_fault(stream) is None,
    ensures
        forall|l: Seq<char>| assemble(stream).dom().contains(l) <==> has_label(stream, l),
        assemble(stream).dom().contains(stream[0]->Label_0),
        closed_graph(assemble(stream)),
{
    let runs = runs_of(stream);
    let blocks = assemble(stream);
    lemma_runs_from_stream(stream);
    lemma_runs_closed(stream);
    lemma_first_dangling(stream, stream.len());
    assert forall|l: Seq<char>| blocks.dom().contains(l) <==> has_label(stream, l) by {
        assert(blocks.dom().contains(l) <==> run_labelled(runs, l));
    }
    assert(stream[0] == EntryView::Label(stream[0]->Label_0));
    assert(has_label(stream, stream[0]->Label_0));
    assert forall|l: Seq<char>, m: Seq<char>|
        blocks.dom().contains(l) && #[trigger] blocks[l].term.targets(m) implies blocks.dom().contains(
        m,
    ) by {
        let n = choose|k: int| 0 <= k < runs.len() && (#[trigger] runs[k]).label == l;
        lemma_last_run_exists(runs, l, n);
        let k = choose|k: int| is_last_run(runs, k, l);
        match runs[k].end {
            Some(t) => {
                let i = choose|i: int| 0 <= i < stream.len() && stream[i] == EntryView::Term(t);
                assert(entry_targets(stream[i], m));
            },
            None => {
                assert(k + 1 < runs.len());
                assert(runs[k + 1].label == m);
                assert(run_labelled(runs, m));
            },
        }
    }
}

struct Run {
    label: Id,
    insn: Vec<Instruction>,
    end: Option<Terminator>,
}

impl View for Run {
    type V = RunView;

    closed spec fn view(&self) -> RunView {
        RunView {
            label: self.label@,
            insn: instruction_views(self.insn@),
            end: match self.end {
                Some(t) => Some(t@),
                None => None,
            },
        }
    }
}

spec fn run_views(runs: Seq<Run>) -> Seq<RunView> {
    runs.map_values(|r: Run| r@)
}

/// The same items in the opposite order.
pub fn reversed<T>(v: Vec<T>) -> (r: Vec<T>)
    ensures
        r@ == v@.reverse(),
{
    let mut v = v;
    let ghost all = v@;
    let mut r: Vec<T> = Vec::new();
    while v.len() > 0
        invariant
            v@.len() + r@.len() == all.len(),
            forall|i: int| 0 <= i < v@.len() ==> v@[i] == all[i],
            forall|i: int| 0 <= i < r@.len() ==> r@[i] == all[all.len() - 1 - i],
        decreases v.len(),
    {
        let x = v.pop().unwrap();
        r.push(x);
    }
    assert(r@ =~= all.reverse());
    r
}

fn collect_runs(tv: Vec<TvEntry>) -> (runs: Vec<Run>)
    ensures
        run_views(runs@) == runs_of(entry_views(tv@)),
{
    let ghost stream = entry_views(tv@);
    let mut rest = reversed(tv);
    let mut runs: Vec<Run> = Vec::new();
    let ghost mut done: int = 0;
    assert(run_views(runs@) =~= runs_of(stream.take(0)));
    while rest.len() > 0
        invariant
            0 <= done <= stream.len(),
            rest.len() == stream.len() - done,
            stream == entry_views(tv@),
            forall|i: int| 0 <= i < rest.len() ==> (#[trigger] rest[i])@ == stream[stream.len() - 1 - i],
            run_views(runs@) == runs_of(stream.take(done)),
        decreases rest.len(),
    {
        let e = rest.pop().unwrap();
        proof {
            assert(e@ == stream[done]);
            assert(stream.take(done + 1).drop_last() =~= stream.take(done));
            assert(stream.take(done + 1).last() == stream[done]);
        }
        let ghost before = run_views(runs@);
        match e {
            TvEntry::Label(l) => {
                let run = Run { label: l, insn: Vec::new(), end: None };
                assert(run@.insn =~= Seq::<InstructionView>::empty());
                runs.push(run);
                assert(run_views(runs@) =~= before.push(run@));
            },
            TvEntry::Inner(i) => {
                if runs.len() > 0 {
                    let mut run = runs.pop().unwrap();
                    let ghost last = run@;
                    assert(last == before.last());
                    run.insn.push(i);
                    run.end = None;
                    assert(run@.insn =~= last.insn.push(i@));
                    runs.push(run);
                    assert(run_views(runs@) =~= before.drop_last().push(run@));
                }
            },
            TvEntry::Term(t) => {
                if runs.len() > 0 {
                    let mut run = runs.pop().unwrap();
                    let ghost last = run@;
                    assert(last == before.last());
                    run.end = Some(t);
                    runs.push(run);
                    assert(run_views(runs@) =~= before.drop_last().push(run@));
                }
            },
        }
        proof {
            done = done + 1;
        }
    }
    assert(stream.take(done) =~= stream);
    runs
}

/// The runs of a stream that begins with a marker and ends with a
/// terminator: there is one at least, and the last has its terminator.
pub proof fn lemma_runs_closed(stream: Seq<EntryView>)
    requires
        stream.len() > 0,
        stream[0] is Label,
        stream.last() is Term,
    ensures
        runs_of(stream).len() > 0,
        runs_of(stream).last().end is Some,
{
    lemma_runs_nonempty(stream);
    lemma_runs_nonempty(stream.drop_last());
}

/// A stream that begins with a marker has a run.
pub proof fn lemma_runs_nonempty(stream: Seq<EntryView>)
    requires
        stream.len() > 0,
        stream[0] is Label,
    ensures
        runs_of(stream).len() > 0,
    decreases stream.len(),
{
    if stream.len() > 1 {
        lemma_runs_nonempty(stream.drop_last());
    }
}

/// Whether a run at `k` or later has the label.
spec fn occurs_from(all: Seq<RunView>, k: int, l: Seq<char>) -> bool {
    exists|j: int| k <= j < all.len() && (#[trigger] all[j]).label == l
}

/// Whether the map holds the blocks of the runs from `k` on.
#[verifier::opaque]
spec fn resolved_from(all: Seq<RunView>, k: int, m: Map<Seq<char>, BlockView>) -> bool {
    &&& forall|l: Seq<char>| m.dom().contains(l) <==> #[trigger] occurs_from(all, k, l)
    &&& forall|j: int|
        k <= j < all.len() && is_last_run(all, j, all[j].label) ==> m[(#[trigger] all[j]).label]
            == run_block(all, j)
}

proof fn lemma_resolve_step(all: Seq<RunView>, k: int, m: Map<Seq<char>, BlockView>)
    requires
        0 <= k < all.len(),
        resolved_from(all, k + 1, m),
    ensures
        m.dom().contains(all[k].label) ==> resolved_from(all, k, m),
        !m.dom().contains(all[k].label) ==> resolved_from(
            all,
            k,
            m.insert(all[k].label, run_block(all, k)),
        ),
{
    reveal(resolved_from);
    let lk = all[k].label;
    let m2 = if m.dom().contains(lk) {
        m
    } else {
        m.insert(lk, run_block(all, k))
    };
    assert forall|l: Seq<char>| m2.dom().contains(l) <==> #[trigger] occurs_from(all, k, l) by {
        if occurs_from(all, k, l) {
            let j = choose|j: int| k <= j < all.len() && (#[trigger] all[j]).label == l;
            if j > k {
                assert(occurs_from(all, k + 1, l));
            }
        }
        if m2.dom().contains(l) {
            if l == lk {
                assert(all[k].label == l);
            } else {
                assert(occurs_from(all, k + 1, l));
                let j = choose|j: int| k + 1 <= j < all.len() && (#[trigger] all[j]).label == l;
                assert(all[j].label == l);
            }
        }
    }
    assert forall|j: int| k <= j < all.len() && is_last_run(all, j, all[j].label) implies m2[(
    #[trigger] all[j]).label] == run_block(all, j) by {
        if j == k {
            if m.dom().contains(lk) {
                assert(occurs_from(all, k + 1, lk));
                let i = choose|i: int| k + 1 <= i < all.len() && (#[trigger] all[i]).label == lk;
                assert(all[i].label == lk);
            }
        } else {
            assert(occurs_from(all, k + 1, all[j].label));
        }
    }
}

proof fn lemma_resolve_done(all: Seq<RunView>, m: Map<Seq<char>, BlockView>)
    requires
        resolved_from(all, 0, m),
    ensures
        m == blocks_of(all),
{
    reveal(resolved_from);
    let b = blocks_of(all);
    assert forall|l: Seq<char>| m.dom().contains(l) <==> b.dom().contains(l) by {
        if b.dom().contains(l) {
            let j = choose|j: int| 0 <= j < all.len() && (#[trigger] all[j]).label == l;
            assert(occurs_from(all, 0, l));
        }
        if m.dom().contains(l) {
            assert(occurs_from(all, 0, l));
        }
    }
    assert forall|l: Seq<char>| b.dom().contains(l) implies #[trigger] m[l] == b[l] by {
        let n = choose|k: int| 0 <= k < all.len() && (#[trigger] all[k]).label == l;
        lemma_last_run_exists(all, l, n);
        let k = choose|k: int| is_last_run(all, k, l);
        assert(m[all[k].label] == run_block(all, k));
    }
    assert(m =~= b);
}

fn resolve_runs(runs: Vec<Run>) -> (blocks: BlockMap)
    requires
        runs.len() > 0,
        run_views(runs@).last().end is Some,
    ensures
        blocks.wf(),
        blocks@ == blocks_of(run_views(runs@)),
{
    let ghost all = run_views(runs@);
    let mut runs = runs;
    let mut blocks = BlockMap::new();
    let mut next: Option<Id> = None;
    assert(resolved_from(all, all.len() as int, blocks@)) by {
        reveal(resolved_from);
    }
    while runs.len() > 0
        invariant
            runs.len() <= all.len(),
            all.len() > 0,
            all.last().end is Some,
            run_views(runs@) == all.take(runs.len() as int),
            blocks.wf(),
            runs.len() < all.len() ==> next is Some && next->0@ == all[runs.len() as int].label,
            resolved_from(all, runs.len() as int, blocks@),
        decreases runs.len(),
    {
        let ghost k = runs.len() - 1;
        let ghost before = run_views(runs@);
        let run = runs.pop().unwrap();
        proof {
            assert(run@ == before[k]);
            assert(run_views(runs@) =~= all.take(k));
            lemma_resolve_step(all, k, blocks@);
        }
        let Run { label, insn, end } = run;
        let label_next = label.clone();
        let term = match end {
            Some(t) => t,
            None => match next {
                Some(l) => Terminator::Jump(l),
                None => vstd::pervasive::unreached(),
            },
        };
        let block = Block { insn, term };
        if !blocks.contains_key(&label) {
            blocks.insert(label, block);
        }
        next = Some(label_next);
    }
    proof {
        lemma_resolve_done(all, blocks@);
    }
    blocks
}

/// Makes the blocks of a stream that has no fault.
pub fn build_blocks(tv: Vec<TvEntry>) -> (blocks: BlockMap)
    requires
        stream_fault(entry_views(tv@)) is None,
    ensures
        blocks.wf(),
        blocks@ == assemble(entry_views(tv@)),
        closed_graph(blocks@),
{
    proof {
        lemma_runs_closed(entry_views(tv@));
        lemma_assemble_closed(entry_views(tv@));
    }
    let runs = collect_runs(tv);
    resolve_runs(runs)
}

/// A label found dangling among the first entries is the one found in the
/// whole stream.
proof fn lemma_first_dangling_stays(stream: Seq<EntryView>, n: nat, m: nat)
    requires
        n <= m,
        first_dangling(stream, n) is Some,
    ensures
        first_dangling(stream, m) == first_dangling(stream, n),
    decreases m,
{
    if m > n {
        lemma_first_dangling_stays(stream, n, (m - 1) as nat);
    }
}

fn collect_labels(tv: &Vec<TvEntry>) -> (labels: IdSet)
    ensures
        labels.wf(),
        forall|l: Seq<char>| labels@.contains(l) <==> has_label(entry_views(tv@), l),
{
    let ghost stream = entry_views(tv@);
    let mut labels = IdSet::new();
    let mut i: usize = 0;
    while i < tv.len()
        invariant
            i <= tv.len(),
            stream == entry_views(tv@),
            labels.wf(),
            forall|l: Seq<char>| labels@.contains(l) <==> has_label(stream.take(i as int), l),
        decreases tv.len() - i,
    {
        let ghost seen = stream.take(i as int);
        assert(stream.take(i + 1) =~= seen.push(stream[i as int]));
        let ghost held = labels@;
        match &tv[i] {
            TvEntry::Label(l) => {
                labels.insert(l.clone());
            },
            _ => {},
        }
        proof {
            let now = seen.push(stream[i as int]);
            assert forall|l: Seq<char>| labels@.contains(l) <==> has_label(now, l) by {
                if has_label(now, l) {
                    let j = choose|j: int| 0 <= j < now.len() && now[j] == EntryView::Label(l);
                    if j < i {
                        assert(seen[j] == EntryView::Label(l));
                    }
                }
                if labels@.contains(l) {
                    if held.contains(l) {
                        let j = choose|j: int| 0 <= j < seen.len() && seen[j] == EntryView::Label(l);
                        assert(now[j] == EntryView::Label(l));
                    } else {
                        assert(now[i as int] == EntryView::Label(l));
                    }
                }
            }
        }
        i += 1;
    }
    assert(stream.take(i as int) =~= stream);
    labels
}

fn dangling_target(t: &Terminator, labels: &IdSet, Ghost(stream): Ghost<Seq<EntryView>>) -> (r: Option<Id>)
    requires
        labels.wf(),
        forall|l: Seq<char>| labels@.contains(l) <==> has_label(stream, l),
    ensures
        match r {
            Some(l) => dangling(stream, t@) == Some(l@),
            None => dangling(stream, t@) is None,
        },
{
    match t {
        Terminator::Exit => None,
        Terminator::Jump(l) => if labels.contains(l) {
            None
        } else {
            Some(l.clone())
        },
        Terminator::Branch { guard, if_true, if_false } => if !labels.contains(if_true) {
            Some(if_true.clone())
        } else if !labels.contains(if_false) {
            Some(if_false.clone())
        } else {
            None
        },
    }
}

fn find_dangling(tv: &Vec<TvEntry>) -> (r: Option<Id>)
    ensures
        match r {
            Some(l) => first_dangling(entry_views(tv@), tv@.len()) == Some(l@),
            None => first_dangling(entry_views(tv@), tv@.len()) is None,
        },
{
    let ghost stream = entry_views(tv@);
    let labels = collect_labels(tv);
    let mut i: usize = 0;
    while i < tv.len()
        invariant
            i <= tv.len(),
            stream == entry_views(tv@),
            labels.wf(),
            forall|l: Seq<char>| labels@.contains(l) <==> has_label(stream, l),
            first_dangling(stream, i as nat) is None,
        decreases tv.len() - i,
    {
        if let TvEntry::Term(t) = &tv[i] {
            if let Some(l) = dangling_target(t, &labels, Ghost(stream)) {
                proof {
                    assert(stream[i as int] == EntryView::Term(t@));
                    assert(first_dangling(stream, (i + 1) as nat) == Some(l@));
                    lemma_first_dangling_stays(stream, (i + 1) as nat, stream.len());
                }
                return Some(l);
            }
        }
        i += 1;
    }
    None
}

/// Makes the blocks of a stream, or says what is wrong with it.
///
/// A stream is sound when it begins with a label marker, ends with a
/// terminator, and has a marker for every label that a terminator names.
/// Each run then gives the block of its label: the run's instructions in
/// order, and the terminator that ends the run or, where an instruction or
/// the marker itself ends it, a jump to the label of the next run. A
/// terminator that does not end its run belongs to no block.
pub fn construct_cfg(tv: Vec<TvEntry>) -> (r: Result<BlockMap, CfgError>)
    ensures
        match r {
            Ok(blocks) => {
                &&& stream_fault(entry_views(tv@)) is None
                &&& blocks.wf()
                &&& blocks@ == assemble(entry_views(tv@))
                &&& closed_graph(blocks@)
            },
            Err(e) => stream_fault(entry_views(tv@)) == Some(e@),
        },
{
    let n = tv.len();
    if n == 0 {
        return Err(CfgError::NoEntryLabel);
    }
    match &tv[0] {
        TvEntry::Label(_) => {},
        _ => {
            return Err(CfgError::NoEntryLabel);
        },
    }
    match &tv[n - 1] {
        TvEntry::Term(_) => {},
        _ => {
            return Err(CfgError::Unterminated);
        },
    }
    match find_dangling(&tv) {
        Some(l) => Err(CfgError::UnknownLabel(l)),
        None => Ok(build_blocks(tv)),
    }
}

} // verus!
