use lowering::cfg::{build_blocks, construct_cfg, reversed, CfgError};
use lowering::ident::Id;
use lowering::lower::TvEntry;
use lowering::tir::{Instruction, Terminator};

fn id(name: &str) -> Id {
    Id::new(name)
}

fn label(name: &str) -> TvEntry {
    TvEntry::Label(id(name))
}

fn read(name: &str) -> TvEntry {
    TvEntry::Inner(Instruction::Read(id(name)))
}

fn jump(name: &str) -> TvEntry {
    TvEntry::Term(Terminator::Jump(id(name)))
}

fn exit() -> TvEntry {
    TvEntry::Term(Terminator::Exit)
}

#[test]
fn empty_stream_has_no_entry_label() {
    assert_eq!(construct_cfg(vec![]).unwrap_err(), CfgError::NoEntryLabel);
}

#[test]
fn stream_must_begin_with_a_label() {
    let stream = vec![read("x"), label("a"), exit()];
    assert_eq!(construct_cfg(stream).unwrap_err(), CfgError::NoEntryLabel);
    assert_eq!(construct_cfg(vec![exit()]).unwrap_err(), CfgError::NoEntryLabel);
}

#[test]
fn stream_must_end_with_a_terminator() {
    let stream = vec![label("a"), read("x")];
    assert_eq!(construct_cfg(stream).unwrap_err(), CfgError::Unterminated);
    assert_eq!(construct_cfg(vec![label("a")]).unwrap_err(), CfgError::Unterminated);
    let open_last_run = vec![label("a"), exit(), label("b")];
    assert_eq!(construct_cfg(open_last_run).unwrap_err(), CfgError::Unterminated);
}

#[test]
fn missing_entry_label_is_reported_before_missing_terminator() {
    let stream = vec![read("x"), read("y")];
    assert_eq!(construct_cfg(stream).unwrap_err(), CfgError::NoEntryLabel);
}

#[test]
fn jump_to_unknown_label_is_an_error() {
    let stream = vec![label("a"), jump("nowhere")];
    assert_eq!(
        construct_cfg(stream).unwrap_err(),
        CfgError::UnknownLabel(id("nowhere"))
    );
}

#[test]
fn branch_reports_its_first_unknown_label() {
    let both = vec![
        label("a"),
        TvEntry::Term(Terminator::Branch { guard: id("g"), if_true: id("t"), if_false: id("f") }),
    ];
    assert_eq!(construct_cfg(both).unwrap_err(), CfgError::UnknownLabel(id("t")));
    let second = vec![
        label("a"),
        TvEntry::Term(Terminator::Branch { guard: id("g"), if_true: id("a"), if_false: id("f") }),
    ];
    assert_eq!(construct_cfg(second).unwrap_err(), CfgError::UnknownLabel(id("f")));
}

#[test]
fn first_unknown_label_in_stream_order_is_reported() {
    let stream = vec![label("a"), jump("p"), label("b"), jump("q")];
    assert_eq!(construct_cfg(stream).unwrap_err(), CfgError::UnknownLabel(id("p")));
}

#[test]
fn jump_may_name_a_later_or_an_earlier_label() {
    let stream = vec![label("a"), jump("b"), label("b"), jump("a")];
    let blocks = construct_cfg(stream).unwrap();
    assert_eq!(blocks.len(), 2);
    assert_eq!(blocks.get(&id("a")).unwrap().term, Terminator::Jump(id("b")));
    assert_eq!(blocks.get(&id("b")).unwrap().term, Terminator::Jump(id("a")));
}

#[test]
fn open_run_falls_through_to_next_label() {
    let stream = vec![label("a"), read("x"), label("b"), label("c"), read("y"), exit()];
    let blocks = construct_cfg(stream).unwrap();
    assert_eq!(blocks.len(), 3);
    let a = blocks.get(&id("a")).unwrap();
    assert_eq!(a.insn, vec![Instruction::Read(id("x"))]);
    assert_eq!(a.term, Terminator::Jump(id("b")));
    let b = blocks.get(&id("b")).unwrap();
    assert_eq!(b.insn, vec![]);
    assert_eq!(b.term, Terminator::Jump(id("c")));
    let c = blocks.get(&id("c")).unwrap();
    assert_eq!(c.insn, vec![Instruction::Read(id("y"))]);
    assert_eq!(c.term, Terminator::Exit);
}

#[test]
fn blocks_are_kept_in_ascending_order_of_label() {
    let stream = vec![label("m"), label("z"), label("a"), exit()];
    let blocks = construct_cfg(stream).unwrap();
    assert_eq!(blocks.label_at(0).as_str(), "a");
    assert_eq!(blocks.label_at(1).as_str(), "m");
    assert_eq!(blocks.label_at(2).as_str(), "z");
    assert_eq!(blocks.block_at(0).term, Terminator::Exit);
    assert_eq!(blocks.block_at(1).term, Terminator::Jump(id("z")));
    assert_eq!(blocks.block_at(2).term, Terminator::Jump(id("a")));
}

#[test]
fn later_run_replaces_earlier_run_of_same_label() {
    let stream = vec![label("a"), read("x"), exit(), label("a"), read("y"), exit()];
    let blocks = construct_cfg(stream).unwrap();
    assert_eq!(blocks.len(), 1);
    assert_eq!(blocks.get(&id("a")).unwrap().insn, vec![Instruction::Read(id("y"))]);
}

#[test]
fn terminator_inside_a_run_belongs_to_no_block() {
    let stream = vec![label("a"), jump("b"), read("x"), label("b"), exit()];
    let blocks = construct_cfg(stream).unwrap();
    let a = blocks.get(&id("a")).unwrap();
    assert_eq!(a.insn, vec![Instruction::Read(id("x"))]);
    assert_eq!(a.term, Terminator::Jump(id("b")));
}

#[test]
fn terminator_inside_a_run_is_still_checked_for_its_label() {
    let stream = vec![label("a"), jump("gone"), read("x"), exit()];
    assert_eq!(
        construct_cfg(stream).unwrap_err(),
        CfgError::UnknownLabel(id("gone"))
    );
}

#[test]
fn build_blocks_agrees_with_construct_cfg() {
    let make = || vec![label("entry"), read("x"), jump("l"), label("l"), exit()];
    let checked = construct_cfg(make()).unwrap();
    let built = build_blocks(make());
    assert_eq!(built.len(), checked.len());
    for i in 0..built.len() {
        assert_eq!(built.label_at(i), checked.label_at(i));
        assert_eq!(built.block_at(i), checked.block_at(i));
    }
}

#[test]
fn get_inner_gives_the_instruction_only() {
    assert_eq!(read("x").get_inner(), Some(Instruction::Read(id("x"))));
    assert_eq!(label("x").get_inner(), None);
    assert_eq!(exit().get_inner(), None);
}

#[test]
fn reversed_turns_the_order_round() {
    assert_eq!(reversed(vec![1, 2, 3]), vec![3, 2, 1]);
    assert_eq!(reversed(Vec::<u8>::new()), Vec::<u8>::new());
}
