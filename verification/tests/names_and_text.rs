use lowering::ast::{BOp, Expr, Program, Stmt};
use lowering::ident::{decimal_text, Id};
use lowering::idset::{find_slot, IdSet};
use lowering::lower::{lower, Lower, TvEntry};
use lowering::render::int_to_text;
use lowering::tir::{Block, BlockMap, Instruction, Terminator};

fn id(name: &str) -> Id {
    Id::new(name)
}

#[test]
fn identifiers_are_equal_by_name() {
    assert!(id("x").same(&id("x")));
    assert!(!id("x").same(&id("y")));
    assert!(!id("x").same(&id("xx")));
    assert_eq!(id("abc").as_str(), "abc");
    assert_eq!(id("abc").clone(), id("abc"));
}

#[test]
fn identifiers_are_ordered_by_name() {
    assert!(id("a").precedes(&id("b")));
    assert!(!id("b").precedes(&id("a")));
    assert!(!id("a").precedes(&id("a")));
    assert!(id("a").precedes(&id("ab")));
    assert!(!id("ab").precedes(&id("a")));
    assert!(id("").precedes(&id("a")));
    assert!(!id("").precedes(&id("")));
    assert!(id("lbl10").precedes(&id("lbl2")));
    assert!(id("Z").precedes(&id("a")));
    assert!(id("_t_1").precedes(&id("a")));
    assert!(id("z").precedes(&id("\u{e9}")));
    assert!(id("\u{e9}").precedes(&id("\u{4e2d}")));
}

#[test]
fn order_of_names_agrees_with_order_of_strings() {
    let names = ["", "a", "ab", "b", "lbl1", "lbl10", "lbl2", "_x", "Z", "\u{e9}", "entry"];
    for a in names {
        for b in names {
            assert_eq!(id(a).precedes(&id(b)), a < b);
        }
    }
}

#[test]
fn numbers_are_written_in_decimal() {
    assert_eq!(decimal_text(0), "0");
    assert_eq!(decimal_text(7), "7");
    assert_eq!(decimal_text(10), "10");
    assert_eq!(decimal_text(109), "109");
    assert_eq!(decimal_text(1234567890), "1234567890");
    assert_eq!(decimal_text(u128::MAX), "340282366920938463463374607431768211455");
}

#[test]
fn integers_are_written_with_their_sign() {
    assert_eq!(int_to_text(0), "0");
    assert_eq!(int_to_text(42), "42");
    assert_eq!(int_to_text(-1), "-1");
    assert_eq!(int_to_text(i64::MAX), "9223372036854775807");
    assert_eq!(int_to_text(i64::MIN), "-9223372036854775808");
}

#[test]
fn generated_names_have_prefix_and_number() {
    assert_eq!(Id::temp("_const", 1).as_str(), "_const_1");
    assert_eq!(Id::temp("_t", 12).as_str(), "_t_12");
    assert_eq!(Id::label(1).as_str(), "lbl1");
    assert_eq!(Id::label(30).as_str(), "lbl30");
    assert_eq!(Id::entry().as_str(), "entry");
}

#[test]
fn fresh_names_count_upwards() {
    let mut state = Lower::new();
    assert_eq!(state.mk_var("_const").as_str(), "_const_1");
    assert_eq!(state.mk_var("_t").as_str(), "_t_2");
    assert_eq!(state.mk_var("_t").as_str(), "_t_3");
    assert_eq!(state.mk_label().as_str(), "lbl1");
    assert_eq!(state.mk_label().as_str(), "lbl2");
    assert_eq!(state.mk_var("_const").as_str(), "_const_4");
}

#[test]
fn separate_lowerings_do_not_share_counters() {
    let mut first = Lower::new();
    let mut second = Lower::new();
    assert_eq!(first.mk_label().as_str(), "lbl1");
    assert_eq!(first.mk_label().as_str(), "lbl2");
    assert_eq!(second.mk_label().as_str(), "lbl1");
    assert_eq!(second.mk_var("_t").as_str(), "_t_1");
}

#[test]
fn lowering_state_records_and_writes() {
    let mut state = Lower::new();
    assert!(!state.is_closed());
    state.add_decl(id("x"));
    state.add_decl(id("x"));
    state.emit(TvEntry::Label(id("entry")));
    assert!(!state.is_closed());
    state.close(Terminator::Exit);
    assert!(state.is_closed());
    state.close(Terminator::Jump(id("entry")));
    let (stream, declared) = state.finish();
    assert_eq!(stream, vec![TvEntry::Label(id("entry")), TvEntry::Term(Terminator::Exit)]);
    assert_eq!(declared.len(), 1);
    assert!(declared.contains(&id("x")));
}

#[test]
fn set_keeps_members_once_in_ascending_order() {
    let mut set = IdSet::new();
    for name in ["m", "a", "z", "m", "b", "a"] {
        set.insert(id(name));
    }
    assert_eq!(set.len(), 4);
    assert_eq!(set.get(0).as_str(), "a");
    assert_eq!(set.get(1).as_str(), "b");
    assert_eq!(set.get(2).as_str(), "m");
    assert_eq!(set.get(3).as_str(), "z");
    assert!(set.contains(&id("m")));
    assert!(!set.contains(&id("c")));
    assert!(!IdSet::new().contains(&id("a")));
}

#[test]
fn slot_is_first_place_not_before_the_name() {
    let ids = vec![id("b"), id("d"), id("f")];
    assert_eq!(find_slot(&ids, &id("a")), (0, false));
    assert_eq!(find_slot(&ids, &id("b")), (0, true));
    assert_eq!(find_slot(&ids, &id("c")), (1, false));
    assert_eq!(find_slot(&ids, &id("f")), (2, true));
    assert_eq!(find_slot(&ids, &id("g")), (3, false));
    assert_eq!(find_slot(&Vec::new(), &id("g")), (0, false));
}

#[test]
fn block_map_inserts_and_replaces() {
    let mut map = BlockMap::new();
    assert_eq!(map.len(), 0);
    assert!(map.get(&id("a")).is_none());
    map.insert(id("b"), Block { insn: vec![], term: Terminator::Exit });
    map.insert(id("a"), Block { insn: vec![], term: Terminator::Jump(id("b")) });
    assert_eq!(map.len(), 2);
    assert_eq!(map.label_at(0).as_str(), "a");
    assert_eq!(map.get(&id("a")).unwrap().term, Terminator::Jump(id("b")));
    map.insert(id("a"), Block { insn: vec![Instruction::Read(id("x"))], term: Terminator::Exit });
    assert_eq!(map.len(), 2);
    assert_eq!(map.get(&id("a")).unwrap().term, Terminator::Exit);
    assert_eq!(map.get(&id("a")).unwrap().insn.len(), 1);
    assert!(map.contains_key(&id("b")));
    assert!(!map.contains_key(&id("c")));
}

#[test]
fn instructions_have_their_text() {
    assert_eq!(Instruction::Copy { dst: id("x"), src: id("y") }.to_text(), "x = $copy y");
    assert_eq!(Instruction::Const { dst: id("t"), value: -3 }.to_text(), "t = $const -3");
    assert_eq!(
        Instruction::Arith { op: BOp::Add, dst: id("t"), lhs: id("a"), rhs: id("b") }.to_text(),
        "t = $arith add a b"
    );
    assert_eq!(
        Instruction::Arith { op: BOp::Sub, dst: id("t"), lhs: id("a"), rhs: id("b") }.to_text(),
        "t = $arith sub a b"
    );
    assert_eq!(Instruction::Read(id("x")).to_text(), "$read x");
    assert_eq!(Instruction::Print(id("x")).to_text(), "$print x");
    assert_eq!(BOp::Mul.to_text(), "mul");
    assert_eq!(BOp::Div.to_text(), "div");
}

#[test]
fn terminators_have_their_text() {
    assert_eq!(Terminator::Exit.to_text(), "$exit");
    assert_eq!(Terminator::Jump(id("l")).to_text(), "$jump l");
    assert_eq!(
        Terminator::Branch { guard: id("g"), if_true: id("a"), if_false: id("b") }.to_text(),
        "$branch g a b"
    );
}

#[test]
fn block_text_is_appended() {
    let block = Block {
        insn: vec![Instruction::Read(id("x")), Instruction::Print(id("x"))],
        term: Terminator::Jump(id("next")),
    };
    let mut text = String::from("before\n");
    block.write_text("here", &mut text);
    assert_eq!(text, "before\nhere:\n    $read x\n    $print x\n    $jump next\n");
}

#[test]
fn program_text_lists_variables_then_blocks_in_order() {
    let program = Program {
        stmts: vec![
            Stmt::Read(id("y")),
            Stmt::If {
                guard: Expr::Var(id("y")),
                then_branch: vec![Stmt::Assign(
                    id("x"),
                    Expr::BinOp {
                        op: BOp::Add,
                        lhs: Box::new(Expr::Var(id("y"))),
                        rhs: Box::new(Expr::Const(1)),
                    },
                )],
                else_branch: vec![Stmt::Assign(id("x"), Expr::Negate(Box::new(Expr::Var(id("y")))))],
            },
            Stmt::Print(Expr::Var(id("x"))),
        ],
    };
    let expected = "let x, y, \n\
entry:\n    $read y\n    $branch y lbl1 lbl2\n\
lbl1:\n    _const_1 = $const 1\n    _t_2 = $arith add y _const_1\n    x = $copy _t_2\n    $jump lbl3\n\
lbl2:\n    _const_3 = $const 0\n    _t_4 = $arith sub _const_3 y\n    x = $copy _t_4\n    $jump lbl3\n\
lbl3:\n    $print x\n    $exit\n";
    assert_eq!(lower(program).to_text(), expected);
}

#[test]
fn empty_program_text() {
    assert_eq!(lower(Program { stmts: vec![] }).to_text(), "let \nentry:\n    $exit\n");
}
