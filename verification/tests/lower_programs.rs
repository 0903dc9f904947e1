use lowering::ast::{BOp, Expr, Program, Stmt};
use lowering::ident::Id;
use lowering::lower::{linearize, lower, TvEntry};
use lowering::tir::{Block, Instruction, Terminator};

fn id(name: &str) -> Id {
    Id::new(name)
}

fn var(name: &str) -> Expr {
    Expr::Var(id(name))
}

fn binop(op: BOp, lhs: Expr, rhs: Expr) -> Expr {
    Expr::BinOp { op, lhs: Box::new(lhs), rhs: Box::new(rhs) }
}

fn print_var(name: &str) -> Stmt {
    Stmt::Print(var(name))
}

fn if_stmt(guard: Expr, then_branch: Vec<Stmt>, else_branch: Vec<Stmt>) -> Stmt {
    Stmt::If { guard, then_branch, else_branch }
}

fn jump(label: &str) -> Terminator {
    Terminator::Jump(id(label))
}

fn branch(guard: &str, if_true: &str, if_false: &str) -> Terminator {
    Terminator::Branch { guard: id(guard), if_true: id(if_true), if_false: id(if_false) }
}

fn block<'a>(ir: &'a lowering::tir::Program, label: &str) -> &'a Block {
    ir.blocks.get(&id(label)).unwrap()
}

fn labels(ir: &lowering::tir::Program) -> Vec<String> {
    let mut out = Vec::new();
    for i in 0..ir.blocks.len() {
        out.push(ir.blocks.label_at(i).as_str().to_string());
    }
    out
}

fn declared(ir: &lowering::tir::Program) -> Vec<String> {
    let mut out = Vec::new();
    for i in 0..ir.declared.len() {
        out.push(ir.declared.get(i).as_str().to_string());
    }
    out
}

#[test]
fn empty_program_is_entry_with_exit() {
    let ir = lower(Program { stmts: vec![] });
    assert_eq!(labels(&ir), vec!["entry"]);
    assert_eq!(block(&ir, "entry").insn, vec![]);
    assert_eq!(block(&ir, "entry").term, Terminator::Exit);
    assert_eq!(ir.declared.len(), 0);
}

#[test]
fn straight_line_program_is_one_block() {
    let program = Program {
        stmts: vec![
            Stmt::Read(id("x")),
            Stmt::Assign(id("y"), var("x")),
            print_var("y"),
        ],
    };
    let ir = lower(program);
    assert_eq!(labels(&ir), vec!["entry"]);
    let entry = block(&ir, "entry");
    assert_eq!(
        entry.insn,
        vec![
            Instruction::Read(id("x")),
            Instruction::Copy { dst: id("y"), src: id("x") },
            Instruction::Print(id("y")),
        ]
    );
    assert_eq!(entry.term, Terminator::Exit);
    assert_eq!(declared(&ir), vec!["x", "y"]);
}

#[test]
fn conditional_gives_four_blocks() {
    let program = Program {
        stmts: vec![if_stmt(var("c"), vec![print_var("x")], vec![print_var("y")])],
    };
    let ir = lower(program);
    assert_eq!(labels(&ir), vec!["entry", "lbl1", "lbl2", "lbl3"]);
    assert_eq!(block(&ir, "entry").insn, vec![]);
    assert_eq!(block(&ir, "entry").term, branch("c", "lbl1", "lbl2"));
    assert_eq!(block(&ir, "lbl1").insn, vec![Instruction::Print(id("x"))]);
    assert_eq!(block(&ir, "lbl1").term, jump("lbl3"));
    assert_eq!(block(&ir, "lbl2").insn, vec![Instruction::Print(id("y"))]);
    assert_eq!(block(&ir, "lbl2").term, jump("lbl3"));
    assert_eq!(block(&ir, "lbl3").insn, vec![]);
    assert_eq!(block(&ir, "lbl3").term, Terminator::Exit);
}

#[test]
fn empty_else_branch_only_jumps_to_join() {
    let program = Program {
        stmts: vec![if_stmt(var("c"), vec![print_var("x")], vec![]), print_var("z")],
    };
    let ir = lower(program);
    assert_eq!(labels(&ir), vec!["entry", "lbl1", "lbl2", "lbl3"]);
    assert_eq!(block(&ir, "lbl2").insn, vec![]);
    assert_eq!(block(&ir, "lbl2").term, jump("lbl3"));
    assert_eq!(block(&ir, "lbl3").insn, vec![Instruction::Print(id("z"))]);
    assert_eq!(block(&ir, "lbl3").term, Terminator::Exit);
}

#[test]
fn assignment_of_sum_is_flattened() {
    let program = Program {
        stmts: vec![Stmt::Assign(
            id("z"),
            binop(BOp::Add, Expr::Const(1), Expr::Const(2)),
        )],
    };
    let ir = lower(program);
    let entry = block(&ir, "entry");
    assert_eq!(
        entry.insn,
        vec![
            Instruction::Const { dst: id("_const_1"), value: 1 },
            Instruction::Const { dst: id("_const_2"), value: 2 },
            Instruction::Arith {
                op: BOp::Add,
                dst: id("_t_3"),
                lhs: id("_const_1"),
                rhs: id("_const_2"),
            },
            Instruction::Copy { dst: id("z"), src: id("_t_3") },
        ]
    );
    assert_eq!(entry.term, Terminator::Exit);
    assert_eq!(declared(&ir), vec!["z"]);
    assert!(ir.declared.contains(&id("z")));
    assert!(!ir.declared.contains(&id("_const_1")));
    assert!(!ir.declared.contains(&id("_const_2")));
    assert!(!ir.declared.contains(&id("_t_3")));
}

#[test]
fn operands_are_lowered_left_to_right() {
    let program = Program {
        stmts: vec![print_stmt(binop(
            BOp::Mul,
            binop(BOp::Sub, var("a"), Expr::Const(5)),
            binop(BOp::Div, Expr::Const(-7), var("b")),
        ))],
    };
    let ir = lower(program);
    assert_eq!(
        block(&ir, "entry").insn,
        vec![
            Instruction::Const { dst: id("_const_1"), value: 5 },
            Instruction::Arith { op: BOp::Sub, dst: id("_t_2"), lhs: id("a"), rhs: id("_const_1") },
            Instruction::Const { dst: id("_const_3"), value: -7 },
            Instruction::Arith { op: BOp::Div, dst: id("_t_4"), lhs: id("_const_3"), rhs: id("b") },
            Instruction::Arith { op: BOp::Mul, dst: id("_t_5"), lhs: id("_t_2"), rhs: id("_t_4") },
            Instruction::Print(id("_t_5")),
        ]
    );
    assert_eq!(declared(&ir), vec!["a", "b"]);
}

fn print_stmt(e: Expr) -> Stmt {
    Stmt::Print(e)
}

#[test]
fn negation_is_zero_minus_operand() {
    let program = Program {
        stmts: vec![print_stmt(Expr::Negate(Box::new(var("x"))))],
    };
    let ir = lower(program);
    assert_eq!(
        block(&ir, "entry").insn,
        vec![
            Instruction::Const { dst: id("_const_1"), value: 0 },
            Instruction::Arith { op: BOp::Sub, dst: id("_t_2"), lhs: id("_const_1"), rhs: id("x") },
            Instruction::Print(id("_t_2")),
        ]
    );
}

#[test]
fn negation_lowers_like_written_subtraction() {
    let negated = lower(Program {
        stmts: vec![print_stmt(Expr::Negate(Box::new(binop(BOp::Add, var("x"), Expr::Const(4)))))],
    });
    let written = lower(Program {
        stmts: vec![print_stmt(binop(
            BOp::Sub,
            Expr::Const(0),
            binop(BOp::Add, var("x"), Expr::Const(4)),
        ))],
    });
    assert_eq!(block(&negated, "entry").insn, block(&written, "entry").insn);
    assert_eq!(negated.to_text(), written.to_text());
}

#[test]
fn variable_read_in_expression_is_declared() {
    let ir = lower(Program { stmts: vec![print_var("q")] });
    assert_eq!(declared(&ir), vec!["q"]);
    assert_eq!(block(&ir, "entry").insn, vec![Instruction::Print(id("q"))]);
}

#[test]
fn nested_conditional_falls_through_to_outer_block() {
    let inner = if_stmt(var("d"), vec![print_var("a")], vec![]);
    let program = Program {
        stmts: vec![if_stmt(var("c"), vec![inner, print_var("b")], vec![print_var("e")])],
    };
    let ir = lower(program);
    assert_eq!(
        labels(&ir),
        vec!["entry", "lbl1", "lbl2", "lbl3", "lbl4", "lbl5", "lbl6"]
    );
    assert_eq!(block(&ir, "entry").term, branch("c", "lbl1", "lbl2"));
    assert_eq!(block(&ir, "lbl1").insn, vec![]);
    assert_eq!(block(&ir, "lbl1").term, branch("d", "lbl4", "lbl5"));
    assert_eq!(block(&ir, "lbl4").insn, vec![Instruction::Print(id("a"))]);
    assert_eq!(block(&ir, "lbl4").term, jump("lbl6"));
    assert_eq!(block(&ir, "lbl5").insn, vec![]);
    assert_eq!(block(&ir, "lbl5").term, jump("lbl6"));
    assert_eq!(block(&ir, "lbl6").insn, vec![Instruction::Print(id("b"))]);
    assert_eq!(block(&ir, "lbl6").term, jump("lbl3"));
    assert_eq!(block(&ir, "lbl2").insn, vec![Instruction::Print(id("e"))]);
    assert_eq!(block(&ir, "lbl2").term, jump("lbl3"));
    assert_eq!(block(&ir, "lbl3").term, Terminator::Exit);
}

#[test]
fn nested_conditional_has_more_blocks_than_flat_one() {
    let flat = lower(Program {
        stmts: vec![if_stmt(var("c"), vec![print_var("a")], vec![])],
    });
    let nested = lower(Program {
        stmts: vec![if_stmt(
            var("c"),
            vec![if_stmt(var("d"), vec![print_var("a")], vec![])],
            vec![],
        )],
    });
    assert_eq!(flat.blocks.len(), 4);
    assert_eq!(nested.blocks.len(), 7);
    assert_eq!(block(&nested, "lbl6").insn, vec![]);
    assert_eq!(block(&nested, "lbl6").term, jump("lbl3"));
}

#[test]
fn guard_expression_is_lowered_before_branch() {
    let program = Program {
        stmts: vec![if_stmt(
            binop(BOp::Sub, var("x"), Expr::Const(1)),
            vec![],
            vec![],
        )],
    };
    let ir = lower(program);
    assert_eq!(
        block(&ir, "entry").insn,
        vec![
            Instruction::Const { dst: id("_const_1"), value: 1 },
            Instruction::Arith { op: BOp::Sub, dst: id("_t_2"), lhs: id("x"), rhs: id("_const_1") },
        ]
    );
    assert_eq!(block(&ir, "entry").term, branch("_t_2", "lbl1", "lbl2"));
    assert_eq!(block(&ir, "lbl1").term, jump("lbl3"));
    assert_eq!(block(&ir, "lbl2").term, jump("lbl3"));
}

#[test]
fn conditionals_in_sequence_number_their_labels_onwards() {
    let program = Program {
        stmts: vec![
            if_stmt(var("a"), vec![], vec![]),
            if_stmt(var("b"), vec![], vec![]),
            if_stmt(var("c"), vec![], vec![]),
            if_stmt(var("d"), vec![], vec![]),
        ],
    };
    let ir = lower(program);
    assert_eq!(ir.blocks.len(), 13);
    assert_eq!(
        labels(&ir),
        vec![
            "entry", "lbl1", "lbl10", "lbl11", "lbl12", "lbl2", "lbl3", "lbl4", "lbl5", "lbl6",
            "lbl7", "lbl8", "lbl9",
        ]
    );
    assert_eq!(block(&ir, "lbl3").term, branch("b", "lbl4", "lbl5"));
    assert_eq!(block(&ir, "lbl9").term, branch("d", "lbl10", "lbl11"));
    assert_eq!(block(&ir, "lbl12").term, Terminator::Exit);
}

#[test]
fn every_jump_target_is_a_block() {
    let program = Program {
        stmts: vec![
            if_stmt(
                var("a"),
                vec![if_stmt(var("b"), vec![print_var("x")], vec![print_var("y")])],
                vec![if_stmt(var("c"), vec![], vec![Stmt::Read(id("z"))])],
            ),
            print_var("z"),
        ],
    };
    let ir = lower(program);
    assert_eq!(ir.blocks.len(), 10);
    assert!(ir.blocks.contains_key(&id("entry")));
    for i in 0..ir.blocks.len() {
        match &ir.blocks.block_at(i).term {
            Terminator::Exit => {}
            Terminator::Jump(l) => assert!(ir.blocks.contains_key(l)),
            Terminator::Branch { guard: _, if_true, if_false } => {
                assert!(ir.blocks.contains_key(if_true));
                assert!(ir.blocks.contains_key(if_false));
            }
        }
    }
}

#[test]
fn temporaries_are_never_declared_under_deep_nesting() {
    let mut e = Expr::Const(1);
    for i in 0..20 {
        e = binop(BOp::Add, e, Expr::Negate(Box::new(Expr::Const(i))));
    }
    let ir = lower(Program { stmts: vec![Stmt::Assign(id("r"), e)] });
    assert_eq!(declared(&ir), vec!["r"]);
    let entry = block(&ir, "entry");
    assert_eq!(entry.insn.len(), 1 + 20 * 4 + 1);
    let mut seen: Vec<String> = Vec::new();
    for insn in &entry.insn {
        let dst = match insn {
            Instruction::Const { dst, .. } => Some(dst),
            Instruction::Arith { dst, .. } => Some(dst),
            _ => None,
        };
        if let Some(dst) = dst {
            assert!(!ir.declared.contains(dst));
            assert!(dst.as_str().starts_with('_'));
            assert!(!seen.contains(&dst.as_str().to_string()));
            seen.push(dst.as_str().to_string());
        }
    }
    assert_eq!(seen.len(), 81);
}

#[test]
fn linearize_gives_stream_and_declared() {
    let program = Program {
        stmts: vec![if_stmt(var("c"), vec![Stmt::Read(id("x"))], vec![])],
    };
    let (stream, declared) = linearize(&program);
    assert_eq!(
        stream,
        vec![
            TvEntry::Label(id("entry")),
            TvEntry::Term(branch("c", "lbl1", "lbl2")),
            TvEntry::Label(id("lbl1")),
            TvEntry::Inner(Instruction::Read(id("x"))),
            TvEntry::Term(jump("lbl3")),
            TvEntry::Label(id("lbl2")),
            TvEntry::Term(jump("lbl3")),
            TvEntry::Label(id("lbl3")),
            TvEntry::Term(Terminator::Exit),
        ]
    );
    assert_eq!(declared.len(), 2);
    assert!(declared.contains(&id("c")));
    assert!(declared.contains(&id("x")));
}

#[test]
fn lowering_twice_gives_the_same_names() {
    let make = || Program {
        stmts: vec![if_stmt(Expr::Const(1), vec![print_stmt(Expr::Const(2))], vec![])],
    };
    let first = lower(make());
    let second = lower(make());
    assert_eq!(first.to_text(), second.to_text());
    assert_eq!(labels(&first), vec!["entry", "lbl1", "lbl2", "lbl3"]);
}

#[test]
fn exit_ends_one_block_and_nothing_jumps_to_entry() {
    let program = Program {
        stmts: vec![
            if_stmt(var("a"), vec![if_stmt(var("b"), vec![], vec![])], vec![print_var("x")]),
            if_stmt(var("c"), vec![], vec![]),
        ],
    };
    let ir = lower(program);
    let mut exits: Vec<String> = Vec::new();
    for i in 0..ir.blocks.len() {
        match &ir.blocks.block_at(i).term {
            Terminator::Exit => exits.push(ir.blocks.label_at(i).as_str().to_string()),
            Terminator::Jump(l) => assert_ne!(l.as_str(), "entry"),
            Terminator::Branch { guard: _, if_true, if_false } => {
                assert_ne!(if_true.as_str(), "entry");
                assert_ne!(if_false.as_str(), "entry");
            }
        }
    }
    assert_eq!(exits, vec!["lbl9"]);
}

#[test]
fn operands_are_declared_or_written_earlier_in_their_block() {
    let program = Program {
        stmts: vec![
            Stmt::Read(id("n")),
            if_stmt(
                binop(BOp::Sub, var("n"), Expr::Const(3)),
                vec![Stmt::Assign(id("m"), binop(BOp::Mul, var("n"), Expr::Const(2)))],
                vec![Stmt::Assign(id("m"), Expr::Negate(Box::new(var("n"))))],
            ),
            print_stmt(binop(BOp::Add, var("m"), var("n"))),
        ],
    };
    let ir = lower(program);
    for i in 0..ir.blocks.len() {
        let b = ir.blocks.block_at(i);
        let mut written: Vec<Id> = Vec::new();
        let known = |x: &Id, written: &Vec<Id>| ir.declared.contains(x) || written.contains(x);
        for insn in &b.insn {
            match insn {
                Instruction::Copy { dst, src } => {
                    assert!(known(src, &written));
                    written.push(dst.clone());
                }
                Instruction::Const { dst, .. } => written.push(dst.clone()),
                Instruction::Arith { dst, lhs, rhs, .. } => {
                    assert!(known(lhs, &written));
                    assert!(known(rhs, &written));
                    written.push(dst.clone());
                }
                Instruction::Read(x) => written.push(x.clone()),
                Instruction::Print(x) => assert!(known(x, &written)),
            }
        }
        if let Terminator::Branch { guard, .. } = &b.term {
            assert!(known(guard, &written));
        }
    }
}
