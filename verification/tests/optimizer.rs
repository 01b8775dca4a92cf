use imptool::egraph::{GraphExpr, OptError};
use imptool::linear::{check_term, extract_program};
use imptool::optimize::optimize;
use imptool::run_program;
use imptool::syntax::{BinOp, Block, Expr, Program, Stmt, Var};
use imptool::vm::ExecStatus;

fn v(name: &str) -> Var {
    Var(name.to_string())
}

fn var(name: &str) -> Expr {
    Expr::Var(v(name))
}

fn num(n: i64) -> Expr {
    Expr::Num(n)
}

fn bin(op: BinOp, a: Expr, b: Expr) -> Expr {
    Expr::BinOp(op, Box::new(a), Box::new(b))
}

fn assign(name: &str, e: Expr) -> Stmt {
    Stmt::Assign(v(name), Box::new(e))
}

fn print(e: Expr) -> Stmt {
    Stmt::Print(Box::new(e))
}

fn prog(stmts: Vec<Stmt>) -> Program {
    Program(Block(stmts))
}

/// The straight-line scenario: `x = args(0); y = 2*x + args(1);
/// print y - x - y; z = x + x; print z;`
fn sample_program() -> Program {
    prog(vec![
        assign("x", Expr::Input(Box::new(num(0)))),
        assign(
            "y",
            bin(
                BinOp::Add,
                bin(BinOp::Mul, num(2), var("x")),
                Expr::Input(Box::new(num(1))),
            ),
        ),
        print(bin(BinOp::Sub, bin(BinOp::Sub, var("y"), var("x")), var("y"))),
        assign("z", bin(BinOp::Add, var("x"), var("x"))),
        print(var("z")),
    ])
}

#[test]
fn straight_line_scenario_runs() {
    let p = sample_program();
    let (out, status) = run_program(&p, vec![3, 7], 10_000);
    assert_eq!(status, ExecStatus::Halted);
    assert_eq!(out, vec![-3, 6]);
}

#[test]
fn optimized_scenario_prints_identically() {
    let p = sample_program();
    let p2 = optimize(&p).expect("straight-line program optimizes");
    let (out, status) = run_program(&p2, vec![3, 7], 10_000);
    assert_eq!(status, ExecStatus::Halted);
    assert_eq!(out, vec![-3, 6]);
}

#[test]
fn optimize_preserves_prints_on_more_inputs() {
    let p = sample_program();
    let p2 = optimize(&p).expect("straight-line program optimizes");
    for (a, b) in [(0i64, 0i64), (1, -1), (-5, 11), (100, 3)] {
        let (out1, st1) = run_program(&p, vec![a, b], 100_000);
        let (out2, st2) = run_program(&p2, vec![a, b], 100_000);
        assert_eq!(st1, ExecStatus::Halted);
        assert_eq!(st2, ExecStatus::Halted);
        assert_eq!(out1, out2);
    }
}

#[test]
fn optimize_simplifies_identities() {
    // print (x + 0) * 1 simplifies to print x, so the optimized program
    // compiles to strictly less code and prints the same value
    let p = prog(vec![
        assign("x", Expr::Input(Box::new(num(0)))),
        print(bin(BinOp::Mul, bin(BinOp::Add, var("x"), num(0)), num(1))),
    ]);
    let p2 = optimize(&p).expect("straight-line program optimizes");
    let mut c1 = imptool::compiler::Compiler::new();
    c1.compile_program(&p);
    let mut c2 = imptool::compiler::Compiler::new();
    c2.compile_program(&p2);
    assert!(c2.output().len() < c1.output().len());
    let (out, status) = run_program(&p2, vec![42], 10_000);
    assert_eq!(status, ExecStatus::Halted);
    assert_eq!(out, vec![42]);
}

#[test]
fn optimize_rejects_conditional() {
    let p = prog(vec![Stmt::If(
        Box::new(num(1)),
        Block(vec![print(num(1))]),
        Block(vec![print(num(2))]),
    )]);
    assert!(matches!(optimize(&p), Err(OptError::UnsupportedConstruct)));
}

#[test]
fn optimize_rejects_loop() {
    let p = prog(vec![Stmt::While(Box::new(num(0)), Block(vec![]))]);
    assert!(matches!(optimize(&p), Err(OptError::UnsupportedConstruct)));
}

#[test]
fn optimize_rejects_unbound_variable() {
    let p = prog(vec![print(var("x"))]);
    assert!(matches!(optimize(&p), Err(OptError::UnboundVariable)));
}

#[test]
fn optimize_empty_program() {
    let p = prog(vec![]);
    let p2 = optimize(&p).expect("empty program optimizes");
    let (out, status) = run_program(&p2, vec![], 1_000);
    assert_eq!(status, ExecStatus::Halted);
    assert_eq!(out, Vec::<i64>::new());
}

#[test]
fn optimize_keeps_print_order() {
    let p = prog(vec![
        assign("a", num(1)),
        print(var("a")),
        assign("a", num(2)),
        print(var("a")),
        print(num(3)),
    ]);
    let p2 = optimize(&p).expect("straight-line program optimizes");
    let (out, status) = run_program(&p2, vec![], 10_000);
    assert_eq!(status, ExecStatus::Halted);
    assert_eq!(out, vec![1, 2, 3]);
}

fn count_var_uses_expr(e: &Expr, name: &str) -> usize {
    match e {
        Expr::Var(x) => {
            if x.0 == name {
                1
            } else {
                0
            }
        },
        Expr::Num(_) => 0,
        Expr::BinOp(_, a, b) => count_var_uses_expr(a, name) + count_var_uses_expr(b, name),
        Expr::Input(a) => count_var_uses_expr(a, name),
    }
}

fn count_var_uses_stmt(s: &Stmt, name: &str) -> usize {
    match s {
        Stmt::Assign(_, e) => count_var_uses_expr(e, name),
        Stmt::Print(e) => count_var_uses_expr(e, name),
        Stmt::If(c, bt, bf) => {
            count_var_uses_expr(c, name)
                + bt.0.iter().map(|s| count_var_uses_stmt(s, name)).sum::<usize>()
                + bf.0.iter().map(|s| count_var_uses_stmt(s, name)).sum::<usize>()
        },
        Stmt::While(c, b) => {
            count_var_uses_expr(c, name)
                + b.0.iter().map(|s| count_var_uses_stmt(s, name)).sum::<usize>()
        },
    }
}

#[test]
fn sharing_three_references_one_assignment() {
    // node 2 (7 + 3) is referenced three times: twice from node 3 and
    // once as a printed value
    let term = vec![
        GraphExpr::Num(7),
        GraphExpr::Num(3),
        GraphExpr::Add(0, 1),
        GraphExpr::Add(2, 2),
        GraphExpr::IoInit,
        GraphExpr::IoSeq(4, 3),
        GraphExpr::IoSeq(5, 2),
    ];
    assert!(check_term(&term));
    let block = extract_program(&term);
    let assigns_to_x2 = block
        .0
        .iter()
        .filter(|s| matches!(s, Stmt::Assign(x, _) if x.0 == "x2"))
        .count();
    assert_eq!(assigns_to_x2, 1);
    let total_assigns = block
        .0
        .iter()
        .filter(|s| matches!(s, Stmt::Assign(_, _)))
        .count();
    assert_eq!(total_assigns, 1);
    let uses: usize = block.0.iter().map(|s| count_var_uses_stmt(s, "x2")).sum();
    assert_eq!(uses, 3);
    // the chain prints node 3 (x2 + x2 = 20) and then node 2 (10)
    let p = Program(block);
    let (out, status) = run_program(&p, vec![], 1_000);
    assert_eq!(status, ExecStatus::Halted);
    assert_eq!(out, vec![20, 10]);
}

#[test]
fn unshared_nodes_are_inlined() {
    // print 5: the literal is used once and is never materialized
    let term = vec![GraphExpr::Num(5), GraphExpr::IoInit, GraphExpr::IoSeq(1, 0)];
    assert!(check_term(&term));
    let block = extract_program(&term);
    let total_assigns = block
        .0
        .iter()
        .filter(|s| matches!(s, Stmt::Assign(_, _)))
        .count();
    assert_eq!(total_assigns, 0);
    assert_eq!(block.0.len(), 1);
    let p = Program(block);
    let (out, _) = run_program(&p, vec![], 1_000);
    assert_eq!(out, vec![5]);
}

#[test]
fn check_term_rejects_malformed() {
    // forward reference
    assert!(!check_term(&vec![GraphExpr::ArgRef(1), GraphExpr::IoInit]));
    // empty
    assert!(!check_term(&Vec::new()));
    // value node last
    assert!(!check_term(&vec![GraphExpr::Num(1)]));
    // chain node off the root's spine
    assert!(!check_term(&vec![
        GraphExpr::IoInit,
        GraphExpr::IoInit,
        GraphExpr::IoSeq(0, 0),
    ]));
}
