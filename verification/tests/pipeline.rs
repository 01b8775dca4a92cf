use imptool::compiler::{Compiler, Insn};
use imptool::run_program;
use imptool::syntax::{BinOp, Block, Expr, Program, Stmt, Var};
use imptool::vm::{ExecStatus, VM};

fn v(name: &str) -> Var {
    Var(name.to_string())
}

fn var(name: &str) -> Expr {
    Expr::Var(v(name))
}

fn num(n: i64) -> Expr {
    Expr::Num(n)
}

fn bin(op: BinOp, a: Expr, b: Expr) -> Expr {
    Expr::BinOp(op, Box::new(a), Box::new(b))
}

fn assign(name: &str, e: Expr) -> Stmt {
    Stmt::Assign(v(name), Box::new(e))
}

fn print(e: Expr) -> Stmt {
    Stmt::Print(Box::new(e))
}

fn prog(stmts: Vec<Stmt>) -> Program {
    Program(Block(stmts))
}

fn compile(p: &Program) -> Vec<Insn> {
    let mut c = Compiler::new();
    c.compile_program(p);
    c.output()
}

#[test]
fn while_factorial_prints() {
    // x = 10; y = 1; while x > 0 do y = y * x; x = x - 1; end print y;
    let p = prog(vec![
        assign("x", num(10)),
        assign("y", num(1)),
        Stmt::While(
            Box::new(bin(BinOp::Gt, var("x"), num(0))),
            Block(vec![
                assign("y", bin(BinOp::Mul, var("y"), var("x"))),
                assign("x", bin(BinOp::Sub, var("x"), num(1))),
            ]),
        ),
        print(var("y")),
    ]);
    let (out, status) = run_program(&p, vec![], 1_000_000);
    assert_eq!(status, ExecStatus::Halted);
    assert_eq!(out, vec![3628800]);
}

#[test]
fn if_taken_branch_prints() {
    // x = 5; y = 3; if x > y then print 2; else print 4; end
    let p = prog(vec![
        assign("x", num(5)),
        assign("y", num(3)),
        Stmt::If(
            Box::new(bin(BinOp::Gt, var("x"), var("y"))),
            Block(vec![print(num(2))]),
            Block(vec![print(num(4))]),
        ),
    ]);
    let (out, status) = run_program(&p, vec![], 1_000);
    assert_eq!(status, ExecStatus::Halted);
    assert_eq!(out, vec![2]);
}

#[test]
fn if_untaken_branch_prints() {
    // x = 3; y = 5: the condition is zero, so the else-arm runs
    let p = prog(vec![
        assign("x", num(3)),
        assign("y", num(5)),
        Stmt::If(
            Box::new(bin(BinOp::Gt, var("x"), var("y"))),
            Block(vec![print(num(2))]),
            Block(vec![print(num(4))]),
        ),
    ]);
    let (out, status) = run_program(&p, vec![], 1_000);
    assert_eq!(status, ExecStatus::Halted);
    assert_eq!(out, vec![4]);
}

#[test]
fn if_bytecode_layout() {
    let p = prog(vec![
        assign("x", num(5)),
        assign("y", num(3)),
        Stmt::If(
            Box::new(bin(BinOp::Gt, var("x"), var("y"))),
            Block(vec![print(num(2))]),
            Block(vec![print(num(4))]),
        ),
    ]);
    let code = compile(&p);
    assert_eq!(
        code,
        vec![
            Insn::Enter(2),
            Insn::Literal(5),
            Insn::SetLocal(0),
            Insn::Literal(3),
            Insn::SetLocal(1),
            Insn::GetLocal(0),
            Insn::GetLocal(1),
            Insn::Gt,
            Insn::BranchZero(4),
            Insn::Literal(2),
            Insn::Print,
            Insn::Branch(3),
            Insn::Literal(4),
            Insn::Print,
            Insn::Exit(2),
            Insn::Halt,
        ]
    );
}

#[test]
fn while_bytecode_layout() {
    // x = 2; while x > 0 do x = x - 1; end
    let p = prog(vec![
        assign("x", num(2)),
        Stmt::While(
            Box::new(bin(BinOp::Gt, var("x"), num(0))),
            Block(vec![assign("x", bin(BinOp::Sub, var("x"), num(1)))]),
        ),
    ]);
    let code = compile(&p);
    assert_eq!(
        code,
        vec![
            Insn::Enter(1),
            Insn::Literal(2),
            Insn::SetLocal(0),
            Insn::GetLocal(0),
            Insn::Literal(0),
            Insn::Gt,
            Insn::BranchZero(6),
            Insn::GetLocal(0),
            Insn::Literal(1),
            Insn::Sub,
            Insn::SetLocal(0),
            Insn::Branch(-8),
            Insn::Exit(1),
            Insn::Halt,
        ]
    );
}

#[test]
fn slots_one_per_distinct_name() {
    // x assigned twice still occupies one slot; frame size is 2
    let p = prog(vec![
        assign("x", num(1)),
        assign("y", num(2)),
        assign("x", num(3)),
        print(var("x")),
        print(var("y")),
    ]);
    let code = compile(&p);
    assert_eq!(code[0], Insn::Enter(2));
    assert_eq!(code[code.len() - 2], Insn::Exit(2));
    let (out, status) = run_program(&p, vec![], 1_000);
    assert_eq!(status, ExecStatus::Halted);
    assert_eq!(out, vec![3, 2]);
}

#[test]
fn input_reads_argument_vector() {
    let p = prog(vec![
        assign("a", Expr::Input(Box::new(num(1)))),
        print(var("a")),
    ]);
    let (out, status) = run_program(&p, vec![10, 20, 30], 1_000);
    assert_eq!(status, ExecStatus::Halted);
    assert_eq!(out, vec![20]);
}

#[test]
fn input_index_out_of_range_faults() {
    let p = prog(vec![print(Expr::Input(Box::new(num(0))))]);
    let (out, status) = run_program(&p, vec![], 1_000);
    assert_eq!(status, ExecStatus::Faulted);
    assert_eq!(out, Vec::<i64>::new());
}

#[test]
fn stack_underflow_faults() {
    let mut vm = VM::new(vec![Insn::Add, Insn::Halt], vec![]);
    assert_eq!(vm.execute(10), ExecStatus::Faulted);
}

#[test]
fn pc_past_code_end_faults() {
    let mut vm = VM::new(vec![Insn::Literal(1)], vec![]);
    assert_eq!(vm.execute(10), ExecStatus::Faulted);
}

#[test]
fn infinite_loop_exhausts_budget() {
    // while 1 > 0 do end
    let p = prog(vec![Stmt::While(
        Box::new(bin(BinOp::Gt, num(1), num(0))),
        Block(vec![]),
    )]);
    let (_, status) = run_program(&p, vec![], 10_000);
    assert_eq!(status, ExecStatus::Running);
}

#[test]
fn arithmetic_wraps() {
    let p = prog(vec![print(bin(BinOp::Add, num(i64::MAX), num(1)))]);
    let (out, status) = run_program(&p, vec![], 1_000);
    assert_eq!(status, ExecStatus::Halted);
    assert_eq!(out, vec![i64::MIN]);
}

#[test]
fn comparisons_print_one_or_zero() {
    let p = prog(vec![
        print(bin(BinOp::Lt, num(1), num(2))),
        print(bin(BinOp::Lt, num(2), num(1))),
        print(bin(BinOp::Gt, num(2), num(1))),
        print(bin(BinOp::Gt, num(1), num(2))),
    ]);
    let (out, status) = run_program(&p, vec![], 1_000);
    assert_eq!(status, ExecStatus::Halted);
    assert_eq!(out, vec![1, 0, 1, 0]);
}

#[test]
fn halt_leaves_state_inspectable() {
    let p = prog(vec![print(bin(BinOp::Mul, num(3), num(4)))]);
    let mut c = Compiler::new();
    c.compile_program(&p);
    let code = c.output();
    let halt_at = code.len() - 1;
    let mut vm = VM::new(code, vec![]);
    assert_eq!(vm.execute(1_000), ExecStatus::Halted);
    assert_eq!(vm.pc(), halt_at);
    assert_eq!(vm.stack().len(), 0);
    assert_eq!(vm.output(), &vec![12]);
}
