//! The mathematical meaning of programs: expression evaluation and the
//! printed-value denotation of straight-line statement sequences.
//!
//! Arithmetic is two's-complement 64-bit wrapping arithmetic; comparisons
//! yield 1 for true and 0 for false.  Evaluation is partial: reading an
//! unbound variable or an out-of-range argument index has no value, which
//! models the virtual machine's runtime fault.

use vstd::prelude::*;
use crate::syntax::{BinOp, Block, Expr, Program, Stmt};

verus! {

/// The value of one binary operation on two 64-bit values.
pub open spec fn eval_binop(op: BinOp, x: i64, y: i64) -> i64 {
    match op {
        BinOp::Add => vstd::wrapping::i64_specs::wrapping_add(x, y),
        BinOp::Sub => vstd::wrapping::i64_specs::wrapping_sub(x, y),
        BinOp::Mul => vstd::wrapping::i64_specs::wrapping_mul(x, y),
        BinOp::Lt => if x < y { 1 } else { 0 },
        BinOp::Gt => if x > y { 1 } else { 0 },
    }
}

/// The value of an expression under an environment and an argument vector,
/// or `None` where evaluation faults.
pub open spec fn eval_expr(e: Expr, env: Map<Seq<char>, i64>, args: Seq<i64>) -> Option<i64>
    decreases e,
{
    match e {
        Expr::Var(x) => if env.dom().contains(x@) {
            Some(env[x@])
        } else {
            None
        },
        Expr::Num(n) => Some(n),
        Expr::BinOp(op, e1, e2) => match (eval_expr(*e1, env, args), eval_expr(*e2, env, args)) {
            (Some(a), Some(b)) => Some(eval_binop(op, a, b)),
            _ => None,
        },
        Expr::Input(e1) => match eval_expr(*e1, env, args) {
            Some(i) => if 0 <= i < args.len() {
                Some(args[i as int])
            } else {
                None
            },
            None => None,
        },
    }
}

/// A statement is straight-line when it is an assignment or a print.
pub open spec fn stmt_is_straight(s: Stmt) -> bool {
    match s {
        Stmt::Assign(_, _) => true,
        Stmt::Print(_) => true,
        Stmt::If(_, _, _) => false,
        Stmt::While(_, _) => false,
    }
}

/// A block is straight-line when every statement in it is.
pub open spec fn block_is_straight(b: Block) -> bool {
    forall|i: int| 0 <= i < b.0@.len() ==> stmt_is_straight(#[trigger] b.0@[i])
}

pub open spec fn program_is_straight(p: Program) -> bool {
    block_is_straight(p.0)
}

/// Runs a straight-line statement sequence: the final environment and the
/// sequence of printed values, or `None` where evaluation faults or a
/// statement is not straight-line.
pub open spec fn run_straight(
    stmts: Seq<Stmt>,
    env: Map<Seq<char>, i64>,
    args: Seq<i64>,
) -> Option<(Map<Seq<char>, i64>, Seq<i64>)>
    decreases stmts.len(),
{
    if stmts.len() == 0 {
        Some((env, Seq::empty()))
    } else {
        match stmts[0] {
            Stmt::Assign(x, e) => match eval_expr(*e, env, args) {
                Some(v) => run_straight(stmts.subrange(1, stmts.len() as int), env.insert(x@, v), args),
                None => None,
            },
            Stmt::Print(e) => match eval_expr(*e, env, args) {
                Some(v) => match run_straight(stmts.subrange(1, stmts.len() as int), env, args) {
                    Some((env2, out)) => Some((env2, seq![v] + out)),
                    None => None,
                },
                None => None,
            },
            _ => None,
        }
    }
}

/// The printed values of a straight-line program started in the empty
/// environment.
pub open spec fn straight_output(p: Program, args: Seq<i64>) -> Option<Seq<i64>> {
    match run_straight(p.0.0@, Map::empty(), args) {
        Some((env, out)) => Some(out),
        None => None,
    }
}

/// Runs one statement of the full language.  The fuel bounds the number
/// of loop iterations; `None` means the run faulted or the fuel ran
/// out, either way an incomplete run.
pub open spec fn run_stmt_f(
    st: Stmt,
    env: Map<Seq<char>, i64>,
    args: Seq<i64>,
    fuel: nat,
) -> Option<(Map<Seq<char>, i64>, Seq<i64>)>
    decreases fuel, st,
{
    match st {
        Stmt::Assign(x, e) => match eval_expr(*e, env, args) {
            Some(v) => Some((env.insert(x@, v), Seq::empty())),
            None => None,
        },
        Stmt::Print(e) => match eval_expr(*e, env, args) {
            Some(v) => Some((env, seq![v])),
            None => None,
        },
        Stmt::If(c, bt, bf) => match eval_expr(*c, env, args) {
            Some(v) => if v != 0 {
                run_stmts_f(bt.0@, env, args, fuel)
            } else {
                run_stmts_f(bf.0@, env, args, fuel)
            },
            None => None,
        },
        Stmt::While(c, b) => match eval_expr(*c, env, args) {
            Some(v) => if v == 0 {
                Some((env, Seq::empty()))
            } else if fuel == 0 {
                None
            } else {
                match run_stmts_f(b.0@, env, args, fuel) {
                    Some(res1) => match run_stmt_f(st, res1.0, args, (fuel - 1) as nat) {
                        Some(res2) => Some((res2.0, res1.1 + res2.1)),
                        None => None,
                    },
                    None => None,
                }
            },
            None => None,
        },
    }
}

/// Runs a statement sequence of the full language.
pub open spec fn run_stmts_f(
    stmts: Seq<Stmt>,
    env: Map<Seq<char>, i64>,
    args: Seq<i64>,
    fuel: nat,
) -> Option<(Map<Seq<char>, i64>, Seq<i64>)>
    decreases fuel, stmts,
{
    if stmts.len() == 0 {
        Some((env, Seq::empty()))
    } else {
        match run_stmt_f(stmts[0], env, args, fuel) {
            Some(res1) => match run_stmts_f(
                stmts.subrange(1, stmts.len() as int),
                res1.0,
                args,
                fuel,
            ) {
                Some(res2) => Some((res2.0, res1.1 + res2.1)),
                None => None,
            },
            None => None,
        }
    }
}

/// The printed values of a program under the full semantics, bounded by
/// `fuel` loop iterations.
pub open spec fn program_output_f(p: Program, args: Seq<i64>, fuel: nat) -> Option<Seq<i64>> {
    match run_stmts_f(p.0.0@, Map::empty(), args, fuel) {
        Some(res) => Some(res.1),
        None => None,
    }
}

/// On straight-line sequences the fueled semantics coincides with the
/// straight-line one.
pub proof fn lemma_run_straight_f(
    stmts: Seq<Stmt>,
    env: Map<Seq<char>, i64>,
    args: Seq<i64>,
    fuel: nat,
)
    requires
        run_straight(stmts, env, args) is Some,
    ensures
        run_stmts_f(stmts, env, args, fuel) == run_straight(stmts, env, args),
    decreases stmts,
{
    if stmts.len() == 0 {
    } else {
        let rest = stmts.subrange(1, stmts.len() as int);
        match stmts[0] {
            Stmt::Assign(x, e) => {
                let v = eval_expr(*e, env, args)->0;
                lemma_run_straight_f(rest, env.insert(x@, v), args, fuel);
                let res2 = run_straight(rest, env.insert(x@, v), args)->0;
                assert(run_stmt_f(stmts[0], env, args, fuel) == Some(
                    (env.insert(x@, v), Seq::<i64>::empty()),
                ));
                assert(Seq::<i64>::empty() + res2.1 =~= res2.1);
                assert(run_stmts_f(stmts, env, args, fuel) == Some((res2.0, res2.1)));
                assert(run_straight(stmts, env, args) == Some((res2.0, res2.1)));
            },
            Stmt::Print(e) => {
                let v = eval_expr(*e, env, args)->0;
                lemma_run_straight_f(rest, env, args, fuel);
                let res2 = run_straight(rest, env, args)->0;
                assert(run_stmt_f(stmts[0], env, args, fuel) == Some((env, seq![v])));
                assert(run_stmts_f(stmts, env, args, fuel) == Some((res2.0, seq![v] + res2.1)));
                assert(run_straight(stmts, env, args) == Some((res2.0, seq![v] + res2.1)));
            },
            _ => {},
        }
    }
}

/// The two's-complement reading of a value modulo 2^64.
pub open spec fn crop64(v: int) -> int {
    if v % 0x1_0000_0000_0000_0000 > i64::MAX {
        v % 0x1_0000_0000_0000_0000 - 0x1_0000_0000_0000_0000
    } else {
        v % 0x1_0000_0000_0000_0000
    }
}

/// Wrapping arithmetic is exact arithmetic reduced modulo 2^64.
proof fn lemma_wrap_is_crop(x: i64, y: i64)
    ensures
        vstd::wrapping::i64_specs::wrapping_add(x, y) == crop64(x + y),
        vstd::wrapping::i64_specs::wrapping_sub(x, y) == crop64(x - y),
        vstd::wrapping::i64_specs::wrapping_mul(x, y) == crop64(x * y),
{
    let w = 0x1_0000_0000_0000_0000;
    assert((x + y) % w == (if x + y >= 0 { x + y } else { x + y + w }) % w) by {
        if x + y < 0 {
            vstd::arithmetic::div_mod::lemma_mod_add_multiples_vanish(x + y, w);
        }
    }
    assert((x - y) % w == (if x - y >= 0 { x - y } else { x - y + w }) % w) by {
        if x - y < 0 {
            vstd::arithmetic::div_mod::lemma_mod_add_multiples_vanish(x - y, w);
        }
    }
    assert(0 <= (x + y) % w < w) by {
        vstd::arithmetic::div_mod::lemma_mod_bound(x + y, w);
    }
    assert(0 <= (x - y) % w < w) by {
        vstd::arithmetic::div_mod::lemma_mod_bound(x - y, w);
    }
    assert((if x + y >= 0 { x + y } else { x + y + w }) % w == (if x + y >= 0 {
        x + y
    } else {
        x + y + w
    })) by {
        vstd::arithmetic::div_mod::lemma_small_mod(
            (if x + y >= 0 { x + y } else { x + y + w }) as nat,
            w as nat,
        );
    }
    assert((if x - y >= 0 { x - y } else { x - y + w }) % w == (if x - y >= 0 {
        x - y
    } else {
        x - y + w
    })) by {
        vstd::arithmetic::div_mod::lemma_small_mod(
            (if x - y >= 0 { x - y } else { x - y + w }) as nat,
            w as nat,
        );
    }
}

/// Reduction modulo 2^64 ignores prior reduction.
proof fn lemma_crop_mod(v: int)
    ensures
        crop64(v) % 0x1_0000_0000_0000_0000 == v % 0x1_0000_0000_0000_0000,
        i64::MIN <= crop64(v) <= i64::MAX,
{
    let w = 0x1_0000_0000_0000_0000;
    vstd::arithmetic::div_mod::lemma_mod_bound(v, w);
    vstd::arithmetic::div_mod::lemma_mod_twice(v, w);
    if v % w > i64::MAX {
        assert((v % w - w) % w == v % w % w) by {
            vstd::arithmetic::div_mod::lemma_mod_add_multiples_vanish(v % w - w, w);
        }
    }
}

/// Values congruent modulo 2^64 wrap to the same value.
proof fn lemma_crop_congruent(a: int, b: int)
    requires
        a % 0x1_0000_0000_0000_0000 == b % 0x1_0000_0000_0000_0000,
    ensures
        crop64(a) == crop64(b),
{
}

/// Soundness of the commutativity rule for addition.
pub proof fn lemma_rule_add_comm(x: i64, y: i64)
    ensures
        eval_binop(BinOp::Add, x, y) == eval_binop(BinOp::Add, y, x),
{
}

/// Soundness of the commutativity rule for multiplication.
pub proof fn lemma_rule_mul_comm(x: i64, y: i64)
    ensures
        eval_binop(BinOp::Mul, x, y) == eval_binop(BinOp::Mul, y, x),
{
    lemma_wrap_is_crop(x, y);
    lemma_wrap_is_crop(y, x);
}

/// Soundness of the additive-identity rule.
pub proof fn lemma_rule_add_zero(x: i64)
    ensures
        eval_binop(BinOp::Add, x, 0) == x,
{
}

/// Soundness of the multiplicative-identity rule.
pub proof fn lemma_rule_mul_one(x: i64)
    ensures
        eval_binop(BinOp::Mul, x, 1) == x,
{
    lemma_wrap_is_crop(x, 1);
    lemma_crop_mod(x * 1);
    vstd::arithmetic::div_mod::lemma_small_mod(
        (if x >= 0 { x as int } else { x + 0x1_0000_0000_0000_0000 }) as nat,
        0x1_0000_0000_0000_0000 as nat,
    );
    if x < 0 {
        vstd::arithmetic::div_mod::lemma_mod_add_multiples_vanish(
            x as int,
            0x1_0000_0000_0000_0000,
        );
    }
}

/// Soundness of the self-subtraction rule.
pub proof fn lemma_rule_sub_self(x: i64)
    ensures
        eval_binop(BinOp::Sub, x, x) == 0,
{
    lemma_wrap_is_crop(x, x);
    vstd::arithmetic::div_mod::lemma_small_mod(0nat, 0x1_0000_0000_0000_0000 as nat);
}

/// Soundness of the distribution rule: multiplication distributes over
/// addition in two's-complement 64-bit arithmetic.
pub proof fn lemma_rule_mul_dist(a: i64, b: i64, c: i64)
    ensures
        eval_binop(BinOp::Mul, a, eval_binop(BinOp::Add, b, c)) == eval_binop(
            BinOp::Add,
            eval_binop(BinOp::Mul, a, b),
            eval_binop(BinOp::Mul, a, c),
        ),
{
    let w = 0x1_0000_0000_0000_0000;
    let s = eval_binop(BinOp::Add, b, c);
    let m1 = eval_binop(BinOp::Mul, a, b);
    let m2 = eval_binop(BinOp::Mul, a, c);
    lemma_wrap_is_crop(b, c);
    lemma_wrap_is_crop(a, s);
    lemma_wrap_is_crop(a, b);
    lemma_wrap_is_crop(a, c);
    lemma_wrap_is_crop(m1, m2);
    lemma_crop_mod(b + c);
    lemma_crop_mod(a * b);
    lemma_crop_mod(a * c);
    // a * crop(b + c) is congruent to a * (b + c)
    assert((a * crop64(b + c)) % w == (a * (b + c)) % w) by {
        vstd::arithmetic::div_mod::lemma_mul_mod_noop_right(a as int, crop64(b + c), w);
        vstd::arithmetic::div_mod::lemma_mul_mod_noop_right(a as int, b + c, w);
    }
    // crop(a*b) + crop(a*c) is congruent to a*b + a*c
    assert((crop64(a * b) + crop64(a * c)) % w == (a * b + a * c) % w) by {
        vstd::arithmetic::div_mod::lemma_add_mod_noop(crop64(a * b), crop64(a * c), w);
        vstd::arithmetic::div_mod::lemma_add_mod_noop(a * b, a * c, w);
    }
    assert(a * (b + c) == a * b + a * c) by (nonlinear_arith);
    lemma_crop_congruent(a * crop64(b + c), crop64(a * b) + crop64(a * c));
}

} // verus!
