//! Compiler correctness for straight-line programs: executing the
//! compiled bytecode step by step produces exactly the printed values
//! the source semantics denotes.

use vstd::prelude::*;
use crate::compiler::{
    compile_expr_spec, compile_program_spec, compile_stmt_spec, compile_stmts_spec, name_index,
    names_distinct, slot_names, slots_after_stmt, slots_after_stmts,
    stmt_targets_ok, stmts_targets_ok, Insn,
};
use crate::semantics::{eval_expr, program_output_f, run_stmt_f, run_stmts_f, run_straight, straight_output};
use crate::syntax::{Expr, Program, Stmt};
use crate::vm::{run_spec, step_spec, RunOutcome, StepOutcome, VmState};

verus! {

/// The machine reaches `s2` from `s1` in exactly `k` steps.
pub open spec fn steps_to(s1: VmState, s2: VmState, k: nat) -> bool
    decreases k,
{
    if k == 0 {
        s1 == s2
    } else {
        step_spec(s1) matches StepOutcome::Next(sm) && steps_to(sm, s2, (k - 1) as nat)
    }
}

pub proof fn lemma_steps_trans(s1: VmState, s2: VmState, s3: VmState, k1: nat, k2: nat)
    requires
        steps_to(s1, s2, k1),
        steps_to(s2, s3, k2),
    ensures
        steps_to(s1, s3, k1 + k2),
    decreases k1,
{
    if k1 == 0 {
    } else {
        let sm = step_spec(s1)->Next_0;
        lemma_steps_trans(sm, s2, s3, (k1 - 1) as nat, k2);
    }
}

/// A bounded run with enough fuel reaches the halt the step chain
/// reaches.
pub proof fn lemma_steps_run(s0: VmState, sf: VmState, k: nat, fuel: nat)
    requires
        steps_to(s0, sf, k),
        step_spec(sf) is Halted,
        fuel > k,
    ensures
        run_spec(s0, fuel) == RunOutcome::Halted(sf),
    decreases k,
{
    if k == 0 {
    } else {
        let sm = step_spec(s0)->Next_0;
        lemma_steps_run(sm, sf, (k - 1) as nat, (fuel - 1) as nat);
    }
}

/// The frame mirrors the source environment: every bound variable's
/// slot, addressed relative to `fp`, holds its value.
pub open spec fn env_matches(
    senv: Map<Seq<char>, i64>,
    names: Seq<Seq<char>>,
    locals: Seq<i64>,
    fp: nat,
) -> bool {
    &&& fp + names.len() <= locals.len()
    &&& forall|x: Seq<char>| #[trigger]
        senv.dom().contains(x) ==> names.contains(x) && locals[fp + name_index(names, x)]
            == senv[x]
}

/// A contained name's index stays in range and looks its name back up.
pub proof fn lemma_name_index_lookup(names: Seq<Seq<char>>, x: Seq<char>)
    requires
        names.contains(x),
    ensures
        0 <= name_index(names, x) < names.len(),
        names[name_index(names, x)] == x,
    decreases names.len(),
{
    if names[0] == x {
    } else {
        let tail = names.subrange(1, names.len() as int);
        assert(tail.contains(x)) by {
            let w = choose|w: int| 0 <= w < names.len() && names[w] == x;
            assert(tail[w - 1] == x);
        }
        lemma_name_index_lookup(tail, x);
    }
}

/// The state after an expression's code ran: its value pushed, the
/// program counter past the fragment, everything else untouched.
pub open spec fn pushed_state(s: VmState, v: i64, len: nat) -> VmState {
    VmState { stack: s.stack.push(v), pc: (s.pc + len) as nat, ..s }
}

pub proof fn lemma_step_one(s1: VmState, s2: VmState)
    requires
        step_spec(s1) == StepOutcome::Next(s2),
    ensures
        steps_to(s1, s2, 1),
{
    assert(steps_to(s2, s2, 0nat));
}

/// Compiled expressions are correct: from a state whose frame mirrors
/// `senv`, the postfix code of `e` runs to completion and pushes
/// exactly the expression's value.
pub proof fn lemma_expr_sim(s: VmState, e: Expr, names: Seq<Seq<char>>, senv: Map<Seq<char>, i64>, v: i64)
    requires
        s.code.len() <= usize::MAX,
        s.locals.len() <= usize::MAX,
        s.pc + compile_expr_spec(e, names).len() <= s.code.len(),
        s.code.subrange(s.pc as int, s.pc + compile_expr_spec(e, names).len() as int) == compile_expr_spec(e, names),
        eval_expr(e, senv, s.args) == Some(v),
        env_matches(senv, names, s.locals, s.fp),
    ensures
        exists|k: nat| steps_to(s, pushed_state(s, v, compile_expr_spec(e, names).len()), k),
    decreases e,
{
    let cc = compile_expr_spec(e, names);
    match e {
        Expr::Num(n) => {
            assert(s.code[s.pc as int] == cc[0]);
            let target = pushed_state(s, v, cc.len());
            assert(step_spec(s) == StepOutcome::Next(target));
            lemma_step_one(s, target);
        },
        Expr::Var(x) => {
            assert(senv.dom().contains(x@));
            lemma_name_index_lookup(names, x@);
            assert(s.code[s.pc as int] == cc[0]);
            let target = pushed_state(s, v, cc.len());
            assert(step_spec(s) == StepOutcome::Next(target)) by {
                assert(s.fp + name_index(names, x@) < s.locals.len());
                assert(s.locals[s.fp + name_index(names, x@)] == v);
            }
            lemma_step_one(s, target);
        },
        Expr::BinOp(op, e1, e2) => {
            let c1 = compile_expr_spec(*e1, names);
            let c2 = compile_expr_spec(*e2, names);
            let v1 = eval_expr(*e1, senv, s.args)->0;
            let v2 = eval_expr(*e2, senv, s.args)->0;
            assert(s.code.subrange(s.pc as int, s.pc + c1.len() as int) =~= c1) by {
                assert forall|i: int| 0 <= i < c1.len() implies s.code.subrange(
                    s.pc as int,
                    s.pc + c1.len() as int,
                )[i] == c1[i] by {
                    assert(s.code[s.pc + i] == cc[i]);
                }
            }
            lemma_expr_sim(s, *e1, names, senv, v1);
            let s1 = pushed_state(s, v1, c1.len());
            assert(s1.code.subrange(s1.pc as int, s1.pc + c2.len() as int) =~= c2) by {
                assert forall|i: int| 0 <= i < c2.len() implies s1.code.subrange(
                    s1.pc as int,
                    s1.pc + c2.len() as int,
                )[i] == c2[i] by {
                    assert(s1.code[s.pc + c1.len() + i] == cc[c1.len() + i]);
                }
            }
            lemma_expr_sim(s1, *e2, names, senv, v2);
            let s2 = pushed_state(s1, v2, c2.len());
            let k1 = choose|k: nat| steps_to(s, s1, k);
            let k2 = choose|k: nat| steps_to(s1, s2, k);
            lemma_steps_trans(s, s1, s2, k1, k2);
            assert(s2.code[s2.pc as int] == cc[c1.len() + c2.len() as int]);
            assert(cc[c1.len() + c2.len() as int] == crate::compiler::op_insn(op));
            let target = pushed_state(s, v, cc.len());
            assert(step_spec(s2) == StepOutcome::Next(target)) by {
                assert(s2.stack.len() >= 2);
                assert(s2.stack.last() == v2);
                assert(s2.stack[s2.stack.len() - 2] == v1);
                assert(s2.stack.drop_last().drop_last() =~= s.stack);
            }
            lemma_step_one(s2, target);
            lemma_steps_trans(s, s2, target, k1 + k2, 1nat);
        },
        Expr::Input(e1) => {
            let c1 = compile_expr_spec(*e1, names);
            let vi = eval_expr(*e1, senv, s.args)->0;
            assert(s.code.subrange(s.pc as int, s.pc + c1.len() as int) =~= c1) by {
                assert forall|i: int| 0 <= i < c1.len() implies s.code.subrange(
                    s.pc as int,
                    s.pc + c1.len() as int,
                )[i] == c1[i] by {
                    assert(s.code[s.pc + i] == cc[i]);
                }
            }
            lemma_expr_sim(s, *e1, names, senv, vi);
            let s1 = pushed_state(s, vi, c1.len());
            let k1 = choose|k: nat| steps_to(s, s1, k);
            assert(s1.code[s1.pc as int] == cc[c1.len() as int]);
            let target = pushed_state(s, v, cc.len());
            assert(step_spec(s1) == StepOutcome::Next(target)) by {
                assert(s1.stack.last() == vi);
                assert(s1.stack.drop_last() =~= s.stack);
                assert(s1.stack.drop_last().push(v) =~= s.stack.push(v));
            }
            lemma_step_one(s1, target);
            lemma_steps_trans(s, s1, target, k1, 1nat);
        },
    }
}

/// The state after a statement sequence ran: a new frame content, the
/// program counter past the fragment, the prints appended.
pub open spec fn stmts_target_state(s: VmState, locals2: Seq<i64>, len: nat, out: Seq<i64>) -> VmState {
    VmState { locals: locals2, pc: (s.pc + len) as nat, output: s.output + out, ..s }
}

/// Distinct names occupy distinct slots.
proof fn lemma_name_index_inj(names: Seq<Seq<char>>, x: Seq<char>, y: Seq<char>)
    requires
        names_distinct(names),
        names.contains(x),
        names.contains(y),
        x != y,
    ensures
        name_index(names, x) != name_index(names, y),
{
    lemma_name_index_lookup(names, x);
    lemma_name_index_lookup(names, y);
}

/// Compiled straight-line statement sequences are correct: from a state
/// whose frame mirrors `senv`, the code of `ss` runs to completion,
/// leaves the operand stack as it was, appends exactly the denoted
/// prints, and leaves a frame mirroring the final environment with
/// everything below the frame untouched.
pub proof fn lemma_stmts_sim(
    s: VmState,
    ss: Seq<Stmt>,
    names: Seq<Seq<char>>,
    senv: Map<Seq<char>, i64>,
    senv2: Map<Seq<char>, i64>,
    out: Seq<i64>,
)
    requires
        s.code.len() <= usize::MAX,
        s.locals.len() <= usize::MAX,
        names_distinct(names),
        s.pc + compile_stmts_spec(ss, names).len() <= s.code.len(),
        s.code.subrange(s.pc as int, s.pc + compile_stmts_spec(ss, names).len() as int)
            == compile_stmts_spec(ss, names),
        run_straight(ss, senv, s.args) == Some((senv2, out)),
        stmts_targets_ok(ss, names),
        env_matches(senv, names, s.locals, s.fp),
    ensures
        exists|k: nat, locals2: Seq<i64>|
            #[trigger] steps_to(
                s,
                stmts_target_state(s, locals2, compile_stmts_spec(ss, names).len(), out),
                k,
            ) && env_matches(senv2, names, locals2, s.fp) && locals2.len() == s.locals.len() && (
            forall|i: int| 0 <= i < s.fp ==> locals2[i] == s.locals[i]),
    decreases ss.len(),
{
    let full = compile_stmts_spec(ss, names);
    if ss.len() == 0 {
        let target = stmts_target_state(s, s.locals, full.len(), out);
        assert(s.output + out =~= s.output);
        assert(target == s);
        assert(steps_to(s, target, 0nat) && env_matches(senv2, names, s.locals, s.fp)
            && s.locals.len() == s.locals.len() && (forall|i: int|
            0 <= i < s.fp ==> s.locals[i] == s.locals[i]));
    } else {
        let h = ss[0];
        let rest = ss.subrange(1, ss.len() as int);
        assert(stmt_targets_ok(h, names) && stmts_targets_ok(rest, names));
        let ch = compile_stmt_spec(h, names);
        let cr = compile_stmts_spec(rest, names);
        assert(full == ch + cr);
        assert(s.code.subrange(s.pc as int, s.pc + ch.len() as int) =~= ch) by {
            assert forall|i: int| 0 <= i < ch.len() implies s.code.subrange(
                s.pc as int,
                s.pc + ch.len() as int,
            )[i] == ch[i] by {
                assert(s.code[s.pc + i] == full[i]);
            }
        }
        match h {
            Stmt::Assign(x, e) => {
                let v = eval_expr(*e, senv, s.args)->0;
                let ce = compile_expr_spec(*e, names);
                assert(ch == ce.push(Insn::SetLocal(name_index(names, x@) as usize)));
                assert(s.code.subrange(s.pc as int, s.pc + ce.len() as int) =~= ce) by {
                    assert forall|i: int| 0 <= i < ce.len() implies s.code.subrange(
                        s.pc as int,
                        s.pc + ce.len() as int,
                    )[i] == ce[i] by {
                        assert(s.code[s.pc + i] == full[i]);
                        assert(full[i] == ch[i]);
                    }
                }
                lemma_expr_sim(s, *e, names, senv, v);
                let s1 = pushed_state(s, v, ce.len());
                let k1 = choose|k: nat| steps_to(s, s1, k);
                assert(names.contains(x@));
                lemma_name_index_lookup(names, x@);
                let ni = name_index(names, x@);
                assert(s1.code[s1.pc as int] == full[ce.len() as int]);
                assert(full[ce.len() as int] == Insn::SetLocal(ni as usize));
                let s2 = VmState {
                    locals: s.locals.update(s.fp + ni, v),
                    pc: (s.pc + ch.len()) as nat,
                    ..s
                };
                assert(step_spec(s1) == StepOutcome::Next(s2)) by {
                    assert(s1.stack.last() == v);
                    assert(s1.stack.drop_last() =~= s.stack);
                }
                lemma_step_one(s1, s2);
                lemma_steps_trans(s, s1, s2, k1, 1nat);
                let senv_mid = senv.insert(x@, v);
                assert(env_matches(senv_mid, names, s2.locals, s.fp)) by {
                    assert forall|y: Seq<char>| #[trigger]
                        senv_mid.dom().contains(y) implies names.contains(y) && s2.locals[s.fp
                        + name_index(names, y)] == senv_mid[y] by {
                        if y == x@ {
                            assert(s.fp + ni < s.locals.len());
                            assert(s2.locals[s.fp + ni] == v);
                            assert(senv_mid[y] == v);
                        } else {
                            assert(senv.dom().contains(y));
                            assert(names.contains(y));
                            lemma_name_index_lookup(names, y);
                            lemma_name_index_inj(names, x@, y);
                            assert(s.fp + name_index(names, y) < s.locals.len());
                            assert(s2.locals[s.fp + name_index(names, y)] == s.locals[s.fp
                                + name_index(names, y)]);
                        }
                    }
                }
                assert(s2.code.subrange(s2.pc as int, s2.pc + cr.len() as int) =~= cr) by {
                    assert forall|i: int| 0 <= i < cr.len() implies s2.code.subrange(
                        s2.pc as int,
                        s2.pc + cr.len() as int,
                    )[i] == cr[i] by {
                        assert(s2.code[s.pc + ch.len() + i] == full[ch.len() + i]);
                    }
                }
                assert(run_straight(rest, senv_mid, s.args) == Some((senv2, out)));
                lemma_stmts_sim(s2, rest, names, senv_mid, senv2, out);
                let (k3, locals3) = choose|k: nat, l: Seq<i64>|
                    #[trigger] steps_to(s2, stmts_target_state(s2, l, cr.len(), out), k)
                        && env_matches(senv2, names, l, s2.fp) && l.len() == s2.locals.len() && (
                    forall|i: int| 0 <= i < s2.fp ==> l[i] == s2.locals[i]);
                let target = stmts_target_state(s, locals3, full.len(), out);
                assert(stmts_target_state(s2, locals3, cr.len(), out) == target);
                lemma_steps_trans(s, s2, target, k1 + 1, k3);
                assert(steps_to(s, target, k1 + 1 + k3) && env_matches(
                    senv2,
                    names,
                    locals3,
                    s.fp,
                ) && locals3.len() == s.locals.len() && (forall|i: int|
                    0 <= i < s.fp ==> locals3[i] == s.locals[i]));
            },
            Stmt::Print(e) => {
                let v = eval_expr(*e, senv, s.args)->0;
                let ce = compile_expr_spec(*e, names);
                assert(ch == ce.push(Insn::Print));
                assert(s.code.subrange(s.pc as int, s.pc + ce.len() as int) =~= ce) by {
                    assert forall|i: int| 0 <= i < ce.len() implies s.code.subrange(
                        s.pc as int,
                        s.pc + ce.len() as int,
                    )[i] == ce[i] by {
                        assert(s.code[s.pc + i] == full[i]);
                        assert(full[i] == ch[i]);
                    }
                }
                lemma_expr_sim(s, *e, names, senv, v);
                let s1 = pushed_state(s, v, ce.len());
                let k1 = choose|k: nat| steps_to(s, s1, k);
                assert(s1.code[s1.pc as int] == full[ce.len() as int]);
                assert(full[ce.len() as int] == Insn::Print);
                let s2 = VmState {
                    output: s.output.push(v),
                    pc: (s.pc + ch.len()) as nat,
                    ..s
                };
                assert(step_spec(s1) == StepOutcome::Next(s2)) by {
                    assert(s1.stack.last() == v);
                    assert(s1.stack.drop_last() =~= s.stack);
                }
                lemma_step_one(s1, s2);
                lemma_steps_trans(s, s1, s2, k1, 1nat);
                let out_rest = (run_straight(rest, senv, s.args)->0).1;
                assert(run_straight(rest, senv, s.args) == Some((senv2, out_rest)));
                assert(out == seq![v] + out_rest);
                assert(s2.code.subrange(s2.pc as int, s2.pc + cr.len() as int) =~= cr) by {
                    assert forall|i: int| 0 <= i < cr.len() implies s2.code.subrange(
                        s2.pc as int,
                        s2.pc + cr.len() as int,
                    )[i] == cr[i] by {
                        assert(s2.code[s.pc + ch.len() + i] == full[ch.len() + i]);
                    }
                }
                lemma_stmts_sim(s2, rest, names, senv, senv2, out_rest);
                let (k3, locals3) = choose|k: nat, l: Seq<i64>|
                    #[trigger] steps_to(s2, stmts_target_state(s2, l, cr.len(), out_rest), k)
                        && env_matches(senv2, names, l, s2.fp) && l.len() == s2.locals.len() && (
                    forall|i: int| 0 <= i < s2.fp ==> l[i] == s2.locals[i]);
                let target = stmts_target_state(s, locals3, full.len(), out);
                assert(s2.output + out_rest =~= s.output + out);
                assert(stmts_target_state(s2, locals3, cr.len(), out_rest) == target);
                lemma_steps_trans(s, s2, target, k1 + 1, k3);
                assert(steps_to(s, target, k1 + 1 + k3) && env_matches(
                    senv2,
                    names,
                    locals3,
                    s.fp,
                ) && locals3.len() == s.locals.len() && (forall|i: int|
                    0 <= i < s.fp ==> locals3[i] == s.locals[i]));
            },
            Stmt::If(_, _, _) => {
                assert(false);
            },
            Stmt::While(_, _) => {
                assert(false);
            },
        }
    }
}

/// Each statement assigns at most one new slot and emits at least one
/// instruction, so the slot table never outgrows the code.
proof fn lemma_slots_le_code_stmt(acc: Seq<Seq<char>>, st: Stmt, names: Seq<Seq<char>>)
    ensures
        slots_after_stmt(acc, st).len() <= acc.len() + compile_stmt_spec(st, names).len(),
    decreases st,
{
    match st {
        Stmt::Assign(_, _) => {},
        Stmt::Print(_) => {},
        Stmt::If(_, bt, bf) => {
            lemma_slots_le_code_stmts(acc, bt.0@, names);
            lemma_slots_le_code_stmts(slots_after_stmts(acc, bt.0@), bf.0@, names);
        },
        Stmt::While(_, b) => {
            lemma_slots_le_code_stmts(acc, b.0@, names);
        },
    }
}

proof fn lemma_slots_le_code_stmts(acc: Seq<Seq<char>>, ss: Seq<Stmt>, names: Seq<Seq<char>>)
    ensures
        slots_after_stmts(acc, ss).len() <= acc.len() + compile_stmts_spec(ss, names).len(),
    decreases ss,
{
    if ss.len() == 0 {
    } else {
        lemma_slots_le_code_stmt(acc, ss[0], names);
        lemma_slots_le_code_stmts(
            slots_after_stmt(acc, ss[0]),
            ss.subrange(1, ss.len() as int),
            names,
        );
    }
}

/// The state a program's execution starts in.
pub open spec fn start_state(p: Program, args: Seq<i64>) -> VmState {
    VmState {
        stack: Seq::empty(),
        locals: Seq::empty(),
        code: compile_program_spec(p),
        pc: 0,
        fp: 0,
        args: args,
        output: Seq::empty(),
    }
}

/// The state a straight-line program's execution halts in: the frame
/// unwound, the counter at the final `Halt`, the denoted prints
/// emitted.
pub open spec fn halted_state(p: Program, args: Seq<i64>) -> VmState {
    VmState {
        stack: Seq::empty(),
        locals: Seq::empty(),
        code: compile_program_spec(p),
        pc: (compile_program_spec(p).len() - 1) as nat,
        fp: 0,
        args: args,
        output: straight_output(p, args)->0,
    }
}

/// Compiler and machine together are correct for straight-line
/// programs: wherever the source semantics denotes a print sequence,
/// the compiled code steps from the start state to the halted state
/// that printed exactly that sequence.
pub proof fn lemma_straight_run(p: Program, args: Seq<i64>)
    requires
        straight_output(p, args) is Some,
        compile_program_spec(p).len() <= crate::compiler::MAX_CODE,
    ensures
        exists|k: nat| #[trigger] steps_to(start_state(p, args), halted_state(p, args), k),
        step_spec(halted_state(p, args)) is Halted,
{
    let code = compile_program_spec(p);
    let names = slot_names(p);
    let ss = p.0.0@;
    let body = compile_stmts_spec(ss, names);
    let eenv = Map::<Seq<char>, i64>::empty();
    crate::compiler::lemma_slots_distinct_stmts(Seq::empty(), ss);
    assert(names.is_prefix_of(names)) by {
        assert(names =~= names.subrange(0, names.len() as int));
    }
    crate::compiler::lemma_stmts_targets(Seq::empty(), ss, names);
    lemma_slots_le_code_stmts(Seq::empty(), ss, names);
    assert(names.len() <= body.len());
    assert(code == seq![Insn::Enter(names.len() as usize)] + body + seq![
        Insn::Exit(names.len() as usize),
        Insn::Halt,
    ]);
    let s0 = start_state(p, args);
    assert(code[0] == Insn::Enter(names.len() as usize));
    let s1 = VmState {
        locals: s0.locals.push(0i64) + Seq::new(names.len(), |i: int| 0i64),
        fp: 1,
        pc: 1,
        ..s0
    };
    assert(step_spec(s0) == StepOutcome::Next(s1));
    lemma_step_one(s0, s1);
    assert(s1.locals.len() == 1 + names.len());
    assert(s1.code.subrange(1, 1 + body.len() as int) =~= body) by {
        assert forall|i: int| 0 <= i < body.len() implies s1.code.subrange(
            1,
            1 + body.len() as int,
        )[i] == body[i] by {
            assert(code[1 + i] == body[i]);
        }
    }
    let res = run_straight(ss, eenv, args)->0;
    assert(run_straight(ss, eenv, s1.args) == Some(res));
    assert(env_matches(eenv, names, s1.locals, 1));
    lemma_stmts_sim(s1, ss, names, eenv, res.0, res.1);
    let (k3, locals3) = choose|k: nat, l: Seq<i64>|
        #[trigger] steps_to(s1, stmts_target_state(s1, l, body.len(), res.1), k)
            && env_matches(res.0, names, l, s1.fp) && l.len() == s1.locals.len() && (forall|
            i: int,
        | 0 <= i < s1.fp ==> l[i] == s1.locals[i]);
    let s2 = stmts_target_state(s1, locals3, body.len(), res.1);
    assert(s2.locals[0] == 0i64) by {
        assert(s1.locals[0] == 0i64);
    }
    assert(s2.code[s2.pc as int] == Insn::Exit(names.len() as usize)) by {
        assert(code[1 + body.len() as int] == Insn::Exit(names.len() as usize));
    }
    let s3 = VmState {
        locals: Seq::empty(),
        fp: 0,
        pc: (2 + body.len()) as nat,
        ..s2
    };
    assert(step_spec(s2) == StepOutcome::Next(s3)) by {
        assert(s2.locals.len() == 1 + names.len());
        assert(s2.locals[s2.locals.len() - names.len() - 1] == 0i64);
        assert(s2.locals.take(s2.locals.len() - names.len() - 1) =~= Seq::<i64>::empty());
    }
    lemma_step_one(s2, s3);
    assert(s3.code[s3.pc as int] == Insn::Halt) by {
        assert(code[2 + body.len() as int] == Insn::Halt);
    }
    assert(step_spec(s3) is Halted);
    assert(s3 == halted_state(p, args)) by {
        assert(s3.output == Seq::<i64>::empty() + res.1);
        assert(Seq::<i64>::empty() + res.1 =~= res.1);
        assert(straight_output(p, args)->0 == res.1);
        assert(s3.pc == code.len() - 1);
    }
    let k1 = choose|k: nat| steps_to(s0, s1, k);
    lemma_steps_trans(s0, s1, s2, 1nat, k3);
    lemma_steps_trans(s0, s2, s3, 1 + k3, 1nat);
    assert(steps_to(start_state(p, args), halted_state(p, args), 1 + k3 + 1));
}

/// Every budget above `k` runs the program to its halted state.
pub open spec fn halts_within(p: Program, args: Seq<i64>, k: nat) -> bool {
    forall|fuel: nat|
        fuel > k ==> #[trigger] run_spec(start_state(p, args), fuel) == RunOutcome::Halted(
            halted_state(p, args),
        )
}

/// A straight-line program's bounded execution, given enough steps,
/// halts having printed exactly the denoted sequence.
pub proof fn lemma_straight_run_output(p: Program, args: Seq<i64>)
    requires
        straight_output(p, args) is Some,
        compile_program_spec(p).len() <= crate::compiler::MAX_CODE,
    ensures
        exists|k: nat| #[trigger] halts_within(p, args, k),
{
    lemma_straight_run(p, args);
    let k = choose|k: nat| #[trigger] steps_to(start_state(p, args), halted_state(p, args), k);
    assert forall|fuel: nat|
        fuel > k implies #[trigger] run_spec(start_state(p, args), fuel) == RunOutcome::Halted(
        halted_state(p, args),
    ) by {
        lemma_steps_run(start_state(p, args), halted_state(p, args), k, fuel);
    }
    assert(halts_within(p, args, k));
}

/// Semantic preservation of optimization, stated at the machine level:
/// where the optimizer promises the same denoted prints — its
/// postcondition for every argument vector under which the original
/// runs without fault — the two compiled programs, each given enough
/// steps, halt with identical printed sequences.
pub proof fn lemma_optimize_preserves_run(p: Program, p2: Program, args: Seq<i64>)
    requires
        straight_output(p, args) is Some,
        straight_output(p2, args) == straight_output(p, args),
        compile_program_spec(p).len() <= crate::compiler::MAX_CODE,
        compile_program_spec(p2).len() <= crate::compiler::MAX_CODE,
    ensures
        exists|k: nat| #[trigger] halts_within(p, args, k),
        exists|k: nat| #[trigger] halts_within(p2, args, k),
        halted_state(p2, args).output == halted_state(p, args).output,
{
    lemma_straight_run_output(p, args);
    lemma_straight_run_output(p2, args);
}

/// Compiled statements of the full language are correct: from a state
/// whose frame mirrors `senv`, the code of `st` runs to completion,
/// leaves the operand stack as it was, appends exactly the prints the
/// fueled semantics denotes, and leaves a frame mirroring the final
/// environment with everything below the frame untouched.  Conditionals
/// execute exactly the arm the condition selects, and loops run their
/// body once per nonzero evaluation of the condition.
#[verifier::rlimit(100)]
#[verifier::spinoff_prover]
pub proof fn lemma_stmt_sim_f(
    s: VmState,
    st: Stmt,
    names: Seq<Seq<char>>,
    senv: Map<Seq<char>, i64>,
    senv2: Map<Seq<char>, i64>,
    out: Seq<i64>,
    fuel: nat,
)
    requires
        s.code.len() <= usize::MAX,
        s.locals.len() <= usize::MAX,
        names_distinct(names),
        compile_stmt_spec(st, names).len() <= 0x1000_0000,
        s.pc + compile_stmt_spec(st, names).len() <= s.code.len(),
        s.code.subrange(s.pc as int, s.pc + compile_stmt_spec(st, names).len() as int)
            == compile_stmt_spec(st, names),
        run_stmt_f(st, senv, s.args, fuel) == Some((senv2, out)),
        stmt_targets_ok(st, names),
        env_matches(senv, names, s.locals, s.fp),
    ensures
        exists|k: nat, locals2: Seq<i64>|
            #[trigger] steps_to(
                s,
                stmts_target_state(s, locals2, compile_stmt_spec(st, names).len(), out),
                k,
            ) && env_matches(senv2, names, locals2, s.fp) && locals2.len() == s.locals.len() && (
            forall|i: int| 0 <= i < s.fp ==> locals2[i] == s.locals[i]),
    decreases fuel, st,
{
    let full = compile_stmt_spec(st, names);
    match st {
        Stmt::Assign(x, e) => {
            let v = eval_expr(*e, senv, s.args)->0;
            let ce = compile_expr_spec(*e, names);
            assert(full == ce.push(Insn::SetLocal(name_index(names, x@) as usize)));
            assert(s.code.subrange(s.pc as int, s.pc + ce.len() as int) =~= ce) by {
                assert forall|i: int| 0 <= i < ce.len() implies s.code.subrange(
                    s.pc as int,
                    s.pc + ce.len() as int,
                )[i] == ce[i] by {
                    assert(s.code[s.pc + i] == full[i]);
                }
            }
            lemma_expr_sim(s, *e, names, senv, v);
            let s1 = pushed_state(s, v, ce.len());
            let k1 = choose|k: nat| steps_to(s, s1, k);
            assert(names.contains(x@));
            lemma_name_index_lookup(names, x@);
            let ni = name_index(names, x@);
            assert(s1.code[s1.pc as int] == full[ce.len() as int]);
            let s2 = VmState {
                locals: s.locals.update(s.fp + ni, v),
                pc: (s.pc + full.len()) as nat,
                ..s
            };
            assert(step_spec(s1) == StepOutcome::Next(s2)) by {
                assert(s1.stack.last() == v);
                assert(s1.stack.drop_last() =~= s.stack);
            }
            lemma_step_one(s1, s2);
            lemma_steps_trans(s, s1, s2, k1, 1nat);
            assert(env_matches(senv2, names, s2.locals, s.fp)) by {
                assert forall|y: Seq<char>| #[trigger]
                    senv2.dom().contains(y) implies names.contains(y) && s2.locals[s.fp
                    + name_index(names, y)] == senv2[y] by {
                    if y == x@ {
                        assert(s.fp + ni < s.locals.len());
                    } else {
                        assert(senv.dom().contains(y));
                        lemma_name_index_lookup(names, y);
                        lemma_name_index_inj(names, x@, y);
                    }
                }
            }
            let target = stmts_target_state(s, s2.locals, full.len(), out);
            assert(s.output + out =~= s.output);
            assert(s2 == target);
            assert(steps_to(s, target, k1 + 1) && env_matches(senv2, names, s2.locals, s.fp)
                && s2.locals.len() == s.locals.len() && (forall|i: int|
                0 <= i < s.fp ==> s2.locals[i] == s.locals[i]));
        },
        Stmt::Print(e) => {
            let v = eval_expr(*e, senv, s.args)->0;
            let ce = compile_expr_spec(*e, names);
            assert(full == ce.push(Insn::Print));
            assert(s.code.subrange(s.pc as int, s.pc + ce.len() as int) =~= ce) by {
                assert forall|i: int| 0 <= i < ce.len() implies s.code.subrange(
                    s.pc as int,
                    s.pc + ce.len() as int,
                )[i] == ce[i] by {
                    assert(s.code[s.pc + i] == full[i]);
                }
            }
            lemma_expr_sim(s, *e, names, senv, v);
            let s1 = pushed_state(s, v, ce.len());
            let k1 = choose|k: nat| steps_to(s, s1, k);
            assert(s1.code[s1.pc as int] == full[ce.len() as int]);
            let s2 = VmState {
                output: s.output.push(v),
                pc: (s.pc + full.len()) as nat,
                ..s
            };
            assert(step_spec(s1) == StepOutcome::Next(s2)) by {
                assert(s1.stack.last() == v);
                assert(s1.stack.drop_last() =~= s.stack);
            }
            lemma_step_one(s1, s2);
            lemma_steps_trans(s, s1, s2, k1, 1nat);
            let target = stmts_target_state(s, s.locals, full.len(), out);
            assert(s.output + out =~= s.output.push(v));
            assert(s2 == target);
            assert(steps_to(s, target, k1 + 1) && env_matches(senv2, names, s.locals, s.fp)
                && s.locals.len() == s.locals.len() && (forall|i: int|
                0 <= i < s.fp ==> s.locals[i] == s.locals[i]));
        },
        Stmt::If(c, bt, bf) => {
            let v = eval_expr(*c, senv, s.args)->0;
            let cc = compile_expr_spec(*c, names);
            let tt = compile_stmts_spec(bt.0@, names);
            let ff = compile_stmts_spec(bf.0@, names);
            assert(full == cc + seq![Insn::BranchZero((tt.len() + 2) as isize)] + tt + seq![
                Insn::Branch((ff.len() + 1) as isize)
            ] + ff);
            assert(s.code.subrange(s.pc as int, s.pc + cc.len() as int) =~= cc) by {
                assert forall|i: int| 0 <= i < cc.len() implies s.code.subrange(
                    s.pc as int,
                    s.pc + cc.len() as int,
                )[i] == cc[i] by {
                    assert(s.code[s.pc + i] == full[i]);
                }
            }
            lemma_expr_sim(s, *c, names, senv, v);
            let s1 = pushed_state(s, v, cc.len());
            let k1 = choose|k: nat| steps_to(s, s1, k);
            assert(s1.code[s1.pc as int] == full[cc.len() as int]);
            assert(full[cc.len() as int] == Insn::BranchZero((tt.len() + 2) as isize));
            if v != 0 {
                let s2 = VmState { pc: (s.pc + cc.len() + 1) as nat, ..s };
                assert(step_spec(s1) == StepOutcome::Next(s2)) by {
                    assert(s1.stack.last() == v);
                    assert(s1.stack.drop_last() =~= s.stack);
                }
                lemma_step_one(s1, s2);
                lemma_steps_trans(s, s1, s2, k1, 1nat);
                assert(s2.code.subrange(s2.pc as int, s2.pc + tt.len() as int) =~= tt) by {
                    assert forall|i: int| 0 <= i < tt.len() implies s2.code.subrange(
                        s2.pc as int,
                        s2.pc + tt.len() as int,
                    )[i] == tt[i] by {
                        assert(s2.code[s.pc + cc.len() + 1 + i] == full[cc.len() + 1 + i]);
                    }
                }
                assert(run_stmts_f(bt.0@, senv, s.args, fuel) == Some((senv2, out)));
                lemma_stmts_sim_f(s2, bt.0@, names, senv, senv2, out, fuel);
                let (k3, locals3) = choose|k: nat, l: Seq<i64>|
                    #[trigger] steps_to(s2, stmts_target_state(s2, l, tt.len(), out), k)
                        && env_matches(senv2, names, l, s2.fp) && l.len() == s2.locals.len()
                        && (forall|i: int| 0 <= i < s2.fp ==> l[i] == s2.locals[i]);
                let s3 = stmts_target_state(s2, locals3, tt.len(), out);
                lemma_steps_trans(s, s2, s3, k1 + 1, k3);
                assert(s3.code[s3.pc as int] == full[cc.len() + 1 + tt.len() as int]);
                assert(full[cc.len() + 1 + tt.len() as int] == Insn::Branch(
                    (ff.len() + 1) as isize,
                ));
                let target = stmts_target_state(s, locals3, full.len(), out);
                assert(step_spec(s3) == StepOutcome::Next(target));
                lemma_step_one(s3, target);
                lemma_steps_trans(s, s3, target, k1 + 1 + k3, 1nat);
                assert(steps_to(s, target, k1 + 1 + k3 + 1) && env_matches(
                    senv2,
                    names,
                    locals3,
                    s.fp,
                ) && locals3.len() == s.locals.len() && (forall|i: int|
                    0 <= i < s.fp ==> locals3[i] == s.locals[i]));
            } else {
                let s2 = VmState { pc: (s.pc + cc.len() + tt.len() + 2) as nat, ..s };
                assert(step_spec(s1) == StepOutcome::Next(s2)) by {
                    assert(s1.stack.last() == v);
                    assert(s1.stack.drop_last() =~= s.stack);
                }
                lemma_step_one(s1, s2);
                lemma_steps_trans(s, s1, s2, k1, 1nat);
                assert(s2.code.subrange(s2.pc as int, s2.pc + ff.len() as int) =~= ff) by {
                    assert forall|i: int| 0 <= i < ff.len() implies s2.code.subrange(
                        s2.pc as int,
                        s2.pc + ff.len() as int,
                    )[i] == ff[i] by {
                        assert(s2.code[s.pc + cc.len() + tt.len() + 2 + i] == full[cc.len()
                            + tt.len() + 2 + i]);
                    }
                }
                assert(run_stmts_f(bf.0@, senv, s.args, fuel) == Some((senv2, out)));
                lemma_stmts_sim_f(s2, bf.0@, names, senv, senv2, out, fuel);
                let (k3, locals3) = choose|k: nat, l: Seq<i64>|
                    #[trigger] steps_to(s2, stmts_target_state(s2, l, ff.len(), out), k)
                        && env_matches(senv2, names, l, s2.fp) && l.len() == s2.locals.len()
                        && (forall|i: int| 0 <= i < s2.fp ==> l[i] == s2.locals[i]);
                let s3 = stmts_target_state(s2, locals3, ff.len(), out);
                lemma_steps_trans(s, s2, s3, k1 + 1, k3);
                let target = stmts_target_state(s, locals3, full.len(), out);
                assert(s3 == target);
                assert(steps_to(s, target, k1 + 1 + k3) && env_matches(
                    senv2,
                    names,
                    locals3,
                    s.fp,
                ) && locals3.len() == s.locals.len() && (forall|i: int|
                    0 <= i < s.fp ==> locals3[i] == s.locals[i]));
            }
        },
        Stmt::While(c, b) => {
            let v = eval_expr(*c, senv, s.args)->0;
            let cc = compile_expr_spec(*c, names);
            let bb = compile_stmts_spec(b.0@, names);
            assert(full == cc + seq![Insn::BranchZero((bb.len() + 2) as isize)] + bb + seq![
                Insn::Branch((-(cc.len() + bb.len() + 1)) as isize)
            ]);
            assert(s.code.subrange(s.pc as int, s.pc + cc.len() as int) =~= cc) by {
                assert forall|i: int| 0 <= i < cc.len() implies s.code.subrange(
                    s.pc as int,
                    s.pc + cc.len() as int,
                )[i] == cc[i] by {
                    assert(s.code[s.pc + i] == full[i]);
                }
            }
            lemma_expr_sim(s, *c, names, senv, v);
            let s1 = pushed_state(s, v, cc.len());
            let k1 = choose|k: nat| steps_to(s, s1, k);
            assert(s1.code[s1.pc as int] == full[cc.len() as int]);
            assert(full[cc.len() as int] == Insn::BranchZero((bb.len() + 2) as isize));
            if v == 0 {
                let target = stmts_target_state(s, s.locals, full.len(), out);
                assert(s.output + out =~= s.output);
                assert(step_spec(s1) == StepOutcome::Next(target)) by {
                    assert(s1.stack.last() == v);
                    assert(s1.stack.drop_last() =~= s.stack);
                }
                lemma_step_one(s1, target);
                lemma_steps_trans(s, s1, target, k1, 1nat);
                assert(steps_to(s, target, k1 + 1) && env_matches(senv2, names, s.locals, s.fp)
                    && s.locals.len() == s.locals.len() && (forall|i: int|
                    0 <= i < s.fp ==> s.locals[i] == s.locals[i]));
            } else {
                assert(fuel > 0);
                let envm = (run_stmts_f(b.0@, senv, s.args, fuel)->0).0;
                let out1 = (run_stmts_f(b.0@, senv, s.args, fuel)->0).1;
                let out2 = (run_stmt_f(st, envm, s.args, (fuel - 1) as nat)->0).1;
                assert(run_stmts_f(b.0@, senv, s.args, fuel) == Some((envm, out1)));
                assert(run_stmt_f(st, envm, s.args, (fuel - 1) as nat) == Some((senv2, out2)));
                assert(out == out1 + out2);
                let s2 = VmState { pc: (s.pc + cc.len() + 1) as nat, ..s };
                assert(step_spec(s1) == StepOutcome::Next(s2)) by {
                    assert(s1.stack.last() == v);
                    assert(s1.stack.drop_last() =~= s.stack);
                }
                lemma_step_one(s1, s2);
                lemma_steps_trans(s, s1, s2, k1, 1nat);
                assert(s2.code.subrange(s2.pc as int, s2.pc + bb.len() as int) =~= bb) by {
                    assert forall|i: int| 0 <= i < bb.len() implies s2.code.subrange(
                        s2.pc as int,
                        s2.pc + bb.len() as int,
                    )[i] == bb[i] by {
                        assert(s2.code[s.pc + cc.len() + 1 + i] == full[cc.len() + 1 + i]);
                    }
                }
                lemma_stmts_sim_f(s2, b.0@, names, senv, envm, out1, fuel);
                let (k3, locals3) = choose|k: nat, l: Seq<i64>|
                    #[trigger] steps_to(s2, stmts_target_state(s2, l, bb.len(), out1), k)
                        && env_matches(envm, names, l, s2.fp) && l.len() == s2.locals.len() && (
                    forall|i: int| 0 <= i < s2.fp ==> l[i] == s2.locals[i]);
                let s3 = stmts_target_state(s2, locals3, bb.len(), out1);
                lemma_steps_trans(s, s2, s3, k1 + 1, k3);
                assert(s3.code[s3.pc as int] == full[cc.len() + 1 + bb.len() as int]);
                assert(full[cc.len() + 1 + bb.len() as int] == Insn::Branch(
                    (-(cc.len() + bb.len() + 1)) as isize,
                ));
                let s4 = VmState { pc: s.pc, ..s3 };
                assert(step_spec(s3) == StepOutcome::Next(s4));
                lemma_step_one(s3, s4);
                lemma_steps_trans(s, s3, s4, k1 + 1 + k3, 1nat);
                assert(s4.code.subrange(s4.pc as int, s4.pc + full.len() as int) == full);
                lemma_stmt_sim_f(s4, st, names, envm, senv2, out2, (fuel - 1) as nat);
                let (k5, locals5) = choose|k: nat, l: Seq<i64>|
                    #[trigger] steps_to(s4, stmts_target_state(s4, l, full.len(), out2), k)
                        && env_matches(senv2, names, l, s4.fp) && l.len() == s4.locals.len() && (
                    forall|i: int| 0 <= i < s4.fp ==> l[i] == s4.locals[i]);
                let s5 = stmts_target_state(s4, locals5, full.len(), out2);
                let target = stmts_target_state(s, locals5, full.len(), out);
                assert((s.output + out1) + out2 =~= s.output + out);
                assert(s5 == target);
                lemma_steps_trans(s, s4, target, k1 + 1 + k3 + 1, k5);
                assert(steps_to(s, target, k1 + 1 + k3 + 1 + k5) && env_matches(
                    senv2,
                    names,
                    locals5,
                    s.fp,
                ) && locals5.len() == s.locals.len() && (forall|i: int|
                    0 <= i < s.fp ==> locals5[i] == s.locals[i]));
            }
        },
    }
}

/// Compiled statement sequences of the full language are correct.
pub proof fn lemma_stmts_sim_f(
    s: VmState,
    ss: Seq<Stmt>,
    names: Seq<Seq<char>>,
    senv: Map<Seq<char>, i64>,
    senv2: Map<Seq<char>, i64>,
    out: Seq<i64>,
    fuel: nat,
)
    requires
        s.code.len() <= usize::MAX,
        s.locals.len() <= usize::MAX,
        names_distinct(names),
        compile_stmts_spec(ss, names).len() <= 0x1000_0000,
        s.pc + compile_stmts_spec(ss, names).len() <= s.code.len(),
        s.code.subrange(s.pc as int, s.pc + compile_stmts_spec(ss, names).len() as int)
            == compile_stmts_spec(ss, names),
        run_stmts_f(ss, senv, s.args, fuel) == Some((senv2, out)),
        stmts_targets_ok(ss, names),
        env_matches(senv, names, s.locals, s.fp),
    ensures
        exists|k: nat, locals2: Seq<i64>|
            #[trigger] steps_to(
                s,
                stmts_target_state(s, locals2, compile_stmts_spec(ss, names).len(), out),
                k,
            ) && env_matches(senv2, names, locals2, s.fp) && locals2.len() == s.locals.len() && (
            forall|i: int| 0 <= i < s.fp ==> locals2[i] == s.locals[i]),
    decreases fuel, ss,
{
    let full = compile_stmts_spec(ss, names);
    if ss.len() == 0 {
        let target = stmts_target_state(s, s.locals, full.len(), out);
        assert(s.output + out =~= s.output);
        assert(target == s);
        assert(steps_to(s, target, 0nat) && env_matches(senv2, names, s.locals, s.fp)
            && s.locals.len() == s.locals.len() && (forall|i: int|
            0 <= i < s.fp ==> s.locals[i] == s.locals[i]));
    } else {
        let h = ss[0];
        let rest = ss.subrange(1, ss.len() as int);
        assert(stmt_targets_ok(h, names) && stmts_targets_ok(rest, names));
        let ch = compile_stmt_spec(h, names);
        let cr = compile_stmts_spec(rest, names);
        assert(full == ch + cr);
        let envm = (run_stmt_f(h, senv, s.args, fuel)->0).0;
        let out1 = (run_stmt_f(h, senv, s.args, fuel)->0).1;
        let out2 = (run_stmts_f(rest, envm, s.args, fuel)->0).1;
        assert(run_stmt_f(h, senv, s.args, fuel) == Some((envm, out1)));
        assert(run_stmts_f(rest, envm, s.args, fuel) == Some((senv2, out2)));
        assert(out == out1 + out2);
        assert(s.code.subrange(s.pc as int, s.pc + ch.len() as int) =~= ch) by {
            assert forall|i: int| 0 <= i < ch.len() implies s.code.subrange(
                s.pc as int,
                s.pc + ch.len() as int,
            )[i] == ch[i] by {
                assert(s.code[s.pc + i] == full[i]);
            }
        }
        lemma_stmt_sim_f(s, h, names, senv, envm, out1, fuel);
        let (k1, locals1) = choose|k: nat, l: Seq<i64>|
            #[trigger] steps_to(s, stmts_target_state(s, l, ch.len(), out1), k) && env_matches(
                envm,
                names,
                l,
                s.fp,
            ) && l.len() == s.locals.len() && (forall|i: int|
                0 <= i < s.fp ==> l[i] == s.locals[i]);
        let s1 = stmts_target_state(s, locals1, ch.len(), out1);
        assert(s1.code.subrange(s1.pc as int, s1.pc + cr.len() as int) =~= cr) by {
            assert forall|i: int| 0 <= i < cr.len() implies s1.code.subrange(
                s1.pc as int,
                s1.pc + cr.len() as int,
            )[i] == cr[i] by {
                assert(s1.code[s.pc + ch.len() + i] == full[ch.len() + i]);
            }
        }
        lemma_stmts_sim_f(s1, rest, names, envm, senv2, out2, fuel);
        let (k3, locals3) = choose|k: nat, l: Seq<i64>|
            #[trigger] steps_to(s1, stmts_target_state(s1, l, cr.len(), out2), k)
                && env_matches(senv2, names, l, s1.fp) && l.len() == s1.locals.len() && (forall|
                i: int,
            | 0 <= i < s1.fp ==> l[i] == s1.locals[i]);
        let target = stmts_target_state(s, locals3, full.len(), out);
        assert((s.output + out1) + out2 =~= s.output + out);
        assert(stmts_target_state(s1, locals3, cr.len(), out2) == target);
        lemma_steps_trans(s, s1, target, k1, k3);
        assert(steps_to(s, target, k1 + k3) && env_matches(senv2, names, locals3, s.fp)
            && locals3.len() == s.locals.len() && (forall|i: int|
            0 <= i < s.fp ==> locals3[i] == s.locals[i]));
    }
}

/// The state a program's execution halts in under the fueled
/// semantics: the frame unwound, the counter at the final `Halt`, the
/// denoted prints emitted.
pub open spec fn halted_state_f(p: Program, args: Seq<i64>, fuel: nat) -> VmState {
    VmState {
        stack: Seq::empty(),
        locals: Seq::empty(),
        code: compile_program_spec(p),
        pc: (compile_program_spec(p).len() - 1) as nat,
        fp: 0,
        args: args,
        output: program_output_f(p, args, fuel)->0,
    }
}

/// Full compiler correctness: wherever the fueled source semantics
/// completes a program — conditionals taking exactly the selected arm,
/// loops running their body once per nonzero condition — the compiled
/// code steps from the start state to the halted state that printed
/// exactly the denoted sequence.
pub proof fn lemma_program_run_f(p: Program, args: Seq<i64>, fuel: nat)
    requires
        program_output_f(p, args, fuel) is Some,
        compile_program_spec(p).len() <= crate::compiler::MAX_CODE,
    ensures
        exists|k: nat| #[trigger] steps_to(
            start_state(p, args),
            halted_state_f(p, args, fuel),
            k,
        ),
        step_spec(halted_state_f(p, args, fuel)) is Halted,
{
    let code = compile_program_spec(p);
    let names = slot_names(p);
    let ss = p.0.0@;
    let body = compile_stmts_spec(ss, names);
    let eenv = Map::<Seq<char>, i64>::empty();
    crate::compiler::lemma_slots_distinct_stmts(Seq::empty(), ss);
    assert(names.is_prefix_of(names)) by {
        assert(names =~= names.subrange(0, names.len() as int));
    }
    crate::compiler::lemma_stmts_targets(Seq::empty(), ss, names);
    lemma_slots_le_code_stmts(Seq::empty(), ss, names);
    assert(names.len() <= body.len());
    assert(code == seq![Insn::Enter(names.len() as usize)] + body + seq![
        Insn::Exit(names.len() as usize),
        Insn::Halt,
    ]);
    let s0 = start_state(p, args);
    assert(code[0] == Insn::Enter(names.len() as usize));
    let s1 = VmState {
        locals: s0.locals.push(0i64) + Seq::new(names.len(), |i: int| 0i64),
        fp: 1,
        pc: 1,
        ..s0
    };
    assert(step_spec(s0) == StepOutcome::Next(s1));
    lemma_step_one(s0, s1);
    assert(s1.locals.len() == 1 + names.len());
    assert(s1.code.subrange(1, 1 + body.len() as int) =~= body) by {
        assert forall|i: int| 0 <= i < body.len() implies s1.code.subrange(
            1,
            1 + body.len() as int,
        )[i] == body[i] by {
            assert(code[1 + i] == body[i]);
        }
    }
    let res = run_stmts_f(ss, eenv, args, fuel)->0;
    assert(run_stmts_f(ss, eenv, s1.args, fuel) == Some(res));
    assert(env_matches(eenv, names, s1.locals, 1));
    lemma_stmts_sim_f(s1, ss, names, eenv, res.0, res.1, fuel);
    let (k3, locals3) = choose|k: nat, l: Seq<i64>|
        #[trigger] steps_to(s1, stmts_target_state(s1, l, body.len(), res.1), k)
            && env_matches(res.0, names, l, s1.fp) && l.len() == s1.locals.len() && (forall|
            i: int,
        | 0 <= i < s1.fp ==> l[i] == s1.locals[i]);
    let s2 = stmts_target_state(s1, locals3, body.len(), res.1);
    assert(s2.locals[0] == 0i64) by {
        assert(s1.locals[0] == 0i64);
    }
    assert(s2.code[s2.pc as int] == Insn::Exit(names.len() as usize)) by {
        assert(code[1 + body.len() as int] == Insn::Exit(names.len() as usize));
    }
    let s3 = VmState { locals: Seq::empty(), fp: 0, pc: (2 + body.len()) as nat, ..s2 };
    assert(step_spec(s2) == StepOutcome::Next(s3)) by {
        assert(s2.locals.len() == 1 + names.len());
        assert(s2.locals[s2.locals.len() - names.len() - 1] == 0i64);
        assert(s2.locals.take(s2.locals.len() - names.len() - 1) =~= Seq::<i64>::empty());
    }
    lemma_step_one(s2, s3);
    assert(s3.code[s3.pc as int] == Insn::Halt) by {
        assert(code[2 + body.len() as int] == Insn::Halt);
    }
    assert(step_spec(s3) is Halted);
    assert(s3 == halted_state_f(p, args, fuel)) by {
        assert(s3.output == Seq::<i64>::empty() + res.1);
        assert(Seq::<i64>::empty() + res.1 =~= res.1);
        assert(program_output_f(p, args, fuel)->0 == res.1);
        assert(s3.pc == code.len() - 1);
    }
    lemma_steps_trans(s0, s1, s2, 1nat, k3);
    lemma_steps_trans(s0, s2, s3, 1 + k3, 1nat);
    assert(steps_to(start_state(p, args), halted_state_f(p, args, fuel), 1 + k3 + 1));
}

/// Every budget above `k` runs the program to the fueled semantics'
/// halt.
pub open spec fn halts_within_f(p: Program, args: Seq<i64>, fuel: nat, k: nat) -> bool {
    forall|budget: nat|
        budget > k ==> #[trigger] run_spec(start_state(p, args), budget) == RunOutcome::Halted(
            halted_state_f(p, args, fuel),
        )
}

/// A program the fueled semantics completes runs, given enough steps,
/// to a halt having printed exactly the denoted sequence.
pub proof fn lemma_program_run_output_f(p: Program, args: Seq<i64>, fuel: nat)
    requires
        program_output_f(p, args, fuel) is Some,
        compile_program_spec(p).len() <= crate::compiler::MAX_CODE,
    ensures
        exists|k: nat| #[trigger] halts_within_f(p, args, fuel, k),
{
    lemma_program_run_f(p, args, fuel);
    let k = choose|k: nat| #[trigger]
        steps_to(start_state(p, args), halted_state_f(p, args, fuel), k);
    assert forall|budget: nat|
        budget > k implies #[trigger] run_spec(start_state(p, args), budget)
        == RunOutcome::Halted(halted_state_f(p, args, fuel)) by {
        lemma_steps_run(start_state(p, args), halted_state_f(p, args, fuel), k, budget);
    }
    assert(halts_within_f(p, args, fuel, k));
}

} // verus!
