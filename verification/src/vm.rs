//! The stack-based virtual machine: an operand stack, a frame-addressed
//! locals array, and a small-step semantics over the bytecode array.
//!
//! Printed values are collected in an output sequence (the observable
//! side effect).  Every fault condition of the step semantics — stack
//! underflow, out-of-range local or argument index, program counter
//! outside the code bounds — stops execution with a fault outcome
//! instead of a panic.

use vstd::prelude::*;
use crate::compiler::{compile_expr_spec, compile_stmt_spec, compile_stmts_spec, Insn};
use crate::semantics::eval_binop;
use crate::syntax::{BinOp, Stmt};

verus! {

/// The complete state of one execution, as mathematical values.
pub ghost struct VmState {
    pub stack: Seq<i64>,
    pub locals: Seq<i64>,
    pub code: Seq<Insn>,
    pub pc: nat,
    pub fp: nat,
    pub args: Seq<i64>,
    pub output: Seq<i64>,
}

/// What one step does: continue in a new state, stop at `Halt`, or fault.
pub ghost enum StepOutcome {
    Next(VmState),
    Halted,
    Fault,
}

/// A bounded run: the machine halted, faulted, or was still running when
/// the step budget ran out, each with the state it stopped in.
pub ghost enum RunOutcome {
    Halted(VmState),
    Fault(VmState),
    Running(VmState),
}

/// One step for a binary operator: pops the right operand, then the left,
/// and pushes the operator's value.
pub open spec fn step_binop_spec(s: VmState, op: BinOp) -> StepOutcome {
    if s.stack.len() >= 2 {
        let y = s.stack.last();
        let x = s.stack[s.stack.len() - 2];
        StepOutcome::Next(
            VmState {
                stack: s.stack.drop_last().drop_last().push(eval_binop(op, x, y)),
                pc: s.pc + 1,
                ..s
            },
        )
    } else {
        StepOutcome::Fault
    }
}

/// The step semantics of the instruction at `s.pc`.
pub open spec fn step_spec(s: VmState) -> StepOutcome {
    if s.pc >= s.code.len() {
        StepOutcome::Fault
    } else {
        match s.code[s.pc as int] {
            Insn::Halt => StepOutcome::Halted,
            Insn::Literal(n) => StepOutcome::Next(
                VmState { stack: s.stack.push(n), pc: s.pc + 1, ..s },
            ),
            Insn::Add => step_binop_spec(s, BinOp::Add),
            Insn::Sub => step_binop_spec(s, BinOp::Sub),
            Insn::Mul => step_binop_spec(s, BinOp::Mul),
            Insn::Lt => step_binop_spec(s, BinOp::Lt),
            Insn::Gt => step_binop_spec(s, BinOp::Gt),
            Insn::Print => if s.stack.len() >= 1 {
                StepOutcome::Next(
                    VmState {
                        stack: s.stack.drop_last(),
                        output: s.output.push(s.stack.last()),
                        pc: s.pc + 1,
                        ..s
                    },
                )
            } else {
                StepOutcome::Fault
            },
            Insn::Enter(n) => if s.fp <= i64::MAX {
                StepOutcome::Next(
                    VmState {
                        locals: s.locals.push(s.fp as i64) + Seq::new(n as nat, |i: int| 0i64),
                        fp: s.locals.len() + 1,
                        pc: s.pc + 1,
                        ..s
                    },
                )
            } else {
                StepOutcome::Fault
            },
            Insn::Exit(n) => if s.locals.len() >= n + 1 {
                let saved = s.locals[s.locals.len() - n - 1];
                if 0 <= saved <= usize::MAX {
                    StepOutcome::Next(
                        VmState {
                            locals: s.locals.take(s.locals.len() - n - 1),
                            fp: saved as nat,
                            pc: s.pc + 1,
                            ..s
                        },
                    )
                } else {
                    StepOutcome::Fault
                }
            } else {
                StepOutcome::Fault
            },
            Insn::GetLocal(x) => if s.fp + x < s.locals.len() {
                StepOutcome::Next(
                    VmState { stack: s.stack.push(s.locals[s.fp + x]), pc: s.pc + 1, ..s },
                )
            } else {
                StepOutcome::Fault
            },
            Insn::SetLocal(x) => if s.stack.len() >= 1 && s.fp + x < s.locals.len() {
                StepOutcome::Next(
                    VmState {
                        stack: s.stack.drop_last(),
                        locals: s.locals.update((s.fp + x) as int, s.stack.last()),
                        pc: s.pc + 1,
                        ..s
                    },
                )
            } else {
                StepOutcome::Fault
            },
            Insn::InputRead => if s.stack.len() >= 1 && 0 <= s.stack.last() < s.args.len() {
                StepOutcome::Next(
                    VmState {
                        stack: s.stack.drop_last().push(s.args[s.stack.last() as int]),
                        pc: s.pc + 1,
                        ..s
                    },
                )
            } else {
                StepOutcome::Fault
            },
            Insn::Branch(n) => if 0 <= s.pc + n <= usize::MAX {
                StepOutcome::Next(VmState { pc: (s.pc + n) as nat, ..s })
            } else {
                StepOutcome::Fault
            },
            Insn::BranchZero(n) => if s.stack.len() >= 1 {
                if s.stack.last() == 0 {
                    if 0 <= s.pc + n <= usize::MAX {
                        StepOutcome::Next(
                            VmState { stack: s.stack.drop_last(), pc: (s.pc + n) as nat, ..s },
                        )
                    } else {
                        StepOutcome::Fault
                    }
                } else {
                    StepOutcome::Next(VmState { stack: s.stack.drop_last(), pc: s.pc + 1, ..s })
                }
            } else {
                StepOutcome::Fault
            },
        }
    }
}

/// Runs up to `fuel` steps.
pub open spec fn run_spec(s: VmState, fuel: nat) -> RunOutcome
    decreases fuel,
{
    if fuel == 0 {
        RunOutcome::Running(s)
    } else {
        match step_spec(s) {
            StepOutcome::Halted => RunOutcome::Halted(s),
            StepOutcome::Fault => RunOutcome::Fault(s),
            StepOutcome::Next(s2) => run_spec(s2, (fuel - 1) as nat),
        }
    }
}

/// How a bounded execution ended.
#[derive(Clone, Copy, PartialEq, Eq, Structural, Debug)]
pub enum ExecStatus {
    Halted,
    Faulted,
    Running,
}

pub struct VM {
    stack: Vec<i64>,
    locals: Vec<i64>,
    code: Vec<Insn>,
    pc: usize,
    fp: usize,
    args: Vec<i64>,
    output: Vec<i64>,
}

impl View for VM {
    type V = VmState;

    closed spec fn view(&self) -> VmState {
        VmState {
            stack: self.stack@,
            locals: self.locals@,
            code: self.code@,
            pc: self.pc as nat,
            fp: self.fp as nat,
            args: self.args@,
            output: self.output@,
        }
    }
}

impl VM {
    pub fn new(code: Vec<Insn>, args: Vec<i64>) -> (vm: VM)
        ensures
            vm@ == (VmState {
                stack: Seq::<i64>::empty(),
                locals: Seq::<i64>::empty(),
                code: code@,
                pc: 0,
                fp: 0,
                args: args@,
                output: Seq::<i64>::empty(),
            }),
    {
        VM {
            stack: Vec::new(),
            locals: Vec::new(),
            code,
            pc: 0,
            fp: 0,
            args,
            output: Vec::new(),
        }
    }

    /// The values printed so far, in order.
    pub fn output(&self) -> (out: &Vec<i64>)
        ensures
            out@ == self@.output,
    {
        &self.output
    }

    /// The values printed by the finished execution, owned.
    pub fn into_output(self) -> (out: Vec<i64>)
        ensures
            out@ == self@.output,
    {
        self.output
    }

    /// The current program counter (diagnostic).
    pub fn pc(&self) -> (pc: usize)
        ensures
            pc == self@.pc,
    {
        self.pc
    }

    /// The current operand stack (diagnostic).
    pub fn stack(&self) -> (stack: &Vec<i64>)
        ensures
            stack@ == self@.stack,
    {
        &self.stack
    }

    /// Performs one step of the machine, mutating the state only when the
    /// step continues.
    fn step(&mut self) -> (r: ExecStatus)
        ensures
            match step_spec(old(self)@) {
                StepOutcome::Next(s2) => r == ExecStatus::Running && final(self)@ == s2,
                StepOutcome::Halted => r == ExecStatus::Halted && final(self)@ == old(self)@,
                StepOutcome::Fault => r == ExecStatus::Faulted && final(self)@ == old(self)@,
            },
    {
        if self.pc >= self.code.len() {
            return ExecStatus::Faulted;
        }
        let nloc = self.locals.len();
        let nstack = self.stack.len();
        proof {
            assert(nloc == self@.locals.len());
            assert(nstack == self@.stack.len());
        }
        let insn = self.code[self.pc];
        match insn {
            Insn::Halt => ExecStatus::Halted,
            Insn::Literal(n) => {
                self.stack.push(n);
                self.pc = self.pc + 1;
                ExecStatus::Running
            },
            Insn::Add => self.step_binop(BinOp::Add),
            Insn::Sub => self.step_binop(BinOp::Sub),
            Insn::Mul => self.step_binop(BinOp::Mul),
            Insn::Lt => self.step_binop(BinOp::Lt),
            Insn::Gt => self.step_binop(BinOp::Gt),
            Insn::Print => {
                match self.stack.pop() {
                    Some(x) => {
                        self.output.push(x);
                        self.pc = self.pc + 1;
                        ExecStatus::Running
                    },
                    None => ExecStatus::Faulted,
                }
            },
            Insn::Enter(n) => {
                if (self.fp as u64) > (i64::MAX as u64) {
                    return ExecStatus::Faulted;
                }
                self.locals.push(self.fp as i64);
                let mut j: usize = 0;
                while j < n
                    invariant
                        j <= n,
                        self.locals@ == old(self)@.locals.push(old(self)@.fp as i64) + Seq::new(
                            j as nat,
                            |i: int| 0i64,
                        ),
                        self.stack@ == old(self)@.stack,
                        self.code@ == old(self)@.code,
                        self.args@ == old(self)@.args,
                        self.output@ == old(self)@.output,
                        self.pc == old(self)@.pc,
                        self.fp == old(self)@.fp,
                    decreases n - j,
                {
                    self.locals.push(0);
                    proof {
                        assert(self.locals@ =~= old(self)@.locals.push(old(self)@.fp as i64)
                            + Seq::new((j + 1) as nat, |i: int| 0i64));
                    }
                    j = j + 1;
                }
                self.fp = self.locals.len() - n;
                self.pc = self.pc + 1;
                proof {
                    assert(self.locals@.len() == old(self)@.locals.len() + 1 + n);
                }
                ExecStatus::Running
            },
            Insn::Exit(n) => {
                if self.locals.len() < 1 || self.locals.len() - 1 < n {
                    return ExecStatus::Faulted;
                }
                let saved = self.locals[self.locals.len() - n - 1];
                if saved < 0 || (saved as u64) > (usize::MAX as u64) {
                    return ExecStatus::Faulted;
                }
                self.locals.truncate(self.locals.len() - n - 1);
                self.fp = saved as usize;
                self.pc = self.pc + 1;
                ExecStatus::Running
            },
            Insn::GetLocal(x) => {
                match self.fp.checked_add(x) {
                    Some(i) => {
                        if i < self.locals.len() {
                            let v = self.locals[i];
                            self.stack.push(v);
                            self.pc = self.pc + 1;
                            ExecStatus::Running
                        } else {
                            ExecStatus::Faulted
                        }
                    },
                    None => ExecStatus::Faulted,
                }
            },
            Insn::SetLocal(x) => {
                if self.stack.len() < 1 {
                    return ExecStatus::Faulted;
                }
                match self.fp.checked_add(x) {
                    Some(i) => {
                        if i < self.locals.len() {
                            match self.stack.pop() {
                                Some(v) => {
                                    vstd::std_specs::core::index_set(&mut self.locals, i, v);
                                    self.pc = self.pc + 1;
                                    ExecStatus::Running
                                },
                                None => ExecStatus::Faulted,
                            }
                        } else {
                            ExecStatus::Faulted
                        }
                    },
                    None => ExecStatus::Faulted,
                }
            },
            Insn::InputRead => {
                if self.stack.len() < 1 {
                    return ExecStatus::Faulted;
                }
                let idx = self.stack[self.stack.len() - 1];
                if idx < 0 || (idx as u64) >= (self.args.len() as u64) {
                    return ExecStatus::Faulted;
                }
                let v = self.args[idx as usize];
                match self.stack.pop() {
                    Some(_) => {
                        self.stack.push(v);
                        self.pc = self.pc + 1;
                        ExecStatus::Running
                    },
                    None => ExecStatus::Faulted,
                }
            },
            Insn::Branch(n) => {
                let t: i128 = (self.pc as i128) + (n as i128);
                if t < 0 || t > (usize::MAX as i128) {
                    return ExecStatus::Faulted;
                }
                self.pc = t as usize;
                ExecStatus::Running
            },
            Insn::BranchZero(n) => {
                match self.stack.pop() {
                    Some(x) => {
                        if x == 0 {
                            let t: i128 = (self.pc as i128) + (n as i128);
                            if t < 0 || t > (usize::MAX as i128) {
                                // restore the popped value so a fault leaves
                                // the state untouched
                                self.stack.push(x);
                                proof {
                                    assert(self.stack@ =~= old(self)@.stack);
                                }
                                return ExecStatus::Faulted;
                            }
                            self.pc = t as usize;
                            ExecStatus::Running
                        } else {
                            self.pc = self.pc + 1;
                            ExecStatus::Running
                        }
                    },
                    None => ExecStatus::Faulted,
                }
            },
        }
    }

    /// Pops the right operand, then the left, and pushes the operator's
    /// value.
    fn step_binop(&mut self, op: BinOp) -> (r: ExecStatus)
        requires
            old(self)@.pc < old(self)@.code.len(),
            old(self)@.code[old(self)@.pc as int] == crate::compiler::op_insn(op),
        ensures
            match step_binop_spec(old(self)@, op) {
                StepOutcome::Next(s2) => r == ExecStatus::Running && final(self)@ == s2,
                StepOutcome::Halted => false,
                StepOutcome::Fault => r == ExecStatus::Faulted && final(self)@ == old(self)@,
            },
    {
        let codelen = self.code.len();
        proof {
            assert(self.pc < codelen);
        }
        if self.stack.len() < 2 {
            return ExecStatus::Faulted;
        }
        let y = match self.stack.pop() {
            Some(v) => v,
            None => {
                return ExecStatus::Faulted;
            },
        };
        let x = match self.stack.pop() {
            Some(v) => v,
            None => {
                return ExecStatus::Faulted;
            },
        };
        let v = match op {
            BinOp::Add => x.wrapping_add(y),
            BinOp::Sub => x.wrapping_sub(y),
            BinOp::Mul => x.wrapping_mul(y),
            BinOp::Lt => if x < y {
                1
            } else {
                0
            },
            BinOp::Gt => if x > y {
                1
            } else {
                0
            },
        };
        self.stack.push(v);
        self.pc = self.pc + 1;
        ExecStatus::Running
    }

    /// Runs from the start of the code for at most `max_steps` steps.  The
    /// result and the final state are exactly what the step semantics
    /// prescribes; a source program that loops forever simply exhausts any
    /// budget and reports `Running`.
    pub fn execute(&mut self, max_steps: u64) -> (r: ExecStatus)
        ensures
            ({
                let s0 = VmState { pc: 0 as nat, ..old(self)@ };
                match r {
                    ExecStatus::Halted => run_spec(s0, max_steps as nat) == RunOutcome::Halted(
                        final(self)@,
                    ),
                    ExecStatus::Faulted => run_spec(s0, max_steps as nat) == RunOutcome::Fault(
                        final(self)@,
                    ),
                    ExecStatus::Running => run_spec(s0, max_steps as nat) == RunOutcome::Running(
                        final(self)@,
                    ),
                }
            }),
    {
        self.pc = 0;
        let ghost s0 = self@;
        proof {
            assert(s0 == (VmState { pc: 0 as nat, ..old(self)@ }));
        }
        let mut steps: u64 = 0;
        while steps < max_steps
            invariant
                steps <= max_steps,
                s0 == (VmState { pc: 0 as nat, ..old(self)@ }),
                run_spec(s0, max_steps as nat) == run_spec(
                    self@,
                    (max_steps - steps) as nat,
                ),
            decreases max_steps - steps,
        {
            let ghost prev = self@;
            let ghost m = (max_steps - steps) as nat;
            let r = self.step();
            proof {
                assert(m > 0);
                assert(run_spec(prev, m) == (match step_spec(prev) {
                    StepOutcome::Halted => RunOutcome::Halted(prev),
                    StepOutcome::Fault => RunOutcome::Fault(prev),
                    StepOutcome::Next(s2) => run_spec(s2, (m - 1) as nat),
                }));
            }
            match r {
                ExecStatus::Halted => {
                    proof {
                        assert(step_spec(prev) is Halted);
                        assert(run_spec(prev, m) == RunOutcome::Halted(prev));
                        assert(run_spec(s0, max_steps as nat) == RunOutcome::Halted(self@));
                    }
                    return ExecStatus::Halted;
                },
                ExecStatus::Faulted => {
                    proof {
                        assert(step_spec(prev) is Fault);
                        assert(run_spec(prev, m) == RunOutcome::Fault(prev));
                    }
                    return ExecStatus::Faulted;
                },
                ExecStatus::Running => {},
            }
            steps = steps + 1;
        }
        ExecStatus::Running
    }
}

/// Frame discipline: an `Exit(n)` whose frame matches the `Enter(n)` that
/// opened it — same depth, and the saved slot under the frame untouched —
/// pops exactly the `n` slots the `Enter` pushed and restores the frame
/// pointer to its value before the `Enter`.
pub proof fn lemma_frame_discipline(s1: VmState, s2: VmState, s3: VmState, s4: VmState, n: usize)
    requires
        s1.pc < s1.code.len(),
        s1.code[s1.pc as int] == Insn::Enter(n),
        step_spec(s1) == StepOutcome::Next(s2),
        s3.pc < s3.code.len(),
        s3.code[s3.pc as int] == Insn::Exit(n),
        s3.fp == s2.fp,
        s3.locals.len() == s2.locals.len(),
        s3.locals[s2.fp - 1] == s2.locals[s2.fp - 1],
        step_spec(s3) == StepOutcome::Next(s4),
    ensures
        s4.fp == s1.fp,
        s4.locals.len() == s1.locals.len(),
{
    assert(s2.fp == s1.locals.len() + 1);
    assert(s2.locals.len() == s1.locals.len() + 1 + n);
    assert(s2.locals[s2.fp - 1] == s1.fp as i64);
    assert(s3.locals[s3.locals.len() - n - 1] == s1.fp as i64);
}

/// Branch correctness at a conditional, entry side: with the compiled
/// `If` standing at `base` and the condition's value on top of the
/// stack, the conditional branch consumes the value and falls into the
/// then-arm exactly when it is nonzero, and jumps to the start of the
/// else-arm exactly when it is zero.
pub proof fn lemma_if_dispatch(s: VmState, names: Seq<Seq<char>>, stmt: Stmt, base: int)
    requires
        stmt matches Stmt::If(_, _, _),
        0 <= base,
        compile_stmt_spec(stmt, names).len() <= 0x1000_0000,
        base + compile_stmt_spec(stmt, names).len() <= s.code.len() <= usize::MAX,
        s.code.subrange(base, base + compile_stmt_spec(stmt, names).len() as int)
            == compile_stmt_spec(stmt, names),
        s.pc == base + compile_expr_spec(*stmt->If_0, names).len(),
        s.stack.len() >= 1,
    ensures
        s.stack.last() == 0 ==> step_spec(s) == StepOutcome::Next(
            VmState {
                stack: s.stack.drop_last(),
                pc: (base + compile_expr_spec(*stmt->If_0, names).len() + 2
                    + compile_stmts_spec(stmt->If_1.0@, names).len()) as nat,
                ..s
            },
        ),
        s.stack.last() != 0 ==> step_spec(s) == StepOutcome::Next(
            VmState { stack: s.stack.drop_last(), pc: s.pc + 1, ..s },
        ),
{
    let body = compile_stmt_spec(stmt, names);
    let cc = compile_expr_spec(*stmt->If_0, names);
    let tt = compile_stmts_spec(stmt->If_1.0@, names);
    let k = cc.len() as int;
    assert(s.code[base + k] == s.code.subrange(base, base + body.len() as int)[k]);
    assert(body[k] == Insn::BranchZero((tt.len() + 2) as isize));
}

/// Branch correctness at a conditional, exit side: the unconditional
/// jump closing the then-arm leaves the whole conditional behind, so
/// the else-arm's instructions do not execute.
pub proof fn lemma_if_exit(s: VmState, names: Seq<Seq<char>>, stmt: Stmt, base: int)
    requires
        stmt matches Stmt::If(_, _, _),
        0 <= base,
        compile_stmt_spec(stmt, names).len() <= 0x1000_0000,
        base + compile_stmt_spec(stmt, names).len() <= s.code.len() <= usize::MAX,
        s.code.subrange(base, base + compile_stmt_spec(stmt, names).len() as int)
            == compile_stmt_spec(stmt, names),
        s.pc == base + compile_expr_spec(*stmt->If_0, names).len() + 1 + compile_stmts_spec(
            stmt->If_1.0@,
            names,
        ).len(),
    ensures
        step_spec(s) == StepOutcome::Next(
            VmState { pc: (base + compile_stmt_spec(stmt, names).len()) as nat, ..s },
        ),
{
    let body = compile_stmt_spec(stmt, names);
    let cc = compile_expr_spec(*stmt->If_0, names);
    let tt = compile_stmts_spec(stmt->If_1.0@, names);
    let ff = compile_stmts_spec(stmt->If_2.0@, names);
    let k = cc.len() + 1 + tt.len();
    assert(s.code[base + k] == s.code.subrange(base, base + body.len() as int)[k as int]);
    assert(body[k as int] == Insn::Branch((ff.len() + 1) as isize));
}

/// Branch correctness at a loop, entry side: with the compiled `While`
/// standing at `base` and the condition's value on top of the stack,
/// the conditional branch consumes the value and enters the body
/// exactly when it is nonzero, and leaves the loop behind exactly when
/// it is zero.
pub proof fn lemma_while_dispatch(s: VmState, names: Seq<Seq<char>>, stmt: Stmt, base: int)
    requires
        stmt matches Stmt::While(_, _),
        0 <= base,
        compile_stmt_spec(stmt, names).len() <= 0x1000_0000,
        base + compile_stmt_spec(stmt, names).len() <= s.code.len() <= usize::MAX,
        s.code.subrange(base, base + compile_stmt_spec(stmt, names).len() as int)
            == compile_stmt_spec(stmt, names),
        s.pc == base + compile_expr_spec(*stmt->While_0, names).len(),
        s.stack.len() >= 1,
    ensures
        s.stack.last() == 0 ==> step_spec(s) == StepOutcome::Next(
            VmState {
                stack: s.stack.drop_last(),
                pc: (base + compile_stmt_spec(stmt, names).len()) as nat,
                ..s
            },
        ),
        s.stack.last() != 0 ==> step_spec(s) == StepOutcome::Next(
            VmState { stack: s.stack.drop_last(), pc: s.pc + 1, ..s },
        ),
{
    let body = compile_stmt_spec(stmt, names);
    let cc = compile_expr_spec(*stmt->While_0, names);
    let bb = compile_stmts_spec(stmt->While_1.0@, names);
    let k = cc.len() as int;
    assert(s.code[base + k] == s.code.subrange(base, base + body.len() as int)[k]);
    assert(body[k] == Insn::BranchZero((bb.len() + 2) as isize));
}

/// Branch correctness at a loop, back edge: the jump closing the body
/// returns to the start of the condition, so the body runs again
/// exactly as long as the condition keeps evaluating nonzero.
pub proof fn lemma_while_repeat(s: VmState, names: Seq<Seq<char>>, stmt: Stmt, base: int)
    requires
        stmt matches Stmt::While(_, _),
        0 <= base,
        compile_stmt_spec(stmt, names).len() <= 0x1000_0000,
        base + compile_stmt_spec(stmt, names).len() <= s.code.len() <= usize::MAX,
        s.code.subrange(base, base + compile_stmt_spec(stmt, names).len() as int)
            == compile_stmt_spec(stmt, names),
        s.pc == base + compile_expr_spec(*stmt->While_0, names).len() + 1 + compile_stmts_spec(
            stmt->While_1.0@,
            names,
        ).len(),
    ensures
        step_spec(s) == StepOutcome::Next(VmState { pc: base as nat, ..s }),
{
    let body = compile_stmt_spec(stmt, names);
    let cc = compile_expr_spec(*stmt->While_0, names);
    let bb = compile_stmts_spec(stmt->While_1.0@, names);
    let k = cc.len() + 1 + bb.len();
    assert(s.code[base + k] == s.code.subrange(base, base + body.len() as int)[k as int]);
    assert(body[k as int] == Insn::Branch((-(cc.len() + bb.len() + 1)) as isize));
}

} // verus!
