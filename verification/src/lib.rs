//! A small imperative-language toolchain: an AST is lowered to linear
//! bytecode and run on a stack-based virtual machine, and straight-line
//! programs can be rewritten through an e-graph based optimizer that
//! round-trips the program through a shared value graph and re-linearizes
//! it into an equivalent program.

pub mod syntax;
pub mod semantics;
pub mod compiler;
pub mod vm;
pub mod egraph;
pub mod linear;
pub mod eggrun;
pub mod optimize;
pub mod correctness;

use vstd::prelude::*;
use crate::compiler::{compile_program_spec, program_reads_ok, Compiler, MAX_CODE};
use crate::syntax::Program;
use crate::vm::{run_spec, ExecStatus, RunOutcome, VmState, VM};

verus! {

/// Compiles a program and runs it for at most `max_steps` steps: the
/// printed values and how execution ended, exactly as the step semantics
/// of the compiled bytecode prescribes.
pub fn run_program(p: &Program, args: Vec<i64>, max_steps: u64) -> (r: (Vec<i64>, ExecStatus))
    requires
        program_reads_ok(*p),
        compile_program_spec(*p).len() <= MAX_CODE,
    ensures
        ({
            let s0 = VmState {
                stack: Seq::<i64>::empty(),
                locals: Seq::<i64>::empty(),
                code: compile_program_spec(*p),
                pc: 0,
                fp: 0,
                args: args@,
                output: Seq::<i64>::empty(),
            };
            match run_spec(s0, max_steps as nat) {
                RunOutcome::Halted(s) => r.1 == ExecStatus::Halted && r.0@ == s.output,
                RunOutcome::Fault(s) => r.1 == ExecStatus::Faulted && r.0@ == s.output,
                RunOutcome::Running(s) => r.1 == ExecStatus::Running && r.0@ == s.output,
            }
        }),
{
    let mut com = Compiler::new();
    com.compile_program(p);
    let code = com.output();
    let mut vm = VM::new(code, args);
    let status = vm.execute(max_steps);
    let out = vm.into_output();
    (out, status)
}

} // verus!
