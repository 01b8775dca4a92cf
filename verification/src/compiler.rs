//! Lowering of an AST program to a flat bytecode array: slot assignment
//! for variables, postfix code emission for expressions, and branch
//! patching for conditionals and loops.

use vstd::prelude::*;
use crate::syntax::{BinOp, Block, Expr, Program, Stmt, Var};

verus! {

/// One bytecode instruction.  Branch offsets are signed deltas from the
/// instruction's own position, fully resolved at compile time.
#[derive(Clone, Copy, PartialEq, Eq, Structural, Debug)]
pub enum Insn {
    Halt,
    Literal(i64),
    Add,
    Sub,
    Mul,
    Lt,
    Gt,
    Print,
    Enter(usize),
    Exit(usize),
    GetLocal(usize),
    SetLocal(usize),
    InputRead,
    Branch(isize),
    BranchZero(isize),
}

/// Extends `acc` with the names newly assigned by `s`, in first-occurrence
/// order; a name already present keeps its position.
pub open spec fn slots_after_stmt(acc: Seq<Seq<char>>, s: Stmt) -> Seq<Seq<char>>
    decreases s,
{
    match s {
        Stmt::Assign(x, _) => if acc.contains(x@) {
            acc
        } else {
            acc.push(x@)
        },
        Stmt::Print(_) => acc,
        Stmt::If(_, bt, bf) => slots_after_stmts(slots_after_stmts(acc, bt.0@), bf.0@),
        Stmt::While(_, b) => slots_after_stmts(acc, b.0@),
    }
}

pub open spec fn slots_after_stmts(acc: Seq<Seq<char>>, stmts: Seq<Stmt>) -> Seq<Seq<char>>
    decreases stmts,
{
    if stmts.len() == 0 {
        acc
    } else {
        slots_after_stmts(slots_after_stmt(acc, stmts[0]), stmts.subrange(1, stmts.len() as int))
    }
}

/// The distinct assigned variable names of a program, in first-occurrence
/// order; a name's position is its storage slot.
pub open spec fn slot_names(p: Program) -> Seq<Seq<char>> {
    slots_after_stmts(Seq::empty(), p.0.0@)
}

/// The position of `x` in `names` (meaningful when `names` contains `x`).
pub open spec fn name_index(names: Seq<Seq<char>>, x: Seq<char>) -> int
    decreases names.len(),
{
    if names.len() == 0 {
        0
    } else if names[0] == x {
        0
    } else {
        1 + name_index(names.subrange(1, names.len() as int), x)
    }
}

/// A name sequence is a valid slot table when no name repeats.
pub open spec fn names_distinct(names: Seq<Seq<char>>) -> bool {
    forall|i: int, j: int| 0 <= i < j < names.len() ==> names[i] != names[j]
}

/// The greatest code array length the compiler accepts; keeps every
/// branch offset within `isize`.
pub const MAX_CODE: usize = 0x1000_0000;

pub open spec fn op_insn(op: BinOp) -> Insn {
    match op {
        BinOp::Add => Insn::Add,
        BinOp::Sub => Insn::Sub,
        BinOp::Mul => Insn::Mul,
        BinOp::Lt => Insn::Lt,
        BinOp::Gt => Insn::Gt,
    }
}

/// Every variable read in `e` has a slot in `names`.
pub open spec fn expr_reads_ok(e: Expr, names: Seq<Seq<char>>) -> bool
    decreases e,
{
    match e {
        Expr::Var(x) => names.contains(x@),
        Expr::Num(_) => true,
        Expr::BinOp(_, e1, e2) => expr_reads_ok(*e1, names) && expr_reads_ok(*e2, names),
        Expr::Input(e1) => expr_reads_ok(*e1, names),
    }
}

pub open spec fn stmt_reads_ok(s: Stmt, names: Seq<Seq<char>>) -> bool
    decreases s,
{
    match s {
        Stmt::Assign(_, e) => expr_reads_ok(*e, names),
        Stmt::Print(e) => expr_reads_ok(*e, names),
        Stmt::If(c, bt, bf) => expr_reads_ok(*c, names) && stmts_reads_ok(bt.0@, names)
            && stmts_reads_ok(bf.0@, names),
        Stmt::While(c, b) => expr_reads_ok(*c, names) && stmts_reads_ok(b.0@, names),
    }
}

pub open spec fn stmts_reads_ok(stmts: Seq<Stmt>, names: Seq<Seq<char>>) -> bool
    decreases stmts,
{
    if stmts.len() == 0 {
        true
    } else {
        stmt_reads_ok(stmts[0], names) && stmts_reads_ok(
            stmts.subrange(1, stmts.len() as int),
            names,
        )
    }
}

/// Every variable a program reads has a slot: the one well-formedness
/// condition lowering needs (assignment targets always have one).
pub open spec fn program_reads_ok(p: Program) -> bool {
    stmts_reads_ok(p.0.0@, slot_names(p))
}

/// Every assignment target in `s` has a slot in `names`.
pub open spec fn stmt_targets_ok(s: Stmt, names: Seq<Seq<char>>) -> bool
    decreases s,
{
    match s {
        Stmt::Assign(x, _) => names.contains(x@),
        Stmt::Print(_) => true,
        Stmt::If(_, bt, bf) => stmts_targets_ok(bt.0@, names) && stmts_targets_ok(bf.0@, names),
        Stmt::While(_, b) => stmts_targets_ok(b.0@, names),
    }
}

pub open spec fn stmts_targets_ok(stmts: Seq<Stmt>, names: Seq<Seq<char>>) -> bool
    decreases stmts,
{
    if stmts.len() == 0 {
        true
    } else {
        stmt_targets_ok(stmts[0], names) && stmts_targets_ok(
            stmts.subrange(1, stmts.len() as int),
            names,
        )
    }
}

/// The bytecode of an expression: postfix order, operands before the
/// operator, so the operand stack evaluates it directly.
pub open spec fn compile_expr_spec(e: Expr, names: Seq<Seq<char>>) -> Seq<Insn>
    decreases e,
{
    match e {
        Expr::Var(x) => seq![Insn::GetLocal(name_index(names, x@) as usize)],
        Expr::Num(n) => seq![Insn::Literal(n)],
        Expr::BinOp(op, e1, e2) => compile_expr_spec(*e1, names) + compile_expr_spec(*e2, names)
            + seq![op_insn(op)],
        Expr::Input(e1) => compile_expr_spec(*e1, names) + seq![Insn::InputRead],
    }
}

/// The bytecode of a statement.  An `If` lowers to the condition, a
/// `BranchZero` into the else arm, the then arm, a `Branch` past the else
/// arm, and the else arm; a `While` lowers to the condition, a
/// `BranchZero` past the loop, the body, and a `Branch` back to the
/// condition.  Offsets are deltas from the branch instruction itself.
pub open spec fn compile_stmt_spec(s: Stmt, names: Seq<Seq<char>>) -> Seq<Insn>
    decreases s,
{
    match s {
        Stmt::Assign(x, e) => compile_expr_spec(*e, names).push(
            Insn::SetLocal(name_index(names, x@) as usize),
        ),
        Stmt::Print(e) => compile_expr_spec(*e, names).push(Insn::Print),
        Stmt::If(c, bt, bf) => {
            let cc = compile_expr_spec(*c, names);
            let tt = compile_stmts_spec(bt.0@, names);
            let ff = compile_stmts_spec(bf.0@, names);
            cc + seq![Insn::BranchZero((tt.len() + 2) as isize)] + tt + seq![
                Insn::Branch((ff.len() + 1) as isize)
            ] + ff
        },
        Stmt::While(c, b) => {
            let cc = compile_expr_spec(*c, names);
            let bb = compile_stmts_spec(b.0@, names);
            cc + seq![Insn::BranchZero((bb.len() + 2) as isize)] + bb + seq![
                Insn::Branch((-(cc.len() + bb.len() + 1)) as isize)
            ]
        },
    }
}

pub open spec fn compile_stmts_spec(stmts: Seq<Stmt>, names: Seq<Seq<char>>) -> Seq<Insn>
    decreases stmts,
{
    if stmts.len() == 0 {
        Seq::empty()
    } else {
        compile_stmt_spec(stmts[0], names) + compile_stmts_spec(
            stmts.subrange(1, stmts.len() as int),
            names,
        )
    }
}

/// The bytecode of a whole program: one frame around the body, then an
/// explicit halt.
pub open spec fn compile_program_spec(p: Program) -> Seq<Insn> {
    let names = slot_names(p);
    seq![Insn::Enter(names.len() as usize)] + compile_stmts_spec(p.0.0@, names) + seq![
        Insn::Exit(names.len() as usize),
        Insn::Halt,
    ]
}

pub struct Compiler {
    code: Vec<Insn>,
    slots: Vec<Var>,
}

impl Compiler {
    pub closed spec fn slot_view(&self) -> Seq<Seq<char>> {
        Seq::new(self.slots@.len(), |i: int| self.slots@[i]@)
    }

    pub closed spec fn code_view(&self) -> Seq<Insn> {
        self.code@
    }

    pub fn new() -> (c: Compiler)
        ensures
            c.code_view() == Seq::<Insn>::empty(),
            c.slot_view() == Seq::<Seq<char>>::empty(),
    {
        let c = Compiler { code: Vec::new(), slots: Vec::new() };
        proof {
            assert(c.slot_view() =~= Seq::<Seq<char>>::empty());
        }
        c
    }

    /// The finished bytecode array.
    pub fn output(self) -> (code: Vec<Insn>)
        ensures
            code@ == self.code_view(),
    {
        self.code
    }

    /// Finds the slot of a variable already in the table.
    fn lookup_slot(&self, x: &Var) -> (slot: usize)
        requires
            self.slot_view().contains(x@),
        ensures
            slot == name_index(self.slot_view(), x@),
            slot < self.slots@.len(),
    {
        let ghost names = self.slot_view();
        proof {
            assert(names.subrange(0, names.len() as int) =~= names);
        }
        let mut i: usize = 0;
        while i < self.slots.len()
            invariant
                i <= self.slots@.len(),
                names == self.slot_view(),
                self.slot_view().contains(x@),
                forall|j: int| 0 <= j < i ==> names[j] != x@,
                name_index(names, x@) == i + name_index(
                    names.subrange(i as int, names.len() as int),
                    x@,
                ),
            decreases self.slots@.len() - i,
        {
            if self.slots[i].eq(x) {
                proof {
                    let tail = names.subrange(i as int, names.len() as int);
                    assert(tail[0] == x@);
                    assert(name_index(tail, x@) == 0);
                }
                return i;
            }
            proof {
                let tail = names.subrange(i as int, names.len() as int);
                let tail2 = names.subrange(i + 1, names.len() as int);
                assert(tail[0] == names[i as int]);
                assert(tail[0] != x@);
                assert(tail.subrange(1, tail.len() as int) =~= tail2);
                assert(name_index(tail, x@) == 1 + name_index(tail2, x@));
            }
            i = i + 1;
        }
        proof {
            let w = choose|w: int| 0 <= w < names.len() && names[w] == x@;
            assert(names[w] != x@);
            assert(false);
        }
        0
    }

    /// Adds a slot for `x` if it has none yet.
    fn declare_slot(&mut self, x: &Var)
        ensures
            final(self).code_view() == old(self).code_view(),
            final(self).slot_view() == (if old(self).slot_view().contains(x@) {
                old(self).slot_view()
            } else {
                old(self).slot_view().push(x@)
            }),
    {
        let mut i: usize = 0;
        while i < self.slots.len()
            invariant
                i <= self.slots@.len(),
                *self == *old(self),
                forall|j: int| 0 <= j < i ==> old(self).slot_view()[j] != x@,
            decreases self.slots@.len() - i,
        {
            if self.slots[i].eq(x) {
                proof {
                    assert(old(self).slot_view()[i as int] == x@);
                    assert(old(self).slot_view().contains(x@));
                }
                return ;
            }
            i = i + 1;
        }
        proof {
            assert(forall|j: int|
                0 <= j < old(self).slot_view().len() ==> old(self).slot_view()[j] != x@);
            assert(!old(self).slot_view().contains(x@));
        }
        self.slots.push(x.clone());
        proof {
            assert(self.slot_view() =~= old(self).slot_view().push(x@));
        }
    }

    /// Walks one statement, assigning a fresh slot to each variable name at
    /// its first assignment.
    fn assign_slots_stmt(&mut self, s: &Stmt)
        ensures
            final(self).code_view() == old(self).code_view(),
            final(self).slot_view() == slots_after_stmt(old(self).slot_view(), *s),
        decreases *s,
    {
        match s {
            Stmt::Assign(x, _e) => {
                self.declare_slot(x);
            },
            Stmt::Print(_e) => {},
            Stmt::If(_e, bt, bf) => {
                self.assign_slots_block(bt);
                self.assign_slots_block(bf);
            },
            Stmt::While(_e, b) => {
                self.assign_slots_block(b);
            },
        }
    }

    fn assign_slots_block(&mut self, b: &Block)
        ensures
            final(self).code_view() == old(self).code_view(),
            final(self).slot_view() == slots_after_stmts(old(self).slot_view(), b.0@),
        decreases b.0,
    {
        let ghost stmts = b.0@;
        proof {
            assert(stmts.subrange(0, stmts.len() as int) =~= stmts);
        }
        let mut i: usize = 0;
        while i < b.0.len()
            invariant
                i <= stmts.len(),
                stmts == b.0@,
                self.code_view() == old(self).code_view(),
                slots_after_stmts(self.slot_view(), stmts.subrange(i as int, stmts.len() as int))
                    == slots_after_stmts(old(self).slot_view(), stmts),
            decreases stmts.len() - i,
        {
            proof {
                let tail = stmts.subrange(i as int, stmts.len() as int);
                assert(tail[0] == stmts[i as int]);
                assert(tail.subrange(1, tail.len() as int) =~= stmts.subrange(
                    i + 1,
                    stmts.len() as int,
                ));
            }
            self.assign_slots_stmt(&b.0[i]);
            i = i + 1;
        }
    }

    /// Traverses the program, assigning each distinct assigned variable its
    /// own slot in first-assignment order.
    fn assign_slots(&mut self, p: &Program)
        ensures
            final(self).code_view() == old(self).code_view(),
            final(self).slot_view() == slots_after_stmts(old(self).slot_view(), p.0.0@),
    {
        self.assign_slots_block(&p.0);
    }
}

impl Compiler {
    fn emit(&mut self, i: Insn)
        ensures
            final(self).code_view() == old(self).code_view().push(i),
            final(self).slot_view() == old(self).slot_view(),
    {
        self.code.push(i)
    }

    fn here(&self) -> (n: usize)
        ensures
            n == self.code_view().len(),
    {
        self.code.len()
    }

    fn branch_offset(&self, from: usize, to: usize) -> (ofs: isize)
        requires
            from <= MAX_CODE,
            to <= MAX_CODE,
        ensures
            ofs == to - from,
    {
        (to as isize) - (from as isize)
    }

    fn set_insn(&mut self, i: usize, insn: Insn)
        requires
            i < old(self).code_view().len(),
        ensures
            final(self).code_view() == old(self).code_view().update(i as int, insn),
            final(self).slot_view() == old(self).slot_view(),
    {
        vstd::std_specs::core::index_set(&mut self.code, i, insn);
    }

    /// Emits the bytecode of an expression in postfix order.
    fn compile_exp(&mut self, e: &Expr)
        requires
            expr_reads_ok(*e, old(self).slot_view()),
            old(self).code_view().len() + compile_expr_spec(*e, old(self).slot_view()).len()
                <= MAX_CODE,
        ensures
            final(self).slot_view() == old(self).slot_view(),
            final(self).code_view() == old(self).code_view() + compile_expr_spec(
                *e,
                old(self).slot_view(),
            ),
        decreases *e,
    {
        let ghost names = self.slot_view();
        match e {
            Expr::Var(x) => {
                let slot = self.lookup_slot(x);
                self.emit(Insn::GetLocal(slot));
                proof {
                    assert(self.code_view() =~= old(self).code_view() + compile_expr_spec(
                        *e,
                        names,
                    ));
                }
            },
            Expr::Num(n) => {
                self.emit(Insn::Literal(*n));
                proof {
                    assert(self.code_view() =~= old(self).code_view() + compile_expr_spec(
                        *e,
                        names,
                    ));
                }
            },
            Expr::BinOp(op, e1, e2) => {
                self.compile_exp(e1);
                self.compile_exp(e2);
                match op {
                    BinOp::Add => self.emit(Insn::Add),
                    BinOp::Sub => self.emit(Insn::Sub),
                    BinOp::Mul => self.emit(Insn::Mul),
                    BinOp::Lt => self.emit(Insn::Lt),
                    BinOp::Gt => self.emit(Insn::Gt),
                }
                proof {
                    assert(self.code_view() =~= old(self).code_view() + compile_expr_spec(
                        *e,
                        names,
                    ));
                }
            },
            Expr::Input(e1) => {
                self.compile_exp(e1);
                self.emit(Insn::InputRead);
                proof {
                    assert(self.code_view() =~= old(self).code_view() + compile_expr_spec(
                        *e,
                        names,
                    ));
                }
            },
        }
    }

    /// Emits the bytecode of a statement, patching branch targets once the
    /// distance between the labels is known.
    fn compile_stmt(&mut self, s: &Stmt)
        requires
            stmt_reads_ok(*s, old(self).slot_view()),
            stmt_targets_ok(*s, old(self).slot_view()),
            old(self).code_view().len() + compile_stmt_spec(*s, old(self).slot_view()).len()
                <= MAX_CODE,
        ensures
            final(self).slot_view() == old(self).slot_view(),
            final(self).code_view() == old(self).code_view() + compile_stmt_spec(
                *s,
                old(self).slot_view(),
            ),
        decreases *s,
    {
        let ghost names = self.slot_view();
        match s {
            Stmt::Assign(x, e) => {
                self.compile_exp(e);
                let slot = self.lookup_slot(x);
                self.emit(Insn::SetLocal(slot));
                proof {
                    assert(self.code_view() =~= old(self).code_view() + compile_stmt_spec(
                        *s,
                        names,
                    ));
                }
            },
            Stmt::Print(e) => {
                self.compile_exp(e);
                self.emit(Insn::Print);
                proof {
                    assert(self.code_view() =~= old(self).code_view() + compile_stmt_spec(
                        *s,
                        names,
                    ));
                }
            },
            Stmt::If(e, bt, bf) => {
                let ghost cc = compile_expr_spec(**e, names);
                let ghost tt = compile_stmts_spec(bt.0@, names);
                let ghost ff = compile_stmts_spec(bf.0@, names);
                self.compile_exp(e);
                let branch = self.here();
                self.emit(Insn::BranchZero(0));

                self.compile_block(bt);
                let bt_end = self.here();
                self.emit(Insn::Branch(0));

                let bf_start = self.here();
                self.compile_block(bf);
                let bf_end = self.here();

                let ofs1 = self.branch_offset(branch, bf_start);
                self.set_insn(branch, Insn::BranchZero(ofs1));
                let ofs2 = self.branch_offset(bt_end, bf_end);
                self.set_insn(bt_end, Insn::Branch(ofs2));
                proof {
                    assert(ofs1 == tt.len() + 2);
                    assert(ofs2 == ff.len() + 1);
                    assert(self.code_view() =~= old(self).code_view() + compile_stmt_spec(
                        *s,
                        names,
                    ));
                }
            },
            Stmt::While(e, b) => {
                let ghost cc = compile_expr_spec(**e, names);
                let ghost bb = compile_stmts_spec(b.0@, names);
                let loop_start = self.here();
                self.compile_exp(e);
                let branch = self.here();
                self.emit(Insn::BranchZero(0));

                self.compile_block(b);
                let repeat = self.here();
                self.emit(Insn::Branch(0));
                let loop_end = self.here();

                let ofs1 = self.branch_offset(branch, loop_end);
                self.set_insn(branch, Insn::BranchZero(ofs1));
                let ofs2 = self.branch_offset(repeat, loop_start);
                self.set_insn(repeat, Insn::Branch(ofs2));
                proof {
                    assert(ofs1 == bb.len() + 2);
                    assert(ofs2 == -(cc.len() + bb.len() + 1));
                    assert(self.code_view() =~= old(self).code_view() + compile_stmt_spec(
                        *s,
                        names,
                    ));
                }
            },
        }
    }

    fn compile_block(&mut self, b: &Block)
        requires
            stmts_reads_ok(b.0@, old(self).slot_view()),
            stmts_targets_ok(b.0@, old(self).slot_view()),
            old(self).code_view().len() + compile_stmts_spec(b.0@, old(self).slot_view()).len()
                <= MAX_CODE,
        ensures
            final(self).slot_view() == old(self).slot_view(),
            final(self).code_view() == old(self).code_view() + compile_stmts_spec(
                b.0@,
                old(self).slot_view(),
            ),
        decreases b.0,
    {
        let ghost names = old(self).slot_view();
        let ghost stmts = b.0@;
        proof {
            assert(stmts.subrange(0, stmts.len() as int) =~= stmts);
        }
        let mut i: usize = 0;
        while i < b.0.len()
            invariant
                i <= stmts.len(),
                stmts == b.0@,
                self.slot_view() == names,
                stmts_reads_ok(stmts.subrange(i as int, stmts.len() as int), names),
                stmts_targets_ok(stmts.subrange(i as int, stmts.len() as int), names),
                self.code_view() + compile_stmts_spec(
                    stmts.subrange(i as int, stmts.len() as int),
                    names,
                ) == old(self).code_view() + compile_stmts_spec(stmts, names),
                old(self).code_view().len() + compile_stmts_spec(stmts, names).len() <= MAX_CODE,
            decreases stmts.len() - i,
        {
            proof {
                let tail = stmts.subrange(i as int, stmts.len() as int);
                assert(tail[0] == stmts[i as int]);
                assert(tail.subrange(1, tail.len() as int) =~= stmts.subrange(
                    i + 1,
                    stmts.len() as int,
                ));
                assert(compile_stmts_spec(tail, names) == compile_stmt_spec(
                    stmts[i as int],
                    names,
                ) + compile_stmts_spec(stmts.subrange(i + 1, stmts.len() as int), names));
                assert((self.code_view() + compile_stmts_spec(tail, names)).len() == (old(
                    self,
                ).code_view() + compile_stmts_spec(stmts, names)).len());
            }
            self.compile_stmt(&b.0[i]);
            i = i + 1;
        }
        proof {
            let tail = stmts.subrange(stmts.len() as int, stmts.len() as int);
            assert(tail.len() == 0);
            assert(self.code_view() + compile_stmts_spec(tail, names) =~= self.code_view());
        }
    }

    /// Lowers a whole program on a fresh compiler: assigns slots, then
    /// emits `Enter`, the body, `Exit` and `Halt`, so that execution is
    /// frame-scoped and never runs past the array.
    pub fn compile_program(&mut self, p: &Program)
        requires
            old(self).code_view() == Seq::<Insn>::empty(),
            old(self).slot_view() == Seq::<Seq<char>>::empty(),
            program_reads_ok(*p),
            compile_program_spec(*p).len() <= MAX_CODE,
        ensures
            final(self).code_view() == compile_program_spec(*p),
            final(self).slot_view() == slot_names(*p),
    {
        self.assign_slots(p);
        proof {
            lemma_slots_distinct_stmts(Seq::empty(), p.0.0@);
            let names = slot_names(*p);
            assert(names.is_prefix_of(names)) by {
                assert(names =~= names.subrange(0, names.len() as int));
            }
            lemma_stmts_targets(Seq::empty(), p.0.0@, names);
        }
        let n = self.slots.len();
        self.emit(Insn::Enter(n));
        self.compile_block(&p.0);
        self.emit(Insn::Exit(n));
        self.emit(Insn::Halt);
        proof {
            assert(self.code_view() =~= compile_program_spec(*p));
        }
    }
}

/// A prefix of a name table keeps its members.
proof fn lemma_prefix_contains(a: Seq<Seq<char>>, b: Seq<Seq<char>>, x: Seq<char>)
    requires
        a.is_prefix_of(b),
        a.contains(x),
    ensures
        b.contains(x),
{
    let k = choose|k: int| 0 <= k < a.len() && a[k] == x;
    assert(b.subrange(0, a.len() as int)[k] == b[k]);
    assert(b.contains(x)) by {
        assert(b[k] == x);
    }
}

proof fn lemma_prefix_trans(a: Seq<Seq<char>>, b: Seq<Seq<char>>, c: Seq<Seq<char>>)
    requires
        a.is_prefix_of(b),
        b.is_prefix_of(c),
    ensures
        a.is_prefix_of(c),
{
    assert forall|i: int| 0 <= i < a.len() implies a[i] == c[i] by {
        assert(a[i] == b.subrange(0, a.len() as int)[i]);
        assert(b[i] == c.subrange(0, b.len() as int)[i]);
    }
    assert(a =~= c.subrange(0, a.len() as int));
}

/// Assignment targets always receive a slot in the pre-pass, so a slot
/// table covering the whole walk contains every one of them.
pub(crate) proof fn lemma_stmt_targets(acc: Seq<Seq<char>>, s: Stmt, names: Seq<Seq<char>>)
    requires
        names_distinct(acc),
        slots_after_stmt(acc, s).is_prefix_of(names),
    ensures
        stmt_targets_ok(s, names),
    decreases s,
{
    match s {
        Stmt::Assign(x, _) => {
            let after = slots_after_stmt(acc, s);
            if acc.contains(x@) {
            } else {
                assert(after[acc.len() as int] == x@);
                assert(after.contains(x@));
            }
            lemma_prefix_contains(after, names, x@);
        },
        Stmt::Print(_) => {},
        Stmt::If(_, bt, bf) => {
            let b1 = slots_after_stmts(acc, bt.0@);
            lemma_slots_distinct_stmts(acc, bt.0@);
            lemma_slots_distinct_stmts(b1, bf.0@);
            lemma_prefix_trans(b1, slots_after_stmt(acc, s), names);
            lemma_stmts_targets(acc, bt.0@, names);
            lemma_stmts_targets(b1, bf.0@, names);
        },
        Stmt::While(_, b) => {
            lemma_stmts_targets(acc, b.0@, names);
        },
    }
}

pub(crate) proof fn lemma_stmts_targets(acc: Seq<Seq<char>>, stmts: Seq<Stmt>, names: Seq<Seq<char>>)
    requires
        names_distinct(acc),
        slots_after_stmts(acc, stmts).is_prefix_of(names),
    ensures
        stmts_targets_ok(stmts, names),
    decreases stmts,
{
    if stmts.len() == 0 {
    } else {
        let a1 = slots_after_stmt(acc, stmts[0]);
        let rest = stmts.subrange(1, stmts.len() as int);
        lemma_slots_distinct_stmt(acc, stmts[0]);
        lemma_slots_distinct_stmts(a1, rest);
        lemma_prefix_trans(a1, slots_after_stmts(acc, stmts), names);
        lemma_stmt_targets(acc, stmts[0], names);
        lemma_stmts_targets(a1, rest, names);
    }
}

/// Slot tables never repeat a name: extending a distinct table keeps it
/// distinct, and every name it holds keeps its position.
pub proof fn lemma_slots_distinct_stmt(acc: Seq<Seq<char>>, s: Stmt)
    requires
        names_distinct(acc),
    ensures
        names_distinct(slots_after_stmt(acc, s)),
        acc.is_prefix_of(slots_after_stmt(acc, s)),
    decreases s,
{
    match s {
        Stmt::Assign(x, _) => {
            if !acc.contains(x@) {
                let acc2 = acc.push(x@);
                assert forall|i: int, j: int| 0 <= i < j < acc2.len() implies acc2[i] != acc2[j] by {
                    if j == acc.len() {
                        assert(acc2[i] == acc[i]);
                        assert(acc.contains(acc[i]));
                    }
                }
                assert(acc.is_prefix_of(acc2));
            } else {
                assert(acc.is_prefix_of(acc));
            }
        },
        Stmt::Print(_) => {
            assert(acc.is_prefix_of(acc));
        },
        Stmt::If(_, bt, bf) => {
            lemma_slots_distinct_stmts(acc, bt.0@);
            lemma_slots_distinct_stmts(slots_after_stmts(acc, bt.0@), bf.0@);
        },
        Stmt::While(_, b) => {
            lemma_slots_distinct_stmts(acc, b.0@);
        },
    }
}

pub proof fn lemma_slots_distinct_stmts(acc: Seq<Seq<char>>, stmts: Seq<Stmt>)
    requires
        names_distinct(acc),
    ensures
        names_distinct(slots_after_stmts(acc, stmts)),
        acc.is_prefix_of(slots_after_stmts(acc, stmts)),
    decreases stmts,
{
    if stmts.len() == 0 {
        assert(acc.is_prefix_of(acc));
    } else {
        lemma_slots_distinct_stmt(acc, stmts[0]);
        lemma_slots_distinct_stmts(
            slots_after_stmt(acc, stmts[0]),
            stmts.subrange(1, stmts.len() as int),
        );
    }
}

/// Slot assignment is a bijection between the distinct assigned names and
/// the slots `0 .. num_slots`: the names are pairwise distinct, and each
/// maps through `name_index` to its unique position.
pub proof fn lemma_slot_assignment(p: Program)
    ensures
        names_distinct(slot_names(p)),
        forall|i: int| 0 <= i < slot_names(p).len()
            ==> name_index(slot_names(p), #[trigger] slot_names(p)[i]) == i,
{
    lemma_slots_distinct_stmts(Seq::empty(), p.0.0@);
    let names = slot_names(p);
    assert forall|i: int| 0 <= i < names.len() implies name_index(names, names[i]) == i by {
        lemma_name_index_of_distinct(names, i);
    }
}

/// In a duplicate-free name table, `name_index` recovers each position.
pub proof fn lemma_name_index_of_distinct(names: Seq<Seq<char>>, i: int)
    requires
        names_distinct(names),
        0 <= i < names.len(),
    ensures
        name_index(names, names[i]) == i,
    decreases names.len(),
{
    if i == 0 {
    } else {
        assert(names[0] != names[i]);
        let tail = names.subrange(1, names.len() as int);
        assert(tail[i - 1] == names[i]);
        lemma_name_index_of_distinct(tail, i - 1);
    }
}

} // verus!
