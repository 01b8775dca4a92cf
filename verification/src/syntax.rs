//! The abstract syntax tree shared by the compiler and the optimizer.

use vstd::prelude::*;

verus! {

/// A variable, identified by its name; equality is by name.
#[derive(Eq, Hash)]
pub struct Var(pub String);

impl View for Var {
    type V = Seq<char>;

    open spec fn view(&self) -> Seq<char> {
        self.0@
    }
}

impl PartialEq for Var {
    fn eq(&self, other: &Var) -> bool {
        self.0 == other.0
    }
}

impl vstd::std_specs::cmp::PartialEqSpecImpl for Var {
    open spec fn obeys_eq_spec() -> bool {
        true
    }

    open spec fn eq_spec(&self, other: &Var) -> bool {
        self.0@ == other.0@
    }
}

impl Clone for Var {
    fn clone(&self) -> (r: Var)
        ensures
            r@ == self@,
    {
        Var(self.0.clone())
    }
}

/// An expression; `Input` reads the process-wide argument vector at the
/// position its operand evaluates to.
pub enum Expr {
    Var(Var),
    Num(i64),
    BinOp(BinOp, Box<Expr>, Box<Expr>),
    Input(Box<Expr>),
}

#[derive(Clone, Copy, PartialEq, Eq, Structural, Debug)]
pub enum BinOp {
    Add,
    Sub,
    Mul,
    Lt,
    Gt,
}

/// A statement; blocks are ordered statement sequences.
pub enum Stmt {
    Assign(Var, Box<Expr>),
    If(Box<Expr>, Block, Block),
    While(Box<Expr>, Block),
    Print(Box<Expr>),
}

pub struct Block(pub Vec<Stmt>);

pub struct Program(pub Block);

} // verus!
