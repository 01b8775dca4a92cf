//! The value graph: straight-line program fragments become a
//! congruence-closed arena of value nodes plus an explicit effect chain
//! threading the prints in program order.
//!
//! Nodes live in a flat arena addressed by index; every node's children
//! point strictly downward, and structurally equal nodes share one index.
//! The distinguished `io_root` is rebound to a fresh effect node each time
//! a print is translated, so extraction from the root reproduces the
//! prints in order.

use vstd::prelude::*;
use crate::semantics::{eval_binop, eval_expr, run_straight};
use crate::syntax::{BinOp, Block, Expr, Program, Stmt, Var};

verus! {

/// One node of the value graph: a literal, a binary operation, an
/// argument read, the empty-effect sentinel, or an effect-sequencing node
/// `IoSeq(priorEffect, printedValue)`.
#[derive(Clone, Copy, PartialEq, Eq, Structural, Debug)]
pub enum GraphExpr {
    Num(i64),
    Add(usize, usize),
    Sub(usize, usize),
    Mul(usize, usize),
    Lt(usize, usize),
    Gt(usize, usize),
    ArgRef(usize),
    IoInit,
    IoSeq(usize, usize),
}

/// Children of a node point strictly below `i`.
pub open spec fn node_children_lt(n: GraphExpr, i: int) -> bool {
    match n {
        GraphExpr::Num(_) => true,
        GraphExpr::Add(a, b) => a < i && b < i,
        GraphExpr::Sub(a, b) => a < i && b < i,
        GraphExpr::Mul(a, b) => a < i && b < i,
        GraphExpr::Lt(a, b) => a < i && b < i,
        GraphExpr::Gt(a, b) => a < i && b < i,
        GraphExpr::ArgRef(a) => a < i,
        GraphExpr::IoInit => true,
        GraphExpr::IoSeq(a, b) => a < i && b < i,
    }
}

/// A well-formed term: an arena whose edges all point downward.
pub open spec fn term_wf(t: Seq<GraphExpr>) -> bool {
    forall|i: int| 0 <= i < t.len() ==> node_children_lt(#[trigger] t[i], i)
}

/// A chain node carries effects; every other node carries a value.
pub open spec fn is_chain_node(n: GraphExpr) -> bool {
    n is IoInit || n is IoSeq
}

/// The value of node `i`, or `None` where it faults (an argument index
/// out of range) or the term is malformed at `i`.  The empty-effect
/// sentinel reads as the dummy value 0; an effect node carries no value.
pub open spec fn node_eval(t: Seq<GraphExpr>, i: int, args: Seq<i64>) -> Option<i64>
    decreases i,
{
    if i < 0 || i >= t.len() {
        None
    } else {
        match t[i] {
            GraphExpr::Num(n) => Some(n),
            GraphExpr::Add(a, b) => if a < i && b < i {
                match (node_eval(t, a as int, args), node_eval(t, b as int, args)) {
                    (Some(x), Some(y)) => Some(eval_binop(BinOp::Add, x, y)),
                    _ => None,
                }
            } else {
                None
            },
            GraphExpr::Sub(a, b) => if a < i && b < i {
                match (node_eval(t, a as int, args), node_eval(t, b as int, args)) {
                    (Some(x), Some(y)) => Some(eval_binop(BinOp::Sub, x, y)),
                    _ => None,
                }
            } else {
                None
            },
            GraphExpr::Mul(a, b) => if a < i && b < i {
                match (node_eval(t, a as int, args), node_eval(t, b as int, args)) {
                    (Some(x), Some(y)) => Some(eval_binop(BinOp::Mul, x, y)),
                    _ => None,
                }
            } else {
                None
            },
            GraphExpr::Lt(a, b) => if a < i && b < i {
                match (node_eval(t, a as int, args), node_eval(t, b as int, args)) {
                    (Some(x), Some(y)) => Some(eval_binop(BinOp::Lt, x, y)),
                    _ => None,
                }
            } else {
                None
            },
            GraphExpr::Gt(a, b) => if a < i && b < i {
                match (node_eval(t, a as int, args), node_eval(t, b as int, args)) {
                    (Some(x), Some(y)) => Some(eval_binop(BinOp::Gt, x, y)),
                    _ => None,
                }
            } else {
                None
            },
            GraphExpr::ArgRef(a) => if a < i {
                match node_eval(t, a as int, args) {
                    Some(ix) => if 0 <= ix < args.len() {
                        Some(args[ix as int])
                    } else {
                        None
                    },
                    None => None,
                }
            } else {
                None
            },
            GraphExpr::IoInit => Some(0),
            GraphExpr::IoSeq(_, _) => None,
        }
    }
}

/// The sequence of printed values along the effect chain rooted at `i`,
/// or `None` where some printed value faults or the chain is malformed.
pub open spec fn chain_prints(t: Seq<GraphExpr>, i: int, args: Seq<i64>) -> Option<Seq<i64>>
    decreases i,
{
    if i < 0 || i >= t.len() {
        None
    } else {
        match t[i] {
            GraphExpr::IoInit => Some(Seq::empty()),
            GraphExpr::IoSeq(p, v) => if p < i && v < i {
                match (chain_prints(t, p as int, args), node_eval(t, v as int, args)) {
                    (Some(out), Some(val)) => Some(out.push(val)),
                    _ => None,
                }
            } else {
                None
            },
            _ => None,
        }
    }
}

/// Node values depend only on the arena up to the node: extending the
/// arena changes no existing node's value.
pub proof fn lemma_node_eval_prefix(t1: Seq<GraphExpr>, t2: Seq<GraphExpr>, i: int, args: Seq<i64>)
    requires
        t1.is_prefix_of(t2),
        0 <= i < t1.len(),
    ensures
        node_eval(t2, i, args) == node_eval(t1, i, args),
    decreases i,
{
    assert(t2[i] == t1.add(t2.subrange(t1.len() as int, t2.len() as int))[i]) by {
        assert(t1[i] == t2.subrange(0, t1.len() as int)[i]);
    }
    assert(t2[i] == t1[i]);
    match t1[i] {
        GraphExpr::Add(a, b) => {
            if a < i && b < i {
                lemma_node_eval_prefix(t1, t2, a as int, args);
                lemma_node_eval_prefix(t1, t2, b as int, args);
            }
        },
        GraphExpr::Sub(a, b) => {
            if a < i && b < i {
                lemma_node_eval_prefix(t1, t2, a as int, args);
                lemma_node_eval_prefix(t1, t2, b as int, args);
            }
        },
        GraphExpr::Mul(a, b) => {
            if a < i && b < i {
                lemma_node_eval_prefix(t1, t2, a as int, args);
                lemma_node_eval_prefix(t1, t2, b as int, args);
            }
        },
        GraphExpr::Lt(a, b) => {
            if a < i && b < i {
                lemma_node_eval_prefix(t1, t2, a as int, args);
                lemma_node_eval_prefix(t1, t2, b as int, args);
            }
        },
        GraphExpr::Gt(a, b) => {
            if a < i && b < i {
                lemma_node_eval_prefix(t1, t2, a as int, args);
                lemma_node_eval_prefix(t1, t2, b as int, args);
            }
        },
        GraphExpr::ArgRef(a) => {
            if a < i {
                lemma_node_eval_prefix(t1, t2, a as int, args);
            }
        },
        _ => {},
    }
}

/// Effect chains likewise read only the arena up to the root.
pub proof fn lemma_chain_prints_prefix(
    t1: Seq<GraphExpr>,
    t2: Seq<GraphExpr>,
    i: int,
    args: Seq<i64>,
)
    requires
        t1.is_prefix_of(t2),
        0 <= i < t1.len(),
    ensures
        chain_prints(t2, i, args) == chain_prints(t1, i, args),
    decreases i,
{
    assert(t1[i] == t2.subrange(0, t1.len() as int)[i]);
    assert(t2[i] == t1[i]);
    match t1[i] {
        GraphExpr::IoSeq(p, v) => {
            if p < i && v < i {
                lemma_chain_prints_prefix(t1, t2, p as int, args);
                lemma_node_eval_prefix(t1, t2, v as int, args);
            }
        },
        _ => {},
    }
}

/// The error taxonomy of the optimizer: a conditional or loop in the
/// fragment handed to the graph builder (recoverable), a variable read
/// before any assignment (an internal-consistency fault of the producer),
/// or a failure of the rewrite-and-extract stage.
#[derive(Clone, Copy, PartialEq, Eq, Structural, Debug)]
pub enum OptError {
    UnsupportedConstruct,
    UnboundVariable,
    ExtractionFailed,
}

/// An association list read as a map; a later binding for the same name
/// wins.
pub open spec fn assoc_map(entries: Seq<(Var, usize)>) -> Map<Seq<char>, usize>
    decreases entries.len(),
{
    if entries.len() == 0 {
        Map::empty()
    } else {
        assoc_map(entries.drop_last()).insert(entries.last().0@, entries.last().1)
    }
}

proof fn lemma_assoc_map_no_key(entries: Seq<(Var, usize)>, x: Seq<char>)
    requires
        forall|j: int| 0 <= j < entries.len() ==> (#[trigger] entries[j]).0@ != x,
    ensures
        !assoc_map(entries).dom().contains(x),
    decreases entries.len(),
{
    if entries.len() > 0 {
        lemma_assoc_map_no_key(entries.drop_last(), x);
    }
}

proof fn lemma_assoc_map_found(entries: Seq<(Var, usize)>, k: int, x: Seq<char>)
    requires
        0 <= k < entries.len(),
        entries[k].0@ == x,
        forall|j: int| k < j < entries.len() ==> (#[trigger] entries[j]).0@ != x,
    ensures
        assoc_map(entries).dom().contains(x),
        assoc_map(entries)[x] == entries[k].1,
    decreases entries.len(),
{
    if k == entries.len() - 1 {
    } else {
        assert(entries.drop_last()[k] == entries[k]);
        lemma_assoc_map_found(entries.drop_last(), k, x);
    }
}

/// Every binding of the source environment is mirrored by a graph node
/// with the same value.
pub open spec fn env_corresponds(
    t: Seq<GraphExpr>,
    genv: Map<Seq<char>, usize>,
    senv: Map<Seq<char>, i64>,
    args: Seq<i64>,
) -> bool {
    forall|x: Seq<char>| #[trigger]
        senv.dom().contains(x) ==> genv.dom().contains(x) && node_eval(
            t,
            genv[x] as int,
            args,
        ) == Some(senv[x])
}

/// Running the statements `ss` from any source state mirrored by the
/// builder state `(t0, g0, r0)` is mirrored by the builder state
/// `(t1, g1, r1)`: the final environment corresponds, and the new chain
/// extends the old prints with exactly the statements' prints.
pub open spec fn builder_extends(
    t0: Seq<GraphExpr>,
    g0: Map<Seq<char>, usize>,
    r0: int,
    t1: Seq<GraphExpr>,
    g1: Map<Seq<char>, usize>,
    r1: int,
    ss: Seq<Stmt>,
) -> bool {
    forall|senv: Map<Seq<char>, i64>, args: Seq<i64>|
        env_corresponds(t0, g0, senv, args) ==> match (
            chain_prints(t0, r0, args),
            #[trigger] run_straight(ss, senv, args),
        ) {
            (Some(prior), Some(res)) => env_corresponds(t1, g1, res.0, args) && chain_prints(
                t1,
                r1,
                args,
            ) == Some(prior + res.1),
            _ => true,
        }
}

/// Which variables an expression reads.
pub open spec fn expr_vars_bound(e: Expr, dom: Set<Seq<char>>) -> bool
    decreases e,
{
    match e {
        Expr::Var(x) => dom.contains(x@),
        Expr::Num(_) => true,
        Expr::BinOp(_, e1, e2) => expr_vars_bound(*e1, dom) && expr_vars_bound(*e2, dom),
        Expr::Input(e1) => expr_vars_bound(*e1, dom),
    }
}

/// The statements translate: each is an assignment or a print, and every
/// variable is read only after an assignment bound it.
pub open spec fn stmts_bindable(ss: Seq<Stmt>, dom: Set<Seq<char>>) -> bool
    decreases ss,
{
    if ss.len() == 0 {
        true
    } else {
        match ss[0] {
            Stmt::Assign(x, e) => expr_vars_bound(*e, dom) && stmts_bindable(
                ss.subrange(1, ss.len() as int),
                dom.insert(x@),
            ),
            Stmt::Print(e) => expr_vars_bound(*e, dom) && stmts_bindable(
                ss.subrange(1, ss.len() as int),
                dom,
            ),
            _ => false,
        }
    }
}

/// Translates straight-line fragments into the value graph, threading
/// the effect chain through `io_root`.
pub struct EGraphBuilder {
    nodes: Vec<GraphExpr>,
    env: Vec<(Var, usize)>,
    io_root: usize,
}

impl EGraphBuilder {
    pub closed spec fn nodes_view(&self) -> Seq<GraphExpr> {
        self.nodes@
    }

    pub closed spec fn env_map(&self) -> Map<Seq<char>, usize> {
        assoc_map(self.env@)
    }

    pub closed spec fn io_root_view(&self) -> int {
        self.io_root as int
    }

    /// The builder's invariant: a well-formed arena whose root is a chain
    /// node.
    pub open spec fn wf(&self) -> bool {
        &&& term_wf(self.nodes_view())
        &&& 0 <= self.io_root_view() < self.nodes_view().len()
        &&& is_chain_node(self.nodes_view()[self.io_root_view()])
        &&& forall|x: Seq<char>| #[trigger]
            self.env_map().dom().contains(x) ==> self.env_map()[x] < self.nodes_view().len()
    }

    /// A fresh builder: one empty-effect sentinel, nothing bound, the
    /// sentinel as root.
    pub fn new() -> (b: EGraphBuilder)
        ensures
            b.wf(),
            b.nodes_view() == seq![GraphExpr::IoInit],
            b.env_map() == Map::<Seq<char>, usize>::empty(),
            b.io_root_view() == 0,
    {
        let mut nodes: Vec<GraphExpr> = Vec::new();
        nodes.push(GraphExpr::IoInit);
        let b = EGraphBuilder { nodes, env: Vec::new(), io_root: 0 };
        proof {
            assert(b.nodes_view() =~= seq![GraphExpr::IoInit]);
            assert(b.env@ =~= Seq::<(Var, usize)>::empty());
        }
        b
    }

    /// Adds a node, or returns the index of a structurally equal one:
    /// equal-by-construction nodes share one identity.
    #[verifier::loop_isolation(false)]
    fn add_node(&mut self, n: GraphExpr) -> (id: usize)
        requires
            old(self).wf(),
            node_children_lt(n, old(self).nodes_view().len() as int),
        ensures
            final(self).wf(),
            final(self).env_map() == old(self).env_map(),
            final(self).io_root_view() == old(self).io_root_view(),
            old(self).nodes_view().is_prefix_of(final(self).nodes_view()),
            id < final(self).nodes_view().len(),
            final(self).nodes_view()[id as int] == n,
    {
        let mut i: usize = 0;
        while i < self.nodes.len()
            invariant
                i <= self.nodes@.len(),
                *self == *old(self),
            decreases self.nodes@.len() - i,
        {
            if self.nodes[i] == n {
                proof {
                    assert(old(self).nodes_view().is_prefix_of(old(self).nodes_view())) by {
                        let t = old(self).nodes_view();
                        assert(t =~= t.subrange(0, t.len() as int));
                    }
                    assert forall|x: Seq<char>| #[trigger]
                        self.env_map().dom().contains(x) implies self.env_map()[x]
                        < self.nodes_view().len() by {
                        assert(old(self).env_map().dom().contains(x));
                    }
                }
                return i;
            }
            i = i + 1;
        }
        let id = self.nodes.len();
        self.nodes.push(n);
        proof {
            let t0 = old(self).nodes_view();
            let t1 = self.nodes_view();
            assert(t0.is_prefix_of(t1)) by {
                assert(t0 =~= t1.subrange(0, t0.len() as int));
            }
            assert(term_wf(t1)) by {
                assert(forall|j: int|
                    0 <= j < t0.len() ==> t1[j] == t0[j] && node_children_lt(#[trigger] t1[j], j));
                assert(t1[id as int] == n);
            }
            assert forall|x: Seq<char>| #[trigger]
                self.env_map().dom().contains(x) implies self.env_map()[x]
                < self.nodes_view().len() by {
                assert(old(self).env_map().dom().contains(x));
            }
        }
        id
    }

    /// Rebinds a variable to a node id; the latest binding wins.
    fn bind(&mut self, x: &Var, id: usize)
        requires
            old(self).wf(),
            id < old(self).nodes_view().len(),
        ensures
            final(self).wf(),
            final(self).nodes_view() == old(self).nodes_view(),
            final(self).io_root_view() == old(self).io_root_view(),
            final(self).env_map() == old(self).env_map().insert(x@, id),
    {
        self.env.push((x.clone(), id));
        proof {
            assert(self.env@.drop_last() =~= old(self).env@);
            assert(self.env_map() == old(self).env_map().insert(x@, id));
            assert forall|y: Seq<char>| #[trigger]
                self.env_map().dom().contains(y) implies self.env_map()[y]
                < self.nodes_view().len() by {
                if y == x@ {
                } else {
                    assert(old(self).env_map().dom().contains(y));
                }
            }
        }
    }

    /// Looks a variable up in the environment; the latest binding wins.
    fn lookup(&self, x: &Var) -> (r: Option<usize>)
        ensures
            match r {
                Some(id) => self.env_map().dom().contains(x@) && self.env_map()[x@] == id,
                None => !self.env_map().dom().contains(x@),
            },
    {
        let mut i: usize = self.env.len();
        while i > 0
            invariant
                i <= self.env@.len(),
                forall|j: int| i <= j < self.env@.len() ==> (#[trigger] self.env@[j]).0@ != x@,
            decreases i,
        {
            i = i - 1;
            if self.env[i].0.eq(x) {
                proof {
                    lemma_assoc_map_found(self.env@, i as int, x@);
                }
                return Some(self.env[i].1);
            }
        }
        proof {
            lemma_assoc_map_no_key(self.env@, x@);
        }
        None
    }

    /// Translates one expression to a node id.  Succeeds exactly when
    /// every variable the expression reads is bound; wherever the source
    /// expression has a value under an environment the builder mirrors,
    /// the node has the same value.
    fn expression_to_egraph(&mut self, e: &Expr) -> (r: Result<usize, OptError>)
        requires
            old(self).wf(),
        ensures
            final(self).wf(),
            final(self).env_map() == old(self).env_map(),
            final(self).io_root_view() == old(self).io_root_view(),
            old(self).nodes_view().is_prefix_of(final(self).nodes_view()),
            r is Ok <==> expr_vars_bound(*e, old(self).env_map().dom()),
            r is Err ==> r == Result::<usize, OptError>::Err(OptError::UnboundVariable),
            match r {
                Ok(id) => id < final(self).nodes_view().len() && (forall|
                    senv: Map<Seq<char>, i64>,
                    args: Seq<i64>,
                |
                    env_corresponds(old(self).nodes_view(), old(self).env_map(), senv, args)
                        && (#[trigger] eval_expr(*e, senv, args)) is Some ==> node_eval(
                        final(self).nodes_view(),
                        id as int,
                        args,
                    ) == eval_expr(*e, senv, args)),
                Err(_) => true,
            },
        decreases *e,
    {
        let ghost t0 = old(self).nodes_view();
        let ghost g0 = old(self).env_map();
        match e {
            Expr::Var(x) => {
                match self.lookup(x) {
                    Some(id) => {
                        proof {
                            assert forall|senv: Map<Seq<char>, i64>, args: Seq<i64>|
                                env_corresponds(t0, g0, senv, args) && (#[trigger] eval_expr(
                                    *e,
                                    senv,
                                    args,
                                )) is Some implies node_eval(self.nodes_view(), id as int, args)
                                == eval_expr(*e, senv, args) by {
                                assert(senv.dom().contains(x@));
                            }
                        }
                        Ok(id)
                    },
                    None => Err(OptError::UnboundVariable),
                }
            },
            Expr::Num(n) => {
                let id = self.add_node(GraphExpr::Num(*n));
                Ok(id)
            },
            Expr::BinOp(op, e1, e2) => {
                let i1 = match self.expression_to_egraph(e1) {
                    Ok(i1) => i1,
                    Err(er) => {
                        return Err(er);
                    },
                };
                let ghost t1 = self.nodes_view();
                let i2 = match self.expression_to_egraph(e2) {
                    Ok(i2) => i2,
                    Err(er) => {
                        proof {
                            lemma_prefix_trans_nodes(t0, t1, self.nodes_view());
                        }
                        return Err(er);
                    },
                };
                let ghost t2 = self.nodes_view();
                let node = match op {
                    BinOp::Add => GraphExpr::Add(i1, i2),
                    BinOp::Sub => GraphExpr::Sub(i1, i2),
                    BinOp::Mul => GraphExpr::Mul(i1, i2),
                    BinOp::Lt => GraphExpr::Lt(i1, i2),
                    BinOp::Gt => GraphExpr::Gt(i1, i2),
                };
                let id = self.add_node(node);
                proof {
                    let t3 = self.nodes_view();
                    lemma_prefix_trans_nodes(t0, t1, t2);
                    lemma_prefix_trans_nodes(t0, t2, t3);
                    lemma_prefix_trans_nodes(t1, t2, t3);
                    assert forall|senv: Map<Seq<char>, i64>, args: Seq<i64>|
                        env_corresponds(t0, g0, senv, args) && (#[trigger] eval_expr(
                            *e,
                            senv,
                            args,
                        )) is Some implies node_eval(t3, id as int, args) == eval_expr(
                        *e,
                        senv,
                        args,
                    ) by {
                        assert(eval_expr(**e1, senv, args) is Some);
                        assert(eval_expr(**e2, senv, args) is Some);
                        assert(node_eval(t1, i1 as int, args) == eval_expr(**e1, senv, args));
                        lemma_env_corresponds_prefix(t0, t1, g0, senv, args);
                        assert(node_eval(t2, i2 as int, args) == eval_expr(**e2, senv, args));
                        assert(i1 < t1.len()) by {
                            if i1 >= t1.len() {
                                assert(node_eval(t1, i1 as int, args) == None::<i64>);
                            }
                        }
                        assert(i2 < t2.len()) by {
                            if i2 >= t2.len() {
                                assert(node_eval(t2, i2 as int, args) == None::<i64>);
                            }
                        }
                        lemma_node_eval_prefix(t1, t3, i1 as int, args);
                        lemma_node_eval_prefix(t2, t3, i2 as int, args);
                        assert(t3[id as int] == node);
                        assert(node_children_lt(node, id as int));
                    }
                }
                Ok(id)
            },
            Expr::Input(e1) => {
                let i1 = match self.expression_to_egraph(e1) {
                    Ok(i1) => i1,
                    Err(er) => {
                        return Err(er);
                    },
                };
                let ghost t1 = self.nodes_view();
                let id = self.add_node(GraphExpr::ArgRef(i1));
                proof {
                    let t2 = self.nodes_view();
                    lemma_prefix_trans_nodes(t0, t1, t2);
                    assert forall|senv: Map<Seq<char>, i64>, args: Seq<i64>|
                        env_corresponds(t0, g0, senv, args) && (#[trigger] eval_expr(
                            *e,
                            senv,
                            args,
                        )) is Some implies node_eval(t2, id as int, args) == eval_expr(
                        *e,
                        senv,
                        args,
                    ) by {
                        assert(eval_expr(**e1, senv, args) is Some);
                        assert(node_eval(t1, i1 as int, args) == eval_expr(**e1, senv, args));
                        assert(i1 < t1.len()) by {
                            if i1 >= t1.len() {
                                assert(node_eval(t1, i1 as int, args) == None::<i64>);
                            }
                        }
                        lemma_node_eval_prefix(t1, t2, i1 as int, args);
                        assert(t2[id as int] == GraphExpr::ArgRef(i1));
                        assert(node_children_lt(GraphExpr::ArgRef(i1), id as int));
                    }
                }
                Ok(id)
            },
        }
    }
}

impl EGraphBuilder {
    /// Translates the statements of `b` from position `i` on: an
    /// assignment rebinds its variable to the node of its expression
    /// (last writer wins), a print chains a new effect node onto
    /// `io_root`, and a conditional or loop is an unsupported construct.
    /// Succeeds exactly when the suffix is straight-line with every read
    /// bound in order; every mirrored source run is then mirrored by the
    /// final builder state.
    fn block_from(&mut self, b: &Block, i: usize) -> (r: Result<(), OptError>)
        requires
            old(self).wf(),
            i <= b.0@.len(),
        ensures
            final(self).wf(),
            old(self).nodes_view().is_prefix_of(final(self).nodes_view()),
            r is Ok <==> stmts_bindable(
                b.0@.subrange(i as int, b.0@.len() as int),
                old(self).env_map().dom(),
            ),
            r is Err ==> r == Result::<(), OptError>::Err(OptError::UnsupportedConstruct) || r
                == Result::<(), OptError>::Err(OptError::UnboundVariable),
            r == Result::<(), OptError>::Err(OptError::UnsupportedConstruct) ==> exists|j: int|
                i <= j < b.0@.len() && !crate::semantics::stmt_is_straight(#[trigger] b.0@[j]),
            r is Ok ==> builder_extends(
                old(self).nodes_view(),
                old(self).env_map(),
                old(self).io_root_view(),
                final(self).nodes_view(),
                final(self).env_map(),
                final(self).io_root_view(),
                b.0@.subrange(i as int, b.0@.len() as int),
            ),
        decreases b.0@.len() - i,
    {
        let ghost t0 = old(self).nodes_view();
        let ghost g0 = old(self).env_map();
        let ghost r0 = old(self).io_root_view();
        let ghost ss = b.0@.subrange(i as int, b.0@.len() as int);
        if i == b.0.len() {
            proof {
                assert(ss.len() == 0);
                assert(t0.is_prefix_of(t0)) by {
                    assert(t0 =~= t0.subrange(0, t0.len() as int));
                }
                assert forall|senv: Map<Seq<char>, i64>, args: Seq<i64>|
                    env_corresponds(t0, g0, senv, args) implies match (
                    chain_prints(t0, r0, args),
                    #[trigger] run_straight(ss, senv, args),
                ) {
                    (Some(prior), Some(res)) => env_corresponds(t0, g0, res.0, args)
                        && chain_prints(t0, r0, args) == Some(prior + res.1),
                    _ => true,
                } by {
                    assert(run_straight(ss, senv, args) == Some(
                        (senv, Seq::<i64>::empty()),
                    ));
                    if chain_prints(t0, r0, args) is Some {
                        let prior = chain_prints(t0, r0, args)->0;
                        assert(prior + Seq::<i64>::empty() =~= prior);
                    }
                }
                assert(builder_extends(t0, g0, r0, t0, g0, r0, ss));
            }
            return Ok(());
        }
        let ghost stmt = b.0@[i as int];
        let ghost single = seq![stmt];
        match &b.0[i] {
            Stmt::Assign(x, e) => {
                let id = match self.expression_to_egraph(e) {
                    Ok(id) => id,
                    Err(er) => {
                        proof {
                            assert(!expr_vars_bound(*stmt->Assign_1, g0.dom()));
                            assert(!stmts_bindable(ss, g0.dom()));
                        }
                        return Err(er);
                    },
                };
                let ghost te = self.nodes_view();
                self.bind(x, id);
                proof {
                    assert(self.env_map().dom() =~= g0.dom().insert(x@));
                    lemma_single_assign(t0, g0, r0, te, self.env_map(), stmt, x@, id, **e);
                }
            },
            Stmt::Print(e) => {
                let id = match self.expression_to_egraph(e) {
                    Ok(id) => id,
                    Err(er) => {
                        proof {
                            assert(!expr_vars_bound(*stmt->Print_0, g0.dom()));
                            assert(!stmts_bindable(ss, g0.dom()));
                        }
                        return Err(er);
                    },
                };
                let ghost te = self.nodes_view();
                let root = self.io_root;
                let nid = self.add_node(GraphExpr::IoSeq(root, id));
                self.io_root = nid;
                proof {
                    let tm = self.nodes_view();
                    assert(tm[nid as int] == GraphExpr::IoSeq(root, id));
                    assert(is_chain_node(tm[self.io_root_view()]));
                    lemma_single_print(t0, g0, r0, te, tm, nid as int, stmt, root, id, **e);
                }
            },
            Stmt::If(_, _, _) => {
                proof {
                    assert(!crate::semantics::stmt_is_straight(b.0@[i as int]));
                }
                return Err(OptError::UnsupportedConstruct);
            },
            Stmt::While(_, _) => {
                proof {
                    assert(!crate::semantics::stmt_is_straight(b.0@[i as int]));
                }
                return Err(OptError::UnsupportedConstruct);
            },
        }
        let ghost tm = self.nodes_view();
        let ghost gm = self.env_map();
        let ghost rm = self.io_root_view();
        let r = self.block_from(b, i + 1);
        proof {
            let tf = self.nodes_view();
            lemma_prefix_trans_nodes(t0, tm, tf);
            let rest = b.0@.subrange(i + 1, b.0@.len() as int);
            assert(ss[0] == stmt);
            assert(ss.subrange(1, ss.len() as int) =~= rest);
            if r is Ok {
                lemma_extends_cons(
                    t0,
                    g0,
                    r0,
                    tm,
                    gm,
                    rm,
                    tf,
                    self.env_map(),
                    self.io_root_view(),
                    stmt,
                    rest,
                    ss,
                );
            }
        }
        r
    }

    /// Translates a whole program, which must be a straight-line block.
    pub fn program_to_egraph(&mut self, prog: &Program) -> (r: Result<(), OptError>)
        requires
            old(self).wf(),
        ensures
            final(self).wf(),
            old(self).nodes_view().is_prefix_of(final(self).nodes_view()),
            r is Ok <==> stmts_bindable(prog.0.0@, old(self).env_map().dom()),
            r is Err ==> r == Result::<(), OptError>::Err(OptError::UnsupportedConstruct) || r
                == Result::<(), OptError>::Err(OptError::UnboundVariable),
            r == Result::<(), OptError>::Err(OptError::UnsupportedConstruct)
                ==> !crate::semantics::block_is_straight(prog.0),
            r is Ok ==> builder_extends(
                old(self).nodes_view(),
                old(self).env_map(),
                old(self).io_root_view(),
                final(self).nodes_view(),
                final(self).env_map(),
                final(self).io_root_view(),
                prog.0.0@,
            ),
    {
        proof {
            assert(prog.0.0@.subrange(0, prog.0.0@.len() as int) =~= prog.0.0@);
        }
        let r = self.block_from(&prog.0, 0);
        r
    }

    /// The arena built so far.
    pub fn nodes(&self) -> (nodes: &Vec<GraphExpr>)
        ensures
            nodes@ == self.nodes_view(),
    {
        &self.nodes
    }

    /// The current root of the effect chain.
    pub fn io_root(&self) -> (root: usize)
        ensures
            root == self.io_root_view(),
    {
        self.io_root
    }
}

/// One assignment: the builder state after translating the expression
/// and rebinding the variable mirrors the assignment's effect.
proof fn lemma_single_assign(
    t0: Seq<GraphExpr>,
    g0: Map<Seq<char>, usize>,
    r0: int,
    tm: Seq<GraphExpr>,
    gm: Map<Seq<char>, usize>,
    stmt: Stmt,
    xv: Seq<char>,
    id: usize,
    e: Expr,
)
    requires
        stmt matches Stmt::Assign(x, se) && x@ == xv && *se == e,
        t0.is_prefix_of(tm),
        0 <= r0 < t0.len(),
        gm == g0.insert(xv, id),
        forall|senv: Map<Seq<char>, i64>, args: Seq<i64>|
            env_corresponds(t0, g0, senv, args) && (#[trigger] eval_expr(e, senv, args)) is Some
                ==> node_eval(tm, id as int, args) == eval_expr(e, senv, args),
    ensures
        builder_extends(t0, g0, r0, tm, gm, r0, seq![stmt]),
{
    let single = seq![stmt];
    assert forall|senv: Map<Seq<char>, i64>, args: Seq<i64>|
        env_corresponds(t0, g0, senv, args) implies match (
        chain_prints(t0, r0, args),
        #[trigger] run_straight(single, senv, args),
    ) {
        (Some(prior), Some(res)) => env_corresponds(tm, gm, res.0, args) && chain_prints(
            tm,
            r0,
            args,
        ) == Some(prior + res.1),
        _ => true,
    } by {
        assert(single[0] == stmt);
        assert(single.subrange(1, 1) =~= Seq::<Stmt>::empty());
        match eval_expr(e, senv, args) {
            Some(v) => {
                assert(run_straight(single.subrange(1, 1), senv.insert(xv, v), args) == Some(
                    (senv.insert(xv, v), Seq::<i64>::empty()),
                ));
                assert(run_straight(single, senv, args) == Some(
                    (senv.insert(xv, v), Seq::<i64>::empty()),
                ));
                assert(node_eval(tm, id as int, args) == Some(v));
                if chain_prints(t0, r0, args) is Some {
                    let prior = chain_prints(t0, r0, args)->0;
                    lemma_chain_prints_prefix(t0, tm, r0, args);
                    assert(chain_prints(tm, r0, args) == Some(prior));
                    assert(prior + Seq::<i64>::empty() =~= prior);
                    let senv2 = senv.insert(xv, v);
                    assert forall|y: Seq<char>| #[trigger]
                        senv2.dom().contains(y) implies gm.dom().contains(y) && node_eval(
                        tm,
                        gm[y] as int,
                        args,
                    ) == Some(senv2[y]) by {
                        if y == xv {
                        } else {
                            assert(senv.dom().contains(y));
                            assert(node_eval(t0, g0[y] as int, args) == Some(senv[y]));
                            assert(g0[y] < t0.len()) by {
                                if g0[y] >= t0.len() {
                                    assert(node_eval(t0, g0[y] as int, args) == None::<i64>);
                                }
                            }
                            lemma_node_eval_prefix(t0, tm, g0[y] as int, args);
                        }
                    }
                    assert(env_corresponds(tm, gm, senv2, args));
                }
            },
            None => {
                assert(run_straight(single, senv, args) is None);
            },
        }
    }
    assert(builder_extends(t0, g0, r0, tm, gm, r0, single));
}

/// One print: the new effect node extends the chain with exactly the
/// printed value.
proof fn lemma_single_print(
    t0: Seq<GraphExpr>,
    g0: Map<Seq<char>, usize>,
    r0: int,
    te: Seq<GraphExpr>,
    tm: Seq<GraphExpr>,
    rm: int,
    stmt: Stmt,
    root: usize,
    id: usize,
    e: Expr,
)
    requires
        stmt matches Stmt::Print(se) && *se == e,
        t0.is_prefix_of(te),
        te.is_prefix_of(tm),
        term_wf(tm),
        0 <= r0 < t0.len(),
        root == r0,
        0 <= rm < tm.len(),
        tm[rm] == GraphExpr::IoSeq(root, id),
        forall|senv: Map<Seq<char>, i64>, args: Seq<i64>|
            env_corresponds(t0, g0, senv, args) && (#[trigger] eval_expr(e, senv, args)) is Some
                ==> node_eval(te, id as int, args) == eval_expr(e, senv, args),
    ensures
        builder_extends(t0, g0, r0, tm, g0, rm, seq![stmt]),
{
    let single = seq![stmt];
    lemma_prefix_trans_nodes(t0, te, tm);
    assert forall|senv: Map<Seq<char>, i64>, args: Seq<i64>|
        env_corresponds(t0, g0, senv, args) implies match (
        chain_prints(t0, r0, args),
        #[trigger] run_straight(single, senv, args),
    ) {
        (Some(prior), Some(res)) => env_corresponds(tm, g0, res.0, args) && chain_prints(
            tm,
            rm,
            args,
        ) == Some(prior + res.1),
        _ => true,
    } by {
        assert(single[0] == stmt);
        assert(single.subrange(1, 1) =~= Seq::<Stmt>::empty());
        match eval_expr(e, senv, args) {
            Some(v) => {
                assert(run_straight(single.subrange(1, 1), senv, args) == Some(
                    (senv, Seq::<i64>::empty()),
                ));
                assert(run_straight(single, senv, args) == Some(
                    (senv, seq![v] + Seq::<i64>::empty()),
                ));
                assert(node_eval(te, id as int, args) == Some(v));
                assert(id < te.len()) by {
                    if id >= te.len() {
                        assert(node_eval(te, id as int, args) == None::<i64>);
                    }
                }
                lemma_node_eval_prefix(te, tm, id as int, args);
                if chain_prints(t0, r0, args) is Some {
                    let prior = chain_prints(t0, r0, args)->0;
                    lemma_chain_prints_prefix(t0, tm, r0, args);
                    assert(node_children_lt(tm[rm], rm));
                    assert(chain_prints(tm, rm, args) == Some(prior.push(v)));
                    assert(prior.push(v) =~= prior + (seq![v] + Seq::<i64>::empty()));
                    lemma_env_corresponds_prefix(t0, tm, g0, senv, args);
                }
            },
            None => {
                assert(run_straight(single, senv, args) is None);
            },
        }
    }
    assert(builder_extends(t0, g0, r0, tm, g0, rm, single));
}

/// Mirroring one statement and then the rest mirrors the whole
/// sequence.
proof fn lemma_extends_cons(
    t0: Seq<GraphExpr>,
    g0: Map<Seq<char>, usize>,
    r0: int,
    tm: Seq<GraphExpr>,
    gm: Map<Seq<char>, usize>,
    rm: int,
    tf: Seq<GraphExpr>,
    gf: Map<Seq<char>, usize>,
    rf: int,
    stmt: Stmt,
    rest: Seq<Stmt>,
    ss: Seq<Stmt>,
)
    requires
        ss.len() > 0,
        ss[0] == stmt,
        ss.subrange(1, ss.len() as int) == rest,
        builder_extends(t0, g0, r0, tm, gm, rm, seq![stmt]),
        builder_extends(tm, gm, rm, tf, gf, rf, rest),
    ensures
        builder_extends(t0, g0, r0, tf, gf, rf, ss),
{
    let single = seq![stmt];
    assert forall|senv: Map<Seq<char>, i64>, args: Seq<i64>|
        env_corresponds(t0, g0, senv, args) implies match (
        chain_prints(t0, r0, args),
        #[trigger] run_straight(ss, senv, args),
    ) {
        (Some(prior), Some(res)) => env_corresponds(tf, gf, res.0, args) && chain_prints(
            tf,
            rf,
            args,
        ) == Some(prior + res.1),
        _ => true,
    } by {
        assert(single[0] == stmt);
        assert(single.subrange(1, 1) =~= Seq::<Stmt>::empty());
        if chain_prints(t0, r0, args) is Some && run_straight(ss, senv, args) is Some {
            let prior = chain_prints(t0, r0, args)->0;
            let res = run_straight(ss, senv, args)->0;
            match stmt {
                Stmt::Assign(x, e) => {
                    let v = eval_expr(*e, senv, args)->0;
                    assert(eval_expr(*e, senv, args) is Some);
                    let senv2 = senv.insert(x@, v);
                    assert(run_straight(single.subrange(1, 1), senv2, args) == Some(
                        (senv2, Seq::<i64>::empty()),
                    ));
                    assert(run_straight(single, senv, args) == Some(
                        (senv2, Seq::<i64>::empty()),
                    ));
                    assert(env_corresponds(tm, gm, senv2, args) && chain_prints(tm, rm, args)
                        == Some(prior + Seq::<i64>::empty()));
                    assert(prior + Seq::<i64>::empty() =~= prior);
                    assert(run_straight(rest, senv2, args) == Some(res));
                    assert(env_corresponds(tf, gf, res.0, args) && chain_prints(tf, rf, args)
                        == Some(prior + res.1));
                },
                Stmt::Print(e) => {
                    let v = eval_expr(*e, senv, args)->0;
                    assert(eval_expr(*e, senv, args) is Some);
                    assert(run_straight(single.subrange(1, 1), senv, args) == Some(
                        (senv, Seq::<i64>::empty()),
                    ));
                    assert(run_straight(single, senv, args) == Some(
                        (senv, seq![v] + Seq::<i64>::empty()),
                    ));
                    let out1 = seq![v] + Seq::<i64>::empty();
                    assert(env_corresponds(tm, gm, senv, args) && chain_prints(tm, rm, args)
                        == Some(prior + out1));
                    let res2 = run_straight(rest, senv, args)->0;
                    assert(run_straight(rest, senv, args) == Some(res2));
                    assert(env_corresponds(tf, gf, res2.0, args) && chain_prints(tf, rf, args)
                        == Some((prior + out1) + res2.1));
                    assert(res.0 == res2.0);
                    assert(res.1 =~= seq![v] + res2.1);
                    assert((prior + out1) + res2.1 =~= prior + res.1);
                },
                _ => {
                    assert(run_straight(ss, senv, args) is None);
                },
            }
        }
    }
    assert(builder_extends(t0, g0, r0, tf, gf, rf, ss));
}

/// Prefix order on arenas is transitive.
proof fn lemma_prefix_trans_nodes(a: Seq<GraphExpr>, b: Seq<GraphExpr>, c: Seq<GraphExpr>)
    requires
        a.is_prefix_of(b),
        b.is_prefix_of(c),
    ensures
        a.is_prefix_of(c),
{
    assert forall|i: int| 0 <= i < a.len() implies a[i] == c[i] by {
        assert(a[i] == b.subrange(0, a.len() as int)[i]);
        assert(b[i] == c.subrange(0, b.len() as int)[i]);
    }
    assert(a =~= c.subrange(0, a.len() as int));
}

/// A mirrored environment stays mirrored when the arena grows: a binding
/// whose node has a value must point below the old length.
proof fn lemma_env_corresponds_prefix(
    t0: Seq<GraphExpr>,
    t1: Seq<GraphExpr>,
    genv: Map<Seq<char>, usize>,
    senv: Map<Seq<char>, i64>,
    args: Seq<i64>,
)
    requires
        t0.is_prefix_of(t1),
        env_corresponds(t0, genv, senv, args),
    ensures
        env_corresponds(t1, genv, senv, args),
{
    assert forall|x: Seq<char>| #[trigger]
        senv.dom().contains(x) implies genv.dom().contains(x) && node_eval(
        t1,
        genv[x] as int,
        args,
    ) == Some(senv[x]) by {
        assert(node_eval(t0, genv[x] as int, args) == Some(senv[x]));
        assert(genv[x] < t0.len()) by {
            if genv[x] >= t0.len() {
                assert(node_eval(t0, genv[x] as int, args) == None::<i64>);
            }
        }
        lemma_node_eval_prefix(t0, t1, genv[x] as int, args);
    }
}

} // verus!
