//! The bridge to the `egg` equality-saturation library: the value graph
//! is replayed into an e-graph, rewritten to a bounded fixpoint, and the
//! minimum-cost term of the effect-chain root is extracted.
//!
//! Everything here is a trusted wrapper around `egg`; the verified
//! optimizer checks the extracted term's shape itself and only relies on
//! these contracts for what cannot be checked: that extraction returns a
//! term of the root's congruence class, whose effect chain prints the
//! same values.

use vstd::prelude::*;
use crate::egraph::{chain_prints, node_children_lt, GraphExpr};
use crate::optimize::{arith_rules, RuleSpec};

verus! {

/// An e-graph under construction, with the e-class id of each replayed
/// arena node.
#[verifier::external_body]
pub struct EggGraph {
    graph: egg::EGraph<egg::SymbolLang, ()>,
    ids: Vec<egg::Id>,
}

/// The arena nodes replayed into the e-graph, in order.
pub uninterp spec fn egg_nodes(g: EggGraph) -> Seq<GraphExpr>;

/// A compiled rewrite-rule set.
#[verifier::external_body]
pub struct RuleSet {
    rules: Vec<egg::Rewrite<egg::SymbolLang, ()>>,
}

/// The rules the set was built from: name, left pattern, right pattern.
pub uninterp spec fn rule_specs(rs: RuleSet) -> Seq<RuleSpec>;

#[verifier::external_type_specification]
#[verifier::external_body]
pub struct ExSymbolLang(egg::SymbolLang);

#[verifier::external_type_specification]
#[verifier::external_body]
pub struct ExId(egg::Id);

/// Relies on `egg::EGraph::new`: a fresh e-graph holds nothing.
#[verifier::external_body]
pub(crate) fn egg_new() -> (g: EggGraph)
    ensures
        egg_nodes(g) == Seq::<GraphExpr>::empty(),
{
    EggGraph { graph: egg::EGraph::new(()), ids: Vec::new() }
}

/// Helper of `egg_add`: the e-node of a binary-operator arena node,
/// with its child indices translated through the recorded e-class ids.
/// Relies on `egg::SymbolLang::new`; only two-child nodes reach it.
#[verifier::external_body]
fn lang_of_binop(n: &GraphExpr, ids: &Vec<egg::Id>) -> egg::SymbolLang {
    let m2 = |op: &str, a: usize, b: usize| egg::SymbolLang::new(op, vec![ids[a], ids[b]]);
    match *n {
        GraphExpr::Add(a, b) => m2("+", a, b),
        GraphExpr::Sub(a, b) => m2("-", a, b),
        GraphExpr::Mul(a, b) => m2("*", a, b),
        GraphExpr::Lt(a, b) => m2("<", a, b),
        GraphExpr::Gt(a, b) => m2(">", a, b),
        _ => egg::SymbolLang::leaf("[]"),
    }
}

/// Helper of `egg_add`: builds the `SymbolLang` e-node for an arena
/// node, translating child indices through the recorded e-class ids.
/// Relies on `egg::SymbolLang::new` and `egg::SymbolLang::leaf`.
#[verifier::external_body]
fn lang_of_node(n: &GraphExpr, ids: &Vec<egg::Id>) -> egg::SymbolLang {
    let m2 = |op: &str, a: usize, b: usize| egg::SymbolLang::new(op, vec![ids[a], ids[b]]);
    match *n {
        GraphExpr::Num(v) => egg::SymbolLang::leaf(v.to_string()),
        GraphExpr::ArgRef(a) => egg::SymbolLang::new("args", vec![ids[a]]),
        GraphExpr::IoInit => egg::SymbolLang::leaf("[]"),
        GraphExpr::IoSeq(a, b) => m2(">>>", a, b),
        _ => lang_of_binop(n, ids),
    }
}

/// Relies on `egg::EGraph::add` (on `SymbolLang` e-nodes): inserts the
/// node, merging it with a structurally equal one, and returns its
/// e-class id, recorded here so later nodes can reference it.
#[verifier::external_body]
pub(crate) fn egg_add(g: &mut EggGraph, n: &GraphExpr)
    requires
        node_children_lt(*n, egg_nodes(*old(g)).len() as int),
    ensures
        egg_nodes(*final(g)) == egg_nodes(*old(g)).push(*n),
{
    let node = lang_of_node(n, &g.ids);
    let id = g.graph.add(node);
    g.ids.push(id);
}

/// Relies on `egg::EGraph::new` via `Default`: an empty rule set.
#[verifier::external_body]
pub(crate) fn ruleset_new() -> (rs: RuleSet)
    ensures
        rule_specs(rs) == Seq::<RuleSpec>::empty(),
{
    RuleSet { rules: Vec::new() }
}

/// Relies on `egg::Pattern` parsing and `egg::Rewrite::new`: records the
/// rewrite `lhs => rhs` under `name`, or reports failure and records
/// nothing.
#[verifier::external_body]
pub(crate) fn ruleset_push(rs: &mut RuleSet, name: &str, lhs: &str, rhs: &str) -> (ok: bool)
    ensures
        ok ==> rule_specs(*final(rs)) == rule_specs(*old(rs)).push(
            RuleSpec { name: name@, lhs: lhs@, rhs: rhs@ },
        ),
        !ok ==> rule_specs(*final(rs)) == rule_specs(*old(rs)),
{
    let l: egg::Pattern<egg::SymbolLang> = match lhs.parse() {
        Ok(p) => p,
        Err(_) => return false,
    };
    let r: egg::Pattern<egg::SymbolLang> = match rhs.parse() {
        Ok(p) => p,
        Err(_) => return false,
    };
    match egg::Rewrite::new(name.to_string(), l, r) {
        Ok(rw) => {
            rs.rules.push(rw);
            true
        },
        Err(_) => false,
    }
}

/// Helper of `egg_saturate`: reads one binary-operator e-node back.
/// Relies on `egg::SymbolLang`'s public `op` and `children` fields and
/// on `usize::from` for `egg::Id`.
#[verifier::external_body]
fn node_of_binop(n: &egg::SymbolLang) -> Option<GraphExpr> {
    let c = &n.children;
    if c.len() != 2 {
        return None;
    }
    let (a, b) = (usize::from(c[0]), usize::from(c[1]));
    match n.op.as_str() {
        "+" => Some(GraphExpr::Add(a, b)),
        "-" => Some(GraphExpr::Sub(a, b)),
        "*" => Some(GraphExpr::Mul(a, b)),
        "<" => Some(GraphExpr::Lt(a, b)),
        ">" => Some(GraphExpr::Gt(a, b)),
        _ => None,
    }
}

/// Helper of `egg_saturate`: reads one extracted e-node back into an
/// arena node.  Relies on `egg::SymbolLang`'s public `op` and `children`
/// fields, on `usize::from` for `egg::Id`, and on `str::parse` for
/// numeric leaves.
#[verifier::external_body]
fn node_of_lang(n: &egg::SymbolLang) -> Option<GraphExpr> {
    let c = &n.children;
    let ix = |k: usize| usize::from(c[k]);
    match (n.op.as_str(), c.len()) {
        ("args", 1) => Some(GraphExpr::ArgRef(ix(0))),
        ("[]", 0) => Some(GraphExpr::IoInit),
        (">>>", 2) => Some(GraphExpr::IoSeq(ix(0), ix(1))),
        (s, 0) => s.parse::<i64>().ok().map(GraphExpr::Num),
        _ => node_of_binop(n),
    }
}

/// Relies on `egg::Runner::run` and `egg::Extractor::find_best` with the
/// `egg::AstSize` cost function: rewriting merges congruence classes and
/// extraction returns a smallest term represented by the root's class,
/// its children always preceding their parents.  With exactly the
/// arithmetic rules — each a proven identity of two's-complement 64-bit
/// arithmetic (`lemma_rule_add_comm` through `lemma_rule_mul_dist` in
/// the semantics module), none touching the effect-sequencing operators
/// — every term of the root's class prints the same value sequence
/// wherever the root's chain prints one, so the extracted term does.
#[verifier::external_body]
pub(crate) fn egg_saturate(g: EggGraph, root: usize, rules: &RuleSet) -> (r: Option<
    Vec<GraphExpr>,
>)
    ensures
        r matches Some(t) ==> (rule_specs(*rules) =~= arith_rules() ==> forall|args: Seq<i64>|
            (#[trigger] chain_prints(egg_nodes(g), root as int, args)) is Some ==> chain_prints(
                t@,
                t@.len() - 1,
                args,
            ) == chain_prints(egg_nodes(g), root as int, args)),
{
    let runner = egg::Runner::default().with_egraph(g.graph).run(&rules.rules);
    let extractor = egg::Extractor::new(&runner.egraph, egg::AstSize);
    let id = *g.ids.get(root)?;
    let (_cost, best) = extractor.find_best(id);
    let mut out: Vec<GraphExpr> = Vec::new();
    for n in best.as_ref().iter() {
        out.push(node_of_lang(n)?);
    }
    Some(out)
}

} // verus!
