//! The optimization pass: a straight-line program is translated into the
//! value graph, rewritten by equality saturation under a fixed set of
//! arithmetic identities, and re-linearized into an equivalent program.

use vstd::prelude::*;
use crate::egraph::{chain_prints, EGraphBuilder, GraphExpr, OptError};
use crate::eggrun::{egg_add, egg_new, egg_nodes, egg_saturate, rule_specs, ruleset_new, ruleset_push};
use crate::linear::{check_term, extract_program};
use crate::semantics::{program_is_straight, run_straight, straight_output};
use crate::syntax::Program;

verus! {

/// A rewrite rule as name, left pattern and right pattern.
pub ghost struct RuleSpec {
    pub name: Seq<char>,
    pub lhs: Seq<char>,
    pub rhs: Seq<char>,
}

/// The fixed rule set: commutativity of addition and multiplication,
/// the additive and multiplicative identities, self-subtraction, and
/// multiplication distributing over addition.
pub open spec fn arith_rules() -> Seq<RuleSpec> {
    seq![
        RuleSpec { name: "add-comm"@, lhs: "(+ ?x ?y)"@, rhs: "(+ ?y ?x)"@ },
        RuleSpec { name: "mult-comm"@, lhs: "(* ?x ?y)"@, rhs: "(* ?y ?x)"@ },
        RuleSpec { name: "add-0"@, lhs: "(+ ?x 0)"@, rhs: "?x"@ },
        RuleSpec { name: "mul-1"@, lhs: "(* ?x 1)"@, rhs: "?x"@ },
        RuleSpec { name: "sub-self"@, lhs: "(- ?x ?x)"@, rhs: "0"@ },
        RuleSpec { name: "mult-dist-add"@, lhs: "(* ?a (+ ?b ?c))"@, rhs: "(+ (* ?a ?b) (* ?a ?c))"@ },
    ]
}

/// Rewrites a straight-line program through the value graph and back.
///
/// On success the optimized program prints exactly what the original
/// prints, for every argument vector under which the original runs
/// without fault.  A program with a conditional or loop is reported as
/// an unsupported construct; a variable read before any assignment is an
/// internal-consistency fault of the producer; a failure of the rewrite
/// or extraction stage is reported rather than returning a corrupted
/// program.
pub fn optimize(prog: &Program) -> (r: Result<Program, OptError>)
    ensures
        r matches Ok(p2) ==> forall|args: Seq<i64>|
            (#[trigger] straight_output(*prog, args)) is Some ==> straight_output(p2, args)
                == straight_output(*prog, args),
        r is Ok ==> crate::egraph::stmts_bindable(prog.0.0@, Set::empty()),
        r == Result::<Program, OptError>::Err(OptError::UnsupportedConstruct)
            ==> !program_is_straight(*prog),
        crate::egraph::stmts_bindable(prog.0.0@, Set::empty()) ==> r is Ok || r
            == Result::<Program, OptError>::Err(OptError::ExtractionFailed),
{
    let mut builder = EGraphBuilder::new();
    let ghost t0 = builder.nodes_view();
    let ghost g0 = builder.env_map();
    match builder.program_to_egraph(prog) {
        Ok(()) => {},
        Err(e) => {
            proof {
                assert(g0.dom() =~= Set::<Seq<char>>::empty());
            }
            return Err(e);
        },
    }
    proof {
        assert(g0.dom() =~= Set::<Seq<char>>::empty());
    }
    let ghost tb = builder.nodes_view();
    let ghost rb = builder.io_root_view();
    let root = builder.io_root();
    let nodes = builder.nodes();

    let mut rules = ruleset_new();
    let ok = {
        let ok1 = ruleset_push(&mut rules, "add-comm", "(+ ?x ?y)", "(+ ?y ?x)");
        let ok2 = ruleset_push(&mut rules, "mult-comm", "(* ?x ?y)", "(* ?y ?x)");
        let ok3 = ruleset_push(&mut rules, "add-0", "(+ ?x 0)", "?x");
        let ok4 = ruleset_push(&mut rules, "mul-1", "(* ?x 1)", "?x");
        let ok5 = ruleset_push(&mut rules, "sub-self", "(- ?x ?x)", "0");
        let ok6 = ruleset_push(&mut rules, "mult-dist-add", "(* ?a (+ ?b ?c))", "(+ (* ?a ?b) (* ?a ?c))");
        ok1 && ok2 && ok3 && ok4 && ok5 && ok6
    };
    if !ok {
        return Err(OptError::ExtractionFailed);
    }
    proof {
        assert(rule_specs(rules) =~= arith_rules());
    }

    let mut g = egg_new();
    let mut i: usize = 0;
    while i < nodes.len()
        invariant
            i <= nodes@.len(),
            nodes@ == tb,
            crate::egraph::term_wf(tb),
            egg_nodes(g) == tb.subrange(0, i as int),
        decreases nodes@.len() - i,
    {
        let nd = nodes[i];
        proof {
            assert(crate::egraph::node_children_lt(tb[i as int], i as int));
            assert(egg_nodes(g).len() == i);
        }
        egg_add(&mut g, &nd);
        proof {
            assert(tb.subrange(0, i as int).push(tb[i as int]) =~= tb.subrange(0, i + 1));
        }
        i = i + 1;
    }
    proof {
        assert(tb.subrange(0, tb.len() as int) =~= tb);
        assert(egg_nodes(g) == tb);
    }

    let extracted = match egg_saturate(g, root, &rules) {
        Some(t) => t,
        None => {
            return Err(OptError::ExtractionFailed);
        },
    };
    if !check_term(&extracted) {
        return Err(OptError::ExtractionFailed);
    }
    let block = extract_program(&extracted);
    let out_prog = Program(block);
    proof {
        let t2 = extracted@;
        assert forall|args: Seq<i64>|
            (#[trigger] straight_output(*prog, args)) is Some implies straight_output(
            out_prog,
            args,
        ) == straight_output(*prog, args) by {
            let res0 = run_straight(prog.0.0@, Map::<Seq<char>, i64>::empty(), args);
            assert(res0 is Some);
            assert(crate::egraph::env_corresponds(t0, g0, Map::<Seq<char>, i64>::empty(), args));
            assert(chain_prints(t0, 0, args) == Some(Seq::<i64>::empty()));
            let out = (res0->0).1;
            assert(chain_prints(tb, rb, args) == Some(Seq::<i64>::empty() + out));
            assert(Seq::<i64>::empty() + out =~= out);
            assert(chain_prints(t2, t2.len() - 1, args) == Some(out));
            assert(run_straight(out_prog.0.0@, Map::<Seq<char>, i64>::empty(), args) matches Some(
                res,
            ) && res.1 == out);
        }
    }
    Ok(out_prog)
}

} // verus!
