//! Re-linearization: an extracted, possibly-shared term becomes a
//! sequential statement program.  A node referenced more than once is
//! bound to a freshly generated variable and assigned once; a node
//! referenced at most once is substituted inline at its use site.
//! Effect nodes expand to `Print` statements in node-id order, which is
//! chain order because the chain was built strictly forward.

use vstd::prelude::*;
use vstd::string::StringExecFns;
use crate::egraph::{
    chain_prints, is_chain_node, node_children_lt, node_eval, term_wf, GraphExpr,
};
use crate::semantics::{eval_expr, run_straight};
use crate::syntax::{BinOp, Block, Expr, Stmt, Var};

verus! {

/// How often node `j` occurs as a child of `n`.
pub open spec fn uses_in(n: GraphExpr, j: int) -> nat {
    match n {
        GraphExpr::Num(_) => 0,
        GraphExpr::Add(a, b) => pair_uses(a, b, j),
        GraphExpr::Sub(a, b) => pair_uses(a, b, j),
        GraphExpr::Mul(a, b) => pair_uses(a, b, j),
        GraphExpr::Lt(a, b) => pair_uses(a, b, j),
        GraphExpr::Gt(a, b) => pair_uses(a, b, j),
        GraphExpr::ArgRef(a) => if a == j {
            1
        } else {
            0
        },
        GraphExpr::IoInit => 0,
        GraphExpr::IoSeq(a, b) => pair_uses(a, b, j),
    }
}

pub open spec fn pair_uses(a: usize, b: usize, j: int) -> nat {
    (if a == j {
        1nat
    } else {
        0nat
    }) + (if b == j {
        1nat
    } else {
        0nat
    })
}

/// How often node `j` is referenced by the first `k` nodes.
pub open spec fn count_upto(t: Seq<GraphExpr>, j: int, k: int) -> nat
    decreases k,
{
    if k <= 0 {
        0
    } else {
        count_upto(t, j, k - 1) + uses_in(t[k - 1], j)
    }
}

/// How often node `j` is referenced in the whole term.
pub open spec fn use_count(t: Seq<GraphExpr>, j: int) -> nat {
    count_upto(t, j, t.len() as int)
}

/// A shared node: referenced more than once, so it is materialized into
/// a named temporary.
pub open spec fn shared(t: Seq<GraphExpr>, j: int) -> bool {
    use_count(t, j) > 1
}

/// Some node references `j`.
pub open spec fn has_user(t: Seq<GraphExpr>, j: int) -> bool {
    exists|i: int| 0 <= i < t.len() && uses_in(#[trigger] t[i], j) >= 1
}

/// Node `j` lies on the left spine of the effect chain rooted at `i`.
pub open spec fn on_spine(t: Seq<GraphExpr>, i: int, j: int) -> bool
    decreases i,
{
    if i < 0 || i >= t.len() {
        false
    } else if i == j {
        true
    } else {
        match t[i] {
            GraphExpr::IoSeq(p, _) => p < i && on_spine(t, p as int, j),
            _ => false,
        }
    }
}

/// The conditions under which a term linearizes faithfully: nonempty and
/// small enough to count references, edges pointing downward, a chain
/// node last (the root), no effect node printed as a value, every chain
/// node on the root's spine, and no unreferenced node besides the root.
pub open spec fn wf_lin(t: Seq<GraphExpr>) -> bool {
    &&& 0 < t.len() <= 0x1000_0000
    &&& term_wf(t)
    &&& is_chain_node(t[t.len() - 1])
    &&& forall|i: int|
        0 <= i < t.len() ==> ((#[trigger] t[i]) matches GraphExpr::IoSeq(p, v) ==> !(t[
            v as int
        ] is IoSeq))
    &&& forall|j: int|
        0 <= j < t.len() && is_chain_node(#[trigger] t[j]) ==> on_spine(t, t.len() - 1, j)
    &&& forall|j: int| 0 <= j < t.len() - 1 ==> has_user(t, j)
}

/// The printed values contributed by effect nodes among the first `k`
/// nodes, in node order.
pub open spec fn prints_upto(t: Seq<GraphExpr>, k: int, args: Seq<i64>) -> Option<Seq<i64>>
    decreases k,
{
    if k <= 0 {
        Some(Seq::empty())
    } else {
        match prints_upto(t, k - 1, args) {
            Some(out) => match t[k - 1] {
                GraphExpr::IoSeq(p, v) => match node_eval(t, v as int, args) {
                    Some(x) => Some(out.push(x)),
                    None => None,
                },
                _ => Some(out),
            },
            None => None,
        }
    }
}

/// The value a node contributes when substituted: effect nodes read as
/// the dummy 0, value nodes as their value.
pub open spec fn lin_val(t: Seq<GraphExpr>, j: int, args: Seq<i64>) -> i64 {
    if is_chain_node(t[j]) {
        0
    } else {
        node_eval(t, j, args)->0
    }
}

/// Every value node has a value: no argument read is out of range.
pub open spec fn evals_ok(t: Seq<GraphExpr>, args: Seq<i64>) -> bool {
    forall|j: int|
        0 <= j < t.len() && !is_chain_node(#[trigger] t[j]) ==> node_eval(t, j, args) is Some
}

/// The decimal digits of `n`.
pub closed spec fn dec_digit(d: nat) -> char {
    if d % 10 == 0 {
        '0'
    } else if d % 10 == 1 {
        '1'
    } else if d % 10 == 2 {
        '2'
    } else if d % 10 == 3 {
        '3'
    } else if d % 10 == 4 {
        '4'
    } else if d % 10 == 5 {
        '5'
    } else if d % 10 == 6 {
        '6'
    } else if d % 10 == 7 {
        '7'
    } else if d % 10 == 8 {
        '8'
    } else {
        '9'
    }
}

pub closed spec fn dec_str(n: nat) -> Seq<char>
    decreases n,
{
    if n < 10 {
        seq![dec_digit(n)]
    } else {
        dec_str(n / 10).push(dec_digit(n))
    }
}

/// The generated name of the temporary for node `j`.
pub closed spec fn vname(j: int) -> Seq<char> {
    seq!['x'] + dec_str(j as nat)
}

proof fn lemma_dec_str_len(n: nat)
    ensures
        dec_str(n).len() >= 1,
        n >= 10 ==> dec_str(n).len() >= 2,
    decreases n,
{
    if n >= 10 {
        lemma_dec_str_len(n / 10);
    }
}

proof fn lemma_dec_str_injective(a: nat, b: nat)
    requires
        a != b,
    ensures
        dec_str(a) != dec_str(b),
    decreases a + b,
{
    if a < 10 && b < 10 {
        assert(dec_str(a)[0] == dec_digit(a));
        assert(dec_str(b)[0] == dec_digit(b));
        assert(dec_digit(a) != dec_digit(b));
    } else if a < 10 {
        lemma_dec_str_len(b);
        assert(dec_str(a).len() == 1);
    } else if b < 10 {
        lemma_dec_str_len(a);
        assert(dec_str(b).len() == 1);
    } else {
        if a % 10 != b % 10 {
            assert(dec_str(a).last() == dec_digit(a));
            assert(dec_str(b).last() == dec_digit(b));
            assert(dec_digit(a) != dec_digit(b));
        } else {
            assert(a / 10 != b / 10);
            lemma_dec_str_injective(a / 10, b / 10);
            if dec_str(a) == dec_str(b) {
                assert(dec_str(a).drop_last() =~= dec_str(a / 10));
                assert(dec_str(b).drop_last() =~= dec_str(b / 10));
            }
        }
    }
}

/// Distinct nodes get distinct temporaries.
pub proof fn lemma_vname_injective(i: int, j: int)
    requires
        i >= 0,
        j >= 0,
        i != j,
    ensures
        vname(i) != vname(j),
{
    lemma_dec_str_injective(i as nat, j as nat);
    if vname(i) == vname(j) {
        assert(vname(i).subrange(1, vname(i).len() as int) =~= dec_str(i as nat));
        assert(vname(j).subrange(1, vname(j).len() as int) =~= dec_str(j as nat));
    }
}

/// Appends the decimal digits of `n`.
fn push_decimal(s: &mut String, n: usize)
    ensures
        final(s)@ == old(s)@ + dec_str(n as nat),
    decreases n,
{
    let ghost pre = s@;
    if n >= 10 {
        push_decimal(s, n / 10);
    }
    let d = n % 10;
    match d {
        0 => s.append("0"),
        1 => s.append("1"),
        2 => s.append("2"),
        3 => s.append("3"),
        4 => s.append("4"),
        5 => s.append("5"),
        6 => s.append("6"),
        7 => s.append("7"),
        8 => s.append("8"),
        _ => s.append("9"),
    }
    proof {
        reveal_strlit("0");
        reveal_strlit("1");
        reveal_strlit("2");
        reveal_strlit("3");
        reveal_strlit("4");
        reveal_strlit("5");
        reveal_strlit("6");
        reveal_strlit("7");
        reveal_strlit("8");
        reveal_strlit("9");
        if n < 10 {
            assert(s@ =~= pre + dec_str(n as nat));
        } else {
            assert(s@ =~= pre + dec_str(n as nat));
        }
    }
}

/// Builds the temporary for node `j`.
fn make_var(j: usize) -> (v: Var)
    ensures
        v@ == vname(j as int),
{
    let mut s = String::from_str("x");
    push_decimal(&mut s, j);
    proof {
        reveal_strlit("x");
        assert(s@ =~= vname(j as int));
    }
    Var(s)
}

/// Evaluation only reads the variables an expression mentions: a defined
/// value is stable under extending the environment.
proof fn lemma_eval_expr_mono(
    e: Expr,
    env1: Map<Seq<char>, i64>,
    env2: Map<Seq<char>, i64>,
    args: Seq<i64>,
)
    requires
        forall|x: Seq<char>| #[trigger]
            env1.dom().contains(x) ==> env2.dom().contains(x) && env2[x] == env1[x],
        eval_expr(e, env1, args) is Some,
    ensures
        eval_expr(e, env2, args) == eval_expr(e, env1, args),
    decreases e,
{
    match e {
        Expr::Var(_) => {},
        Expr::Num(_) => {},
        Expr::BinOp(_, e1, e2) => {
            lemma_eval_expr_mono(*e1, env1, env2, args);
            lemma_eval_expr_mono(*e2, env1, env2, args);
        },
        Expr::Input(e1) => {
            lemma_eval_expr_mono(*e1, env1, env2, args);
        },
    }
}

/// Reference counts grow with the scanned prefix.
proof fn lemma_count_upto_mono(t: Seq<GraphExpr>, j: int, k1: int, k2: int)
    requires
        k1 <= k2,
    ensures
        count_upto(t, j, k1) <= count_upto(t, j, k2),
    decreases k2 - k1,
{
    if k1 < k2 {
        lemma_count_upto_mono(t, j, k1, k2 - 1);
    }
}

/// A node used by `t[i]` and referenced at most once overall has no
/// earlier reference.
proof fn lemma_single_use(t: Seq<GraphExpr>, j: int, i: int)
    requires
        0 <= i < t.len(),
        uses_in(t[i], j) >= 1,
        use_count(t, j) <= 1,
    ensures
        count_upto(t, j, i) == 0,
{
    assert(count_upto(t, j, i + 1) == count_upto(t, j, i) + uses_in(t[i], j));
    lemma_count_upto_mono(t, j, i + 1, t.len() as int);
}

/// The environment after the first `i` nodes were processed: each shared
/// node's temporary holds that node's substitution value.
pub open spec fn sigma(t: Seq<GraphExpr>, i: int, args: Seq<i64>) -> Map<Seq<char>, i64> {
    Map::new(
        |name: Seq<char>|
            exists|j: int| 0 <= j < i && shared(t, j) && name == #[trigger] vname(j),
        |name: Seq<char>|
            lin_val(
                t,
                choose|j: int| 0 <= j < i && shared(t, j) && name == #[trigger] vname(j),
                args,
            ),
    )
}

proof fn lemma_sigma_at(t: Seq<GraphExpr>, i: int, j: int, args: Seq<i64>)
    requires
        0 <= j < i,
        shared(t, j),
    ensures
        sigma(t, i, args).dom().contains(vname(j)),
        sigma(t, i, args)[vname(j)] == lin_val(t, j, args),
{
    let name = vname(j);
    assert(exists|j2: int| 0 <= j2 < i && shared(t, j2) && name == #[trigger] vname(j2));
    let j2 = choose|j2: int| 0 <= j2 < i && shared(t, j2) && name == #[trigger] vname(j2);
    if j2 != j {
        lemma_vname_injective(j2, j);
    }
}

proof fn lemma_sigma_step(t: Seq<GraphExpr>, i: int, args: Seq<i64>)
    requires
        i >= 0,
    ensures
        shared(t, i) ==> sigma(t, i + 1, args) =~= sigma(t, i, args).insert(
            vname(i),
            lin_val(t, i, args),
        ),
        !shared(t, i) ==> sigma(t, i + 1, args) =~= sigma(t, i, args),
{
    let s1 = sigma(t, i + 1, args);
    let s0 = sigma(t, i, args);
    assert forall|name: Seq<char>| #[trigger]
        s1.dom().contains(name) implies (if shared(t, i) {
        name == vname(i) || s0.dom().contains(name)
    } else {
        s0.dom().contains(name)
    }) && (name != vname(i) || !shared(t, i) ==> s1[name] == s0[name]) by {
        let j = choose|j: int| 0 <= j < i + 1 && shared(t, j) && name == #[trigger] vname(j);
        if j < i {
            lemma_sigma_at(t, i, j, args);
            lemma_sigma_at(t, i + 1, j, args);
        } else {
            assert(j == i && shared(t, i) && name == vname(i));
            lemma_sigma_at(t, i + 1, i, args);
        }
    }
    assert forall|name: Seq<char>| #[trigger]
        s0.dom().contains(name) implies s1.dom().contains(name) && s1[name] == s0[name] by {
        let j = choose|j: int| 0 <= j < i && shared(t, j) && name == #[trigger] vname(j);
        lemma_sigma_at(t, i, j, args);
        lemma_sigma_at(t, i + 1, j, args);
    }
    if shared(t, i) {
        lemma_sigma_at(t, i + 1, i, args);
    }
}

/// Appending one statement to a straight-line run executes it in the
/// run's final environment.
proof fn lemma_run_straight_snoc(ss: Seq<Stmt>, s: Stmt, env: Map<Seq<char>, i64>, args: Seq<i64>)
    ensures
        run_straight(ss.push(s), env, args) == (match run_straight(ss, env, args) {
            Some(res) => match s {
                Stmt::Assign(x, e) => match eval_expr(*e, res.0, args) {
                    Some(v) => Some((res.0.insert(x@, v), res.1)),
                    None => None::<(Map<Seq<char>, i64>, Seq<i64>)>,
                },
                Stmt::Print(e) => match eval_expr(*e, res.0, args) {
                    Some(v) => Some((res.0, res.1.push(v))),
                    None => None,
                },
                _ => None,
            },
            None => None,
        }),
    decreases ss.len(),
{
    let ss2 = ss.push(s);
    if ss.len() == 0 {
        assert(ss2[0] == s);
        assert(ss2.subrange(1, ss2.len() as int) =~= Seq::<Stmt>::empty());
        match s {
            Stmt::Assign(x, e) => {
                if eval_expr(*e, env, args) is Some {
                    let v = eval_expr(*e, env, args)->0;
                    assert(run_straight(ss2.subrange(1, ss2.len() as int), env.insert(x@, v), args)
                        == Some((env.insert(x@, v), Seq::<i64>::empty())));
                }
            },
            Stmt::Print(e) => {
                if eval_expr(*e, env, args) is Some {
                    let v = eval_expr(*e, env, args)->0;
                    assert(run_straight(ss2.subrange(1, ss2.len() as int), env, args) == Some(
                        (env, Seq::<i64>::empty()),
                    ));
                    assert(seq![v] + Seq::<i64>::empty() =~= Seq::<i64>::empty().push(v));
                }
            },
            _ => {},
        }
    } else {
        let h = ss[0];
        assert(ss2[0] == h);
        assert(ss2.subrange(1, ss2.len() as int) =~= ss.subrange(1, ss.len() as int).push(s));
        match h {
            Stmt::Assign(x, e) => {
                match eval_expr(*e, env, args) {
                    Some(v) => {
                        lemma_run_straight_snoc(
                            ss.subrange(1, ss.len() as int),
                            s,
                            env.insert(x@, v),
                            args,
                        );
                    },
                    None => {},
                }
            },
            Stmt::Print(e) => {
                match eval_expr(*e, env, args) {
                    Some(v) => {
                        lemma_run_straight_snoc(ss.subrange(1, ss.len() as int), s, env, args);
                        match run_straight(ss.subrange(1, ss.len() as int), env, args) {
                            Some(res) => {
                                match s {
                                    Stmt::Assign(x2, e2) => {},
                                    Stmt::Print(e2) => {
                                        if eval_expr(*e2, res.0, args) is Some {
                                            let v2 = eval_expr(*e2, res.0, args)->0;
                                            assert(seq![v] + res.1.push(v2) =~= (seq![v]
                                                + res.1).push(v2));
                                        }
                                    },
                                    _ => {},
                                }
                            },
                            None => {},
                        }
                    },
                    None => {},
                }
            },
            _ => {},
        }
    }
}

/// From a defined chain at the root, every node reachable through its
/// unique chain of users is defined: chain nodes have defined prints,
/// value nodes defined values.
proof fn lemma_chain_evals(t: Seq<GraphExpr>, args: Seq<i64>, j: int)
    requires
        wf_lin(t),
        chain_prints(t, t.len() - 1, args) is Some,
        0 <= j < t.len(),
    ensures
        is_chain_node(t[j]) ==> chain_prints(t, j, args) is Some,
        !is_chain_node(t[j]) ==> node_eval(t, j, args) is Some,
    decreases t.len() - j,
{
    let n = t.len() as int;
    if j == n - 1 {
    } else {
        assert(has_user(t, j));
        let i = choose|i: int| 0 <= i < t.len() && uses_in(#[trigger] t[i], j) >= 1;
        assert(node_children_lt(t[i], i));
        assert(j < i);
        lemma_chain_evals(t, args, i);
        match t[i] {
            GraphExpr::IoSeq(p, v) => {
                assert(chain_prints(t, i, args) is Some);
                if j == v && j != p {
                    assert(node_eval(t, v as int, args) is Some);
                    if is_chain_node(t[j]) {
                        assert(t[j] is IoInit);
                    }
                } else {
                    assert(j == p);
                    assert(chain_prints(t, p as int, args) is Some);
                    if !is_chain_node(t[j]) {
                        assert(chain_prints(t, j, args) is None);
                    }
                }
            },
            GraphExpr::Add(a, b) => {
                lemma_user_value(t, args, i, j);
            },
            GraphExpr::Sub(a, b) => {
                lemma_user_value(t, args, i, j);
            },
            GraphExpr::Mul(a, b) => {
                lemma_user_value(t, args, i, j);
            },
            GraphExpr::Lt(a, b) => {
                lemma_user_value(t, args, i, j);
            },
            GraphExpr::Gt(a, b) => {
                lemma_user_value(t, args, i, j);
            },
            GraphExpr::ArgRef(a) => {
                lemma_user_value(t, args, i, j);
            },
            _ => {
                assert(uses_in(t[i], j) == 0);
            },
        }
    }
}

/// A child of a defined value node is itself defined.
proof fn lemma_user_value(t: Seq<GraphExpr>, args: Seq<i64>, i: int, j: int)
    requires
        0 <= i < t.len(),
        0 <= j < t.len(),
        !is_chain_node(t[i]),
        node_eval(t, i, args) is Some,
        uses_in(t[i], j) >= 1,
    ensures
        is_chain_node(t[j]) ==> chain_prints(t, j, args) is Some,
        !is_chain_node(t[j]) ==> node_eval(t, j, args) is Some,
{
    assert(node_eval(t, j, args) is Some);
    if is_chain_node(t[j]) {
        assert(t[j] is IoInit);
    }
}

/// Every value node has a value whenever the root chain does.
pub proof fn lemma_evals_ok(t: Seq<GraphExpr>, args: Seq<i64>)
    requires
        wf_lin(t),
        chain_prints(t, t.len() - 1, args) is Some,
    ensures
        evals_ok(t, args),
{
    assert forall|j: int|
        0 <= j < t.len() && !is_chain_node(#[trigger] t[j]) implies node_eval(t, j, args) is Some by {
        lemma_chain_evals(t, args, j);
    }
}

/// A spine member lies at or below its root.
proof fn lemma_spine_le(t: Seq<GraphExpr>, i: int, j: int)
    requires
        on_spine(t, i, j),
    ensures
        0 <= j <= i,
        j < t.len(),
    decreases i,
{
    if i == j {
    } else {
        match t[i] {
            GraphExpr::IoSeq(p, _) => {
                lemma_spine_le(t, p as int, j);
            },
            _ => {},
        }
    }
}

/// Below a spine member `c`, the only spine members are at or below
/// `c`'s prior-effect child: the spine visits indices in decreasing
/// order.
proof fn lemma_spine_order(t: Seq<GraphExpr>, r: int, c: int, d: int)
    requires
        on_spine(t, r, c),
        on_spine(t, r, d),
        d < c,
    ensures
        t[c] is IoSeq,
        d <= t[c]->IoSeq_0,
    decreases r,
{
    if r == c {
        match t[c] {
            GraphExpr::IoSeq(p, _) => {
                lemma_spine_le(t, p as int, d);
            },
            _ => {
                assert(d == c);
            },
        }
    } else {
        lemma_spine_le(t, r, c);
        match t[r] {
            GraphExpr::IoSeq(p, _) => {
                if d == r {
                    assert(false);
                } else {
                    lemma_spine_order(t, p as int, c, d);
                }
            },
            _ => {},
        }
    }
}

/// The spine continues through each effect node's prior-effect child.
proof fn lemma_spine_extend(t: Seq<GraphExpr>, r: int, c: int)
    requires
        on_spine(t, r, c),
        t[c] is IoSeq,
        0 <= t[c]->IoSeq_0 < c,
    ensures
        on_spine(t, r, t[c]->IoSeq_0 as int),
    decreases r,
{
    let pc = t[c]->IoSeq_0;
    if r == c {
        assert(0 <= pc < t.len());
        assert(on_spine(t, pc as int, pc as int));
        assert(on_spine(t, r, pc as int));
    } else {
        match t[r] {
            GraphExpr::IoSeq(p, _) => {
                lemma_spine_extend(t, p as int, c);
                assert(on_spine(t, r, pc as int));
            },
            _ => {},
        }
    }
}

/// A scan over nodes that are not effect nodes prints nothing.
proof fn lemma_prints_upto_const(t: Seq<GraphExpr>, args: Seq<i64>, k1: int, k2: int)
    requires
        0 <= k1 <= k2,
        forall|d: int| k1 <= d < k2 ==> !((#[trigger] t[d]) is IoSeq),
    ensures
        prints_upto(t, k2, args) == prints_upto(t, k1, args),
    decreases k2 - k1,
{
    if k1 < k2 {
        lemma_prints_upto_const(t, args, k1, k2 - 1);
    }
}

/// Scanning the effect nodes in index order reproduces the chain: the
/// chain was built strictly forward, so ascending node ids reconstruct
/// program order.
proof fn lemma_prints_match(t: Seq<GraphExpr>, args: Seq<i64>, c: int)
    requires
        wf_lin(t),
        on_spine(t, t.len() - 1, c),
        chain_prints(t, c, args) is Some,
    ensures
        prints_upto(t, c + 1, args) == chain_prints(t, c, args),
    decreases c,
{
    let r = t.len() - 1;
    lemma_spine_le(t, r, c);
    match t[c] {
        GraphExpr::IoInit => {
            assert forall|d: int| 0 <= d < c + 1 implies !((#[trigger] t[d]) is IoSeq) by {
                if t[d] is IoSeq && d < c {
                    assert(is_chain_node(t[d]));
                    assert(on_spine(t, r, d));
                    lemma_spine_order(t, r, c, d);
                }
            }
            lemma_prints_upto_const(t, args, 0, c + 1);
        },
        GraphExpr::IoSeq(p, v) => {
            assert(p < c && v < c);
            assert(chain_prints(t, p as int, args) is Some);
            assert(node_eval(t, v as int, args) is Some);
            lemma_spine_extend(t, r, c);
            lemma_prints_match(t, args, p as int);
            assert forall|d: int| p + 1 <= d < c implies !((#[trigger] t[d]) is IoSeq) by {
                if t[d] is IoSeq {
                    assert(is_chain_node(t[d]));
                    assert(on_spine(t, r, d));
                    lemma_spine_order(t, r, c, d);
                }
            }
            lemma_prints_upto_const(t, args, p + 1, c);
            assert(prints_upto(t, c + 1, args) == chain_prints(t, c, args));
        },
        _ => {},
    }
}

/// Distinct keys make positions unique.
proof fn lemma_distinct_keys_eq(s: Seq<(usize, Expr)>, k1: int, k2: int)
    requires
        keys_distinct(s),
        0 <= k1 < s.len(),
        0 <= k2 < s.len(),
        s[k1].0 == s[k2].0,
    ensures
        k1 == k2,
{
    if k1 < k2 {
        assert(s[k1].0 != s[k2].0);
    } else if k2 < k1 {
        assert(s[k2].0 != s[k1].0);
    }
}

/// The inline-expression store holds `j`.
pub open spec fn has_key(s: Seq<(usize, Expr)>, j: usize) -> bool {
    exists|k: int| 0 <= k < s.len() && (#[trigger] s[k]).0 == j
}

pub open spec fn keys_distinct(s: Seq<(usize, Expr)>) -> bool {
    forall|k1: int, k2: int| 0 <= k1 < k2 < s.len() ==> s[k1].0 != s[k2].0
}

/// Removes and returns the stored expression for node `j`, if any.
fn take_exp(exps: &mut Vec<(usize, Expr)>, j: usize) -> (r: Option<Expr>)
    requires
        keys_distinct(old(exps)@),
    ensures
        keys_distinct(final(exps)@),
        match r {
            Some(e) => {
                &&& exists|k: int|
                    0 <= k < old(exps)@.len() && #[trigger] old(exps)@[k] == (j, e)
                &&& forall|k: int|
                    #![trigger final(exps)@[k]]
                    0 <= k < final(exps)@.len() ==> exists|k2: int|
                        0 <= k2 < old(exps)@.len() && #[trigger] old(exps)@[k2] == final(exps)@[k]
                &&& forall|jj: usize|
                    jj != j ==> (#[trigger] has_key(final(exps)@, jj) <==> has_key(
                        old(exps)@,
                        jj,
                    ))
                &&& !has_key(final(exps)@, j)
            },
            None => final(exps)@ == old(exps)@ && !has_key(old(exps)@, j),
        },
{
    let mut k: usize = 0;
    while k < exps.len()
        invariant
            k <= exps@.len(),
            *exps == *old(exps),
            keys_distinct(exps@),
            forall|m: int| 0 <= m < k ==> (#[trigger] exps@[m]).0 != j,
        decreases exps@.len() - k,
    {
        if exps[k].0 == j {
            let ghost s0 = exps@;
            let pair = exps.swap_remove(k);
            proof {
                let s1 = exps@;
                let kk = k as int;
                let n = s0.len() as int;
                assert(s1 =~= s0.update(kk, s0.last()).drop_last());
                assert(pair.0 == j);
                assert(s0[kk] == (j, pair.1));
                assert forall|m: int| 0 <= m < s1.len() implies exists|k2: int|
                    0 <= k2 < s0.len() && s0[k2] == #[trigger] s1[m] by {
                    if m == kk {
                        assert(s0[n - 1] == s1[m]);
                    } else {
                        assert(s0[m] == s1[m]);
                    }
                }
                assert forall|jj: usize| jj != j && has_key(s0, jj) implies #[trigger] has_key(
                    s1,
                    jj,
                ) by {
                    let m = choose|m: int| 0 <= m < s0.len() && (#[trigger] s0[m]).0 == jj;
                    assert(m != kk);
                    if m < n - 1 {
                        assert(s1[m] == if m == kk {
                            s0.last()
                        } else {
                            s0[m]
                        });
                        assert(s1[m].0 == jj);
                    } else {
                        assert(m == n - 1);
                        assert(kk < n - 1);
                        assert(s1[kk] == s0.last());
                        assert(s1[kk].0 == jj);
                    }
                }
                assert forall|jj: usize| jj != j && has_key(s1, jj) implies #[trigger] has_key(
                    s0,
                    jj,
                ) by {
                    let m = choose|m: int| 0 <= m < s1.len() && (#[trigger] s1[m]).0 == jj;
                    if m == kk {
                        assert(s0[n - 1] == s1[m]);
                    } else {
                        assert(s0[m] == s1[m]);
                    }
                }
                assert forall|m: int| 0 <= m < s1.len() implies (#[trigger] s1[m]).0 != j by {
                    if m == kk {
                        if s0.last().0 == j {
                            assert(s0[n - 1].0 == j);
                            assert(s0[kk].0 == j);
                            lemma_distinct_keys_eq(s0, kk, n - 1);
                            assert(false);
                        }
                    } else {
                        assert(s1[m] == s0[m]);
                        if s0[m].0 == j {
                            assert(s0[kk].0 == j);
                            lemma_distinct_keys_eq(s0, kk, m);
                            assert(false);
                        }
                    }
                }
                assert(!has_key(s1, j));
                assert forall|k1: int, k2: int| 0 <= k1 < k2 < s1.len() implies s1[k1].0
                    != s1[k2].0 by {
                    let a1 = if k1 == kk {
                        n - 1
                    } else {
                        k1
                    };
                    let a2 = if k2 == kk {
                        n - 1
                    } else {
                        k2
                    };
                    assert(s1[k1] == s0[a1]);
                    assert(s1[k2] == s0[a2]);
                    assert(a1 != a2);
                    if s1[k1].0 == s1[k2].0 {
                        lemma_distinct_keys_eq(s0, a1, a2);
                    }
                }
            }
            return Some(pair.1);
        }
        k = k + 1;
    }
    None
}

/// Reference counts stay below twice the scanned prefix.
proof fn lemma_count_upto_bound(t: Seq<GraphExpr>, j: int, k: int)
    ensures
        count_upto(t, j, k) <= 2 * (if k < 0 {
            0
        } else {
            k
        }),
    decreases k,
{
    if k > 0 {
        lemma_count_upto_bound(t, j, k - 1);
    }
}

fn bump(counts: &mut Vec<usize>, c: usize)
    requires
        c < old(counts)@.len(),
        old(counts)@[c as int] < 0x7fff_ffff,
    ensures
        final(counts)@ == old(counts)@.update(c as int, (old(counts)@[c as int] + 1) as usize),
{
    let v = counts[c];
    vstd::std_specs::core::index_set(counts, c, v + 1);
}

/// First pass: how often each node is referenced by the others.
fn count_uses(t: &Vec<GraphExpr>) -> (counts: Vec<usize>)
    requires
        t@.len() <= 0x1000_0000,
        term_wf(t@),
    ensures
        counts@.len() == t@.len(),
        forall|j: int| 0 <= j < t@.len() ==> counts@[j] == use_count(t@, j),
{
    let n = t.len();
    let mut counts: Vec<usize> = Vec::new();
    while counts.len() < n
        invariant
            counts@.len() <= n,
            forall|j: int| 0 <= j < counts@.len() ==> counts@[j] == 0,
        decreases n - counts@.len(),
    {
        counts.push(0);
    }
    let mut i: usize = 0;
    while i < n
        invariant
            i <= n,
            n == t@.len() <= 0x1000_0000,
            term_wf(t@),
            counts@.len() == n,
            forall|j: int| 0 <= j < n ==> counts@[j] == count_upto(t@, j, i as int),
        decreases n - i,
    {
        let ghost pre = counts@;
        proof {
            assert forall|j: int| 0 <= j < n implies count_upto(t@, j, i as int)
                < 0x7fff_fffe by {
                lemma_count_upto_bound(t@, j, i as int);
            }
            assert(node_children_lt(t@[i as int], i as int));
        }
        match t[i] {
            GraphExpr::Num(_) => {},
            GraphExpr::IoInit => {},
            GraphExpr::Add(a, b) => {
                bump(&mut counts, a);
                bump(&mut counts, b);
            },
            GraphExpr::Sub(a, b) => {
                bump(&mut counts, a);
                bump(&mut counts, b);
            },
            GraphExpr::Mul(a, b) => {
                bump(&mut counts, a);
                bump(&mut counts, b);
            },
            GraphExpr::Lt(a, b) => {
                bump(&mut counts, a);
                bump(&mut counts, b);
            },
            GraphExpr::Gt(a, b) => {
                bump(&mut counts, a);
                bump(&mut counts, b);
            },
            GraphExpr::IoSeq(a, b) => {
                bump(&mut counts, a);
                bump(&mut counts, b);
            },
            GraphExpr::ArgRef(a) => {
                bump(&mut counts, a);
            },
        }
        proof {
            assert forall|j: int| 0 <= j < n implies counts@[j] == count_upto(
                t@,
                j,
                i + 1,
            ) by {
                assert(count_upto(t@, j, i + 1) == count_upto(t@, j, i as int) + uses_in(
                    t@[i as int],
                    j,
                ));
            }
        }
        i = i + 1;
    }
    counts
}

/// How many times `name` is the target of an assignment.
pub open spec fn count_assigns(ss: Seq<Stmt>, name: Seq<char>) -> nat
    decreases ss.len(),
{
    if ss.len() == 0 {
        0
    } else {
        count_assigns(ss.drop_last(), name) + (if ss.last() matches Stmt::Assign(x, _) && x@
            == name {
            1nat
        } else {
            0nat
        })
    }
}

/// A stored inline expression: for an unshared node below the scan
/// position, and evaluating to that node's substitution value in the
/// scan's environment.
pub open spec fn entry_ok(t: Seq<GraphExpr>, i: int, entry: (usize, Expr)) -> bool {
    &&& entry.0 < i
    &&& !shared(t, entry.0 as int)
    &&& forall|args: Seq<i64>| #[trigger]
        evals_ok(t, args) ==> eval_expr(entry.1, sigma(t, i, args), args) == Some(
            lin_val(t, entry.0 as int, args),
        )
}

/// Fetches the expression standing for child `c`: a use of its temporary
/// when shared, else its stored inline expression, consumed by this use.
fn get_child(
    Ghost(tv): Ghost<Seq<GraphExpr>>,
    i: usize,
    c: usize,
    counts: &Vec<usize>,
    exps: &mut Vec<(usize, Expr)>,
) -> (e: Expr)
    requires
        c < i <= tv.len(),
        counts@.len() == tv.len(),
        forall|j: int| 0 <= j < tv.len() ==> counts@[j] == use_count(tv, j),
        keys_distinct(old(exps)@),
        forall|k: int|
            0 <= k < old(exps)@.len() ==> entry_ok(tv, i as int, #[trigger] old(exps)@[k]),
        !shared(tv, c as int) ==> has_key(old(exps)@, c),
    ensures
        keys_distinct(final(exps)@),
        forall|k: int|
            0 <= k < final(exps)@.len() ==> entry_ok(tv, i as int, #[trigger] final(exps)@[k]),
        forall|jj: usize|
            jj != c ==> (#[trigger] has_key(final(exps)@, jj) <==> has_key(old(exps)@, jj)),
        forall|args: Seq<i64>| #[trigger]
            evals_ok(tv, args) ==> eval_expr(e, sigma(tv, i as int, args), args) == Some(
                lin_val(tv, c as int, args),
            ),
{
    if counts[c] > 1 {
        let v = make_var(c);
        proof {
            assert forall|args: Seq<i64>| #[trigger]
                evals_ok(tv, args) implies eval_expr(
                Expr::Var(Var(v.0)),
                sigma(tv, i as int, args),
                args,
            ) == Some(lin_val(tv, c as int, args)) by {
                lemma_sigma_at(tv, i as int, c as int, args);
            }
        }
        Expr::Var(v)
    } else {
        match take_exp(exps, c) {
            Some(e) => {
                proof {
                    let k = choose|k: int|
                        0 <= k < old(exps)@.len() && #[trigger] old(exps)@[k] == (c, e);
                    assert(entry_ok(tv, i as int, old(exps)@[k]));
                }
                e
            },
            None => {
                proof {
                    assert(false);
                }
                Expr::Num(0)
            },
        }
    }
}

/// Fetches the expressions standing for both children of a two-child
/// node, consuming their stored inline expressions.
fn take_two(
    Ghost(tv): Ghost<Seq<GraphExpr>>,
    i: usize,
    a: usize,
    b: usize,
    counts: &Vec<usize>,
    exps: &mut Vec<(usize, Expr)>,
) -> (r: (Expr, Expr))
    requires
        i < tv.len(),
        a < i,
        b < i,
        uses_in(tv[i as int], a as int) >= 1,
        uses_in(tv[i as int], b as int) >= 1,
        a == b ==> uses_in(tv[i as int], a as int) >= 2,
        counts@.len() == tv.len(),
        forall|j: int| 0 <= j < tv.len() ==> counts@[j] == use_count(tv, j),
        keys_distinct(old(exps)@),
        forall|k: int|
            0 <= k < old(exps)@.len() ==> entry_ok(tv, i as int, #[trigger] old(exps)@[k]),
        forall|j: int|
            #![trigger count_upto(tv, j, i as int)]
            0 <= j < i && !shared(tv, j) && count_upto(tv, j, i as int) == 0 ==> has_key(
                old(exps)@,
                j as usize,
            ),
    ensures
        keys_distinct(final(exps)@),
        forall|k: int|
            0 <= k < final(exps)@.len() ==> entry_ok(tv, i as int, #[trigger] final(exps)@[k]),
        forall|jj: usize|
            jj != a && jj != b ==> (#[trigger] has_key(final(exps)@, jj) <==> has_key(
                old(exps)@,
                jj,
            )),
        forall|args: Seq<i64>| #[trigger]
            evals_ok(tv, args) ==> eval_expr(r.0, sigma(tv, i as int, args), args) == Some(
                lin_val(tv, a as int, args),
            ) && eval_expr(r.1, sigma(tv, i as int, args), args) == Some(
                lin_val(tv, b as int, args),
            ),
{
    proof {
        if !shared(tv, a as int) {
            lemma_single_use(tv, a as int, i as int);
        }
    }
    let ea = get_child(Ghost(tv), i, a, counts, exps);
    proof {
        if !shared(tv, b as int) {
            lemma_single_use(tv, b as int, i as int);
            if a == b {
                lemma_count_upto_mono(tv, b as int, i as int + 1, tv.len() as int);
                assert(count_upto(tv, b as int, i as int + 1) >= 2);
                assert(false);
            }
            assert(has_key(exps@, b));
        }
    }
    let eb = get_child(Ghost(tv), i, b, counts, exps);
    (ea, eb)
}

/// Converts the extracted term back into a sequential statement block.
///
/// A node referenced more than once is bound to a fresh temporary by
/// exactly one assignment; a node referenced at most once is substituted
/// inline and never assigned; each effect node expands to one `Print`,
/// in node order, which reconstructs program order.  Whenever the term's
/// effect chain prints a defined sequence, running the block from the
/// empty environment prints exactly that sequence.
#[verifier::loop_isolation(false)]
#[verifier::rlimit(60)]
pub fn extract_program(t: &Vec<GraphExpr>) -> (b: Block)
    requires
        wf_lin(t@),
    ensures
        forall|args: Seq<i64>|
            (#[trigger] chain_prints(t@, t@.len() - 1, args)) is Some
                ==> (run_straight(b.0@, Map::<Seq<char>, i64>::empty(), args) matches Some(res)
                && res.1 == chain_prints(t@, t@.len() - 1, args)->0),
        forall|j: int|
            0 <= j < t@.len() && shared(t@, j) ==> count_assigns(b.0@, #[trigger] vname(j)) == 1,
        forall|j: int|
            0 <= j < t@.len() && !shared(t@, j) ==> count_assigns(b.0@, #[trigger] vname(j)) == 0,
{
    let ghost tv = t@;
    let n = t.len();
    let counts = count_uses(t);
    let mut exps: Vec<(usize, Expr)> = Vec::new();
    let mut stmts: Vec<Stmt> = Vec::new();
    proof {
        assert forall|args: Seq<i64>| #[trigger] evals_ok(tv, args) implies prints_upto(
            tv,
            0,
            args,
        ) is Some && run_straight(stmts@, Map::<Seq<char>, i64>::empty(), args) == Some(
            (sigma(tv, 0, args), prints_upto(tv, 0, args)->0),
        ) by {
            assert(sigma(tv, 0, args) =~= Map::<Seq<char>, i64>::empty());
        }
    }
    let mut i: usize = 0;
    while i < n
        invariant
            i <= n,
            counts@.len() == n,
            forall|j: int| 0 <= j < n ==> counts@[j] == use_count(tv, j),
            keys_distinct(exps@),
            forall|k: int| 0 <= k < exps@.len() ==> entry_ok(tv, i as int, #[trigger] exps@[k]),
            forall|j: int|
                #![trigger count_upto(tv, j, i as int)]
                0 <= j < i && !shared(tv, j) && count_upto(tv, j, i as int) == 0 ==> has_key(
                    exps@,
                    j as usize,
                ),
            forall|args: Seq<i64>| #[trigger]
                evals_ok(tv, args) ==> prints_upto(tv, i as int, args) is Some && run_straight(
                    stmts@,
                    Map::<Seq<char>, i64>::empty(),
                    args,
                ) == Some((sigma(tv, i as int, args), prints_upto(tv, i as int, args)->0)),
            forall|j: int|
                0 <= j < n && shared(tv, j) ==> count_assigns(stmts@, #[trigger] vname(j)) == (
                if j < i {
                    1nat
                } else {
                    0nat
                }),
            forall|j: int|
                0 <= j < n && !shared(tv, j) ==> count_assigns(stmts@, #[trigger] vname(j)) == 0,
        decreases n - i,
    {
        let ghost ii = i as int;
        let ghost exps0 = exps@;
        let ghost stmts0 = stmts@;
        let node = t[i];
        proof {
            assert(node_children_lt(tv[ii], ii));
        }
        let e_i: Expr = match node {
            GraphExpr::Num(v) => Expr::Num(v),
            GraphExpr::IoInit => Expr::Num(0),
            GraphExpr::Add(a, b) => {
                let (ea, eb) = take_two(Ghost(tv), i, a, b, &counts, &mut exps);
                Expr::BinOp(BinOp::Add, Box::new(ea), Box::new(eb))
            },
            GraphExpr::Sub(a, b) => {
                let (ea, eb) = take_two(Ghost(tv), i, a, b, &counts, &mut exps);
                Expr::BinOp(BinOp::Sub, Box::new(ea), Box::new(eb))
            },
            GraphExpr::Mul(a, b) => {
                let (ea, eb) = take_two(Ghost(tv), i, a, b, &counts, &mut exps);
                Expr::BinOp(BinOp::Mul, Box::new(ea), Box::new(eb))
            },
            GraphExpr::Lt(a, b) => {
                let (ea, eb) = take_two(Ghost(tv), i, a, b, &counts, &mut exps);
                Expr::BinOp(BinOp::Lt, Box::new(ea), Box::new(eb))
            },
            GraphExpr::Gt(a, b) => {
                let (ea, eb) = take_two(Ghost(tv), i, a, b, &counts, &mut exps);
                Expr::BinOp(BinOp::Gt, Box::new(ea), Box::new(eb))
            },
            GraphExpr::ArgRef(a) => {
                proof {
                    if !shared(tv, a as int) {
                        lemma_single_use(tv, a as int, ii);
                    }
                }
                let ea = get_child(Ghost(tv), i, a, &counts, &mut exps);
                Expr::Input(Box::new(ea))
            },
            GraphExpr::IoSeq(p, v) => {
                let (ep, ev) = take_two(Ghost(tv), i, p, v, &counts, &mut exps);
                stmts.push(Stmt::Print(Box::new(ev)));
                proof {
                    let prnt = Stmt::Print(Box::new(ev));
                    assert(stmts@.drop_last() =~= stmts0);
                    assert(stmts@ =~= stmts0.push(prnt));
                    assert forall|nm: Seq<char>| #[trigger]
                        count_assigns(stmts@, nm) == count_assigns(stmts0, nm) by {}
                    assert forall|args: Seq<i64>| #[trigger]
                        evals_ok(tv, args) implies prints_upto(tv, ii + 1, args) is Some
                        && run_straight(stmts@, Map::<Seq<char>, i64>::empty(), args) == Some(
                        (sigma(tv, ii, args), prints_upto(tv, ii + 1, args)->0),
                    ) by {
                        lemma_run_straight_snoc(
                            stmts0,
                            prnt,
                            Map::<Seq<char>, i64>::empty(),
                            args,
                        );
                        assert(eval_expr(ev, sigma(tv, ii, args), args) == Some(
                            lin_val(tv, v as int, args),
                        ));
                        assert(!(tv[v as int] is IoSeq));
                        assert(node_eval(tv, v as int, args) is Some) by {
                            if is_chain_node(tv[v as int]) {
                                assert(tv[v as int] is IoInit);
                            }
                        }
                        assert(lin_val(tv, v as int, args) == node_eval(tv, v as int, args)->0)
                            by {
                            if is_chain_node(tv[v as int]) {
                                assert(tv[v as int] is IoInit);
                            }
                        }
                        assert(prints_upto(tv, ii + 1, args) == Some(
                            prints_upto(tv, ii, args)->0.push(node_eval(tv, v as int, args)->0),
                        ));
                    }
                }
                Expr::Num(0)
            },
        };
        proof {
            // the expression stands for the node's substitution value
            assert forall|args: Seq<i64>| #[trigger]
                evals_ok(tv, args) implies eval_expr(e_i, sigma(tv, ii, args), args) == Some(
                lin_val(tv, ii, args),
            ) by {
                match tv[ii] {
                    GraphExpr::Num(_) => {},
                    GraphExpr::IoInit => {},
                    GraphExpr::IoSeq(_, _) => {},
                    GraphExpr::ArgRef(a) => {
                        assert(node_eval(tv, ii, args) is Some);
                        lemma_child_val(tv, a as int, args);
                    },
                    GraphExpr::Add(a, b) => {
                        assert(node_eval(tv, ii, args) is Some);
                        lemma_child_val(tv, a as int, args);
                        lemma_child_val(tv, b as int, args);
                    },
                    GraphExpr::Sub(a, b) => {
                        assert(node_eval(tv, ii, args) is Some);
                        lemma_child_val(tv, a as int, args);
                        lemma_child_val(tv, b as int, args);
                    },
                    GraphExpr::Mul(a, b) => {
                        assert(node_eval(tv, ii, args) is Some);
                        lemma_child_val(tv, a as int, args);
                        lemma_child_val(tv, b as int, args);
                    },
                    GraphExpr::Lt(a, b) => {
                        assert(node_eval(tv, ii, args) is Some);
                        lemma_child_val(tv, a as int, args);
                        lemma_child_val(tv, b as int, args);
                    },
                    GraphExpr::Gt(a, b) => {
                        assert(node_eval(tv, ii, args) is Some);
                        lemma_child_val(tv, a as int, args);
                        lemma_child_val(tv, b as int, args);
                    },
                }
            }
            // prints and run state for arms that printed nothing
            if !(tv[ii] is IoSeq) {
                assert forall|args: Seq<i64>| #[trigger]
                    evals_ok(tv, args) implies prints_upto(tv, ii + 1, args) is Some
                    && run_straight(stmts@, Map::<Seq<char>, i64>::empty(), args) == Some(
                    (sigma(tv, ii, args), prints_upto(tv, ii + 1, args)->0),
                ) by {
                    assert(prints_upto(tv, ii + 1, args) == prints_upto(tv, ii, args));
                }
            }
        }
        let ghost stmts1 = stmts@;
        let ghost exps1 = exps@;
        if counts[i] > 1 {
            let xv = make_var(i);
            stmts.push(Stmt::Assign(xv, Box::new(e_i)));
        } else {
            exps.push((i, e_i));
        }
        proof {
            assert forall|args: Seq<i64>| true implies #[trigger] sigma(tv, ii + 1, args)
                == (if shared(tv, ii) {
                sigma(tv, ii, args).insert(vname(ii), lin_val(tv, ii, args))
            } else {
                sigma(tv, ii, args)
            }) by {
                lemma_sigma_step(tv, ii, args);
            }
            assert forall|args: Seq<i64>| true implies !(#[trigger] sigma(
                tv,
                ii,
                args,
            )).dom().contains(vname(ii)) by {
                if sigma(tv, ii, args).dom().contains(vname(ii)) {
                    let j = choose|j: int|
                        0 <= j < ii && shared(tv, j) && vname(ii) == #[trigger] vname(j);
                    lemma_vname_injective(j, ii);
                }
            }
            if shared(tv, ii) {
                assert(stmts@.drop_last() =~= stmts1);
                assert forall|j: int| 0 <= j < n implies count_assigns(
                    stmts@,
                    #[trigger] vname(j),
                ) == count_assigns(stmts1, vname(j)) + (if j == ii {
                    1nat
                } else {
                    0nat
                }) by {
                    if j != ii {
                        lemma_vname_injective(j, ii);
                    }
                }
                let asn = stmts@.last();
                assert(stmts@ =~= stmts1.push(asn));
                assert(asn matches Stmt::Assign(x, e) && x@ == vname(ii) && *e == e_i);
                assert forall|args: Seq<i64>| #[trigger]
                    evals_ok(tv, args) implies run_straight(
                    stmts@,
                    Map::<Seq<char>, i64>::empty(),
                    args,
                ) == Some((sigma(tv, ii + 1, args), prints_upto(tv, ii + 1, args)->0)) by {
                    lemma_run_straight_snoc(stmts1, asn, Map::<Seq<char>, i64>::empty(), args);
                }
            } else {
                assert(exps@.drop_last() =~= exps1);
                assert(exps@.last() == (i, e_i));
                assert(count_upto(tv, ii, ii + 1) == 0) by {
                    lemma_no_early_uses(tv, ii, ii + 1);
                }
            }
            // surviving entries still stand for their nodes
            assert forall|k: int|
                0 <= k < exps@.len() implies entry_ok(tv, ii + 1, #[trigger] exps@[k]) by {
                let entry = exps@[k];
                assert(entry_ok(tv, ii, entry) || entry == (i, e_i));
                assert forall|args: Seq<i64>| #[trigger]
                    evals_ok(tv, args) implies eval_expr(
                    entry.1,
                    sigma(tv, ii + 1, args),
                    args,
                ) == Some(lin_val(tv, entry.0 as int, args)) by {
                    if shared(tv, ii) {
                        lemma_eval_expr_mono(
                            entry.1,
                            sigma(tv, ii, args),
                            sigma(tv, ii + 1, args),
                            args,
                        );
                    }
                }
            }
            // every unshared, still-unused node keeps its stored expression
            assert forall|j: int|
                #![trigger count_upto(tv, j, ii + 1)]
                0 <= j < ii + 1 && !shared(tv, j) && count_upto(tv, j, ii + 1) == 0
                    implies has_key(exps@, j as usize) by {
                if j == ii {
                    assert(!shared(tv, ii));
                    assert(exps@.last() == (i, e_i));
                    assert(exps@[exps@.len() - 1].0 == j as usize);
                } else {
                    assert(count_upto(tv, j, ii + 1) == count_upto(tv, j, ii) + uses_in(
                        tv[ii],
                        j,
                    ));
                    assert(has_key(exps0, j as usize));
                    assert(has_key(exps1, j as usize));
                    if !shared(tv, ii) {
                        assert(has_key(exps1, j as usize) ==> has_key(exps@, j as usize)) by {
                            if has_key(exps1, j as usize) {
                                let k = choose|k: int|
                                    0 <= k < exps1.len() && (#[trigger] exps1[k]).0 == (
                                j as usize);
                                assert(exps@[k].0 == j as usize);
                            }
                        }
                    }
                }
            }
        }
        i = i + 1;
    }
    let b = Block(stmts);
    proof {
        assert forall|args: Seq<i64>|
            (#[trigger] chain_prints(tv, tv.len() - 1, args)) is Some implies (run_straight(
            b.0@,
            Map::<Seq<char>, i64>::empty(),
            args,
        ) matches Some(res) && res.1 == chain_prints(tv, tv.len() - 1, args)->0) by {
            lemma_evals_ok(tv, args);
            assert(on_spine(tv, tv.len() - 1, tv.len() - 1));
            lemma_prints_match(tv, args, tv.len() - 1);
        }
    }
    b
}

/// A node is never referenced before it exists.
proof fn lemma_no_early_uses(t: Seq<GraphExpr>, j: int, k: int)
    requires
        term_wf(t),
        k <= j + 1,
        0 <= j < t.len(),
    ensures
        count_upto(t, j, k) == 0,
    decreases k,
{
    if k > 0 {
        lemma_no_early_uses(t, j, k - 1);
        assert(node_children_lt(t[k - 1], k - 1));
    }
}

/// The substitution value of a value node's child is the child's value.
proof fn lemma_child_val(t: Seq<GraphExpr>, c: int, args: Seq<i64>)
    requires
        0 <= c < t.len(),
        node_eval(t, c, args) is Some,
    ensures
        lin_val(t, c, args) == node_eval(t, c, args)->0,
{
    if is_chain_node(t[c]) {
        assert(t[c] is IoInit);
    }
}

/// Checks that an extracted term satisfies the linearization
/// conditions; accepted terms are safe to hand to `extract_program`.
#[verifier::loop_isolation(false)]
pub fn check_term(t: &Vec<GraphExpr>) -> (ok: bool)
    ensures
        ok ==> wf_lin(t@),
{
    let n = t.len();
    if n == 0 || n > 0x1000_0000 {
        return false;
    }
    let mut i: usize = 0;
    while i < n
        invariant
            i <= n,
            forall|k: int| 0 <= k < i ==> node_children_lt(#[trigger] t@[k], k),
            forall|k: int|
                0 <= k < i ==> ((#[trigger] t@[k]) matches GraphExpr::IoSeq(p, v) ==> !(t@[
                    v as int
                ] is IoSeq)),
        decreases n - i,
    {
        let good = match t[i] {
            GraphExpr::Num(_) => true,
            GraphExpr::IoInit => true,
            GraphExpr::Add(a, b) => a < i && b < i,
            GraphExpr::Sub(a, b) => a < i && b < i,
            GraphExpr::Mul(a, b) => a < i && b < i,
            GraphExpr::Lt(a, b) => a < i && b < i,
            GraphExpr::Gt(a, b) => a < i && b < i,
            GraphExpr::ArgRef(a) => a < i,
            GraphExpr::IoSeq(p, v) => p < i && v < i && !(matches!(t[v], GraphExpr::IoSeq(_, _))),
        };
        if !good {
            return false;
        }
        i = i + 1;
    }
    proof {
        assert(term_wf(t@));
    }
    let last_ok = match t[n - 1] {
        GraphExpr::IoInit => true,
        GraphExpr::IoSeq(_, _) => true,
        _ => false,
    };
    if !last_ok {
        return false;
    }
    // walk the spine from the root, marking its members
    let mut on: Vec<bool> = Vec::new();
    while on.len() < n
        invariant
            on@.len() <= n,
            forall|j: int| 0 <= j < on@.len() ==> !(#[trigger] on@[j]),
        decreases n - on@.len(),
    {
        on.push(false);
    }
    vstd::std_specs::core::index_set(&mut on, n - 1, true);
    let mut cur: usize = n - 1;
    proof {
        assert(on_spine(t@, n - 1, n - 1));
    }
    #[verifier::loop_isolation(true)]
    loop
        invariant_except_break
            n == t@.len(),
            0 < n <= 0x1000_0000,
            term_wf(t@),
            cur < n,
            on@.len() == n,
            on_spine(t@, n - 1, cur as int),
            forall|j: int| 0 <= j < n && #[trigger] on@[j] ==> on_spine(t@, n - 1, j),
        ensures
            on@.len() == n,
            forall|j: int| 0 <= j < n && #[trigger] on@[j] ==> on_spine(t@, n - 1, j),
        decreases cur,
    {
        match t[cur] {
            GraphExpr::IoSeq(p, _) => {
                proof {
                    assert(node_children_lt(t@[cur as int], cur as int));
                    lemma_spine_extend(t@, n - 1, cur as int);
                }
                vstd::std_specs::core::index_set(&mut on, p, true);
                cur = p;
            },
            _ => {
                break;
            },
        }
    }
    let mut j: usize = 0;
    while j < n
        invariant
            j <= n,
            on@.len() == n,
            forall|k: int| 0 <= k < n && #[trigger] on@[k] ==> on_spine(t@, n - 1, k),
            forall|k: int| 0 <= k < j && is_chain_node(#[trigger] t@[k]) ==> on_spine(t@, n - 1, k),
        decreases n - j,
    {
        let chain = match t[j] {
            GraphExpr::IoInit => true,
            GraphExpr::IoSeq(_, _) => true,
            _ => false,
        };
        if chain && !on[j] {
            return false;
        }
        j = j + 1;
    }
    // every node but the root must be referenced
    let mut refd: Vec<bool> = Vec::new();
    while refd.len() < n
        invariant
            refd@.len() <= n,
            forall|k: int| 0 <= k < refd@.len() ==> !(#[trigger] refd@[k]),
        decreases n - refd@.len(),
    {
        refd.push(false);
    }
    let mut i2: usize = 0;
    while i2 < n
        invariant
            i2 <= n,
            refd@.len() == n,
            forall|k: int| 0 <= k < n && #[trigger] refd@[k] ==> has_user(t@, k),
        decreases n - i2,
    {
        proof {
            assert(node_children_lt(t@[i2 as int], i2 as int));
        }
        match t[i2] {
            GraphExpr::Num(_) => {},
            GraphExpr::IoInit => {},
            GraphExpr::Add(a, b) => {
                mark_user(Ghost(t@), Ghost(i2 as int), &mut refd, a);
                mark_user(Ghost(t@), Ghost(i2 as int), &mut refd, b);
            },
            GraphExpr::Sub(a, b) => {
                mark_user(Ghost(t@), Ghost(i2 as int), &mut refd, a);
                mark_user(Ghost(t@), Ghost(i2 as int), &mut refd, b);
            },
            GraphExpr::Mul(a, b) => {
                mark_user(Ghost(t@), Ghost(i2 as int), &mut refd, a);
                mark_user(Ghost(t@), Ghost(i2 as int), &mut refd, b);
            },
            GraphExpr::Lt(a, b) => {
                mark_user(Ghost(t@), Ghost(i2 as int), &mut refd, a);
                mark_user(Ghost(t@), Ghost(i2 as int), &mut refd, b);
            },
            GraphExpr::Gt(a, b) => {
                mark_user(Ghost(t@), Ghost(i2 as int), &mut refd, a);
                mark_user(Ghost(t@), Ghost(i2 as int), &mut refd, b);
            },
            GraphExpr::ArgRef(a) => {
                mark_user(Ghost(t@), Ghost(i2 as int), &mut refd, a);
            },
            GraphExpr::IoSeq(a, b) => {
                mark_user(Ghost(t@), Ghost(i2 as int), &mut refd, a);
                mark_user(Ghost(t@), Ghost(i2 as int), &mut refd, b);
            },
        }
        i2 = i2 + 1;
    }
    let mut j2: usize = 0;
    while j2 < n
        invariant
            j2 <= n,
            refd@.len() == n,
            forall|k: int| 0 <= k < n && #[trigger] refd@[k] ==> has_user(t@, k),
            forall|k: int| 0 <= k < j2 && k < n - 1 ==> has_user(t@, k),
        decreases n - j2,
    {
        if j2 < n - 1 && !refd[j2] {
            return false;
        }
        j2 = j2 + 1;
    }
    proof {
        assert(wf_lin(t@));
    }
    true
}

/// Records that node `c`, a child of node `i`, has a user.
fn mark_user(
    Ghost(tv): Ghost<Seq<GraphExpr>>,
    Ghost(i): Ghost<int>,
    refd: &mut Vec<bool>,
    c: usize,
)
    requires
        0 <= i < tv.len(),
        c < old(refd)@.len(),
        uses_in(tv[i], c as int) >= 1,
        forall|k: int| 0 <= k < old(refd)@.len() && #[trigger] old(refd)@[k] ==> has_user(tv, k),
    ensures
        final(refd)@.len() == old(refd)@.len(),
        forall|k: int| 0 <= k < final(refd)@.len() && #[trigger] final(refd)@[k] ==> has_user(
            tv,
            k,
        ),
{
    proof {
        assert(has_user(tv, c as int));
    }
    vstd::std_specs::core::index_set(refd, c, true);
}

} // verus!
