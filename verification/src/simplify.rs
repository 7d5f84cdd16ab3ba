//! Simplification of expressions.
//!
//! [`Expression::minimize`] rewrites a tree bottom-up, one node at a time.
//! [`rule_for`] says which rewrite a node gets; [`lemma_minimized_sound`]
//! shows that no rewrite changes a value the tree had.

use crate::symbolic::{fits_i64, lemma_trunc_rem_bound, lemma_trunc_rem_small, trunc_div, Expression, Op};
use vstd::prelude::*;

verus! {

/// The rewrite chosen for one node `l op r`.
#[derive(Debug, Clone, Copy, PartialEq, Eq, Structural)]
pub enum Rule {
    /// Both operands are literals: the node becomes the literal result.
    Fold(i64),
    /// The node becomes its left operand.
    Left,
    /// The node becomes its right operand.
    Right,
    /// The node becomes the literal 0.
    Zero,
    /// `(x op a) op b` with literals `a`, `b` becomes `x op c`.
    Regroup(i64),
    /// The node stays.
    Keep,
}

/// Whether `l op r` has the shape `(x op a) op b` with literals `a` and `b`.
pub open spec fn is_chain(op: Op, l: Expression, r: Expression) -> bool {
    &&& l matches Expression::Binary(inner, _, a)
    &&& inner == op
    &&& *a is Num
    &&& r is Num
}

/// The literal `a` of a chain `(x op a) op b`.
pub open spec fn chain_left(l: Expression) -> int {
    match l {
        Expression::Binary(_, _, a) => match *a {
            Expression::Num(n) => n as int,
            _ => 0,
        },
        _ => 0,
    }
}

/// The operand `x` of a chain `(x op a) op b`.
pub open spec fn chain_head(l: Expression) -> Expression {
    match l {
        Expression::Binary(_, x, _) => *x,
        _ => l,
    }
}

/// The value of a literal; 0 for anything else.
pub open spec fn num_value(e: Expression) -> int {
    match e {
        Expression::Num(n) => n as int,
        _ => 0,
    }
}

/// Whether `l mod r` has the shape `(x mod m) mod n` with literals
/// `0 < m <= n`.
pub open spec fn is_nested_mod(l: Expression, r: Expression) -> bool {
    &&& is_chain(Op::Mod, l, r)
    &&& 0 < chain_left(l) <= num_value(r)
}

/// The rewrite for the node `l op r`.
pub open spec fn rule_for(op: Op, l: Expression, r: Expression) -> Rule {
    if l is Num && r is Num && op.apply_fixed(num_value(l), num_value(r)) is Ok {
        Rule::Fold(op.apply_fixed(num_value(l), num_value(r))->Ok_0 as i64)
    } else {
        match op {
            Op::Add => if r == Expression::Num(0) {
                Rule::Left
            } else if l == Expression::Num(0) {
                Rule::Right
            } else if is_chain(Op::Add, l, r) && fits_i64(chain_left(l) + num_value(r)) {
                Rule::Regroup((chain_left(l) + num_value(r)) as i64)
            } else {
                Rule::Keep
            },
            Op::Sub => if r == Expression::Num(0) {
                Rule::Left
            } else if l == r {
                Rule::Zero
            } else {
                Rule::Keep
            },
            Op::Mul => if r == Expression::Num(0) || l == Expression::Num(0) {
                Rule::Zero
            } else if r == Expression::Num(1) {
                Rule::Left
            } else if l == Expression::Num(1) {
                Rule::Right
            } else if is_chain(Op::Mul, l, r) && fits_i64(chain_left(l) * num_value(r)) {
                Rule::Regroup((chain_left(l) * num_value(r)) as i64)
            } else {
                Rule::Keep
            },
            Op::Div => if r == Expression::Num(1) {
                Rule::Left
            } else {
                Rule::Keep
            },
            Op::Mod => if is_nested_mod(l, r) {
                Rule::Left
            } else {
                Rule::Keep
            },
            Op::Min => if l == r {
                Rule::Left
            } else {
                Rule::Keep
            },
            Op::Max => if l == r {
                Rule::Left
            } else {
                Rule::Keep
            },
            _ => Rule::Keep,
        }
    }
}

/// The node `l op r` after `rule`.
pub open spec fn rewrite(rule: Rule, op: Op, l: Expression, r: Expression) -> Expression {
    match rule {
        Rule::Fold(v) => Expression::Num(v),
        Rule::Left => l,
        Rule::Right => r,
        Rule::Zero => Expression::Num(0),
        Rule::Regroup(c) => match l {
            Expression::Binary(inner, x, _) => Expression::Binary(
                inner,
                x,
                Box::new(Expression::Num(c)),
            ),
            _ => Expression::spec_binary(op, l, r),
        },
        Rule::Keep => Expression::spec_binary(op, l, r),
    }
}

/// The node `l op r`, simplified at its root.
pub open spec fn simplify_node(op: Op, l: Expression, r: Expression) -> Expression {
    rewrite(rule_for(op, l, r), op, l, r)
}

impl Expression {
    /// The simplified tree: every node, children first, replaced by
    /// [`simplify_node`] of it.
    pub open spec fn minimized(self) -> Expression
        decreases self,
    {
        match self {
            Expression::Binary(op, l, r) => simplify_node(op, l.minimized(), r.minimized()),
            _ => self,
        }
    }

    /// The number of nodes of the tree.
    pub open spec fn size(self) -> nat
        decreases self,
    {
        match self {
            Expression::Binary(_, l, r) => 1 + l.size() + r.size(),
            _ => 1,
        }
    }

    /// Whether every value of the expression is 0 or 1 by its form alone.
    pub open spec fn is_truth_valued(self) -> bool {
        match self {
            Expression::Num(n) => n == 0 || n == 1,
            Expression::Var(_) => false,
            Expression::Binary(op, _, _) => op.is_predicate(),
        }
    }

    fn literal(&self) -> (r: Option<i64>)
        ensures
            r matches Some(n) ==> *self == Expression::Num(n),
            r is None ==> !(*self is Num),
    {
        match self {
            Expression::Num(n) => Some(*n),
            _ => None,
        }
    }

    fn is_literal(&self, n: i64) -> (r: bool)
        ensures
            r == (*self == Expression::Num(n)),
    {
        match self {
            Expression::Num(m) => *m == n,
            _ => false,
        }
    }

    /// The literals `a`, `b` of a chain `(x op a) op b`.
    fn chain_literals(op: Op, l: &Expression, r: &Expression) -> (out: Option<(i64, i64)>)
        ensures
            out is Some == is_chain(op, *l, *r),
            out matches Some(p) ==> p.0 == chain_left(*l) && p.1 == num_value(*r),
    {
        match l {
            Expression::Binary(inner, _, a) => {
                if *inner == op {
                    match ((**a).literal(), r.literal()) {
                        (Some(a), Some(b)) => Some((a, b)),
                        _ => None,
                    }
                } else {
                    None
                }
            },
            _ => None,
        }
    }

    /// Chooses the rewrite for the node `l op r`.
    pub fn choose_rule(op: Op, l: &Expression, r: &Expression) -> (rule: Rule)
        ensures
            rule == rule_for(op, *l, *r),
    {
        match (l.literal(), r.literal()) {
            (Some(a), Some(b)) => {
                match op.compute(a, b) {
                    Ok(v) => {
                        return Rule::Fold(v);
                    },
                    Err(_) => {},
                }
            },
            _ => {},
        }
        match op {
            Op::Add => {
                if r.is_literal(0) {
                    Rule::Left
                } else if l.is_literal(0) {
                    Rule::Right
                } else {
                    match Expression::chain_literals(Op::Add, l, r) {
                        Some((a, b)) => match a.checked_add(b) {
                            Some(c) => Rule::Regroup(c),
                            None => Rule::Keep,
                        },
                        None => Rule::Keep,
                    }
                }
            },
            Op::Sub => {
                if r.is_literal(0) {
                    Rule::Left
                } else if l.same(r) {
                    Rule::Zero
                } else {
                    Rule::Keep
                }
            },
            Op::Mul => {
                if r.is_literal(0) || l.is_literal(0) {
                    Rule::Zero
                } else if r.is_literal(1) {
                    Rule::Left
                } else if l.is_literal(1) {
                    Rule::Right
                } else {
                    match Expression::chain_literals(Op::Mul, l, r) {
                        Some((a, b)) => match a.checked_mul(b) {
                            Some(c) => Rule::Regroup(c),
                            None => Rule::Keep,
                        },
                        None => Rule::Keep,
                    }
                }
            },
            Op::Div => {
                if r.is_literal(1) {
                    Rule::Left
                } else {
                    Rule::Keep
                }
            },
            Op::Mod => {
                match Expression::chain_literals(Op::Mod, l, r) {
                    Some((m, n)) => if 0 < m && m <= n {
                        Rule::Left
                    } else {
                        Rule::Keep
                    },
                    None => Rule::Keep,
                }
            },
            Op::Min => {
                if l.same(r) {
                    Rule::Left
                } else {
                    Rule::Keep
                }
            },
            Op::Max => {
                if l.same(r) {
                    Rule::Left
                } else {
                    Rule::Keep
                }
            },
            _ => Rule::Keep,
        }
    }

    /// Builds the node `l op r`, simplified at its root.
    pub fn simplified(op: Op, l: Expression, r: Expression) -> (out: Expression)
        ensures
            out == simplify_node(op, l, r),
    {
        let rule = Expression::choose_rule(op, &l, &r);
        match rule {
            Rule::Fold(v) => Expression::Num(v),
            Rule::Left => l,
            Rule::Right => r,
            Rule::Zero => Expression::Num(0),
            Rule::Regroup(c) => match l {
                Expression::Binary(inner, x, _) => Expression::Binary(
                    inner,
                    x,
                    Box::new(Expression::Num(c)),
                ),
                other => Expression::binary(op, other, r),
            },
            Rule::Keep => Expression::binary(op, l, r),
        }
    }

    /// Simplifies the whole tree. The result is no larger, and has every
    /// value that the tree has.
    pub fn minimize(self) -> (out: Expression)
        ensures
            out == self.minimized(),
            out.size() <= self.size(),
            forall|env: Map<char, int>|
                self.eval(env) is Some ==> #[trigger] out.eval(env) == self.eval(env),
    {
        proof {
            lemma_minimized_no_larger(self);
            assert forall|env: Map<char, int>| self.eval(env) is Some implies #[trigger] self.minimized().eval(
                env,
            ) == self.eval(env) by {
                lemma_minimized_sound(self, env);
            }
        }
        self.minimize_tree()
    }

    fn minimize_tree(self) -> (out: Expression)
        ensures
            out == self.minimized(),
        decreases self,
    {
        match self {
            Expression::Binary(op, l, r) => {
                let l2 = (*l).minimize_tree();
                let r2 = (*r).minimize_tree();
                Expression::simplified(op, l2, r2)
            },
            other => other,
        }
    }
}

/// A node that has a value keeps it when simplified at its root.
pub proof fn lemma_simplify_node_sound(op: Op, l: Expression, r: Expression, env: Map<char, int>)
    ensures
        Expression::spec_binary(op, l, r).eval(env) matches Some(v) ==> simplify_node(
            op,
            l,
            r,
        ).eval(env) == Some(v),
{
    reveal_with_fuel(Expression::eval, 3);
    let node = Expression::spec_binary(op, l, r);
    if node.eval(env) is Some {
        let a = l.eval(env)->Some_0;
        let b = r.eval(env)->Some_0;
        let v = node.eval(env)->Some_0;
        match rule_for(op, l, r) {
            Rule::Regroup(c) => {
                let xv = chain_head(l).eval(env)->Some_0;
                if op == Op::Mul {
                    assert((xv * chain_left(l)) * num_value(r) == xv * (chain_left(l) * num_value(
                        r,
                    ))) by (nonlinear_arith);
                }
            },
            Rule::Left => {
                if op == Op::Mod {
                    let xv = chain_head(l).eval(env)->Some_0;
                    lemma_trunc_rem_bound(xv, chain_left(l));
                    lemma_trunc_rem_small(a, num_value(r));
                } else if op == Op::Div {
                    assert(trunc_div(a, 1) == a);
                } else if op == Op::Mul {
                    assert(a * 1 == a);
                }
            },
            Rule::Right => {
                if op == Op::Mul {
                    assert(1 * b == b);
                }
            },
            Rule::Zero => {
                if op == Op::Mul {
                    assert(a * 0 == 0);
                    assert(0 * b == 0);
                }
            },
            _ => {},
        }
    }
}

/// Simplification keeps every value: where the expression evaluates under
/// `env`, the simplified expression evaluates to the same integer.
pub proof fn lemma_minimized_sound(e: Expression, env: Map<char, int>)
    ensures
        e.eval(env) matches Some(v) ==> e.minimized().eval(env) == Some(v),
    decreases e,
{
    match e {
        Expression::Binary(op, l, r) => {
            lemma_minimized_sound(*l, env);
            lemma_minimized_sound(*r, env);
            if e.eval(env) is Some {
                lemma_simplify_node_sound(op, l.minimized(), r.minimized(), env);
            }
        },
        _ => {},
    }
}

/// A node simplified at its root is no larger than the node.
pub proof fn lemma_simplify_node_no_larger(op: Op, l: Expression, r: Expression)
    ensures
        simplify_node(op, l, r).size() <= 1 + l.size() + r.size(),
{
    reveal_with_fuel(Expression::size, 3);
}

/// The simplified tree is no larger than the tree.
pub proof fn lemma_minimized_no_larger(e: Expression)
    ensures
        e.minimized().size() <= e.size(),
    decreases e,
{
    match e {
        Expression::Binary(op, l, r) => {
            lemma_minimized_no_larger(*l);
            lemma_minimized_no_larger(*r);
            lemma_simplify_node_no_larger(op, l.minimized(), r.minimized());
        },
        _ => {},
    }
}

/// A node under a comparison or a logical operator stays 0-or-1 valued when
/// simplified: it is folded to 0 or 1, or kept.
pub proof fn lemma_minimized_truth_valued(e: Expression)
    requires
        e.is_truth_valued(),
    ensures
        e.minimized().is_truth_valued(),
{
}

/// Every value of a 0-or-1 valued expression is 0 or 1.
pub proof fn lemma_truth_values(e: Expression, env: Map<char, int>)
    requires
        e.is_truth_valued(),
    ensures
        e.eval(env) matches Some(v) ==> v == 0 || v == 1,
{
}

} // verus!
