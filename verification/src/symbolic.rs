//! Symbolic integer expressions over single-character variables.
//!
//! An [`Expression`] is an immutable tree. Its meaning is given by
//! [`Expression::eval`], a total function into `Option<int>` over unbounded
//! integers; the executable evaluator [`Expression::exec`] works in 64-bit
//! arithmetic and reports every fault it meets.

use crate::hashing::lookup_var;
use rustc_hash::FxHashMap;
use vstd::prelude::*;

verus! {

/// The binary operators of the expression language.
#[derive(Debug, Clone, Copy, PartialEq, Eq, Structural)]
pub enum Op {
    Add,
    Sub,
    Mul,
    Div,
    Mod,
    Min,
    Max,
    Gte,
    Lt,
    And,
    Or,
}

/// Why an expression has no value in 64-bit arithmetic.
#[derive(Debug, Clone, Copy, PartialEq, Eq, Structural)]
pub enum EvalError {
    /// A variable of the expression has no binding.
    UnresolvedVariable,
    /// A divisor or modulus evaluated to zero.
    DivisionByZero,
    /// A binding or an intermediate result does not fit in an `i64`.
    Overflow,
}

/// An arithmetic expression tree.
#[derive(Debug)]
pub enum Expression {
    /// An integer literal.
    Num(i64),
    /// A named variable.
    Var(char),
    /// An operator applied to two operands.
    Binary(Op, Box<Expression>, Box<Expression>),
}

/// The heap form used for derived expressions. Both forms share one tree
/// representation.
pub type BigExpression = Expression;

/// The name that marks a dimension nobody has fixed yet.
pub const UNKNOWN_VAR: char = '-';

/// Quotient of `x` by `d`, rounded toward zero.
pub open spec fn trunc_div(x: int, d: int) -> int
    recommends
        d != 0,
{
    if x >= 0 && d > 0 {
        x / d
    } else if x < 0 && d < 0 {
        (-x) / (-d)
    } else if x < 0 {
        -((-x) / d)
    } else {
        -(x / (-d))
    }
}

/// Remainder of `x` by `d` with the sign of `x`.
pub open spec fn trunc_rem(x: int, d: int) -> int
    recommends
        d != 0,
{
    x - d * trunc_div(x, d)
}

/// 1 for true, 0 for false.
pub open spec fn truth(b: bool) -> int {
    if b {
        1
    } else {
        0
    }
}

/// Whether `v` is a value of `i64`.
pub open spec fn fits_i64(v: int) -> bool {
    i64::MIN <= v <= i64::MAX
}

/// The integer bindings that a map of `usize` values stands for.
pub open spec fn env_of(m: Map<char, usize>) -> Map<char, int> {
    Map::new(|c: char| m.contains_key(c), |c: char| m[c] as int)
}

impl Op {
    /// The operator on unbounded integers; `None` for a zero divisor.
    pub open spec fn apply(self, a: int, b: int) -> Option<int> {
        match self {
            Op::Add => Some(a + b),
            Op::Sub => Some(a - b),
            Op::Mul => Some(a * b),
            Op::Div => if b == 0 {
                None
            } else {
                Some(trunc_div(a, b))
            },
            Op::Mod => if b == 0 {
                None
            } else {
                Some(trunc_rem(a, b))
            },
            Op::Min => Some(if a <= b {
                a
            } else {
                b
            }),
            Op::Max => Some(if a >= b {
                a
            } else {
                b
            }),
            Op::Gte => Some(truth(a >= b)),
            Op::Lt => Some(truth(a < b)),
            Op::And => Some(truth(a != 0 && b != 0)),
            Op::Or => Some(truth(a != 0 || b != 0)),
        }
    }

    /// The operator in 64-bit arithmetic.
    pub open spec fn apply_fixed(self, a: int, b: int) -> Result<int, EvalError> {
        match self.apply(a, b) {
            None => Err(EvalError::DivisionByZero),
            Some(v) => if fits_i64(v) {
                Ok(v)
            } else {
                Err(EvalError::Overflow)
            },
        }
    }

    /// Whether every value of the operator is 0 or 1.
    pub open spec fn is_predicate(self) -> bool {
        self == Op::Gte || self == Op::Lt || self == Op::And || self == Op::Or
    }

    /// Applies the operator to two 64-bit values.
    pub fn compute(self, a: i64, b: i64) -> (r: Result<i64, EvalError>)
        ensures
            r matches Ok(v) ==> self.apply_fixed(a as int, b as int) == Ok::<int, EvalError>(
                v as int,
            ),
            r matches Err(e) ==> self.apply_fixed(a as int, b as int) == Err::<int, EvalError>(e),
    {
        let out: Option<i64> = match self {
            Op::Add => a.checked_add(b),
            Op::Sub => a.checked_sub(b),
            Op::Mul => a.checked_mul(b),
            Op::Div => {
                if b == 0 {
                    return Err(EvalError::DivisionByZero);
                }
                proof {
                    lemma_trunc_div_cases(a as int, b as int);
                }
                a.checked_div(b)
            },
            Op::Mod => {
                if b == 0 {
                    return Err(EvalError::DivisionByZero);
                }
                proof {
                    lemma_trunc_rem_cases(a as int, b as int);
                    lemma_trunc_rem_bound(a as int, b as int);
                }
                if b == -1 {
                    Some(0)
                } else {
                    a.checked_rem(b)
                }
            },
            Op::Min => Some(if a <= b {
                a
            } else {
                b
            }),
            Op::Max => Some(if a >= b {
                a
            } else {
                b
            }),
            Op::Gte => Some(if a >= b {
                1
            } else {
                0
            }),
            Op::Lt => Some(if a < b {
                1
            } else {
                0
            }),
            Op::And => Some(if a != 0 && b != 0 {
                1
            } else {
                0
            }),
            Op::Or => Some(if a != 0 || b != 0 {
                1
            } else {
                0
            }),
        };
        match out {
            Some(v) => Ok(v),
            None => Err(EvalError::Overflow),
        }
    }
}

/// `trunc_div` written out by the signs of its arguments.
pub proof fn lemma_trunc_div_cases(x: int, d: int)
    requires
        d != 0,
    ensures
        trunc_div(x, d) == if x == 0 {
            0
        } else if x > 0 && d > 0 {
            x / d
        } else if x < 0 && d < 0 {
            ((x * -1) / (d * -1))
        } else if x < 0 {
            ((x * -1) / d) * -1
        } else {
            (x / (d * -1)) * -1
        },
{
    if x == 0 {
        if d > 0 {
            assert(0int / d == 0) by (nonlinear_arith)
                requires
                    d > 0,
            ;
        } else {
            assert(0int / (-d) == 0) by (nonlinear_arith)
                requires
                    d < 0,
            ;
        }
    }
}

/// `trunc_rem` written out by the signs of its arguments.
pub proof fn lemma_trunc_rem_cases(x: int, d: int)
    requires
        d != 0,
    ensures
        trunc_rem(x, d) == if x == 0 {
            0
        } else if x > 0 && d > 0 {
            x % d
        } else if x < 0 && d < 0 {
            ((x * -1) % (d * -1)) * -1
        } else if x < 0 {
            ((x * -1) % d) * -1
        } else {
            x % (d * -1)
        },
{
    lemma_trunc_div_cases(x, d);
    if x == 0 {
        assert(d * 0 == 0);
    } else if x > 0 && d > 0 {
        vstd::arithmetic::div_mod::lemma_fundamental_div_mod(x, d);
    } else if x < 0 && d < 0 {
        vstd::arithmetic::div_mod::lemma_fundamental_div_mod(-x, -d);
        let q = (-x) / (-d);
        assert(d * q == -((-d) * q)) by (nonlinear_arith);
    } else if x < 0 {
        vstd::arithmetic::div_mod::lemma_fundamental_div_mod(-x, d);
        let q = (-x) / d;
        assert(d * (-q) == -(d * q)) by (nonlinear_arith);
    } else {
        vstd::arithmetic::div_mod::lemma_fundamental_div_mod(x, -d);
        let q = x / (-d);
        assert(d * (-q) == (-d) * q) by (nonlinear_arith);
    }
}

/// The truncated remainder is smaller in magnitude than the divisor and has
/// the sign of the dividend.
pub proof fn lemma_trunc_rem_bound(x: int, d: int)
    requires
        d != 0,
    ensures
        x >= 0 ==> 0 <= trunc_rem(x, d) <= x,
        x <= 0 ==> x <= trunc_rem(x, d) <= 0,
        d > 0 ==> -d < trunc_rem(x, d) < d,
        d < 0 ==> d < trunc_rem(x, d) < -d,
{
    lemma_trunc_rem_cases(x, d);
    let ax = if x < 0 {
        -x
    } else {
        x
    };
    let ad = if d < 0 {
        -d
    } else {
        d
    };
    vstd::arithmetic::div_mod::lemma_mod_pos_bound(ax, ad);
    vstd::arithmetic::div_mod::lemma_fundamental_div_mod(ax, ad);
    vstd::arithmetic::div_mod::lemma_div_pos_is_pos(ax, ad);
    assert(ad * (ax / ad) >= 0) by (nonlinear_arith)
        requires
            ad > 0,
            ax / ad >= 0,
    ;
}

/// A value already inside `(-n, n)` is its own truncated remainder by `n`.
pub proof fn lemma_trunc_rem_small(t: int, n: int)
    requires
        n > 0,
        -n < t < n,
    ensures
        trunc_rem(t, n) == t,
{
    lemma_trunc_rem_cases(t, n);
    if t > 0 {
        vstd::arithmetic::div_mod::lemma_small_mod(t as nat, n as nat);
    } else if t < 0 {
        vstd::arithmetic::div_mod::lemma_small_mod((-t) as nat, n as nat);
    }
}

impl Expression {
    /// The value under `env`: `None` where a variable is unbound or a divisor
    /// is zero.
    pub open spec fn eval(self, env: Map<char, int>) -> Option<int>
        decreases self,
    {
        match self {
            Expression::Num(n) => Some(n as int),
            Expression::Var(c) => if env.contains_key(c) {
                Some(env[c])
            } else {
                None
            },
            Expression::Binary(op, l, r) => match (l.eval(env), r.eval(env)) {
                (Some(a), Some(b)) => op.apply(a, b),
                _ => None,
            },
        }
    }

    /// The value under `env` in 64-bit arithmetic, operands left to right,
    /// stopping at the first fault.
    pub open spec fn eval_fixed(self, env: Map<char, int>) -> Result<int, EvalError>
        decreases self,
    {
        match self {
            Expression::Num(n) => Ok(n as int),
            Expression::Var(c) => if !env.contains_key(c) {
                Err(EvalError::UnresolvedVariable)
            } else if !fits_i64(env[c]) {
                Err(EvalError::Overflow)
            } else {
                Ok(env[c])
            },
            Expression::Binary(op, l, r) => match l.eval_fixed(env) {
                Err(e) => Err(e),
                Ok(a) => match r.eval_fixed(env) {
                    Err(e) => Err(e),
                    Ok(b) => op.apply_fixed(a, b),
                },
            },
        }
    }

    /// Whether `c` occurs in the expression.
    pub open spec fn mentions(self, c: char) -> bool
        decreases self,
    {
        match self {
            Expression::Num(_) => false,
            Expression::Var(d) => c == d,
            Expression::Binary(_, l, r) => l.mentions(c) || r.mentions(c),
        }
    }

    /// Whether the expression holds the unknown-dimension marker.
    pub open spec fn spec_is_unknown(self) -> bool {
        self.mentions(UNKNOWN_VAR)
    }

    /// The non-negative machine value of a variable-free expression.
    pub open spec fn spec_to_usize(self) -> Option<usize> {
        match self.eval_fixed(Map::empty()) {
            Ok(v) => if 0 <= v <= usize::MAX {
                Some(v as usize)
            } else {
                None
            },
            Err(_) => None,
        }
    }

    /// The expression with every variable that `m` binds to a value an
    /// `i64` can hold replaced by that value.
    pub open spec fn substituted(self, m: Map<char, usize>) -> Expression
        decreases self,
    {
        match self {
            Expression::Num(_) => self,
            Expression::Var(c) => if m.contains_key(c) && m[c] <= i64::MAX {
                Expression::Num(m[c] as i64)
            } else {
                self
            },
            Expression::Binary(op, l, r) => Expression::Binary(
                op,
                Box::new(l.substituted(m)),
                Box::new(r.substituted(m)),
            ),
        }
    }

    /// The node `lhs op rhs`.
    pub open spec fn spec_binary(op: Op, lhs: Expression, rhs: Expression) -> Expression {
        Expression::Binary(op, Box::new(lhs), Box::new(rhs))
    }

    /// The literal `n`.
    pub fn num(n: i64) -> (r: Expression)
        ensures
            r == Expression::Num(n),
    {
        Expression::Num(n)
    }

    /// The variable `c`.
    pub fn var(c: char) -> (r: Expression)
        ensures
            r == Expression::Var(c),
    {
        Expression::Var(c)
    }

    /// A new node `lhs op rhs`.
    pub fn binary(op: Op, lhs: Expression, rhs: Expression) -> (r: Expression)
        ensures
            r == Expression::spec_binary(op, lhs, rhs),
    {
        Expression::Binary(op, Box::new(lhs), Box::new(rhs))
    }

    /// The sum `self + rhs`.
    pub fn plus(self, rhs: Expression) -> (r: Expression)
        ensures
            r == Expression::spec_binary(Op::Add, self, rhs),
    {
        Expression::binary(Op::Add, self, rhs)
    }

    /// The difference `self - rhs`.
    pub fn minus(self, rhs: Expression) -> (r: Expression)
        ensures
            r == Expression::spec_binary(Op::Sub, self, rhs),
    {
        Expression::binary(Op::Sub, self, rhs)
    }

    /// The product `self * rhs`.
    pub fn times(self, rhs: Expression) -> (r: Expression)
        ensures
            r == Expression::spec_binary(Op::Mul, self, rhs),
    {
        Expression::binary(Op::Mul, self, rhs)
    }

    /// The quotient `self / rhs`, rounded toward zero.
    pub fn divided_by(self, rhs: Expression) -> (r: Expression)
        ensures
            r == Expression::spec_binary(Op::Div, self, rhs),
    {
        Expression::binary(Op::Div, self, rhs)
    }

    /// The remainder of `self` by `rhs`, with the sign of `self`.
    pub fn modulo(self, rhs: Expression) -> (r: Expression)
        ensures
            r == Expression::spec_binary(Op::Mod, self, rhs),
    {
        Expression::binary(Op::Mod, self, rhs)
    }

    /// The smaller of `self` and `rhs`.
    pub fn min(self, rhs: Expression) -> (r: Expression)
        ensures
            r == Expression::spec_binary(Op::Min, self, rhs),
    {
        Expression::binary(Op::Min, self, rhs)
    }

    /// The larger of `self` and `rhs`.
    pub fn max(self, rhs: Expression) -> (r: Expression)
        ensures
            r == Expression::spec_binary(Op::Max, self, rhs),
    {
        Expression::binary(Op::Max, self, rhs)
    }

    /// 1 where `self >= rhs`, else 0.
    pub fn gte(self, rhs: Expression) -> (r: Expression)
        ensures
            r == Expression::spec_binary(Op::Gte, self, rhs),
    {
        Expression::binary(Op::Gte, self, rhs)
    }

    /// 1 where `self < rhs`, else 0.
    pub fn lt(self, rhs: Expression) -> (r: Expression)
        ensures
            r == Expression::spec_binary(Op::Lt, self, rhs),
    {
        Expression::binary(Op::Lt, self, rhs)
    }

    /// 1 where `self` and `rhs` are both not 0, else 0.
    pub fn and(self, rhs: Expression) -> (r: Expression)
        ensures
            r == Expression::spec_binary(Op::And, self, rhs),
    {
        Expression::binary(Op::And, self, rhs)
    }

    /// 1 where `self` or `rhs` is not 0, else 0.
    pub fn or(self, rhs: Expression) -> (r: Expression)
        ensures
            r == Expression::spec_binary(Op::Or, self, rhs),
    {
        Expression::binary(Op::Or, self, rhs)
    }

    /// Structural equality.
    pub fn same(&self, other: &Expression) -> (r: bool)
        ensures
            r == (*self == *other),
        decreases self,
    {
        match self {
            Expression::Num(a) => match other {
                Expression::Num(b) => *a == *b,
                _ => false,
            },
            Expression::Var(a) => match other {
                Expression::Var(b) => *a == *b,
                _ => false,
            },
            Expression::Binary(op, l, r) => match other {
                Expression::Binary(op2, l2, r2) => *op == *op2 && (**l).same(&**l2) && (**r).same(
                    &**r2,
                ),
                _ => false,
            },
        }
    }

    /// Evaluates under `variables` in 64-bit arithmetic.
    pub fn exec(&self, variables: &FxHashMap<char, usize>) -> (r: Result<i64, EvalError>)
        ensures
            r matches Ok(v) ==> self.eval_fixed(env_of(variables@)) == Ok::<int, EvalError>(
                v as int,
            ),
            r matches Err(e) ==> self.eval_fixed(env_of(variables@)) == Err::<int, EvalError>(e),
        decreases self,
    {
        match self {
            Expression::Num(n) => Ok(*n),
            Expression::Var(c) => match lookup_var(variables, *c) {
                None => Err(EvalError::UnresolvedVariable),
                Some(v) => if v as u64 > i64::MAX as u64 {
                    Err(EvalError::Overflow)
                } else {
                    Ok(v as i64)
                },
            },
            Expression::Binary(op, l, r) => {
                let a: i64 = match (**l).exec(variables) {
                    Ok(a) => a,
                    Err(e) => {
                        return Err(e);
                    },
                };
                let b: i64 = match (**r).exec(variables) {
                    Ok(b) => b,
                    Err(e) => {
                        return Err(e);
                    },
                };
                (*op).compute(a, b)
            },
        }
    }

    /// Evaluates without bindings.
    pub fn eval_closed(&self) -> (r: Result<i64, EvalError>)
        ensures
            r matches Ok(v) ==> self.eval_fixed(Map::empty()) == Ok::<int, EvalError>(v as int),
            r matches Err(e) ==> self.eval_fixed(Map::empty()) == Err::<int, EvalError>(e),
        decreases self,
    {
        match self {
            Expression::Num(n) => Ok(*n),
            Expression::Var(_) => Err(EvalError::UnresolvedVariable),
            Expression::Binary(op, l, r) => {
                let a: i64 = match (**l).eval_closed() {
                    Ok(a) => a,
                    Err(e) => {
                        return Err(e);
                    },
                };
                let b: i64 = match (**r).eval_closed() {
                    Ok(b) => b,
                    Err(e) => {
                        return Err(e);
                    },
                };
                (*op).compute(a, b)
            },
        }
    }

    /// The value of a variable-free expression, where it is a `usize`.
    pub fn to_usize(&self) -> (r: Option<usize>)
        ensures
            r == self.spec_to_usize(),
    {
        match self.eval_closed() {
            Ok(v) => if v >= 0 && v as u64 <= usize::MAX as u64 {
                Some(v as usize)
            } else {
                None
            },
            Err(_) => None,
        }
    }

    /// Replaces the variables that `variables` binds by their values.
    pub fn substitute(&self, variables: &FxHashMap<char, usize>) -> (r: Expression)
        ensures
            r == self.substituted(variables@),
        decreases self,
    {
        match self {
            Expression::Num(n) => Expression::Num(*n),
            Expression::Var(c) => match lookup_var(variables, *c) {
                Some(v) => if v as u64 <= i64::MAX as u64 {
                    Expression::Num(v as i64)
                } else {
                    Expression::Var(*c)
                },
                None => Expression::Var(*c),
            },
            Expression::Binary(op, l, r) => Expression::Binary(
                *op,
                Box::new((**l).substitute(variables)),
                Box::new((**r).substitute(variables)),
            ),
        }
    }

    /// Whether the expression holds the unknown-dimension marker.
    pub fn is_unknown(&self) -> (r: bool)
        ensures
            r == self.spec_is_unknown(),
    {
        self.has_var(UNKNOWN_VAR)
    }

    /// Whether `c` occurs in the expression.
    pub fn has_var(&self, c: char) -> (r: bool)
        ensures
            r == self.mentions(c),
        decreases self,
    {
        match self {
            Expression::Num(_) => false,
            Expression::Var(d) => c == *d,
            Expression::Binary(_, l, r) => (**l).has_var(c) || (**r).has_var(c),
        }
    }
}

impl Clone for Expression {
    fn clone(&self) -> (r: Self)
        ensures
            r == *self,
        decreases self,
    {
        match self {
            Expression::Num(n) => Expression::Num(*n),
            Expression::Var(c) => Expression::Var(*c),
            Expression::Binary(op, l, r) => Expression::Binary(
                *op,
                Box::new((**l).clone()),
                Box::new((**r).clone()),
            ),
        }
    }
}

impl PartialEq for Expression {
    fn eq(&self, other: &Self) -> (r: bool) {
        self.same(other)
    }
}

impl vstd::std_specs::cmp::PartialEqSpecImpl for Expression {
    open spec fn obeys_eq_spec() -> bool {
        true
    }

    open spec fn eq_spec(&self, other: &Self) -> bool {
        *self == *other
    }
}

impl Default for Expression {
    fn default() -> (r: Self)
        ensures
            r == Expression::Num(0),
    {
        Expression::Num(0)
    }
}

/// A value of the 64-bit evaluator is the value over unbounded integers.
pub proof fn lemma_eval_fixed_refines(e: Expression, env: Map<char, int>)
    ensures
        e.eval_fixed(env) matches Ok(v) ==> e.eval(env) == Some(v) && fits_i64(v),
        e.eval_fixed(env) == Err::<int, EvalError>(EvalError::UnresolvedVariable) ==> e.eval(env)
            is None,
        e.eval_fixed(env) == Err::<int, EvalError>(EvalError::DivisionByZero) ==> e.eval(env)
            is None,
    decreases e,
{
    match e {
        Expression::Binary(op, l, r) => {
            lemma_eval_fixed_refines(*l, env);
            lemma_eval_fixed_refines(*r, env);
        },
        _ => {},
    }
}

/// Substitution keeps the value under every binding that agrees with the
/// substituted map.
pub proof fn lemma_substituted_eval(e: Expression, m: Map<char, usize>, env: Map<char, int>)
    requires
        forall|c: char|
            #![trigger m.contains_key(c)]
            m.contains_key(c) ==> env.contains_key(c) && env[c] == m[c],
    ensures
        e.substituted(m).eval(env) == e.eval(env),
    decreases e,
{
    match e {
        Expression::Binary(op, l, r) => {
            lemma_substituted_eval(*l, m, env);
            lemma_substituted_eval(*r, m, env);
        },
        _ => {},
    }
}

} // verus!
