use luminal::simplify::Rule;
use luminal::symbolic::{EvalError, Expression, Op};
use rustc_hash::FxHashMap;

fn n(v: i64) -> Expression {
    Expression::num(v)
}

fn x(c: char) -> Expression {
    Expression::var(c)
}

fn env(pairs: &[(char, usize)]) -> FxHashMap<char, usize> {
    let mut m = FxHashMap::default();
    for (c, v) in pairs {
        m.insert(*c, *v);
    }
    m
}

#[test]
fn literal_evaluates_to_itself() {
    assert_eq!(n(42).exec(&env(&[])), Ok(42));
    assert_eq!(n(-7).eval_closed(), Ok(-7));
}

#[test]
fn variable_is_looked_up() {
    assert_eq!(x('a').exec(&env(&[('a', 9)])), Ok(9));
    assert_eq!(x('a').exec(&env(&[('b', 9)])), Err(EvalError::UnresolvedVariable));
}

#[test]
fn arithmetic_exact_values() {
    let e = x('a').plus(n(3)).times(n(4)).minus(n(5));
    assert_eq!(e.exec(&env(&[('a', 2)])), Ok(15));
    assert_eq!(n(17).divided_by(n(5)).eval_closed(), Ok(3));
    assert_eq!(n(17).modulo(n(5)).eval_closed(), Ok(2));
    assert_eq!(n(3).min(n(8)).eval_closed(), Ok(3));
    assert_eq!(n(3).max(n(8)).eval_closed(), Ok(8));
}

#[test]
fn division_rounds_toward_zero() {
    assert_eq!(n(-7).divided_by(n(2)).eval_closed(), Ok(-3));
    assert_eq!(n(7).divided_by(n(-2)).eval_closed(), Ok(-3));
    assert_eq!(n(-7).divided_by(n(-2)).eval_closed(), Ok(3));
    assert_eq!(n(-7).modulo(n(2)).eval_closed(), Ok(-1));
    assert_eq!(n(7).modulo(n(-2)).eval_closed(), Ok(1));
    assert_eq!(n(5).modulo(n(-1)).eval_closed(), Ok(0));
}

#[test]
fn comparisons_and_logic_give_flags() {
    assert_eq!(n(3).gte(n(3)).eval_closed(), Ok(1));
    assert_eq!(n(2).gte(n(3)).eval_closed(), Ok(0));
    assert_eq!(n(2).lt(n(3)).eval_closed(), Ok(1));
    assert_eq!(n(3).lt(n(3)).eval_closed(), Ok(0));
    assert_eq!(n(5).and(n(-1)).eval_closed(), Ok(1));
    assert_eq!(n(5).and(n(0)).eval_closed(), Ok(0));
    assert_eq!(n(0).or(n(0)).eval_closed(), Ok(0));
    assert_eq!(n(0).or(n(4)).eval_closed(), Ok(1));
}

#[test]
fn faults_are_reported() {
    assert_eq!(n(1).divided_by(n(0)).eval_closed(), Err(EvalError::DivisionByZero));
    assert_eq!(n(1).modulo(n(0)).eval_closed(), Err(EvalError::DivisionByZero));
    assert_eq!(n(i64::MAX).plus(n(1)).eval_closed(), Err(EvalError::Overflow));
    assert_eq!(n(i64::MIN).divided_by(n(-1)).eval_closed(), Err(EvalError::Overflow));
    assert_eq!(x('q').eval_closed(), Err(EvalError::UnresolvedVariable));
    // The left operand is evaluated first.
    assert_eq!(x('q').plus(n(1).divided_by(n(0))).eval_closed(), Err(EvalError::UnresolvedVariable));
    assert_eq!(n(1).divided_by(n(0)).plus(x('q')).eval_closed(), Err(EvalError::DivisionByZero));
}

#[test]
fn binding_too_large_for_evaluation() {
    if usize::BITS == 64 {
        assert_eq!(x('a').exec(&env(&[('a', usize::MAX)])), Err(EvalError::Overflow));
    }
}

#[test]
fn to_usize_of_closed_expressions() {
    assert_eq!(n(2).times(n(6)).to_usize(), Some(12));
    assert_eq!(n(2).minus(n(6)).to_usize(), None);
    assert_eq!(x('a').to_usize(), None);
}

#[test]
fn unknown_marker_is_found() {
    assert!(x('-').is_unknown());
    assert!(n(1).plus(x('-')).is_unknown());
    assert!(!n(1).plus(x('a')).is_unknown());
    assert!(n(1).plus(x('a')).has_var('a'));
    assert!(!n(1).plus(x('a')).has_var('b'));
}

#[test]
fn structural_equality() {
    assert_eq!(x('a').plus(n(1)), x('a').plus(n(1)));
    assert_ne!(x('a').plus(n(1)), n(1).plus(x('a')));
    assert!(x('a').same(&x('a')));
    assert!(!x('a').same(&x('b')));
    assert_eq!(x('a').plus(n(1)).clone(), x('a').plus(n(1)));
    assert_eq!(Expression::default(), n(0));
    assert_eq!(Expression::binary(Op::Add, n(1), n(2)), n(1).plus(n(2)));
}

#[test]
fn minimize_folds_constants() {
    assert_eq!(n(2).plus(n(3)).times(n(4)).minimize(), n(20));
    assert_eq!(n(7).modulo(n(4)).minimize(), n(3));
    assert_eq!(n(3).lt(n(4)).and(n(1)).minimize(), n(1));
    // A fault is not folded away.
    assert_eq!(n(1).divided_by(n(0)).minimize(), n(1).divided_by(n(0)));
    assert_eq!(n(i64::MAX).plus(n(1)).minimize(), n(i64::MAX).plus(n(1)));
}

#[test]
fn minimize_identities() {
    assert_eq!(x('a').plus(n(0)).minimize(), x('a'));
    assert_eq!(n(0).plus(x('a')).minimize(), x('a'));
    assert_eq!(x('a').times(n(1)).minimize(), x('a'));
    assert_eq!(n(1).times(x('a')).minimize(), x('a'));
    assert_eq!(x('a').times(n(0)).minimize(), n(0));
    assert_eq!(n(0).times(x('a')).minimize(), n(0));
    assert_eq!(x('a').minus(n(0)).minimize(), x('a'));
    assert_eq!(x('a').minus(x('a')).minimize(), n(0));
    assert_eq!(x('a').divided_by(n(1)).minimize(), x('a'));
    assert_eq!(x('a').min(x('a')).minimize(), x('a'));
    assert_eq!(x('a').max(x('a')).minimize(), x('a'));
}

#[test]
fn minimize_nested_mod() {
    assert_eq!(x('a').modulo(n(4)).modulo(n(6)).minimize(), x('a').modulo(n(4)));
    assert_eq!(x('a').modulo(n(4)).modulo(n(4)).minimize(), x('a').modulo(n(4)));
    // A larger inner modulus is kept.
    assert_eq!(
        x('a').modulo(n(6)).modulo(n(4)).minimize(),
        x('a').modulo(n(6)).modulo(n(4))
    );
}

#[test]
fn minimize_flattens_chains() {
    assert_eq!(x('a').plus(n(2)).plus(n(3)).minimize(), x('a').plus(n(5)));
    assert_eq!(x('a').times(n(2)).times(n(3)).minimize(), x('a').times(n(6)));
    // The sum of the literals must fit.
    assert_eq!(
        x('a').plus(n(i64::MAX)).plus(n(1)).minimize(),
        x('a').plus(n(i64::MAX)).plus(n(1))
    );
}

#[test]
fn minimize_works_bottom_up() {
    let e = x('a').plus(n(1).minus(n(1))).times(n(2).minus(n(1)));
    assert_eq!(e.minimize(), x('a'));
}

#[test]
fn minimize_keeps_values() {
    let exprs = vec![
        x('a').plus(n(2)).plus(n(3)),
        x('a').modulo(n(4)).modulo(n(6)),
        x('a').minus(x('a')).plus(x('b')),
        x('a').times(n(3)).times(n(5)).divided_by(n(1)),
        x('b').min(x('b')).max(x('a')),
    ];
    for e in exprs {
        for a in 0..7usize {
            for b in 0..5usize {
                let vars = env(&[('a', a), ('b', b)]);
                let want = e.exec(&vars);
                assert!(want.is_ok());
                assert_eq!(e.clone().minimize().exec(&vars), want);
            }
        }
    }
}

#[test]
fn choose_rule_names_the_rewrite() {
    assert_eq!(Expression::choose_rule(Op::Add, &n(2), &n(3)), Rule::Fold(5));
    assert_eq!(Expression::choose_rule(Op::Add, &x('a'), &n(0)), Rule::Left);
    assert_eq!(Expression::choose_rule(Op::Add, &n(0), &x('a')), Rule::Right);
    assert_eq!(Expression::choose_rule(Op::Sub, &x('a'), &x('a')), Rule::Zero);
    assert_eq!(Expression::choose_rule(Op::Mul, &x('a').times(n(2)), &n(3)), Rule::Regroup(6));
    assert_eq!(Expression::choose_rule(Op::Lt, &x('a'), &x('a')), Rule::Keep);
    assert_eq!(Expression::simplified(Op::Add, x('a'), n(0)), x('a'));
}

#[test]
fn substitute_replaces_bound_variables() {
    let e = x('a').times(x('b')).plus(x('c'));
    let out = e.substitute(&env(&[('a', 3), ('b', 4)]));
    assert_eq!(out, n(3).times(n(4)).plus(x('c')));
    assert_eq!(out.minimize(), n(12).plus(x('c')));
}

#[test]
fn op_compute_matches_eval() {
    assert_eq!(Op::Add.compute(2, 3), Ok(5));
    assert_eq!(Op::Sub.compute(2, 3), Ok(-1));
    assert_eq!(Op::Mul.compute(i64::MAX, 2), Err(EvalError::Overflow));
    assert_eq!(Op::Div.compute(9, 0), Err(EvalError::DivisionByZero));
    assert_eq!(Op::Mod.compute(i64::MIN, -1), Ok(0));
}

#[test]
fn operators_build_nodes() {
    assert_eq!(x('a') + n(1), x('a').plus(n(1)));
    assert_eq!(x('a') - n(1), x('a').minus(n(1)));
    assert_eq!(x('a') * n(2), x('a').times(n(2)));
    assert_eq!(x('a') / n(2), x('a').divided_by(n(2)));
    assert_eq!(x('a') % n(2), x('a').modulo(n(2)));
    assert_eq!(x('a') & n(1), x('a').and(n(1)));
    assert_eq!(x('a') | n(1), x('a').or(n(1)));
    assert_eq!(((n(7) - n(1)) * n(2) / n(4) % n(5)).eval_closed(), Ok(3));
}

#[test]
fn numbers_and_characters_convert() {
    assert_eq!(Expression::from(5i64), n(5));
    assert_eq!(Expression::from(-5i32), n(-5));
    assert_eq!(Expression::from('q'), x('q'));
    let e: Expression = 'z'.into();
    assert_eq!(e, x('z'));
}
