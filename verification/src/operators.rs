//! The arithmetic operators on expressions: `a + b` builds the node that
//! [`Expression::plus`] builds, and so for the others. Numbers and
//! characters turn into literals and variables.

use crate::symbolic::{Expression, Op};
use vstd::prelude::*;

verus! {

impl core::ops::Add for Expression {
    type Output = Expression;

    fn add(self, rhs: Expression) -> (r: Expression) {
        self.plus(rhs)
    }
}

impl vstd::std_specs::ops::AddSpecImpl for Expression {
    open spec fn obeys_add_spec() -> bool {
        true
    }

    open spec fn add_req(self, rhs: Expression) -> bool {
        true
    }

    open spec fn add_spec(self, rhs: Expression) -> Expression {
        Expression::spec_binary(Op::Add, self, rhs)
    }
}

impl core::ops::Sub for Expression {
    type Output = Expression;

    fn sub(self, rhs: Expression) -> (r: Expression) {
        self.minus(rhs)
    }
}

impl vstd::std_specs::ops::SubSpecImpl for Expression {
    open spec fn obeys_sub_spec() -> bool {
        true
    }

    open spec fn sub_req(self, rhs: Expression) -> bool {
        true
    }

    open spec fn sub_spec(self, rhs: Expression) -> Expression {
        Expression::spec_binary(Op::Sub, self, rhs)
    }
}

impl core::ops::Mul for Expression {
    type Output = Expression;

    fn mul(self, rhs: Expression) -> (r: Expression) {
        self.times(rhs)
    }
}

impl vstd::std_specs::ops::MulSpecImpl for Expression {
    open spec fn obeys_mul_spec() -> bool {
        true
    }

    open spec fn mul_req(self, rhs: Expression) -> bool {
        true
    }

    open spec fn mul_spec(self, rhs: Expression) -> Expression {
        Expression::spec_binary(Op::Mul, self, rhs)
    }
}

impl core::ops::Div for Expression {
    type Output = Expression;

    fn div(self, rhs: Expression) -> (r: Expression) {
        self.divided_by(rhs)
    }
}

impl vstd::std_specs::ops::DivSpecImpl for Expression {
    open spec fn obeys_div_spec() -> bool {
        true
    }

    open spec fn div_req(self, rhs: Expression) -> bool {
        true
    }

    open spec fn div_spec(self, rhs: Expression) -> Expression {
        Expression::spec_binary(Op::Div, self, rhs)
    }
}

impl core::ops::Rem for Expression {
    type Output = Expression;

    fn rem(self, rhs: Expression) -> (r: Expression) {
        self.modulo(rhs)
    }
}

impl vstd::std_specs::ops::RemSpecImpl for Expression {
    open spec fn obeys_rem_spec() -> bool {
        true
    }

    open spec fn rem_req(self, rhs: Expression) -> bool {
        true
    }

    open spec fn rem_spec(self, rhs: Expression) -> Expression {
        Expression::spec_binary(Op::Mod, self, rhs)
    }
}

impl core::ops::BitAnd for Expression {
    type Output = Expression;

    fn bitand(self, rhs: Expression) -> (r: Expression) {
        self.and(rhs)
    }
}

impl vstd::std_specs::ops::BitAndSpecImpl for Expression {
    open spec fn obeys_bitand_spec() -> bool {
        true
    }

    open spec fn bitand_req(self, rhs: Expression) -> bool {
        true
    }

    open spec fn bitand_spec(self, rhs: Expression) -> Expression {
        Expression::spec_binary(Op::And, self, rhs)
    }
}

impl core::ops::BitOr for Expression {
    type Output = Expression;

    fn bitor(self, rhs: Expression) -> (r: Expression) {
        self.or(rhs)
    }
}

impl vstd::std_specs::ops::BitOrSpecImpl for Expression {
    open spec fn obeys_bitor_spec() -> bool {
        true
    }

    open spec fn bitor_req(self, rhs: Expression) -> bool {
        true
    }

    open spec fn bitor_spec(self, rhs: Expression) -> Expression {
        Expression::spec_binary(Op::Or, self, rhs)
    }
}


impl From<i64> for Expression {
    fn from(n: i64) -> (r: Expression) {
        Expression::Num(n)
    }
}

impl vstd::std_specs::convert::FromSpecImpl<i64> for Expression {
    open spec fn obeys_from_spec() -> bool {
        true
    }

    open spec fn from_spec(n: i64) -> Expression {
        Expression::Num(n)
    }
}

impl From<i32> for Expression {
    fn from(n: i32) -> (r: Expression) {
        Expression::Num(n as i64)
    }
}

impl vstd::std_specs::convert::FromSpecImpl<i32> for Expression {
    open spec fn obeys_from_spec() -> bool {
        true
    }

    open spec fn from_spec(n: i32) -> Expression {
        Expression::Num(n as i64)
    }
}

impl From<char> for Expression {
    fn from(c: char) -> (r: Expression) {
        Expression::Var(c)
    }
}

impl vstd::std_specs::convert::FromSpecImpl<char> for Expression {
    open spec fn obeys_from_spec() -> bool {
        true
    }

    open spec fn from_spec(c: char) -> Expression {
        Expression::Var(c)
    }
}

} // verus!
