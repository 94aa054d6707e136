//! The four arithmetic operators of an expression.

use vstd::prelude::*;

verus! {

/// A binary arithmetic operator.
#[derive(Debug, Clone, Copy, PartialEq, Eq, Structural)]
pub enum Operator {
    Add,
    Sub,
    Mul,
    Div,
}

impl Operator {
    /// What the operator makes of `a` and `b`, if anything. A division needs
    /// a divisor other than zero that divides `a` exactly, and no operator
    /// has a result outside the 64-bit signed range.
    pub open spec fn result(self, a: int, b: int) -> Option<int> {
        let exact = match self {
            Operator::Add => Some(a + b),
            Operator::Sub => Some(a - b),
            Operator::Mul => Some(a * b),
            Operator::Div => if b != 0 && a % b == 0 {
                Some(a / b)
            } else {
                None
            },
        };
        match exact {
            Some(v) => if i64::MIN <= v <= i64::MAX {
                Some(v)
            } else {
                None
            },
            None => None,
        }
    }

    /// The operator's sign as it stands in a formula.
    pub open spec fn symbol(self) -> Seq<char> {
        match self {
            Operator::Add => seq!['+'],
            Operator::Sub => seq!['-'],
            Operator::Mul => seq!['*'],
            Operator::Div => seq!['/'],
        }
    }

    /// How tightly the operator binds: 2 for `*` and `/`, 1 for `+` and `-`.
    pub open spec fn level(self) -> int {
        match self {
            Operator::Mul | Operator::Div => 2,
            Operator::Add | Operator::Sub => 1,
        }
    }

    /// Applies the operator. Nothing comes back where the division is not
    /// exact or is by zero, or where the result would overflow.
    pub fn apply(&self, a: i64, b: i64) -> (r: Option<i64>)
        ensures
            match r {
                Some(v) => self.result(a as int, b as int) == Some(v as int),
                None => self.result(a as int, b as int) is None,
            },
    {
        match self {
            Operator::Add => a.checked_add(b),
            Operator::Sub => a.checked_sub(b),
            Operator::Mul => a.checked_mul(b),
            Operator::Div => match a.checked_rem_euclid(b) {
                Some(rem) => if rem == 0 {
                    a.checked_div_euclid(b)
                } else {
                    None
                },
                None => {
                    proof {
                        if b == -1 && a == i64::MIN {
                            assert((a as int) / (b as int) == 0x8000_0000_0000_0000) by (nonlinear_arith)
                                requires
                                    a == -0x8000_0000_0000_0000,
                                    b == -1,
                            ;
                        }
                    }
                    None
                },
            },
        }
    }

    /// The operator's sign.
    pub fn to_string(&self) -> (s: &'static str)
        ensures
            s@ == self.symbol(),
    {
        proof {
            reveal_strlit("+");
            reveal_strlit("-");
            reveal_strlit("*");
            reveal_strlit("/");
            assert("+"@ =~= seq!['+']);
            assert("-"@ =~= seq!['-']);
            assert("*"@ =~= seq!['*']);
            assert("/"@ =~= seq!['/']);
        }
        match self {
            Operator::Add => "+",
            Operator::Sub => "-",
            Operator::Mul => "*",
            Operator::Div => "/",
        }
    }

    /// How tightly the operator binds.
    pub fn precedence(&self) -> (p: i64)
        ensures
            p == self.level(),
    {
        match self {
            Operator::Mul | Operator::Div => 2,
            Operator::Add | Operator::Sub => 1,
        }
    }
}

} // verus!
