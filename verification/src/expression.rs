//! Arithmetic expressions over a sequence of numbers: every binary tree
//! that keeps the numbers in order, with every choice of operators.

use crate::operator::Operator;
use vstd::prelude::*;
use vstd::string::*;

verus! {

/// An expression: a number, or an operator applied to two expressions.
pub enum Expr {
    Leaf { number: i64 },
    Node { op: Operator, left: Box<Expr>, right: Box<Expr> },
}

/// The character of a decimal digit.
pub open spec fn digit_char(d: nat) -> char {
    if d == 0 {
        '0'
    } else if d == 1 {
        '1'
    } else if d == 2 {
        '2'
    } else if d == 3 {
        '3'
    } else if d == 4 {
        '4'
    } else if d == 5 {
        '5'
    } else if d == 6 {
        '6'
    } else if d == 7 {
        '7'
    } else if d == 8 {
        '8'
    } else {
        '9'
    }
}

/// A natural number in decimal, without leading zeros.
pub open spec fn digits_text(n: nat) -> Seq<char>
    decreases n,
{
    if n < 10 {
        seq![digit_char(n)]
    } else {
        digits_text(n / 10) + seq![digit_char(n % 10)]
    }
}

/// An integer in decimal, with a minus sign where it is negative.
pub open spec fn decimal_text(v: int) -> Seq<char> {
    if v < 0 {
        seq!['-'] + digits_text((-v) as nat)
    } else {
        digits_text(v as nat)
    }
}

/// Parentheses stand around an operand whose own operator binds less
/// tightly than the operator it is an operand of.
pub open spec fn parenthesized(top: Option<Operator>, parent: Operator) -> bool {
    match top {
        Some(op) => op.level() < parent.level(),
        None => false,
    }
}

/// The text, in parentheses or as it is.
pub open spec fn wrapped(text: Seq<char>, parentheses: bool) -> Seq<char> {
    if parentheses {
        seq!['('] + text + seq![')']
    } else {
        text
    }
}

impl Expr {
    /// The numbers of the expression, from left to right.
    pub open spec fn leaves(self) -> Seq<i64>
        decreases self,
    {
        match self {
            Expr::Leaf { number } => seq![number],
            Expr::Node { op: _, left, right } => left.leaves() + right.leaves(),
        }
    }

    /// The value of the expression, where every operator in it has a
    /// result.
    pub open spec fn value(self) -> Option<int>
        decreases self,
    {
        match self {
            Expr::Leaf { number } => Some(number as int),
            Expr::Node { op, left, right } => match (left.value(), right.value()) {
                (Some(a), Some(b)) => op.result(a, b),
                _ => None,
            },
        }
    }

    /// The operator at the root, if there is one.
    pub open spec fn top(self) -> Option<Operator> {
        match self {
            Expr::Leaf { number: _ } => None,
            Expr::Node { op, left: _, right: _ } => Some(op),
        }
    }

    /// The expression written out: operands and operator without spaces,
    /// and no parentheses but those that `parenthesized` asks for.
    pub open spec fn text(self) -> Seq<char>
        decreases self,
    {
        match self {
            Expr::Leaf { number } => decimal_text(number as int),
            Expr::Node { op, left, right } => wrapped(left.text(), parenthesized(left.top(), op))
                + op.symbol() + wrapped(right.text(), parenthesized(right.top(), op)),
        }
    }

    /// What the enumeration keeps of the expression, if it has a value.
    pub open spec fn summary(self) -> Option<FormulaView> {
        match self.value() {
            Some(v) => Some(FormulaView { value: v, text: self.text(), top: self.top() }),
            None => None,
        }
    }

    /// No division in the expression is by zero.
    pub open spec fn divides_by_zero_nowhere(self) -> bool
        decreases self,
    {
        match self {
            Expr::Leaf { number: _ } => true,
            Expr::Node { op, left, right } => {
                &&& left.divides_by_zero_nowhere()
                &&& right.divides_by_zero_nowhere()
                &&& op == Operator::Div ==> right.value() != Some(0int)
            },
        }
    }
}

/// What is kept of an expression: its value, its text and the operator at
/// its root.
pub struct FormulaView {
    pub value: int,
    pub text: Seq<char>,
    pub top: Option<Operator>,
}

/// An expression that has a value, as the enumeration holds it.
#[derive(Debug, Clone)]
pub struct Formula {
    pub value: i64,
    pub text: String,
    pub top: Option<Operator>,
}

impl View for Formula {
    type V = FormulaView;

    open spec fn view(&self) -> FormulaView {
        FormulaView { value: self.value as int, text: self.text@, top: self.top }
    }
}

/// The text of one decimal digit.
fn digit_str(d: u64) -> (s: &'static str)
    requires
        d < 10,
    ensures
        s@ == seq![digit_char(d as nat)],
{
    proof {
        reveal_strlit("0");
        reveal_strlit("1");
        reveal_strlit("2");
        reveal_strlit("3");
        reveal_strlit("4");
        reveal_strlit("5");
        reveal_strlit("6");
        reveal_strlit("7");
        reveal_strlit("8");
        reveal_strlit("9");
        assert("0"@ =~= seq!['0']);
        assert("1"@ =~= seq!['1']);
        assert("2"@ =~= seq!['2']);
        assert("3"@ =~= seq!['3']);
        assert("4"@ =~= seq!['4']);
        assert("5"@ =~= seq!['5']);
        assert("6"@ =~= seq!['6']);
        assert("7"@ =~= seq!['7']);
        assert("8"@ =~= seq!['8']);
        assert("9"@ =~= seq!['9']);
    }
    if d == 0 {
        "0"
    } else if d == 1 {
        "1"
    } else if d == 2 {
        "2"
    } else if d == 3 {
        "3"
    } else if d == 4 {
        "4"
    } else if d == 5 {
        "5"
    } else if d == 6 {
        "6"
    } else if d == 7 {
        "7"
    } else if d == 8 {
        "8"
    } else {
        "9"
    }
}

/// A natural number written in decimal.
fn digits_string(m: u64) -> (s: String)
    ensures
        s@ == digits_text(m as nat),
    decreases m,
{
    if m < 10 {
        String::from_str(digit_str(m))
    } else {
        let mut s = digits_string(m / 10);
        s.append(digit_str(m % 10));
        s
    }
}

/// An integer written in decimal.
pub fn decimal_string(v: i64) -> (s: String)
    ensures
        s@ == decimal_text(v as int),
{
    if v < 0 {
        let magnitude: u64 = (-(v as i128)) as u64;
        let mut s = String::from_str("-");
        proof {
            reveal_strlit("-");
            assert("-"@ =~= seq!['-']);
        }
        let digits = digits_string(magnitude);
        s.append(digits.as_str());
        s
    } else {
        digits_string(v as u64)
    }
}

/// Whether the formula goes into parentheses as an operand of `parent_op`:
/// it does where its own operator binds less tightly.
pub fn needs_parentheses(formula: &Formula, parent_op: Operator) -> (needed: bool)
    ensures
        needed == parenthesized(formula.top, parent_op),
{
    match formula.top {
        Some(op) => op.precedence() < parent_op.precedence(),
        None => false,
    }
}

/// Appends the formula's text to `target`, in parentheses where it needs
/// them as an operand of `parent_op`.
fn append_operand(target: &mut String, formula: &Formula, parent_op: Operator)
    ensures
        final(target)@ == old(target)@ + wrapped(
            formula.text@,
            parenthesized(formula.top, parent_op),
        ),
{
    if needs_parentheses(formula, parent_op) {
        proof {
            reveal_strlit("(");
            reveal_strlit(")");
            assert("("@ =~= seq!['(']);
            assert(")"@ =~= seq![')']);
        }
        target.append("(");
        target.append(formula.text.as_str());
        target.append(")");
        proof {
            assert(target@ =~= old(target)@ + (seq!['('] + formula.text@ + seq![')']));
        }
    } else {
        target.append(formula.text.as_str());
    }
}

/// What is kept of `op` applied to two expressions of which `left` and
/// `right` are kept, if the operator has a result.
pub open spec fn joined(op: Operator, left: FormulaView, right: FormulaView) -> Option<
    FormulaView,
> {
    match op.result(left.value, right.value) {
        Some(v) => Some(
            FormulaView {
                value: v,
                text: wrapped(left.text, parenthesized(left.top, op)) + op.symbol() + wrapped(
                    right.text,
                    parenthesized(right.top, op),
                ),
                top: Some(op),
            },
        ),
        None => None,
    }
}

/// Some expression over exactly these numbers, in this order, has a value
/// and is kept as `kept`.
pub open spec fn expresses(numbers: Seq<i64>, kept: FormulaView) -> bool {
    exists|t: Expr| t.leaves() == numbers && #[trigger] t.summary() == Some(kept)
}

/// The list holds a formula that reads as `kept`.
pub open spec fn holds_formula(list: Seq<Formula>, kept: FormulaView) -> bool {
    exists|k: int| 0 <= k < list.len() && #[trigger] list[k]@ == kept
}

/// An expression has at least one number.
pub proof fn lemma_leaves_nonempty(t: Expr)
    ensures
        t.leaves().len() >= 1,
    decreases t,
{
    match t {
        Expr::Leaf { number: _ } => {},
        Expr::Node { op: _, left, right } => {
            lemma_leaves_nonempty(*left);
            lemma_leaves_nonempty(*right);
        },
    }
}

/// An expression with one number is that number.
pub proof fn lemma_single_leaf(t: Expr)
    requires
        t.leaves().len() == 1,
    ensures
        t == (Expr::Leaf { number: t.leaves()[0] }),
{
    match t {
        Expr::Leaf { number: _ } => {},
        Expr::Node { op: _, left, right } => {
            lemma_leaves_nonempty(*left);
            lemma_leaves_nonempty(*right);
        },
    }
}

/// An expression that has a value divides by zero nowhere.
pub proof fn lemma_value_without_zero_division(t: Expr)
    requires
        t.value() is Some,
    ensures
        t.divides_by_zero_nowhere(),
    decreases t,
{
    match t {
        Expr::Leaf { number: _ } => {},
        Expr::Node { op: _, left, right } => {
            lemma_value_without_zero_division(*left);
            lemma_value_without_zero_division(*right);
        },
    }
}

/// An operator over two expressions that are kept, cut at `i`, makes an
/// expression over all the numbers that is kept as their join.
pub proof fn lemma_join_expresses(
    numbers: Seq<i64>,
    i: int,
    op: Operator,
    left: FormulaView,
    right: FormulaView,
    kept: FormulaView,
)
    requires
        0 <= i <= numbers.len(),
        expresses(numbers.subrange(0, i), left),
        expresses(numbers.subrange(i, numbers.len() as int), right),
        joined(op, left, right) == Some(kept),
    ensures
        expresses(numbers, kept),
{
    let l = choose|t: Expr|
        t.leaves() == numbers.subrange(0, i) && #[trigger] t.summary() == Some(left);
    let r = choose|t: Expr|
        t.leaves() == numbers.subrange(i, numbers.len() as int) && #[trigger] t.summary() == Some(
            right,
        );
    let t = Expr::Node { op, left: Box::new(l), right: Box::new(r) };
    assert(t.leaves() =~= numbers);
    assert(t.summary() == Some(kept));
}

/// An expression with an operator at its root and with a value is the join
/// of its two operands, which are expressions over the numbers before and
/// after a cut.
pub proof fn lemma_node_parts(t: Expr, numbers: Seq<i64>)
    requires
        t is Node,
        t.leaves() == numbers,
        t.summary() is Some,
    ensures
        0 < t->left.leaves().len() < numbers.len(),
        t->left.summary() is Some,
        t->right.summary() is Some,
        expresses(numbers.subrange(0, t->left.leaves().len() as int), t->left.summary()->0),
        expresses(
            numbers.subrange(t->left.leaves().len() as int, numbers.len() as int),
            t->right.summary()->0,
        ),
        joined(t->op, t->left.summary()->0, t->right.summary()->0) == t.summary(),
{
    let l = *t->left;
    let r = *t->right;
    lemma_leaves_nonempty(l);
    lemma_leaves_nonempty(r);
    assert(numbers.subrange(0, l.leaves().len() as int) =~= l.leaves());
    assert(numbers.subrange(l.leaves().len() as int, numbers.len() as int) =~= r.leaves());
}

/// The formula of `op` applied to the two formulas, if it has a result.
pub fn join(left: &Formula, op: Operator, right: &Formula) -> (out: Option<Formula>)
    ensures
        match out {
            Some(formula) => joined(op, left@, right@) == Some(formula@),
            None => joined(op, left@, right@) is None,
        },
{
    match op.apply(left.value, right.value) {
        Some(value) => {
            let mut text = String::new();
            append_operand(&mut text, left, op);
            text.append(op.to_string());
            append_operand(&mut text, right, op);
            proof {
                assert(text@ =~= wrapped(left.text@, parenthesized(left.top, op)) + op.symbol()
                    + wrapped(right.text@, parenthesized(right.top, op)));
            }
            Some(Formula { value, text, top: Some(op) })
        },
        None => None,
    }
}

} // verus!
