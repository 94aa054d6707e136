//! The search: every expression over a sequence of numbers, and over every
//! grouping of a sequence of digits, gathered in a result map.
//!
//! The number of expressions grows with the Catalan numbers times a power
//! of four, so the search is meant for up to six or eight numbers.

use crate::expression::{
    decimal_string,
    expresses,
    holds_formula,
    join,
    joined,
    lemma_join_expresses,
    lemma_leaves_nonempty,
    lemma_node_parts,
    lemma_single_leaf,
    lemma_value_without_zero_division,
    Expr,
    Formula,
    FormulaView,
};
use crate::grouping::{
    as_ints,
    create_combination,
    decimal_value,
    enumerates_all,
    grouping,
    is_digit_sequence,
    is_split,
};
use crate::operator::Operator;
use crate::ranking::{collect_by_value, listed, map_holds, ranked};
use std::collections::HashMap;
use vstd::prelude::*;
use vstd::slice::slice_subrange;

verus! {

/// If `op` has a result on the two formulas, the list holds their join.
pub open spec fn op_covered(
    list: Seq<Formula>,
    op: Operator,
    left: FormulaView,
    right: FormulaView,
) -> bool {
    joined(op, left, right) is Some ==> holds_formula(list, joined(op, left, right)->0)
}

/// Some operator joins the two formulas to `kept`.
pub open spec fn joins_to(left: FormulaView, right: FormulaView, kept: FormulaView) -> bool {
    exists|op: Operator| #[trigger] joined(op, left, right) == Some(kept)
}

/// The list holds every join of the two formulas.
pub open spec fn pair_covered(list: Seq<Formula>, left: FormulaView, right: FormulaView) -> bool {
    &&& op_covered(list, Operator::Add, left, right)
    &&& op_covered(list, Operator::Sub, left, right)
    &&& op_covered(list, Operator::Mul, left, right)
    &&& op_covered(list, Operator::Div, left, right)
}

/// The expression has an operator at its root, stands over the numbers,
/// has a value, and its left operand takes fewer than `i` of the numbers.
pub open spec fn cut_before(t: Expr, numbers: Seq<i64>, i: int) -> bool {
    &&& t is Node
    &&& t.leaves() == numbers
    &&& t.summary() is Some
    &&& t->left.leaves().len() < i
}

/// The expression stands over the numbers, has the value `v` and is
/// written `s`.
pub open spec fn reads(t: Expr, numbers: Seq<i64>, v: i64, s: Seq<char>) -> bool {
    &&& t.leaves() == numbers
    &&& t.value() == Some(v as int)
    &&& t.text() == s
}

/// Some expression over the numbers has the value `v` and is written `s`.
pub open spec fn reaches(numbers: Seq<i64>, v: i64, s: Seq<char>) -> bool {
    exists|t: Expr| reads(t, numbers, v, s)
}

/// The expression stands over the grouping that `runs` makes of the
/// digits, has the value `v` and is written `s`.
pub open spec fn writes(digits: Seq<i64>, runs: Seq<int>, t: Expr, v: i64, s: Seq<char>) -> bool {
    &&& is_split(digits.len() as int, runs)
    &&& as_ints(t.leaves()) == grouping(digits, runs)
    &&& t.value() == Some(v as int)
    &&& t.text() == s
}

/// Some expression over some grouping of the digits has the value `v` and
/// is written `s`.
pub open spec fn reaches_from_digits(digits: Seq<i64>, v: i64, s: Seq<char>) -> bool {
    exists|runs: Seq<int>, t: Expr| writes(digits, runs, t, v, s)
}

/// One of the first `upto` groups has an expression that is kept as `kept`.
pub open spec fn expressed_by_group(groups: Seq<Vec<i64>>, upto: int, kept: FormulaView) -> bool {
    exists|x: int| 0 <= x < upto && #[trigger] expresses(groups[x]@, kept)
}

/// Sequences of 64-bit integers that agree as mathematical integers are
/// equal.
pub proof fn lemma_as_ints_injective(a: Seq<i64>, b: Seq<i64>)
    requires
        as_ints(a) == as_ints(b),
    ensures
        a == b,
{
    assert(a.len() == as_ints(a).len());
    assert(b.len() == as_ints(b).len());
    assert forall|i: int| 0 <= i < a.len() implies a[i] == b[i] by {
        assert(as_ints(a)[i] == a[i] as int);
        assert(as_ints(b)[i] == b[i] as int);
    }
    assert(a =~= b);
}

/// What reaches a value is written by an expression that divides by zero
/// nowhere: no entry of a result map rests on a division by zero.
pub proof fn lemma_reached_without_zero_division(numbers: Seq<i64>, v: i64, s: Seq<char>)
    requires
        reaches(numbers, v, s),
    ensures
        exists|t: Expr| reads(t, numbers, v, s) && t.divides_by_zero_nowhere(),
{
    let t = choose|t: Expr| reads(t, numbers, v, s);
    lemma_value_without_zero_division(t);
}

/// Appends the join of the two formulas by `op`, if there is one.
fn push_joined(left: &Formula, op: Operator, right: &Formula, out: &mut Vec<Formula>)
    ensures
        match joined(op, left@, right@) {
            Some(kept) => {
                &&& final(out)@.len() == old(out)@.len() + 1
                &&& final(out)@.drop_last() == old(out)@
                &&& final(out)@.last()@ == kept
            },
            None => final(out)@ == old(out)@,
        },
{
    match join(left, op, right) {
        Some(formula) => {
            out.push(formula);
            proof {
                assert(out@.drop_last() =~= old(out)@);
            }
        },
        None => {},
    }
}

/// Appends the joins of the two formulas by each operator that has a
/// result on them, in the order `+`, `-`, `*`, `/`.
fn combine(left: &Formula, right: &Formula, out: &mut Vec<Formula>)
    ensures
        old(out)@.len() <= final(out)@.len(),
        forall|k: int|
            #![trigger final(out)@[k]]
            #![trigger old(out)@[k]]
            0 <= k < old(out)@.len() ==> final(out)@[k] == old(out)@[k],
        forall|k: int|
            old(out)@.len() <= k < final(out)@.len() ==> joins_to(
                left@,
                right@,
                #[trigger] final(out)@[k]@,
            ),
        pair_covered(final(out)@, left@, right@),
{
    let ghost s0 = out@;
    push_joined(left, Operator::Add, right, out);
    let ghost s1 = out@;
    proof {
        assert(forall|k: int| 0 <= k < s0.len() ==> s1[k] == s1.drop_last()[k] || s1 == s0);
        if joined(Operator::Add, left@, right@) is Some {
            assert(s1[s1.len() - 1]@ == joined(Operator::Add, left@, right@)->0);
        }
    }
    push_joined(left, Operator::Sub, right, out);
    let ghost s2 = out@;
    proof {
        assert(forall|k: int| 0 <= k < s1.len() ==> s2[k] == s2.drop_last()[k] || s2 == s1);
        if joined(Operator::Sub, left@, right@) is Some {
            assert(s2[s2.len() - 1]@ == joined(Operator::Sub, left@, right@)->0);
        }
    }
    push_joined(left, Operator::Mul, right, out);
    let ghost s3 = out@;
    proof {
        assert(forall|k: int| 0 <= k < s2.len() ==> s3[k] == s3.drop_last()[k] || s3 == s2);
        if joined(Operator::Mul, left@, right@) is Some {
            assert(s3[s3.len() - 1]@ == joined(Operator::Mul, left@, right@)->0);
        }
    }
    push_joined(left, Operator::Div, right, out);
    let ghost s4 = out@;
    proof {
        assert(forall|k: int| 0 <= k < s3.len() ==> s4[k] == s4.drop_last()[k] || s4 == s3);
        if joined(Operator::Div, left@, right@) is Some {
            assert(s4[s4.len() - 1]@ == joined(Operator::Div, left@, right@)->0);
        }
        assert(forall|k: int| 0 <= k < s0.len() ==> s1[k] == s0[k]);
        assert(forall|k: int| 0 <= k < s1.len() ==> s2[k] == s1[k]);
        assert(forall|k: int| 0 <= k < s2.len() ==> s3[k] == s2[k]);
        assert(forall|k: int| 0 <= k < s3.len() ==> s4[k] == s3[k]);
        assert forall|k: int| s0.len() <= k < s4.len() implies joins_to(
            left@,
            right@,
            #[trigger] s4[k]@,
        ) by {
            if k < s1.len() {
                assert(joined(Operator::Add, left@, right@) == Some(s4[k]@));
            } else if k < s2.len() {
                assert(joined(Operator::Sub, left@, right@) == Some(s4[k]@));
            } else if k < s3.len() {
                assert(joined(Operator::Mul, left@, right@) == Some(s4[k]@));
            } else {
                assert(joined(Operator::Div, left@, right@) == Some(s4[k]@));
            }
        }
        if joined(Operator::Add, left@, right@) is Some {
            assert(s4[s1.len() - 1]@ == joined(Operator::Add, left@, right@)->0);
        }
        if joined(Operator::Sub, left@, right@) is Some {
            assert(s4[s2.len() - 1]@ == joined(Operator::Sub, left@, right@)->0);
        }
        if joined(Operator::Mul, left@, right@) is Some {
            assert(s4[s3.len() - 1]@ == joined(Operator::Mul, left@, right@)->0);
        }
    }
}

/// Every expression over the numbers that has a value: for each place to
/// cut the numbers in two, each expression over the numbers before the cut
/// joined with each expression over the numbers after it by each operator.
#[verifier::loop_isolation(false)]
pub fn expressions_over(numbers: &[i64]) -> (out: Vec<Formula>)
    ensures
        forall|k: int| 0 <= k < out@.len() ==> expresses(numbers@, #[trigger] out@[k]@),
        forall|kept: FormulaView| #[trigger]
            expresses(numbers@, kept) ==> holds_formula(out@, kept),
    decreases numbers.len(),
{
    let len = numbers.len();
    let mut out: Vec<Formula> = Vec::new();
    if len == 0 {
        proof {
            assert forall|kept: FormulaView| #[trigger]
                expresses(numbers@, kept) implies holds_formula(out@, kept) by {
                let t = choose|t: Expr|
                    t.leaves() == numbers@ && #[trigger] t.summary() == Some(kept);
                lemma_leaves_nonempty(t);
            }
        }
        return out;
    }
    if len == 1 {
        out.push(Formula { value: numbers[0], text: decimal_string(numbers[0]), top: None });
        proof {
            let leaf = Expr::Leaf { number: numbers@[0] };
            assert(leaf.leaves() =~= numbers@);
            assert(leaf.summary() == Some(out@[0]@));
            assert forall|kept: FormulaView| #[trigger]
                expresses(numbers@, kept) implies holds_formula(out@, kept) by {
                let t = choose|t: Expr|
                    t.leaves() == numbers@ && #[trigger] t.summary() == Some(kept);
                lemma_single_leaf(t);
                assert(out@[0]@ == kept);
            }
        }
        return out;
    }
    let mut i: usize = 1;
    proof {
        assert forall|t: Expr| #[trigger] cut_before(t, numbers@, 1) implies holds_formula(
            out@,
            t.summary()->0,
        ) by {
            lemma_leaves_nonempty(*t->left);
        }
    }
    while i < len
        invariant
            1 <= i <= len,
            forall|k: int| 0 <= k < out@.len() ==> expresses(numbers@, #[trigger] out@[k]@),
            forall|t: Expr| #[trigger]
                cut_before(t, numbers@, i as int) ==> holds_formula(out@, t.summary()->0),
        decreases len - i,
    {
        let left = expressions_over(slice_subrange(numbers, 0, i));
        let right = expressions_over(slice_subrange(numbers, i, len));
        let ghost left_numbers = numbers@.subrange(0, i as int);
        let ghost right_numbers = numbers@.subrange(i as int, len as int);
        let mut a: usize = 0;
        while a < left.len()
            invariant
                a <= left.len(),
                forall|k: int| 0 <= k < out@.len() ==> expresses(numbers@, #[trigger] out@[k]@),
                forall|t: Expr| #[trigger]
                    cut_before(t, numbers@, i as int) ==> holds_formula(out@, t.summary()->0),
                forall|x: int, y: int|
                    #![trigger left@[x], right@[y]]
                    0 <= x < a && 0 <= y < right@.len() ==> pair_covered(
                        out@,
                        left@[x]@,
                        right@[y]@,
                    ),
            decreases left.len() - a,
        {
            let mut b: usize = 0;
            while b < right.len()
                invariant
                    a < left.len(),
                    b <= right.len(),
                    forall|k: int|
                        0 <= k < out@.len() ==> expresses(numbers@, #[trigger] out@[k]@),
                    forall|t: Expr| #[trigger]
                        cut_before(t, numbers@, i as int) ==> holds_formula(
                            out@,
                            t.summary()->0,
                        ),
                    forall|x: int, y: int|
                        #![trigger left@[x], right@[y]]
                        0 <= x < a && 0 <= y < right@.len() ==> pair_covered(
                            out@,
                            left@[x]@,
                            right@[y]@,
                        ),
                    forall|y: int|
                        0 <= y < b ==> pair_covered(out@, left@[a as int]@, #[trigger] right@[y]@),
                decreases right.len() - b,
            {
                let ghost before = out@;
                combine(&left[a], &right[b], &mut out);
                proof {
                    let lv = left@[a as int]@;
                    let rv = right@[b as int]@;
                    assert(expresses(left_numbers, lv));
                    assert(expresses(right_numbers, rv));
                    assert forall|k: int| 0 <= k < out@.len() implies expresses(
                        numbers@,
                        #[trigger] out@[k]@,
                    ) by {
                        if k < before.len() {
                            assert(out@[k] == before[k]);
                        } else {
                            assert(joins_to(lv, rv, out@[k]@));
                            let op = choose|op: Operator| #[trigger]
                                joined(op, lv, rv) == Some(out@[k]@);
                            lemma_join_expresses(numbers@, i as int, op, lv, rv, out@[k]@);
                        }
                    }
                }
                b = b + 1;
            }
            a = a + 1;
        }
        proof {
            assert forall|t: Expr| #[trigger] cut_before(t, numbers@, i + 1) implies holds_formula(
                out@,
                t.summary()->0,
            ) by {
                if t->left.leaves().len() == i {
                    lemma_node_parts(t, numbers@);
                    let lv = t->left.summary()->0;
                    let rv = t->right.summary()->0;
                    assert(expresses(left_numbers, lv));
                    assert(expresses(right_numbers, rv));
                    assert(holds_formula(left@, lv));
                    assert(holds_formula(right@, rv));
                    let x = choose|x: int| 0 <= x < left@.len() && #[trigger] left@[x]@ == lv;
                    let y = choose|y: int| 0 <= y < right@.len() && #[trigger] right@[y]@ == rv;
                    assert(pair_covered(out@, left@[x]@, right@[y]@));
                    assert(op_covered(out@, t->op, lv, rv));
                } else {
                    assert(cut_before(t, numbers@, i as int));
                }
            }
        }
        i = i + 1;
    }
    proof {
        assert forall|kept: FormulaView| #[trigger]
            expresses(numbers@, kept) implies holds_formula(out@, kept) by {
            let t = choose|t: Expr| t.leaves() == numbers@ && #[trigger] t.summary() == Some(kept);
            if t is Leaf {
                assert(t.leaves().len() == 1);
            }
            lemma_node_parts(t, numbers@);
            assert(cut_before(t, numbers@, len as int));
        }
    }
    out
}

/// The result map of the numbers: under each value that some expression
/// over the numbers has, the texts of all the expressions with that value,
/// each once, shortest first and in lexicographic order among texts of one
/// length. No numbers give the empty map.
pub fn calculate_all_expressions(numbers: &[i64]) -> (results: HashMap<i64, Vec<String>>)
    ensures
        forall|v: i64| #[trigger]
            results@.contains_key(v) ==> ranked(results@[v]@) && results@[v]@.len() > 0,
        forall|v: i64, s: Seq<char>| #[trigger]
            map_holds(results@, v, s) <==> reaches(numbers@, v, s),
{
    let formulas = expressions_over(numbers);
    let results = collect_by_value(&formulas);
    proof {
        assert forall|v: i64, s: Seq<char>| #[trigger]
            map_holds(results@, v, s) <==> reaches(numbers@, v, s) by {
            assert(map_holds(results@, v, s) <==> listed(formulas@, formulas.len() as int, v, s));
            if listed(formulas@, formulas.len() as int, v, s) {
                let k = choose|k: int|
                    0 <= k < formulas.len() && formulas@[k].value == v && formulas@[k].text@ == s;
                assert(expresses(numbers@, formulas@[k]@));
                let t = choose|t: Expr|
                    t.leaves() == numbers@ && #[trigger] t.summary() == Some(formulas@[k]@);
                assert(reads(t, numbers@, v, s));
            }
            if reaches(numbers@, v, s) {
                let t = choose|t: Expr| reads(t, numbers@, v, s);
                let kept = t.summary()->0;
                assert(t.summary() == Some(kept));
                assert(expresses(numbers@, kept));
                let k = choose|k: int| 0 <= k < formulas@.len() && #[trigger] formulas@[k]@ == kept;
                assert(formulas@[k].value == v && formulas@[k].text@ == s);
            }
        }
    }
    results
}

/// The result map of the digits: the expressions over every grouping of
/// the digits, gathered as `calculate_all_expressions` gathers those over
/// one sequence of numbers.
#[verifier::loop_isolation(false)]
pub fn create_all_combinations(n: &[i64]) -> (results: HashMap<i64, Vec<String>>)
    requires
        is_digit_sequence(n@),
        decimal_value(n@) <= i64::MAX,
    ensures
        forall|v: i64| #[trigger]
            results@.contains_key(v) ==> ranked(results@[v]@) && results@[v]@.len() > 0,
        forall|v: i64, s: Seq<char>| #[trigger]
            map_holds(results@, v, s) <==> reaches_from_digits(n@, v, s),
{
    let groups = create_combination(n);
    let ghost splits = choose|splits: Seq<Seq<int>>| enumerates_all(n@, groups@, splits);
    let mut all: Vec<Formula> = Vec::new();
    let mut g: usize = 0;
    while g < groups.len()
        invariant
            g <= groups.len(),
            forall|k: int|
                0 <= k < all@.len() ==> expressed_by_group(groups@, g as int, #[trigger] all@[k]@),
            forall|x: int, kept: FormulaView|
                0 <= x < g && #[trigger] expresses(groups@[x]@, kept) ==> holds_formula(all@, kept),
        decreases groups.len() - g,
    {
        let mut part = expressions_over(groups[g].as_slice());
        let ghost part_view = part@;
        let ghost before = all@;
        all.append(&mut part);
        proof {
            assert forall|k: int| 0 <= k < all@.len() implies expressed_by_group(
                groups@,
                g + 1,
                #[trigger] all@[k]@,
            ) by {
                if k < before.len() {
                    assert(all@[k] == before[k]);
                    assert(expressed_by_group(groups@, g as int, before[k]@));
                    let x = choose|x: int| 0 <= x < g && #[trigger] expresses(groups@[x]@, before[k]@);
                    assert(0 <= x < g + 1);
                } else {
                    assert(all@[k] == part_view[k - before.len()]);
                    assert(expresses(groups@[g as int]@, all@[k]@));
                }
            }
            assert forall|x: int, kept: FormulaView|
                0 <= x < g + 1 && #[trigger] expresses(groups@[x]@, kept) implies holds_formula(
                all@,
                kept,
            ) by {
                if x < g {
                    assert(holds_formula(before, kept));
                    let k = choose|k: int| 0 <= k < before.len() && #[trigger] before[k]@ == kept;
                    assert(all@[k]@ == kept);
                } else {
                    assert(holds_formula(part_view, kept));
                    let k = choose|k: int|
                        0 <= k < part_view.len() && #[trigger] part_view[k]@ == kept;
                    assert(all@[before.len() + k]@ == kept);
                }
            }
        }
        g = g + 1;
    }
    let results = collect_by_value(&all);
    proof {
        assert forall|v: i64, s: Seq<char>| #[trigger]
            map_holds(results@, v, s) <==> reaches_from_digits(n@, v, s) by {
            assert(map_holds(results@, v, s) <==> listed(all@, all.len() as int, v, s));
            if listed(all@, all.len() as int, v, s) {
                let k = choose|k: int|
                    0 <= k < all.len() && all@[k].value == v && all@[k].text@ == s;
                assert(expressed_by_group(groups@, groups.len() as int, all@[k]@));
                let x = choose|x: int|
                    0 <= x < groups.len() && #[trigger] expresses(groups@[x]@, all@[k]@);
                let t = choose|t: Expr|
                    t.leaves() == groups@[x]@ && #[trigger] t.summary() == Some(all@[k]@);
                assert(is_split(n@.len() as int, splits[x]));
                assert(writes(n@, splits[x], t, v, s));
            }
            if reaches_from_digits(n@, v, s) {
                let (runs, t) = choose|runs: Seq<int>, t: Expr| writes(n@, runs, t, v, s);
                assert(splits.contains(runs));
                let x = choose|x: int| 0 <= x < splits.len() && splits[x] == runs;
                assert(as_ints(groups@[x]@) == grouping(n@, splits[x]));
                lemma_as_ints_injective(t.leaves(), groups@[x]@);
                let kept = t.summary()->0;
                assert(t.summary() == Some(kept));
                assert(expresses(groups@[x]@, kept));
                assert(holds_formula(all@, kept));
                let k = choose|k: int| 0 <= k < all@.len() && #[trigger] all@[k]@ == kept;
                assert(all@[k].value == v && all@[k].text@ == s);
            }
        }
    }
    results
}

} // verus!
