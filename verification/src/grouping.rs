//! Groupings of a digit sequence: every way to cut it into runs of
//! neighbouring digits, each run read as a decimal number.

use vstd::arithmetic::power2::*;
use vstd::prelude::*;
use vstd::seq_lib::lemma_no_dup_in_concat;
use vstd::slice::slice_subrange;

verus! {

/// Every element is a decimal digit.
pub open spec fn is_digit_sequence(digits: Seq<i64>) -> bool {
    forall|i: int| 0 <= i < digits.len() ==> 0 <= #[trigger] digits[i] <= 9
}

/// The number that the digits spell in base 10. Leading zeros count for
/// nothing, and no digits at all spell zero.
pub open spec fn decimal_value(digits: Seq<i64>) -> int
    decreases digits.len(),
{
    if digits.len() == 0 {
        0
    } else {
        decimal_value(digits.drop_last()) * 10 + digits.last()
    }
}

/// The sum of the run lengths.
pub open spec fn run_total(runs: Seq<int>) -> int
    decreases runs.len(),
{
    if runs.len() == 0 {
        0
    } else {
        runs[0] + run_total(runs.drop_first())
    }
}

/// `runs` cuts a sequence of `len` elements into runs: it gives the length
/// of each run, from left to right; there is at least one run, none is
/// empty, and together they take up the whole sequence.
pub open spec fn is_split(len: int, runs: Seq<int>) -> bool {
    &&& runs.len() >= 1
    &&& forall|i: int| 0 <= i < runs.len() ==> #[trigger] runs[i] >= 1
    &&& run_total(runs) == len
}

/// The runs of digits that `runs` cuts `digits` into.
pub open spec fn pieces(digits: Seq<i64>, runs: Seq<int>) -> Seq<Seq<i64>>
    decreases runs.len(),
{
    if runs.len() == 0 {
        Seq::empty()
    } else {
        seq![digits.take(runs[0])] + pieces(digits.skip(runs[0]), runs.drop_first())
    }
}

/// The grouping that `runs` makes of `digits`: the value of each run.
pub open spec fn grouping(digits: Seq<i64>, runs: Seq<int>) -> Seq<int> {
    pieces(digits, runs).map_values(|run: Seq<i64>| decimal_value(run))
}

/// The elements as mathematical integers.
pub open spec fn as_ints(values: Seq<i64>) -> Seq<int> {
    values.map_values(|v: i64| v as int)
}

/// Of two sequences of run lengths, `a` is the smaller at the first run in
/// which they differ.
pub open spec fn runs_precede(a: Seq<int>, b: Seq<int>) -> bool
    decreases a.len(),
{
    if a.len() == 0 || b.len() == 0 {
        false
    } else {
        a[0] < b[0] || (a[0] == b[0] && runs_precede(a.drop_first(), b.drop_first()))
    }
}

/// The split `a` comes before the split `b`: it has fewer cuts, or as many
/// and its runs precede those of `b`.
pub open spec fn split_precedes(a: Seq<int>, b: Seq<int>) -> bool {
    a.len() < b.len() || (a.len() == b.len() && runs_precede(a, b))
}

/// `out` holds, entry by entry, the groupings that the splits in `splits`
/// make of `digits`; the splits stand in their order, and none occurs
/// twice.
pub open spec fn lists_groupings(
    digits: Seq<i64>,
    out: Seq<Vec<i64>>,
    splits: Seq<Seq<int>>,
) -> bool {
    &&& splits.len() == out.len()
    &&& splits.no_duplicates()
    &&& forall|x: int, y: int|
        0 <= x < y < splits.len() ==> split_precedes(#[trigger] splits[x], #[trigger] splits[y])
    &&& forall|k: int|
        0 <= k < splits.len() ==> is_split(digits.len() as int, #[trigger] splits[k]) && as_ints(
            out[k]@,
        ) == grouping(digits, splits[k])
}

/// `out` holds the groupings of `digits` with exactly `commas` cuts, one
/// for each such split.
pub open spec fn enumerates_with_commas(
    digits: Seq<i64>,
    out: Seq<Vec<i64>>,
    splits: Seq<Seq<int>>,
    commas: int,
) -> bool {
    &&& lists_groupings(digits, out, splits)
    &&& forall|k: int| 0 <= k < splits.len() ==> (#[trigger] splits[k]).len() == commas + 1
    &&& forall|runs: Seq<int>| #[trigger]
        is_split(digits.len() as int, runs) && runs.len() == commas + 1 ==> splits.contains(runs)
}

/// `out` holds the groupings of `digits`, one for each split.
pub open spec fn enumerates_all(
    digits: Seq<i64>,
    out: Seq<Vec<i64>>,
    splits: Seq<Seq<int>>,
) -> bool {
    &&& lists_groupings(digits, out, splits)
    &&& forall|runs: Seq<int>| #[trigger]
        is_split(digits.len() as int, runs) ==> splits.contains(runs)
}

/// The number of ways to choose `k` out of `n`.
pub open spec fn binomial(n: nat, k: nat) -> nat
    decreases n,
{
    if k == 0 {
        1
    } else if n == 0 {
        0
    } else {
        binomial((n - 1) as nat, (k - 1) as nat) + binomial((n - 1) as nat, k)
    }
}

/// The sum of the first `count` entries of row `n` of Pascal's triangle.
pub open spec fn binomial_row_sum(n: nat, count: nat) -> nat
    decreases count,
{
    if count == 0 {
        0
    } else {
        binomial_row_sum(n, (count - 1) as nat) + binomial(n, (count - 1) as nat)
    }
}

/// There is no way to choose more than there is.
pub proof fn lemma_binomial_beyond(n: nat, k: nat)
    requires
        k > n,
    ensures
        binomial(n, k) == 0,
    decreases n,
{
    if n > 0 {
        lemma_binomial_beyond((n - 1) as nat, (k - 1) as nat);
        lemma_binomial_beyond((n - 1) as nat, k);
    }
}

/// A partial sum of a row is the sum of two partial sums of the row above.
pub proof fn lemma_row_sum_step(n: nat, count: nat)
    requires
        n >= 1,
        count >= 1,
    ensures
        binomial_row_sum(n, count) == binomial_row_sum((n - 1) as nat, count) + binomial_row_sum(
            (n - 1) as nat,
            (count - 1) as nat,
        ),
    decreases count,
{
    let above = (n - 1) as nat;
    if count == 1 {
        assert(binomial_row_sum(n, 0) == 0);
        assert(binomial_row_sum(above, 0) == 0);
        assert(binomial_row_sum(n, 1) == binomial_row_sum(n, 0) + binomial(n, 0));
        assert(binomial_row_sum(above, 1) == binomial_row_sum(above, 0) + binomial(above, 0));
    } else {
        lemma_row_sum_step(n, (count - 1) as nat);
        assert(binomial_row_sum(above, (count - 1) as nat) == binomial_row_sum(
            above,
            (count - 2) as nat,
        ) + binomial(above, (count - 2) as nat));
    }
}

/// Row `n` of Pascal's triangle sums to `2^n`.
pub proof fn lemma_row_sum_is_power_of_two(n: nat)
    ensures
        binomial_row_sum(n, n + 1) == pow2(n),
    decreases n,
{
    lemma2_to64();
    if n == 0 {
        assert(binomial_row_sum(0, 0) == 0);
        assert(binomial_row_sum(0, 1) == binomial_row_sum(0, 0) + binomial(0, 0));
    } else {
        let above = (n - 1) as nat;
        lemma_row_sum_is_power_of_two(above);
        lemma_row_sum_step(n, n + 1);
        lemma_binomial_beyond(above, n);
        assert(binomial_row_sum(above, n + 1) == binomial_row_sum(above, n) + binomial(above, n));
        lemma_pow2_unfold(n);
    }
}

/// A split has at most as many runs as there are elements.
pub proof fn lemma_run_total_at_least_len(runs: Seq<int>)
    requires
        forall|i: int| 0 <= i < runs.len() ==> #[trigger] runs[i] >= 1,
    ensures
        run_total(runs) >= runs.len(),
    decreases runs.len(),
{
    if runs.len() > 0 {
        lemma_run_total_at_least_len(runs.drop_first());
    }
}

/// The grouping starts with the value of the first run and goes on with the
/// grouping of the other digits by the other runs.
pub proof fn lemma_grouping_unfold(digits: Seq<i64>, runs: Seq<int>)
    requires
        runs.len() > 0,
    ensures
        grouping(digits, runs) == seq![decimal_value(digits.take(runs[0]))] + grouping(
            digits.skip(runs[0]),
            runs.drop_first(),
        ),
{
    let rest = pieces(digits.skip(runs[0]), runs.drop_first());
    assert(pieces(digits, runs) == seq![digits.take(runs[0])] + rest);
    assert(grouping(digits, runs) =~= seq![decimal_value(digits.take(runs[0]))] + grouping(
        digits.skip(runs[0]),
        runs.drop_first(),
    ));
}

/// The runs, put together again, are the digits.
pub proof fn lemma_pieces_concatenate(digits: Seq<i64>, runs: Seq<int>)
    requires
        forall|i: int| 0 <= i < runs.len() ==> #[trigger] runs[i] >= 1,
        run_total(runs) == digits.len(),
    ensures
        pieces(digits, runs).flatten() == digits,
    decreases runs.len(),
{
    if runs.len() == 0 {
        assert(pieces(digits, runs).flatten() =~= digits);
    } else {
        let first = digits.take(runs[0]);
        let rest = pieces(digits.skip(runs[0]), runs.drop_first());
        lemma_run_total_at_least_len(runs.drop_first());
        lemma_pieces_concatenate(digits.skip(runs[0]), runs.drop_first());
        let all = pieces(digits, runs);
        assert(all == seq![first] + rest);
        assert(all.first() == first);
        assert(all.drop_first() =~= rest);
        assert(all.flatten() =~= first + rest.flatten());
        assert(first + digits.skip(runs[0]) =~= digits);
    }
}

/// There are as many pieces as runs.
pub proof fn lemma_pieces_len(digits: Seq<i64>, runs: Seq<int>)
    ensures
        pieces(digits, runs).len() == runs.len(),
        grouping(digits, runs).len() == runs.len(),
    decreases runs.len(),
{
    if runs.len() > 0 {
        lemma_pieces_len(digits.skip(runs[0]), runs.drop_first());
    }
}

/// Two zeros stand side by side with at least one digit after them.
pub open spec fn has_inner_double_zero(digits: Seq<i64>) -> bool {
    exists|i: int|
        0 <= i && i + 2 < digits.len() && #[trigger] digits[i] == 0 && digits[i + 1] == 0
}

/// Digits that spell zero are all zero.
pub proof fn lemma_zero_value_zero_digits(digits: Seq<i64>)
    requires
        is_digit_sequence(digits),
        decimal_value(digits) == 0,
    ensures
        forall|i: int| 0 <= i < digits.len() ==> digits[i] == 0,
    decreases digits.len(),
{
    if digits.len() > 0 {
        let front = digits.drop_last();
        lemma_decimal_value_bounds(front, 0);
        assert(front.skip(0) =~= front);
        lemma_zero_value_zero_digits(front);
        assert forall|i: int| 0 <= i < digits.len() implies digits[i] == 0 by {
            if i < front.len() {
                assert(digits[i] == front[i]);
            }
        }
    }
}

/// Where a prefix spells the same number as a longer prefix, the digits of
/// the longer prefix are all zero.
pub proof fn lemma_equal_prefix_values(digits: Seq<i64>, a: int, b: int)
    requires
        is_digit_sequence(digits),
        0 <= a < b <= digits.len(),
        decimal_value(digits.take(a)) == decimal_value(digits.take(b)),
    ensures
        forall|i: int| 0 <= i < b ==> digits[i] == 0,
    decreases b - a,
{
    let longer = digits.take(b);
    let shorter = digits.take(b - 1);
    assert(longer.drop_last() =~= shorter);
    assert(longer.last() == digits[b - 1]);
    lemma_decimal_value_bounds(shorter, a);
    assert(shorter.take(a) =~= digits.take(a));
    lemma_decimal_value_bounds(shorter, 0);
    assert(shorter.skip(0) =~= shorter);
    // value(longer) == 10 * value(shorter) + last, and value(take(a)) <= value(shorter)
    assert(decimal_value(shorter) == 0 && digits[b - 1] == 0);
    lemma_zero_value_zero_digits(shorter);
    assert forall|i: int| 0 <= i < b implies digits[i] == 0 by {
        if i < b - 1 {
            assert(digits[i] == shorter[i]);
        }
    }
}

/// Two splits that start with runs of different lengths make different
/// groupings, unless two zeros stand side by side before another digit.
proof fn lemma_groupings_differ_at_head(digits: Seq<i64>, first: Seq<int>, second: Seq<int>)
    requires
        is_digit_sequence(digits),
        !has_inner_double_zero(digits),
        is_split(digits.len() as int, first),
        is_split(digits.len() as int, second),
        first[0] < second[0],
    ensures
        grouping(digits, first) != grouping(digits, second),
{
    let a = first[0];
    let b = second[0];
    lemma_grouping_unfold(digits, first);
    lemma_grouping_unfold(digits, second);
    lemma_pieces_len(digits, first);
    lemma_pieces_len(digits, second);
    lemma_run_total_at_least_len(first.drop_first());
    lemma_run_total_at_least_len(second.drop_first());
    let one = grouping(digits, first);
    let two = grouping(digits, second);
    assert(one[0] == decimal_value(digits.take(a)));
    assert(two[0] == decimal_value(digits.take(b)));
    if decimal_value(digits.take(a)) == decimal_value(digits.take(b)) {
        lemma_equal_prefix_values(digits, a, b);
        assert(digits[0] == 0 && digits[1] == 0);
        assert(digits.len() == 2);
        assert(second.len() == 1);
        assert(first.len() >= 2);
    }
}

/// Different splits make different groupings, unless two zeros stand side
/// by side before another digit: then two splits can agree, as `0, 01` and
/// `00, 1` do.
pub proof fn lemma_groupings_distinct(digits: Seq<i64>, first: Seq<int>, second: Seq<int>)
    requires
        is_digit_sequence(digits),
        !has_inner_double_zero(digits),
        is_split(digits.len() as int, first),
        is_split(digits.len() as int, second),
        first != second,
    ensures
        grouping(digits, first) != grouping(digits, second),
    decreases first.len(),
{
    if first[0] < second[0] {
        lemma_groupings_differ_at_head(digits, first, second);
    } else if second[0] < first[0] {
        lemma_groupings_differ_at_head(digits, second, first);
    } else {
        let a = first[0];
        let rest = digits.skip(a);
        let one = first.drop_first();
        let two = second.drop_first();
        lemma_grouping_unfold(digits, first);
        lemma_grouping_unfold(digits, second);
        lemma_run_total_at_least_len(one);
        lemma_run_total_at_least_len(two);
        if one.len() == 0 || two.len() == 0 {
            assert(run_total(one) == 0 && run_total(two) == 0);
            assert(one =~= two);
            assert(first =~= second);
        } else {
            assert(one != two) by {
                if one == two {
                    assert(first =~= seq![a] + one);
                    assert(second =~= seq![a] + two);
                }
            }
            assert(!has_inner_double_zero(rest)) by {
                if has_inner_double_zero(rest) {
                    let i = choose|i: int|
                        0 <= i && i + 2 < rest.len() && #[trigger] rest[i] == 0 && rest[i + 1]
                            == 0;
                    assert(digits[i + a] == 0 && digits[i + a + 1] == 0);
                }
            }
            lemma_groupings_distinct(rest, one, two);
            let g = grouping(digits, first);
            let h = grouping(digits, second);
            if g == h {
                assert(g.drop_first() =~= grouping(rest, one));
                assert(h.drop_first() =~= grouping(rest, two));
            }
        }
    }
}

/// A list of the groupings of different splits holds no grouping twice,
/// unless two zeros stand side by side before another digit.
pub proof fn lemma_listed_groupings_distinct(
    digits: Seq<i64>,
    out: Seq<Vec<i64>>,
    splits: Seq<Seq<int>>,
    i: int,
    j: int,
)
    requires
        is_digit_sequence(digits),
        !has_inner_double_zero(digits),
        lists_groupings(digits, out, splits),
        0 <= i < out.len(),
        0 <= j < out.len(),
        i != j,
    ensures
        out[i]@ != out[j]@,
{
    lemma_groupings_distinct(digits, splits[i], splits[j]);
}

/// Of decimal digits, a prefix and a suffix each spell a number that is not
/// negative and not above what the whole sequence spells.
pub proof fn lemma_decimal_value_bounds(digits: Seq<i64>, i: int)
    requires
        is_digit_sequence(digits),
        0 <= i <= digits.len(),
    ensures
        0 <= decimal_value(digits.take(i)) <= decimal_value(digits),
        0 <= decimal_value(digits.skip(i)) <= decimal_value(digits),
    decreases digits.len(),
{
    if digits.len() == 0 {
        assert(digits.take(i) =~= digits);
        assert(digits.skip(i) =~= digits);
    } else {
        let front = digits.drop_last();
        if i == digits.len() {
            lemma_decimal_value_bounds(front, i - 1);
            assert(front.take(i - 1) =~= front);
            assert(digits.take(i) =~= digits);
            assert(digits.skip(i) =~= Seq::<i64>::empty());
        } else {
            lemma_decimal_value_bounds(front, i);
            assert(digits.take(i) =~= front.take(i));
            assert(digits.skip(i).drop_last() =~= front.skip(i));
            assert(digits.skip(i).last() == digits.last());
        }
    }
}

/// The digits read as one number, in a vector of its own.
pub fn trans_list_to_number(n: &[i64]) -> (number: Vec<i64>)
    requires
        is_digit_sequence(n@),
        decimal_value(n@) <= i64::MAX,
    ensures
        number@.len() == 1,
        number@[0] == decimal_value(n@),
{
    let mut result: i64 = 0;
    let mut k: usize = 0;
    while k < n.len()
        invariant
            k <= n.len(),
            is_digit_sequence(n@),
            decimal_value(n@) <= i64::MAX,
            0 <= result == decimal_value(n@.take(k as int)),
        decreases n.len() - k,
    {
        proof {
            let longer = n@.take(k + 1);
            lemma_decimal_value_bounds(n@, k + 1);
            assert(longer.drop_last() =~= n@.take(k as int));
            assert(longer.last() == n@[k as int]);
        }
        result = result * 10 + n[k];
        k = k + 1;
    }
    proof {
        assert(n@.take(k as int) =~= n@);
    }
    let mut number: Vec<i64> = Vec::new();
    number.push(result);
    number
}

/// Appends the items to the target.
fn extend_with(target: &mut Vec<i64>, items: &Vec<i64>)
    ensures
        final(target)@ == old(target)@ + items@,
{
    let mut k: usize = 0;
    while k < items.len()
        invariant
            k <= items.len(),
            target@ == old(target)@ + items@.take(k as int),
        decreases items.len() - k,
    {
        target.push(items[k]);
        proof {
            assert(items@.take(k + 1) =~= items@.take(k as int).push(items@[k as int]));
        }
        k = k + 1;
    }
    proof {
        assert(items@.take(k as int) =~= items@);
    }
}

/// The groupings of the digits with exactly `comma` cuts: for each length
/// of the first run, that run's value followed by each grouping of the
/// other digits with one cut less.
#[verifier::loop_isolation(false)]
pub fn number_combinations(n: &[i64], comma: usize) -> (result: Vec<Vec<i64>>)
    requires
        comma < n.len(),
        is_digit_sequence(n@),
        decimal_value(n@) <= i64::MAX,
    ensures
        result.len() == binomial((n.len() - 1) as nat, comma as nat),
        exists|splits: Seq<Seq<int>>| enumerates_with_commas(n@, result@, splits, comma as int),
    decreases comma,
{
    let len = n.len();
    let mut result: Vec<Vec<i64>> = Vec::new();
    if comma == 0 {
        result.push(trans_list_to_number(n));
        proof {
            let whole = seq![len as int];
            let splits = seq![whole];
            assert(whole.drop_first() =~= Seq::<int>::empty());
            assert(run_total(Seq::<int>::empty()) == 0);
            assert(run_total(whole) == len);
            lemma_grouping_unfold(n@, whole);
            assert(n@.take(len as int) =~= n@);
            assert(grouping(n@.skip(len as int), whole.drop_first()) =~= Seq::<int>::empty());
            assert(as_ints(result@[0]@) =~= grouping(n@, whole));
            assert forall|runs: Seq<int>| #[trigger]
                is_split(len as int, runs) && runs.len() == 1 implies splits.contains(runs) by {
                assert(runs.drop_first() =~= Seq::<int>::empty());
                assert(runs =~= whole);
                assert(splits[0] == runs);
            }
            assert(enumerates_with_commas(n@, result@, splits, 0));
        }
        return result;
    }
    let ghost mut splits: Seq<Seq<int>> = Seq::empty();
    let mut i: usize = 1;
    while i < len - comma + 1
        invariant
            1 <= i <= len - comma + 1,
            splits.len() == result.len(),
            splits.no_duplicates(),
            forall|x: int, y: int|
                0 <= x < y < splits.len() ==> runs_precede(
                    #[trigger] splits[x],
                    #[trigger] splits[y],
                ),
            forall|k: int|
                0 <= k < splits.len() ==> {
                    &&& is_split(len as int, #[trigger] splits[k])
                    &&& splits[k].len() == comma + 1
                    &&& splits[k][0] < i
                    &&& as_ints(result[k]@) == grouping(n@, splits[k])
                },
            forall|runs: Seq<int>| #[trigger]
                is_split(len as int, runs) && runs.len() == comma + 1 && runs[0] < i
                    ==> splits.contains(runs),
            result.len() + binomial((len - i) as nat, comma as nat) == binomial(
                (len - 1) as nat,
                comma as nat,
            ),
        decreases len - i,
    {
        proof {
            lemma_decimal_value_bounds(n@, i as int);
        }
        let head = trans_list_to_number(slice_subrange(n, 0, i));
        let tails = number_combinations(slice_subrange(n, i, len), comma - 1);
        let ghost rest_digits = n@.subrange(i as int, len as int);
        let ghost fewer: int = comma - 1;
        let ghost sub = choose|s: Seq<Seq<int>>|
            enumerates_with_commas(rest_digits, tails@, s, fewer);
        let ghost base = splits;
        let mut j: usize = 0;
        while j < tails.len()
            invariant
                j <= tails.len(),
                result.len() == base.len() + j,
                splits.len() == base.len() + j,
                splits.no_duplicates(),
                forall|x: int, y: int|
                    0 <= x < y < splits.len() ==> runs_precede(
                        #[trigger] splits[x],
                        #[trigger] splits[y],
                    ),
                forall|k: int| 0 <= k < base.len() ==> #[trigger] splits[k] == base[k],
                forall|k: int|
                    base.len() <= k < splits.len() ==> #[trigger] splits[k] == seq![i as int]
                        + sub[k - base.len()],
                forall|k: int|
                    0 <= k < splits.len() ==> {
                        &&& is_split(len as int, #[trigger] splits[k])
                        &&& splits[k].len() == comma + 1
                        &&& splits[k][0] <= i
                        &&& as_ints(result[k]@) == grouping(n@, splits[k])
                    },
            decreases tails.len() - j,
        {
            let mut combined: Vec<i64> = Vec::new();
            combined.push(head[0]);
            extend_with(&mut combined, &tails[j]);
            proof {
                let tail = sub[j as int];
                let runs = seq![i as int] + tail;
                assert(runs.drop_first() =~= tail);
                assert(is_split(rest_digits.len() as int, tail));
                assert(run_total(runs) == i + run_total(tail));
                assert(is_split(len as int, runs));
                lemma_grouping_unfold(n@, runs);
                assert(n@.take(i as int) =~= n@.subrange(0, i as int));
                assert(n@.skip(i as int) =~= rest_digits);
                assert(as_ints(tails@[j as int]@) == grouping(rest_digits, tail));
                assert(as_ints(combined@) =~= seq![head@[0] as int] + as_ints(tails@[j as int]@));
                assert(as_ints(combined@) == grouping(n@, runs));
                assert forall|k: int| 0 <= k < splits.len() implies splits[k] != runs
                    && runs_precede(splits[k], runs) by {
                    if k >= base.len() {
                        let other = sub[k - base.len()];
                        assert((seq![i as int] + other).drop_first() =~= other);
                        assert(other != tail);
                        assert(split_precedes(other, tail));
                    } else {
                        assert(splits[k][0] < i);
                    }
                }
                splits = splits.push(runs);
            }
            result.push(combined);
            j = j + 1;
        }
        proof {
            assert forall|runs: Seq<int>| #[trigger]
                is_split(len as int, runs) && runs.len() == comma + 1 && runs[0] < i
                    + 1 implies splits.contains(runs) by {
                if runs[0] < i {
                    assert(base.contains(runs));
                    let k = choose|k: int| 0 <= k < base.len() && base[k] == runs;
                    assert(splits[k] == runs);
                } else {
                    let tail = runs.drop_first();
                    assert(forall|t: int| 0 <= t < tail.len() ==> tail[t] == runs[t + 1]);
                    assert(is_split(rest_digits.len() as int, tail));
                    assert(sub.contains(tail));
                    let t = choose|t: int| 0 <= t < sub.len() && sub[t] == tail;
                    assert(splits[base.len() + t] == seq![i as int] + sub[t]);
                    assert(seq![i as int] + tail =~= runs);
                }
            }
            assert(tails.len() == binomial((len - i - 1) as nat, (comma - 1) as nat));
            assert(binomial((len - i) as nat, comma as nat) == binomial(
                (len - i - 1) as nat,
                (comma - 1) as nat,
            ) + binomial((len - i - 1) as nat, comma as nat));
        }
        i = i + 1;
    }
    proof {
        lemma_binomial_beyond((comma - 1) as nat, comma as nat);
        assert forall|runs: Seq<int>| #[trigger]
            is_split(len as int, runs) && runs.len() == comma + 1 implies splits.contains(
            runs,
        ) by {
            lemma_run_total_at_least_len(runs.drop_first());
            assert(runs[0] < i);
        }
        assert(enumerates_with_commas(n@, result@, splits, comma as int));
    }
    result
}

/// Every grouping of the digits: one for each way to cut the sequence at
/// some of the gaps between neighbouring digits, so `2^(L-1)` of them for
/// `L` digits, and none for no digits. They come ordered by the number of
/// cuts, from the whole sequence as one number to the single digits, and
/// among those with as many cuts, the shorter first run first.
#[verifier::loop_isolation(false)]
pub fn create_combination(n: &[i64]) -> (result: Vec<Vec<i64>>)
    requires
        is_digit_sequence(n@),
        decimal_value(n@) <= i64::MAX,
    ensures
        n.len() == 0 ==> result.len() == 0,
        n.len() > 0 ==> result.len() == pow2((n.len() - 1) as nat),
        exists|splits: Seq<Seq<int>>| enumerates_all(n@, result@, splits),
{
    let len = n.len();
    let mut result: Vec<Vec<i64>> = Vec::new();
    let ghost mut splits: Seq<Seq<int>> = Seq::empty();
    let mut c: usize = 0;
    while c < len
        invariant
            c <= len,
            lists_groupings(n@, result@, splits),
            forall|k: int| 0 <= k < splits.len() ==> (#[trigger] splits[k]).len() <= c,
            forall|runs: Seq<int>| #[trigger]
                is_split(len as int, runs) && runs.len() <= c ==> splits.contains(runs),
            result.len() == binomial_row_sum((len - 1) as nat, c as nat),
        decreases len - c,
    {
        let mut part = number_combinations(n, c);
        let ghost commas: int = c as int;
        let ghost sub = choose|s: Seq<Seq<int>>| enumerates_with_commas(n@, part@, s, commas);
        let ghost part_view = part@;
        let ghost before = splits;
        let ghost before_out = result@;
        result.append(&mut part);
        proof {
            lemma_no_dup_in_concat(before, sub);
            splits = before + sub;
            assert forall|x: int, y: int| 0 <= x < y < splits.len() implies split_precedes(
                #[trigger] splits[x],
                #[trigger] splits[y],
            ) by {
                if y < before.len() {
                    assert(splits[x] == before[x] && splits[y] == before[y]);
                } else if x < before.len() {
                    assert(splits[x] == before[x] && splits[y] == sub[y - before.len()]);
                } else {
                    assert(splits[x] == sub[x - before.len()] && splits[y] == sub[y
                        - before.len()]);
                }
            }
            assert forall|k: int| 0 <= k < splits.len() implies is_split(
                len as int,
                #[trigger] splits[k],
            ) && as_ints(result@[k]@) == grouping(n@, splits[k]) by {
                if k < before.len() {
                    assert(splits[k] == before[k]);
                    assert(result@[k] == before_out[k]);
                } else {
                    assert(splits[k] == sub[k - before.len()]);
                    assert(result@[k] == part_view[k - before.len()]);
                }
            }
            assert forall|runs: Seq<int>| #[trigger]
                is_split(len as int, runs) && runs.len() <= c + 1 implies splits.contains(
                runs,
            ) by {
                if runs.len() <= c {
                    let k = choose|k: int| 0 <= k < before.len() && before[k] == runs;
                    assert(splits[k] == runs);
                } else {
                    let k = choose|k: int| 0 <= k < sub.len() && sub[k] == runs;
                    assert(splits[before.len() + k] == runs);
                }
            }
        }
        c = c + 1;
    }
    proof {
        assert forall|runs: Seq<int>| #[trigger] is_split(len as int, runs) implies splits.contains(
            runs,
        ) by {
            lemma_run_total_at_least_len(runs);
        }
        if len > 0 {
            lemma_row_sum_is_power_of_two((len - 1) as nat);
        }
        assert(enumerates_all(n@, result@, splits));
    }
    result
}

} // verus!
