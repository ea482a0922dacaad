//! The arithmetic that prices, scores, and money are computed with.
//!
//! The library never fixes a number format. Callers bring one, floating point as a rule,
//! by implementing [`Number`]. Nothing is promised of its operations, so a contract that
//! involves arithmetic names the operations and their operands: it says that a value *is a
//! result of* an operation on given values, and holds whatever the format rounds to. A law
//! that needs more of the format says so: [`one_result`] or [`exact`].
use vstd::prelude::*;

verus! {

/// The operations a number format offers.
pub trait Number: Copy {
    /// The quotient of two whole numbers, the way every constant is written.
    fn from_ratio(numerator: u64, denominator: u64) -> Self;

    /// What summing no values at all yields.
    fn empty_sum() -> Self;

    /// A value above every finite one.
    fn unbounded() -> Self;

    /// `self + other`.
    fn plus(self, other: Self) -> Self;

    /// `self - other`.
    fn minus(self, other: Self) -> Self;

    /// `self * other`.
    fn times(self, other: Self) -> Self;

    /// `self / other`.
    fn over(self, other: Self) -> Self;

    /// The larger of the two; one that is undefined gives way.
    fn larger(self, other: Self) -> Self;

    /// The larger of the two; undefined if either is.
    fn higher(self, other: Self) -> Self;

    /// The smaller of the two; one that is undefined gives way.
    fn smaller(self, other: Self) -> Self;

    /// Largest whole value at or below `self`.
    fn floor(self) -> Self;

    /// Smallest whole value at or above `self`.
    fn ceil(self) -> Self;

    /// Square root.
    fn sqrt(self) -> Self;

    /// Natural logarithm of `1 + self`.
    fn log_one_plus(self) -> Self;

    /// Whole part as a count, zero for anything below one.
    fn whole(self) -> u64;

    /// Whether `self > other`.
    fn exceeds(self, other: Self) -> bool;

    /// Whether `self >= other`.
    fn reaches(self, other: Self) -> bool;

    /// Whether `self` is neither infinite nor undefined.
    fn is_finite(self) -> bool;

    /// Place of `self` in the format's total order: the larger number has the larger rank.
    fn rank(self) -> i64;

    /// Decimal text with a fixed number of decimals, a leading `+` on demand.
    fn text(self, decimals: usize, signed: bool) -> String;
}

/// A format that values are kept in, beside the wider one that they are summed and averaged
/// in: single beside double precision, as a rule.
pub trait Narrow: Number {
    /// The wider format.
    type Wide: Number;

    /// `self` in the wider format.
    fn widened(self) -> Self::Wide;

    /// `wide` rounded to this format.
    fn narrowed(wide: Self::Wide) -> Self;
}

/// `r` is a result of the quotient `n / d` of whole numbers.
#[verifier::inline]
pub open spec fn ratio_is<N: Number>(n: u64, d: u64, r: N) -> bool {
    call_ensures(N::from_ratio, (n, d), r)
}

/// `r` is a result of an empty sum.
#[verifier::inline]
pub open spec fn empty_sum_is<N: Number>(r: N) -> bool {
    call_ensures(N::empty_sum, (), r)
}

/// `r` is a result of asking for the unbounded value.
#[verifier::inline]
pub open spec fn unbounded_is<N: Number>(r: N) -> bool {
    call_ensures(N::unbounded, (), r)
}

/// `r` is a result of `a + b`.
#[verifier::inline]
pub open spec fn sum_is<N: Number>(a: N, b: N, r: N) -> bool {
    call_ensures(N::plus, (a, b), r)
}

/// `r` is a result of `a - b`.
#[verifier::inline]
pub open spec fn difference_is<N: Number>(a: N, b: N, r: N) -> bool {
    call_ensures(N::minus, (a, b), r)
}

/// `r` is a result of `a * b`.
#[verifier::inline]
pub open spec fn product_is<N: Number>(a: N, b: N, r: N) -> bool {
    call_ensures(N::times, (a, b), r)
}

/// `r` is a result of `a / b`.
#[verifier::inline]
pub open spec fn quotient_is<N: Number>(a: N, b: N, r: N) -> bool {
    call_ensures(N::over, (a, b), r)
}

/// `r` is a result of taking the larger of `a` and `b`.
#[verifier::inline]
pub open spec fn larger_is<N: Number>(a: N, b: N, r: N) -> bool {
    call_ensures(N::larger, (a, b), r)
}

/// `r` is a result of taking the higher of `a` and `b`.
#[verifier::inline]
pub open spec fn higher_is<N: Number>(a: N, b: N, r: N) -> bool {
    call_ensures(N::higher, (a, b), r)
}

/// `r` is a result of taking the smaller of `a` and `b`.
#[verifier::inline]
pub open spec fn smaller_is<N: Number>(a: N, b: N, r: N) -> bool {
    call_ensures(N::smaller, (a, b), r)
}

/// `r` is a result of rounding `a` down.
#[verifier::inline]
pub open spec fn floor_is<N: Number>(a: N, r: N) -> bool {
    call_ensures(N::floor, (a,), r)
}

/// `r` is a result of rounding `a` up.
#[verifier::inline]
pub open spec fn ceil_is<N: Number>(a: N, r: N) -> bool {
    call_ensures(N::ceil, (a,), r)
}

/// `r` is a result of the square root of `a`.
#[verifier::inline]
pub open spec fn sqrt_is<N: Number>(a: N, r: N) -> bool {
    call_ensures(N::sqrt, (a,), r)
}

/// `r` is a result of the logarithm of `1 + a`.
#[verifier::inline]
pub open spec fn log_one_plus_is<N: Number>(a: N, r: N) -> bool {
    call_ensures(N::log_one_plus, (a,), r)
}

/// `r` is a result of taking the whole part of `a` as a count.
#[verifier::inline]
pub open spec fn whole_is<N: Number>(a: N, r: u64) -> bool {
    call_ensures(N::whole, (a,), r)
}

/// `r` is a result of the comparison `a > b`.
#[verifier::inline]
pub open spec fn exceeds_is<N: Number>(a: N, b: N, r: bool) -> bool {
    call_ensures(N::exceeds, (a, b), r)
}

/// `r` is a result of the comparison `a >= b`.
#[verifier::inline]
pub open spec fn reaches_is<N: Number>(a: N, b: N, r: bool) -> bool {
    call_ensures(N::reaches, (a, b), r)
}

/// `r` is a result of the finiteness test on `a`.
#[verifier::inline]
pub open spec fn finite_is<N: Number>(a: N, r: bool) -> bool {
    call_ensures(N::is_finite, (a,), r)
}

/// `r` is a result of ranking `a`.
#[verifier::inline]
pub open spec fn rank_is<N: Number>(a: N, r: i64) -> bool {
    call_ensures(N::rank, (a,), r)
}

/// `r` is a result of writing `a` out with `decimals` decimals.
pub open spec fn text_is<N: Number>(a: N, decimals: usize, signed: bool, r: Seq<char>) -> bool {
    exists|written: String|
        call_ensures(N::text, (a, decimals, signed), written) && #[trigger] written@ == r
}

/// `r` is a result of widening `a`.
#[verifier::inline]
pub open spec fn widened_is<N: Narrow>(a: N, r: N::Wide) -> bool {
    call_ensures(N::widened, (a,), r)
}

/// `r` is a result of rounding `a` to the narrow format.
#[verifier::inline]
pub open spec fn narrowed_is<N: Narrow>(a: N::Wide, r: N) -> bool {
    call_ensures(N::narrowed, (a,), r)
}

/// Every operation of the format has one result on given numbers, as floating point has on
/// one machine.
pub open spec fn one_result<N: Number>() -> bool {
    &&& forall|n: u64, d: u64, r: N, s: N| #[trigger]
        ratio_is(n, d, r) && #[trigger] ratio_is(n, d, s) ==> r == s
    &&& forall|r: N, s: N| #[trigger] empty_sum_is(r) && #[trigger] empty_sum_is(s) ==> r == s
    &&& forall|r: N, s: N| #[trigger] unbounded_is(r) && #[trigger] unbounded_is(s) ==> r == s
    &&& forall|a: N, b: N, r: N, s: N| #[trigger]
        sum_is(a, b, r) && #[trigger] sum_is(a, b, s) ==> r == s
    &&& forall|a: N, b: N, r: N, s: N| #[trigger]
        difference_is(a, b, r) && #[trigger] difference_is(a, b, s) ==> r == s
    &&& forall|a: N, b: N, r: N, s: N| #[trigger]
        product_is(a, b, r) && #[trigger] product_is(a, b, s) ==> r == s
    &&& forall|a: N, b: N, r: N, s: N| #[trigger]
        quotient_is(a, b, r) && #[trigger] quotient_is(a, b, s) ==> r == s
    &&& forall|a: N, b: N, r: N, s: N| #[trigger]
        larger_is(a, b, r) && #[trigger] larger_is(a, b, s) ==> r == s
    &&& forall|a: N, b: N, r: N, s: N| #[trigger]
        higher_is(a, b, r) && #[trigger] higher_is(a, b, s) ==> r == s
    &&& forall|a: N, b: N, r: N, s: N| #[trigger]
        smaller_is(a, b, r) && #[trigger] smaller_is(a, b, s) ==> r == s
    &&& forall|a: N, r: N, s: N| #[trigger] floor_is(a, r) && #[trigger] floor_is(a, s) ==> r == s
    &&& forall|a: N, r: N, s: N| #[trigger] ceil_is(a, r) && #[trigger] ceil_is(a, s) ==> r == s
    &&& forall|a: N, r: N, s: N| #[trigger] sqrt_is(a, r) && #[trigger] sqrt_is(a, s) ==> r == s
    &&& forall|a: N, r: N, s: N| #[trigger]
        log_one_plus_is(a, r) && #[trigger] log_one_plus_is(a, s) ==> r == s
    &&& forall|a: N, r: u64, s: u64| #[trigger]
        whole_is(a, r) && #[trigger] whole_is(a, s) ==> r == s
    &&& forall|a: N, r: bool, s: bool| #[trigger]
        finite_is(a, r) && #[trigger] finite_is(a, s) ==> r == s
    &&& forall|a: N, r: i64, s: i64| #[trigger]
        rank_is(a, r) && #[trigger] rank_is(a, s) ==> r == s
    &&& forall|a: N, b: N, r: bool, s: bool| #[trigger]
        exceeds_is(a, b, r) && #[trigger] exceeds_is(a, b, s) ==> r == s
    &&& forall|a: N, b: N, r: bool, s: bool| #[trigger]
        reaches_is(a, b, r) && #[trigger] reaches_is(a, b, s) ==> r == s
}

/// `whole` is the largest whole number at or below `x`.
pub open spec fn rounds_down(x: real, whole: int) -> bool {
    whole as real <= x && x < (whole + 1) as real
}

/// `whole` is the smallest whole number at or above `x`.
pub open spec fn rounds_up(x: real, whole: int) -> bool {
    ((whole - 1) as real) < x && x <= whole as real
}

/// `count` is the whole part of `x`, and zero where that is below one.
pub open spec fn counts(x: real, count: int) -> bool {
    if x < 1 as real {
        count == 0
    } else {
        rounds_down(x, count)
    }
}

/// The format is exact: `value` says which real number each of its numbers stands for, and
/// the arithmetic, the comparisons, and the rounding to whole numbers are those of the reals.
pub open spec fn exact<N: Number>(value: spec_fn(N) -> real) -> bool {
    &&& forall|n: u64, d: u64, r: N| #[trigger]
        ratio_is(n, d, r) && d > 0 ==> value(r) * (d as int as real) == n as int as real
    &&& forall|r: N| #[trigger] empty_sum_is(r) ==> value(r) == 0 as real
    &&& forall|a: N, b: N, r: N| #[trigger] sum_is(a, b, r) ==> value(r) == value(a) + value(b)
    &&& forall|a: N, b: N, r: N| #[trigger]
        difference_is(a, b, r) ==> value(r) == value(a) - value(b)
    &&& forall|a: N, b: N, r: N| #[trigger]
        product_is(a, b, r) ==> value(r) == value(a) * value(b)
    &&& forall|a: N, b: N, r: N| #[trigger]
        quotient_is(a, b, r) && value(b) != 0 as real ==> value(r) * value(b) == value(a)
    &&& forall|a: N, b: N, r: N| #[trigger]
        larger_is(a, b, r) ==> value(r) == if value(a) >= value(b) {
            value(a)
        } else {
            value(b)
        }
    &&& forall|a: N, b: N, r: N| #[trigger]
        higher_is(a, b, r) ==> value(r) == if value(a) >= value(b) {
            value(a)
        } else {
            value(b)
        }
    &&& forall|a: N, b: N, r: N| #[trigger]
        smaller_is(a, b, r) ==> value(r) == if value(a) <= value(b) {
            value(a)
        } else {
            value(b)
        }
    &&& forall|a: N, r: N| #[trigger]
        floor_is(a, r) ==> exists|whole: int|
            value(r) == whole as real && #[trigger] rounds_down(value(a), whole)
    &&& forall|a: N, r: N| #[trigger]
        ceil_is(a, r) ==> exists|whole: int|
            value(r) == whole as real && #[trigger] rounds_up(value(a), whole)
    &&& forall|a: N, r: u64| #[trigger]
        whole_is(a, r) && value(a) < 0x1_0000_0000_0000_0000int as real ==> counts(
            value(a),
            r as int,
        )
    &&& forall|a: N, b: N, r: bool| #[trigger] exceeds_is(a, b, r) ==> r == (value(a) > value(b))
    &&& forall|a: N, b: N, r: bool| #[trigger] reaches_is(a, b, r) ==> r == (value(a) >= value(b))
}

/// `r` is a result of adding `values` up from left to right, beginning at `start`.
pub open spec fn total_is<N: Number>(start: N, values: Seq<N>, r: N) -> bool
    decreases values.len(),
{
    if values.len() == 0 {
        r == start
    } else {
        exists|partial: N|
            total_is(start, values.drop_last(), partial) && #[trigger] sum_is(
                partial,
                values.last(),
                r,
            )
    }
}

/// Add `values` up from left to right, beginning at `start`.
pub fn total<N: Number>(start: N, values: &Vec<N>) -> (total: N)
    ensures
        total_is(start, values@, total),
{
    let mut total = start;
    let mut at: usize = 0;
    while at < values.len()
        invariant
            at <= values.len(),
            total_is(start, values@.take(at as int), total),
        decreases values.len() - at,
    {
        let next = total.plus(values[at]);
        proof {
            let longer = values@.take(at + 1);
            assert(longer.drop_last() =~= values@.take(at as int));
            assert(sum_is(total, longer.last(), next));
            assert(total_is(start, longer, next));
        }
        total = next;
        at = at + 1;
    }
    assert(values@.take(at as int) =~= values@);
    total
}

/// `mean` is the sum of `values` over their number.
pub open spec fn average_is<N: Number>(values: Seq<N>, mean: N) -> bool {
    exists|start: N, total: N, count: N|
        {
            &&& empty_sum_is(start)
            &&& #[trigger] total_is(start, values, total)
            &&& ratio_is(values.len() as u64, 1, count)
            &&& #[trigger] quotient_is(total, count, mean)
        }
}

/// `wide` is `values` in the wider format, each.
pub open spec fn widened_all<N: Narrow>(values: Seq<N>, wide: Seq<N::Wide>) -> bool {
    &&& wide.len() == values.len()
    &&& forall|i: int| 0 <= i < values.len() ==> widened_is(values[i], #[trigger] wide[i])
}

/// Each of `values` in the wider format.
pub fn widen_all<N: Narrow>(values: &Vec<N>) -> (wide: Vec<N::Wide>)
    ensures
        widened_all(values@, wide@),
{
    let mut wide: Vec<N::Wide> = Vec::new();
    let mut at: usize = 0;
    while at < values.len()
        invariant
            at <= values.len(),
            wide@.len() == at,
            forall|i: int| 0 <= i < at ==> widened_is(values@[i], #[trigger] wide@[i]),
        decreases values.len() - at,
    {
        wide.push(values[at].widened());
        at = at + 1;
    }
    wide
}

/// Sum of `values` over their number.
pub fn average<N: Number>(values: &Vec<N>) -> (mean: N)
    ensures
        average_is(values@, mean),
{
    let start = N::empty_sum();
    let sum = total(start, values);
    let count = N::from_ratio(values.len() as u64, 1);
    let mean = sum.over(count);
    assert(total_is(start, values@, sum));
    assert(quotient_is(sum, count, mean));
    mean
}

} // verus!
