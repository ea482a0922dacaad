//! What the operations of an exact number format come to in the reals.
use vstd::prelude::*;

use crate::number::{Narrow, Number};
#[allow(unused_imports)]
use crate::number::{
    empty_sum_is, exact, narrowed_is, quotient_is, rank_is, ratio_is, sqrt_is, sum_is, total_is,
    widened_is,
};

verus! {

/// The format has square roots: `value` of a root is the root of the value.
pub open spec fn has_roots<N: Number>(value: spec_fn(N) -> real) -> bool {
    forall|a: N, r: N| #[trigger]
        sqrt_is(a, r) && value(a) >= 0 as real ==> value(r) >= 0 as real && value(r) * value(r)
            == value(a)
}

/// The format ranks its numbers by their value.
pub open spec fn ranks_by<N: Number>(value: spec_fn(N) -> real) -> bool {
    forall|a: N, b: N, r: i64, s: i64| #[trigger]
        rank_is(a, r) && #[trigger] rank_is(b, s) ==> (r < s <==> value(a) < value(b))
}

/// A number and its wider or narrower form stand for the same real.
pub open spec fn keeps_value<N: Narrow>(
    value: spec_fn(N) -> real,
    wide: spec_fn(N::Wide) -> real,
) -> bool {
    &&& forall|a: N, r: N::Wide| #[trigger] widened_is(a, r) ==> wide(r) == value(a)
    &&& forall|a: N::Wide, r: N| #[trigger] narrowed_is(a, r) ==> value(r) == wide(a)
}

/// The reals that `values` stand for.
pub open spec fn reals<N>(value: spec_fn(N) -> real, values: Seq<N>) -> Seq<real> {
    Seq::new(values.len(), |i: int| value(values[i]))
}

/// The sum of `values`.
pub open spec fn real_sum(values: Seq<real>) -> real
    decreases values.len(),
{
    if values.len() == 0 {
        0 as real
    } else {
        real_sum(values.drop_last()) + values.last()
    }
}

/// The mean of `values`.
pub open spec fn real_mean(values: Seq<real>) -> real {
    real_sum(values) / (values.len() as int as real)
}

/// The sum of the squared distances of `values` from `center`.
pub open spec fn square_sum(values: Seq<real>, center: real) -> real
    decreases values.len(),
{
    if values.len() == 0 {
        0 as real
    } else {
        square_sum(values.drop_last(), center) + (values.last() - center) * (values.last()
            - center)
    }
}

/// In an exact format adding up comes to the sum.
pub proof fn totals_are_sums<N: Number>(
    value: spec_fn(N) -> real,
    start: N,
    values: Seq<N>,
    total: N,
)
    requires
        exact(value),
        total_is(start, values, total),
    ensures
        value(total) == value(start) + real_sum(reals(value, values)),
    decreases values.len(),
{
    if values.len() > 0 {
        let partial = choose|partial: N|
            total_is(start, values.drop_last(), partial) && #[trigger] sum_is(
                partial,
                values.last(),
                total,
            );
        totals_are_sums(value, start, values.drop_last(), partial);
        assert(reals(value, values).drop_last() =~= reals(value, values.drop_last()));
    }
}

/// A whole number stands for itself.
pub proof fn lemma_whole<N: Number>(value: spec_fn(N) -> real, n: u64, r: N)
    requires
        exact(value),
        ratio_is(n, 1, r),
    ensures
        value(r) == n as int as real,
{
    assert(value(r) * (1 as int as real) == n as int as real);
}

/// A quotient by a number that is not zero.
pub proof fn lemma_quotient<N: Number>(value: spec_fn(N) -> real, a: N, b: N, r: N)
    requires
        exact(value),
        quotient_is(a, b, r),
        value(b) != 0 as real,
    ensures
        value(r) * value(b) == value(a),
        value(r) == value(a) / value(b),
{
    let (x, y, q) = (value(a), value(b), value(r));
    assert(q * y == x);
    assert(q == x / y) by (nonlinear_arith)
        requires
            q * y == x,
            y != 0 as real,
    ;
}

/// A quotient of two whole numbers.
pub proof fn lemma_ratio<N: Number>(value: spec_fn(N) -> real, n: u64, d: u64, r: N)
    requires
        exact(value),
        ratio_is(n, d, r),
        d > 0,
    ensures
        value(r) == n as int as real / d as int as real,
{
    let (q, x, y) = (value(r), n as int as real, d as int as real);
    assert(q * y == x);
    assert(q == x / y) by (nonlinear_arith)
        requires
            q * y == x,
            y > 0 as real,
    ;
}

} // verus!
