//! Bringing an OHLCV window to a common scale.
use vstd::prelude::*;

use crate::history::FEATURES;
use crate::number::{average, Number};
#[allow(unused_imports)]
use crate::number::{
    average_is, difference_is, exceeds_is, larger_is, log_one_plus_is, quotient_is, ratio_is,
    reaches_is, sqrt_is,
};
#[allow(unused_imports)]
use crate::portfolio::metrics::squared_distance_is;

verus! {

/// Offset of the close in a flattened OHLCV row.
pub const CLOSE_OFFSET: usize = 3;

/// Offset of the volume, the lone non-price feature, which stands last in a row.
pub const VOLUME_OFFSET: usize = 4;

/// Windows with a standard deviation of their volumes up to one over this are flat.
pub const FLATNESS: u64 = 8_388_608;

/// The close of the last of `steps` rows.
pub open spec fn last_close<N>(window: Seq<N>, steps: int) -> N {
    window[(steps - 1) * FEATURES + CLOSE_OFFSET]
}

/// Whether `value` is zero is `is_zero`.
pub open spec fn zero_is<N: Number>(value: N, is_zero: bool) -> bool {
    exists|zero: N, above: bool, below: bool|
        {
            &&& ratio_is(0, 1, zero)
            &&& reaches_is(value, zero, above)
            &&& reaches_is(zero, value, below)
            &&& is_zero == (above && below)
        }
}

/// `value` is a volume cut off at zero and compressed by the logarithm of one plus it.
pub open spec fn compressed_is<N: Number>(volume: N, value: N) -> bool {
    exists|zero: N, positive: N|
        {
            &&& ratio_is(0, 1, zero)
            &&& larger_is(volume, zero, positive)
            &&& log_one_plus_is(positive, value)
        }
}

/// Every price of `window` over `close`, unless that is zero, and every volume compressed.
pub open spec fn scaled_is<N: Number>(
    window: Seq<N>,
    close: N,
    flat: bool,
    scaled: Seq<N>,
) -> bool {
    &&& scaled.len() == window.len()
    &&& forall|i: int|
        0 <= i < window.len() ==> entry_scaled(i, window[i], close, flat, #[trigger] scaled[i])
}

/// The entry at `at` is a volume and compressed, or a price and over `close`, unless that
/// is zero.
pub open spec fn entry_scaled<N: Number>(at: int, entry: N, close: N, flat: bool, value: N) -> bool {
    if at % (FEATURES as int) == VOLUME_OFFSET {
        compressed_is(entry, value)
    } else if flat {
        value == entry
    } else {
        quotient_is(entry, close, value)
    }
}

/// The volumes of `steps` rows.
pub open spec fn volumes<N>(window: Seq<N>, steps: nat) -> Seq<N> {
    Seq::new(steps, |row: int| window[row * FEATURES + VOLUME_OFFSET])
}

/// `spread` is the standard deviation of `values` about `mean`.
pub open spec fn spread_is<N: Number>(values: Seq<N>, mean: N, spread: N) -> bool {
    exists|squares: Seq<N>, variance: N|
        {
            &&& squares.len() == values.len()
            &&& forall|i: int|
                0 <= i < values.len() ==> squared_distance_is(
                    values[i],
                    mean,
                    #[trigger] squares[i],
                )
            &&& #[trigger] average_is(squares, variance)
            &&& sqrt_is(variance, spread)
        }
}

/// `value` is the standard score of `volume`, zero where the volumes hardly vary.
pub open spec fn score_is<N: Number>(volume: N, mean: N, spread: N, value: N) -> bool {
    exists|floor: N, varied: bool|
        {
            &&& ratio_is(1, FLATNESS, floor)
            &&& exceeds_is(spread, floor, varied)
            &&& if varied {
                exists|distance: N|
                    difference_is(volume, mean, distance) && quotient_is(distance, spread, value)
            } else {
                ratio_is(0, 1, value)
            }
        }
}

/// Every volume standardized, every price as it was.
pub open spec fn standardized_is<N: Number>(
    scaled: Seq<N>,
    mean: N,
    spread: N,
    result: Seq<N>,
) -> bool {
    &&& result.len() == scaled.len()
    &&& forall|i: int|
        0 <= i < scaled.len() ==> if i % (FEATURES as int) == VOLUME_OFFSET {
            score_is(scaled[i], mean, spread, #[trigger] result[i])
        } else {
            result[i] == scaled[i]
        }
}

/// `result` is `window` brought to a common scale: prices as ratios to the last close, and
/// volumes compressed and standardized within the window.
pub open spec fn normalized_is<N: Number>(window: Seq<N>, steps: nat, result: Seq<N>) -> bool {
    exists|flat: bool, scaled: Seq<N>, mean: N, spread: N|
        {
            &&& zero_is(last_close(window, steps as int), flat)
            &&& #[trigger] scaled_is(window, last_close(window, steps as int), flat, scaled)
            &&& average_is(volumes(scaled, steps), mean)
            &&& #[trigger] spread_is(volumes(scaled, steps), mean, spread)
            &&& standardized_is(scaled, mean, spread, result)
        }
}

/// Standard deviation of `values` about `mean`.
fn spread<N: Number>(values: &Vec<N>, mean: N) -> (spread: N)
    ensures
        spread_is(values@, mean, spread),
{
    let mut squares: Vec<N> = Vec::new();
    let mut at: usize = 0;
    while at < values.len()
        invariant
            at <= values.len(),
            squares.len() == at,
            forall|i: int|
                0 <= i < at ==> squared_distance_is(values@[i], mean, #[trigger] squares@[i]),
        decreases values.len() - at,
    {
        let distance = values[at].minus(mean);
        let square = distance.times(distance);
        assert(squared_distance_is(values@[at as int], mean, square));
        squares.push(square);
        at = at + 1;
    }
    let variance = average(&squares);
    assert(average_is(squares@, variance));
    variance.sqrt()
}

/// Whether `value` is zero.
fn is_zero<N: Number>(value: N) -> (is_zero: bool)
    ensures
        zero_is(value, is_zero),
{
    let zero = N::from_ratio(0, 1);
    let above = value.reaches(zero);
    let below = zero.reaches(value);
    above && below
}

/// Normalize one flattened `[steps * 5]` OHLCV window in place.
///
/// A GRU should learn the shape of a window, not the price level it happens to sit at, so
/// OHLC are divided by the window's last close and land near 1. Volume lives on a wildly
/// different scale, so it is compressed by a logarithm and standardized within the window to
/// match the price ratios.
pub fn normalize_window<N: Number>(window: &mut Vec<N>, steps: usize)
    requires
        steps > 0,
        old(window)@.len() == steps * FEATURES,
    ensures
        final(window)@.len() == old(window)@.len(),
        normalized_is(old(window)@, steps as nat, final(window)@),
{
    let ghost given = window@;
    let width = window.len();
    assert((steps - 1) * FEATURES + FEATURES == steps * FEATURES) by (nonlinear_arith)
        requires
            steps > 0,
    ;
    let close = window[(steps - 1) * FEATURES + CLOSE_OFFSET];
    let flat = is_zero(close);
    let mut at: usize = 0;
    while at < width
        invariant
            at <= width,
            width == window@.len(),
            width == given.len(),
            forall|i: int|
                0 <= i < at ==> entry_scaled(i, given[i], close, flat, #[trigger] window@[i]),
            forall|i: int| at <= i < width ==> #[trigger] window@[i] == given[i],
        decreases width - at,
    {
        let entry = window[at];
        let value = if at % FEATURES == VOLUME_OFFSET {
            let value = entry.larger(N::from_ratio(0, 1)).log_one_plus();
            assert(compressed_is(entry, value));
            value
        } else if flat {
            entry
        } else {
            entry.over(close)
        };
        assert(entry_scaled(at as int, given[at as int], close, flat, value));
        window.set(at, value);
        at = at + 1;
    }
    let ghost scaled = window@;
    assert(scaled_is(given, close, flat, scaled));

    let mut traded: Vec<N> = Vec::new();
    let mut row: usize = 0;
    while row < steps
        invariant
            row <= steps,
            width == window@.len(),
            width == steps * FEATURES,
            window@ == scaled,
            traded@ =~= volumes(scaled, row as nat),
        decreases steps - row,
    {
        assert(row * FEATURES + FEATURES <= steps * FEATURES) by (nonlinear_arith)
            requires
                row + 1 <= steps,
        ;
        traded.push(window[row * FEATURES + VOLUME_OFFSET]);
        row = row + 1;
    }
    let mean = average(&traded);
    let spread = spread(&traded, mean);
    proof {
        assert(close == last_close(given, steps as int));
        assert(traded@ == volumes(scaled, steps as nat));
        assert(average_is(volumes(scaled, steps as nat), mean));
        assert(spread_is(volumes(scaled, steps as nat), mean, spread));
    }

    let mut at: usize = 0;
    while at < width
        invariant
            at <= width,
            width == window@.len(),
            width == scaled.len(),
            forall|i: int|
                0 <= i < at ==> if i % (FEATURES as int) == VOLUME_OFFSET {
                    score_is(scaled[i], mean, spread, #[trigger] window@[i])
                } else {
                    window@[i] == scaled[i]
                },
            forall|i: int| at <= i < width ==> #[trigger] window@[i] == scaled[i],
        decreases width - at,
    {
        if at % FEATURES == VOLUME_OFFSET {
            let volume = window[at];
            let value = if spread.exceeds(N::from_ratio(1, FLATNESS)) {
                volume.minus(mean).over(spread)
            } else {
                N::from_ratio(0, 1)
            };
            assert(score_is(scaled[at as int], mean, spread, value));
            window.set(at, value);
        }
        at = at + 1;
    }
    assert(standardized_is(scaled, mean, spread, window@));
}

} // verus!
