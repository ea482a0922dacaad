//! Pseudorandom orders and draws, from a seed or from the thread's generator.
#[allow(unused_imports)]
use vstd::arithmetic::div_mod::{lemma_mul_mod_noop_left, lemma_mul_mod_noop_right, lemma_small_mod};
#[allow(unused_imports)]
use vstd::arithmetic::mul::lemma_mul_is_associative;
use vstd::prelude::*;

verus! {

/// `order` lists every index below `len` once.
pub open spec fn is_order(order: Seq<int>, len: nat) -> bool {
    &&& order.len() == len
    &&& forall|i: int| 0 <= i < len ==> 0 <= #[trigger] order[i] < len
    &&& forall|i: int, j: int|
        #![trigger order[i], order[j]]
        0 <= i < j < len ==> order[i] != order[j]
}

/// `items` taken in `order`.
pub open spec fn in_order_of<T>(items: Seq<T>, order: Seq<int>) -> Seq<T> {
    Seq::new(order.len(), |i: int| items[order[i]])
}

/// `shuffled` is `items` in `order`, which lists every one of them once.
pub open spec fn shuffled_by<T>(items: Seq<T>, order: Seq<int>, shuffled: Seq<T>) -> bool {
    is_order(order, items.len()) && shuffled == in_order_of(items, order)
}

/// `drawn` holds `amount` distinct indices below `len`.
pub open spec fn is_draw(drawn: Seq<usize>, len: nat, amount: nat) -> bool {
    &&& drawn.len() == amount
    &&& forall|i: int| 0 <= i < amount ==> #[trigger] drawn[i] < len
    &&& forall|i: int, j: int|
        #![trigger drawn[i], drawn[j]]
        0 <= i < j < amount ==> drawn[i] != drawn[j]
}

/// The order that `fastrand::Rng::shuffle` brings `len` items into when the generator
/// starts from `seed`, on a machine whose `usize` has `bits` bits.
pub uninterp spec fn shuffle_order(bits: u32, seed: u64, len: nat) -> Seq<int>;

/// The indices that `fastrand::Rng::choose_multiple` draws from `0..len` when the generator
/// starts from `seed`, on a machine whose `usize` has `bits` bits.
pub uninterp spec fn chosen_indices(bits: u32, seed: u64, len: nat, amount: nat) -> Seq<usize>;

/// Shuffle `items` with a generator started from `seed`.
///
/// Calls `fastrand::Rng::shuffle` on the generator of `fastrand::Rng::with_seed`. Claimed of
/// it: it only swaps items, which ones depends on the seed, the number of items, and the
/// width of `usize` alone.
#[verifier::external_body]
pub(crate) fn shuffle_with_seed<T>(items: &mut Vec<T>, seed: u64)
    ensures
        shuffled_by(
            old(items)@,
            shuffle_order(usize::BITS, seed, old(items)@.len()),
            final(items)@,
        ),
{
    fastrand::Rng::with_seed(seed).shuffle(items);
}

/// Shuffle `items` with a generator seeded from the thread's own.
///
/// Calls `fastrand::Rng::shuffle` on the generator of `fastrand::Rng::new`. Claimed of it:
/// it only swaps items. Which ones is left to chance.
#[verifier::external_body]
pub(crate) fn shuffle_unseeded<T>(items: &mut Vec<T>)
    ensures
        exists|order: Seq<int>| shuffled_by(old(items)@, order, final(items)@),
{
    fastrand::Rng::new().shuffle(items);
}

/// Draw `amount` distinct indices below `len` with a generator started from `seed`.
///
/// Calls `fastrand::Rng::choose_multiple` over the range `0..len`, on the generator of
/// `fastrand::Rng::with_seed`. Claimed of it: it returns `amount` distinct items of the
/// range, which ones and in which order depends on the seed, the range, the amount, and the
/// width of `usize` alone.
#[verifier::external_body]
pub(crate) fn choose_indices(len: usize, amount: usize, seed: u64) -> (drawn: Vec<usize>)
    requires
        amount <= len,
    ensures
        drawn@ == chosen_indices(usize::BITS, seed, len as nat, amount as nat),
        is_draw(drawn@, len as nat, amount as nat),
{
    fastrand::Rng::with_seed(seed).choose_multiple(0..len, amount)
}

/// The state that `epoch` steps of the golden gamma lead to from `seed`.
pub open spec fn epoch_state(seed: u64, epoch: u64) -> u64 {
    vstd::wrapping::u64_specs::wrapping_add(
        seed,
        vstd::wrapping::u64_specs::wrapping_mul(epoch, 0x9E37_79B9_7F4A_7C15),
    )
}

/// The `SplitMix64` finalizer: two rounds of folding the high bits down and multiplying, and
/// a last fold.
pub open spec fn finalized(state: u64) -> u64 {
    let once = vstd::wrapping::u64_specs::wrapping_mul(
        state ^ (state >> 30),
        0xBF58_476D_1CE4_E5B9,
    );
    let twice = vstd::wrapping::u64_specs::wrapping_mul(once ^ (once >> 27), 0x94D0_49BB_1331_11EB);
    twice ^ (twice >> 31)
}

/// A base seed and an epoch number, mixed.
pub open spec fn mixed_seed(seed: u64, epoch: u64) -> u64 {
    finalized(epoch_state(seed, epoch))
}

/// Mix a base seed and an epoch number into a well-distributed per-epoch seed, so each
/// epoch reshuffles differently while the whole run stays reproducible. This is the
/// `SplitMix64` finalizer.
pub fn splitmix64(seed: u64, epoch: u64) -> (mixed: u64)
    ensures
        mixed == mixed_seed(seed, epoch),
{
    let mut z = seed.wrapping_add(epoch.wrapping_mul(0x9E37_79B9_7F4A_7C15));
    z = (z ^ (z >> 30)).wrapping_mul(0xBF58_476D_1CE4_E5B9);
    z = (z ^ (z >> 27)).wrapping_mul(0x94D0_49BB_1331_11EB);
    z ^ (z >> 31)
}

/// Multiplying by a factor that has an inverse modulo two to the sixty-fourth loses nothing.
proof fn lemma_product_one_to_one(a: u64, b: u64, factor: u64, inverse: int)
    requires
        (factor * inverse) % 0x1_0000_0000_0000_0000 == 1,
        vstd::wrapping::u64_specs::wrapping_mul(a, factor)
            == vstd::wrapping::u64_specs::wrapping_mul(b, factor),
    ensures
        a == b,
{
    lemma_product_inverted(a as int, factor as int, inverse);
    lemma_product_inverted(b as int, factor as int, inverse);
}

proof fn lemma_product_inverted(a: int, factor: int, inverse: int)
    requires
        0 <= a < 0x1_0000_0000_0000_0000,
        (factor * inverse) % 0x1_0000_0000_0000_0000 == 1,
    ensures
        (((a * factor) % 0x1_0000_0000_0000_0000) * inverse) % 0x1_0000_0000_0000_0000 == a,
{
    let range: int = 0x1_0000_0000_0000_0000;
    lemma_mul_mod_noop_left(a * factor, inverse, range);
    lemma_mul_is_associative(a, factor, inverse);
    lemma_mul_mod_noop_right(a, factor * inverse, range);
    lemma_small_mod(a as nat, range as nat);
}

proof fn lemma_xor_shifts_one_to_one(a: u64, b: u64)
    ensures
        a ^ (a >> 30) == b ^ (b >> 30) ==> a == b,
        a ^ (a >> 27) == b ^ (b >> 27) ==> a == b,
        a ^ (a >> 31) == b ^ (b >> 31) ==> a == b,
{
    assert(a ^ (a >> 30) == b ^ (b >> 30) ==> a == b) by (bit_vector);
    assert(a ^ (a >> 27) == b ^ (b >> 27) ==> a == b) by (bit_vector);
    assert(a ^ (a >> 31) == b ^ (b >> 31) ==> a == b) by (bit_vector);
}

proof fn lemma_finalizer_one_to_one(a: u64, b: u64)
    requires
        finalized(a) == finalized(b),
    ensures
        a == b,
{
    let once_a = vstd::wrapping::u64_specs::wrapping_mul(a ^ (a >> 30), 0xBF58_476D_1CE4_E5B9);
    let once_b = vstd::wrapping::u64_specs::wrapping_mul(b ^ (b >> 30), 0xBF58_476D_1CE4_E5B9);
    let twice_a = vstd::wrapping::u64_specs::wrapping_mul(
        once_a ^ (once_a >> 27),
        0x94D0_49BB_1331_11EB,
    );
    let twice_b = vstd::wrapping::u64_specs::wrapping_mul(
        once_b ^ (once_b >> 27),
        0x94D0_49BB_1331_11EB,
    );
    lemma_xor_shifts_one_to_one(twice_a, twice_b);
    assert((0x94D0_49BB_1331_11EBint * 0x3196_42B2_D24D_8EC3int) % 0x1_0000_0000_0000_0000 == 1)
        by (nonlinear_arith);
    lemma_product_one_to_one(
        once_a ^ (once_a >> 27),
        once_b ^ (once_b >> 27),
        0x94D0_49BB_1331_11EB,
        0x3196_42B2_D24D_8EC3,
    );
    lemma_xor_shifts_one_to_one(once_a, once_b);
    assert((0xBF58_476D_1CE4_E5B9int * 0x96DE_1B17_3F11_9089int) % 0x1_0000_0000_0000_0000 == 1)
        by (nonlinear_arith);
    lemma_product_one_to_one(
        a ^ (a >> 30),
        b ^ (b >> 30),
        0xBF58_476D_1CE4_E5B9,
        0x96DE_1B17_3F11_9089,
    );
    lemma_xor_shifts_one_to_one(a, b);
}

/// Different base seeds stay different in every epoch.
pub proof fn mix_is_one_to_one_in_the_seed(a: u64, b: u64, epoch: u64)
    requires
        a != b,
    ensures
        mixed_seed(a, epoch) != mixed_seed(b, epoch),
{
    if mixed_seed(a, epoch) == mixed_seed(b, epoch) {
        lemma_finalizer_one_to_one(epoch_state(a, epoch), epoch_state(b, epoch));
    }
}

/// No two epochs of a run share a seed.
pub proof fn mix_is_one_to_one_in_the_epoch(seed: u64, a: u64, b: u64)
    requires
        a != b,
    ensures
        mixed_seed(seed, a) != mixed_seed(seed, b),
{
    if mixed_seed(seed, a) == mixed_seed(seed, b) {
        lemma_finalizer_one_to_one(epoch_state(seed, a), epoch_state(seed, b));
        assert((0x9E37_79B9_7F4A_7C15int * 0xF1DE_83E1_9937_733Dint)
            % 0x1_0000_0000_0000_0000 == 1) by (nonlinear_arith);
        lemma_product_one_to_one(a, b, 0x9E37_79B9_7F4A_7C15, 0xF1DE_83E1_9937_733D);
    }
}

} // verus!
