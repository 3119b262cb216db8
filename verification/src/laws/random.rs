//! Laws of the pseudo random generator.
use crate::rng::GOLDEN_GAMMA;
use vstd::prelude::*;

verus! {

/// The number of states of the generator.
pub open spec fn state_count() -> nat {
    0x1_0000_0000_0000_0000
}

/// The state of a generator made from `seed` after `draws` draws.
pub open spec fn state_after(seed: u64, draws: nat) -> u64
    decreases draws,
{
    if draws == 0 {
        seed
    } else {
        crate::rng::next_state(state_after(seed, (draws - 1) as nat))
    }
}

/// The value that draw number `n`, counted from 0, of a generator made from
/// `seed` gives.
pub open spec fn drawn(seed: u64, n: nat) -> u64 {
    crate::rng::mix(state_after(seed, n + 1))
}

/// The same seed always reproduces the same sequence: what a draw gives depends
/// on the seed and the number of draws before it, by a closed formula.
pub proof fn law_seed_determines_sequence(seed: u64, n: nat)
    ensures
        state_after(seed, n) == (seed + n * 0x9E37_79B9_7F4A_7C15) % state_count() as int,
        drawn(seed, n) == crate::rng::mix(
            ((seed + (n + 1) * 0x9E37_79B9_7F4A_7C15) % state_count() as int) as u64,
        ),
{
    lemma_state_after(seed, n);
    lemma_state_after(seed, n + 1);
}

/// The state that gives `value`: the last xor shift, then both multiplications with
/// their xor shifts, taken back one by one.
pub open spec fn unmix(value: u64) -> u64 {
    let a = value ^ (value >> 31) ^ (value >> 62);
    let b = ((a * 0x3196_42B2_D24D_8EC3) % state_count() as int) as u64;
    let c = b ^ (b >> 27) ^ (b >> 54);
    let d = ((c * 0x96DE_1B17_3F11_9089) % state_count() as int) as u64;
    d ^ (d >> 30) ^ (d >> 60)
}

/// Law: a value is the image of exactly one state, the one that [`unmix`] finds, so a
/// draw gives exactly the value whose state is the seed moved on by the increments.
pub proof fn law_draws_can_be_traced(state: u64)
    ensures
        unmix(crate::rng::mix(state)) == state,
        crate::rng::next_state(state) == (state + 0x9E37_79B9_7F4A_7C15) % state_count() as int,
{
    let x0 = state ^ (state >> 30);
    let x1 = x0.wrapping_mul(0xBF58_476D_1CE4_E5B9);
    let x2 = x1 ^ (x1 >> 27);
    let x3 = x2.wrapping_mul(0x94D0_49BB_1331_11EB);
    let value = x3 ^ (x3 >> 31);
    assert(value == crate::rng::mix(state));
    assert((x3 ^ (x3 >> 31)) ^ ((x3 ^ (x3 >> 31)) >> 31) ^ ((x3 ^ (x3 >> 31)) >> 62) == x3)
        by (bit_vector);
    lemma_factor_undone(x2, 0x94D0_49BB_1331_11EB, 0x3196_42B2_D24D_8EC3);
    assert((x1 ^ (x1 >> 27)) ^ ((x1 ^ (x1 >> 27)) >> 27) ^ ((x1 ^ (x1 >> 27)) >> 54) == x1)
        by (bit_vector);
    lemma_factor_undone(x0, 0xBF58_476D_1CE4_E5B9, 0x96DE_1B17_3F11_9089);
    assert((state ^ (state >> 30)) ^ ((state ^ (state >> 30)) >> 30) ^ ((state ^ (state >> 30))
        >> 60) == state) by (bit_vector);
}

/// Two generators made from different seeds differ in every draw.
pub proof fn law_different_seeds_diverge(a: u64, b: u64, n: nat)
    requires
        a != b,
    ensures
        drawn(a, n) != drawn(b, n),
{
    lemma_states_differ(a, b, n + 1);
    if drawn(a, n) == drawn(b, n) {
        lemma_mix_injective(state_after(a, n + 1), state_after(b, n + 1));
    }
}

proof fn lemma_state_after(seed: u64, n: nat)
    ensures
        state_after(seed, n) == (seed + n * GOLDEN_GAMMA) % state_count() as int,
    decreases n,
{
    if n > 0 {
        let before = (n - 1) as nat;
        lemma_state_after(seed, before);
        assert(n * GOLDEN_GAMMA == before * GOLDEN_GAMMA + GOLDEN_GAMMA) by (nonlinear_arith)
            requires
                n == before + 1,
        ;
        vstd::arithmetic::div_mod::lemma_add_mod_noop(
            seed + before * GOLDEN_GAMMA,
            GOLDEN_GAMMA as int,
            state_count() as int,
        );
    }
}

proof fn lemma_states_differ(a: u64, b: u64, n: nat)
    requires
        a != b,
    ensures
        state_after(a, n) != state_after(b, n),
    decreases n,
{
    if n > 0 {
        lemma_states_differ(a, b, (n - 1) as nat);
    }
}

/// Multiplying by an invertible factor, modulo the number of states, loses
/// nothing.
proof fn lemma_factor_cancels(x: u64, y: u64, factor: u64, inverse: u64)
    requires
        (factor * inverse) % state_count() as int == 1,
        x.wrapping_mul(factor) == y.wrapping_mul(factor),
    ensures
        x == y,
{
    lemma_factor_undone(x, factor, inverse);
    lemma_factor_undone(y, factor, inverse);
}

proof fn lemma_factor_undone(x: u64, factor: u64, inverse: u64)
    requires
        (factor * inverse) % state_count() as int == 1,
    ensures
        (x.wrapping_mul(factor) * inverse) % state_count() as int == x,
{
    let m = state_count() as int;
    assert(x.wrapping_mul(factor) == (x * factor) % m);
    vstd::arithmetic::div_mod::lemma_mul_mod_noop_general(x * factor, inverse as int, m);
    vstd::arithmetic::mul::lemma_mul_is_associative(x as int, factor as int, inverse as int);
    vstd::arithmetic::div_mod::lemma_mul_mod_noop_general(x as int, factor * inverse, m);
    vstd::arithmetic::div_mod::lemma_small_mod(x as nat, state_count());
}

proof fn lemma_mix_injective(x: u64, y: u64)
    requires
        crate::rng::mix(x) == crate::rng::mix(y),
    ensures
        x == y,
{
    let x0 = x ^ (x >> 30);
    let y0 = y ^ (y >> 30);
    let x1 = x0.wrapping_mul(0xBF58_476D_1CE4_E5B9);
    let y1 = y0.wrapping_mul(0xBF58_476D_1CE4_E5B9);
    let x2 = x1 ^ (x1 >> 27);
    let y2 = y1 ^ (y1 >> 27);
    let x3 = x2.wrapping_mul(0x94D0_49BB_1331_11EB);
    let y3 = y2.wrapping_mul(0x94D0_49BB_1331_11EB);
    assert(x3 ^ (x3 >> 31) == y3 ^ (y3 >> 31) ==> x3 == y3) by (bit_vector);
    lemma_factor_cancels(x2, y2, 0x94D0_49BB_1331_11EB, 0x3196_42B2_D24D_8EC3);
    assert(x1 ^ (x1 >> 27) == y1 ^ (y1 >> 27) ==> x1 == y1) by (bit_vector);
    lemma_factor_cancels(x0, y0, 0xBF58_476D_1CE4_E5B9, 0x96DE_1B17_3F11_9089);
    assert(x ^ (x >> 30) == y ^ (y >> 30) ==> x == y) by (bit_vector);
}

} // verus!
