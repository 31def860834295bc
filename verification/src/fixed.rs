//! Fixed-point arithmetic in micro-units.
//!
//! A ratio in `[0, 1]` is stored as a `u64` in `[0, SCALE]`. Products are
//! rescaled with flooring division, so every operation is deterministic
//! integer arithmetic.

use vstd::prelude::*;

use crate::constants::SCALE;

verus! {

/// Mathematical product of two micro-unit values, rescaled by flooring.
pub open spec fn mul_micro(a: int, b: int) -> int {
    (a * b) / (SCALE as int)
}

/// Value after `n` steps of multiplying `v` by the micro-unit factor `f`,
/// flooring at each step.
pub open spec fn decay_pow(v: int, f: int, n: nat) -> int
    decreases n,
{
    if n == 0 {
        v
    } else {
        decay_pow(mul_micro(v, f), f, (n - 1) as nat)
    }
}

/// Rescaled products of values in range stay in range and never grow.
pub proof fn lemma_mul_micro_le(a: int, b: int)
    requires
        0 <= a,
        0 <= b <= SCALE,
    ensures
        0 <= mul_micro(a, b) <= a,
{
    assert(a * b <= a * (SCALE as int)) by (nonlinear_arith)
        requires 0 <= a && b <= SCALE as int;
    assert(a * b >= 0) by (nonlinear_arith)
        requires 0 <= a && 0 <= b;
    assert((a * (SCALE as int)) / (SCALE as int) == a) by (nonlinear_arith);
    vstd::arithmetic::div_mod::lemma_div_is_ordered(a * b, a * (SCALE as int), SCALE as int);
    vstd::arithmetic::div_mod::lemma_div_is_ordered(0, a * b, SCALE as int);
}

/// Iterated decay of a value in range stays in range and never grows.
pub proof fn lemma_decay_pow_le(v: int, f: int, n: nat)
    requires
        0 <= v,
        0 <= f <= SCALE,
    ensures
        0 <= decay_pow(v, f, n) <= v,
    decreases n,
{
    if n != 0 {
        lemma_mul_micro_le(v, f);
        lemma_decay_pow_le(mul_micro(v, f), f, (n - 1) as nat);
    }
}

/// Decay never leaves zero.
pub proof fn lemma_decay_pow_zero(f: int, n: nat)
    requires
        0 <= f <= SCALE,
    ensures
        decay_pow(0, f, n) == 0,
    decreases n,
{
    if n != 0 {
        assert(mul_micro(0, f) == 0);
        lemma_decay_pow_zero(f, (n - 1) as nat);
    }
}

/// Applies `n` decay steps with factor `f` to the micro-unit value `v`.
pub fn decay_value(v: u64, f: u64, n: u64) -> (r: u64)
    requires
        v <= SCALE,
        f <= SCALE,
    ensures
        r == decay_pow(v as int, f as int, n as nat),
        r <= v,
{
    let mut acc: u64 = v;
    let mut i: u64 = 0;
    proof {
        lemma_decay_pow_le(v as int, f as int, n as nat);
    }
    while i < n
        invariant
            i <= n,
            acc <= v,
            v <= SCALE,
            f <= SCALE,
            decay_pow(acc as int, f as int, (n - i) as nat) == decay_pow(
                v as int,
                f as int,
                n as nat,
            ),
        decreases n - i,
    {
        if acc == 0 {
            proof {
                lemma_decay_pow_zero(f as int, (n - i) as nat);
            }
            return 0;
        }
        proof {
            lemma_mul_micro_le(acc as int, f as int);
        }
        let next: u64 = (acc * f) / SCALE;
        assert(decay_pow(acc as int, f as int, (n - i) as nat) == decay_pow(
            next as int,
            f as int,
            (n - i - 1) as nat,
        ));
        acc = next;
        i = i + 1;
    }
    proof {
        lemma_decay_pow_le(acc as int, f as int, 0);
    }
    acc
}

} // verus!
