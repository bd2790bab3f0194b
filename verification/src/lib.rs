//! A dual-nature token ledger: one balance sheet that behaves both as a
//! fungible token (divisible base units) and as a registry of discrete,
//! individually owned units (whole tokens), kept consistent on every
//! transfer.
//!
//! The ledger itself is a plain value: every operation is a function from
//! the current ledger state and a caller context to a new state and a
//! result. A host that persists the state and dispatches messages lives
//! outside this crate.

use vstd::prelude::*;

pub mod contract;
pub mod error;
pub mod laws;
pub mod maps;
pub mod msg;
pub mod parse;
pub mod state;

verus! {

/// The number of base units that make up one discrete unit, given the
/// configured number of decimals.
pub open spec fn spec_pow10(e: nat) -> nat
    decreases e,
{
    if e == 0 {
        1
    } else {
        10 * spec_pow10((e - 1) as nat)
    }
}

/// Computes `10^e`, the conversion factor between base units and discrete
/// units.
pub fn pow10(e: u32) -> (r: u128)
    requires
        spec_pow10(e as nat) <= u128::MAX,
    ensures
        r == spec_pow10(e as nat),
{
    let mut r: u128 = 1;
    let mut i: u32 = 0;
    while i < e
        invariant
            i <= e,
            r == spec_pow10(i as nat),
            spec_pow10(e as nat) <= u128::MAX,
        decreases e - i,
    {
        proof {
            lemma_pow10_increases(i as nat + 1, e as nat);
        }
        r = r * 10;
        i = i + 1;
    }
    r
}

/// A larger exponent never gives a smaller power.
pub proof fn lemma_pow10_increases(e1: nat, e2: nat)
    requires
        e1 <= e2,
    ensures
        spec_pow10(e1) <= spec_pow10(e2),
    decreases e2,
{
    if e1 < e2 {
        lemma_pow10_increases(e1, (e2 - 1) as nat);
        assert(spec_pow10(e2) == 10 * spec_pow10((e2 - 1) as nat));
    }
}

/// The largest power of ten a `u128` can hold is `10^38`.
pub proof fn lemma_pow10_38_fits()
    ensures
        spec_pow10(38) <= u128::MAX,
{
    reveal_with_fuel(spec_pow10, 40);
    assert(spec_pow10(38) == 100000000000000000000000000000000000000);
}

/// Every power of ten is positive.
pub proof fn lemma_pow10_positive(e: nat)
    ensures
        spec_pow10(e) >= 1,
    decreases e,
{
    if e > 0 {
        lemma_pow10_positive((e - 1) as nat);
    }
}

} // verus!
