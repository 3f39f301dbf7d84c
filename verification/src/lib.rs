//! A verified aggregation engine for line-delimited measurement data.
//!
//! Each input line has the shape `name;value`, where `value` is an ASCII
//! decimal with an optional minus sign and an optional fractional part.
//! The engine parses lines into records, folds records into per-entity
//! `(min, max, sum, count)` statistics, merges partial results in any
//! order, and emits rows of `(name, min, mean, max)` sorted by entity
//! name. File handling, channels and worker scheduling live outside the
//! library; the library holds the parsing, aggregation and merge logic
//! together with the proofs that make arbitrary partitioning safe.

use vstd::prelude::*;

pub mod aggregate;
pub mod decimal;
pub mod fast;
pub mod model;
pub mod record;
pub mod strategy;

verus! {

/// Everything that can go wrong while running the engine.
///
/// `MalformedRecord`, `InvalidCharacter` and `ValueOutOfRange` come from
/// parsing; `IOFailure` and `WorkerFailure` are reserved for the driver
/// that owns the line source and the worker pool. Parse failures abort a
/// run (fail-fast); a lenient mode that skips and counts bad lines is
/// offered separately.
#[derive(Clone, Copy, Debug, PartialEq, Eq, Structural)]
pub enum RunError {
    /// A line lacks the `;` separator.
    MalformedRecord,
    /// A value field contains a byte outside `[0-9.-]`.
    InvalidCharacter,
    /// A value field is syntactically fine but too large for the engine's
    /// fixed-point range.
    ValueOutOfRange,
    /// The line source failed; raised by the driver, never by the library.
    IOFailure,
    /// A worker task failed; raised by the driver, never by the library.
    WorkerFailure,
}

/// Ten raised to the power `n`.
pub open spec fn pow10(n: nat) -> nat
    decreases n,
{
    if n == 0 {
        1
    } else {
        10 * pow10((n - 1) as nat)
    }
}

pub proof fn lemma_pow10_pos(n: nat)
    ensures
        pow10(n) >= 1,
    decreases n,
{
    if n > 0 {
        lemma_pow10_pos((n - 1) as nat);
    }
}

pub proof fn lemma_pow10_adds(a: nat, b: nat)
    ensures
        pow10(a + b) == pow10(a) * pow10(b),
    decreases a,
{
    if a == 0 {
        assert(pow10(0) == 1);
        assert(a + b == b);
        assert(pow10(a + b) == pow10(a) * pow10(b));
    } else {
        lemma_pow10_adds((a - 1) as nat, b);
        assert(pow10((a - 1) as nat + b) == pow10((a - 1) as nat) * pow10(b));
        assert(pow10(a + b) == 10 * pow10((a + b - 1) as nat));
        assert((a + b - 1) as nat == (a - 1) as nat + b);
        assert(pow10(a) == 10 * pow10((a - 1) as nat));
        assert(pow10(a) * pow10(b) == (10 * pow10((a - 1) as nat)) * pow10(b));
        assert((10 * pow10((a - 1) as nat)) * pow10(b) == 10 * (pow10((a - 1) as nat) * pow10(b)))
            by (nonlinear_arith);
    }
}

pub proof fn lemma_pow10_mono(a: nat, b: nat)
    requires
        a <= b,
    ensures
        pow10(a) <= pow10(b),
    decreases b,
{
    if a < b {
        lemma_pow10_mono(a, (b - 1) as nat);
        lemma_pow10_pos((b - 1) as nat);
    }
}

/// `pow10(18)` written out, the largest power the engine computes with.
pub proof fn lemma_pow10_18()
    ensures
        pow10(6) == 1_000_000,
        pow10(12) == 1_000_000_000_000,
        pow10(18) == 1_000_000_000_000_000_000,
{
    reveal_with_fuel(pow10, 19);
}

} // verus!
