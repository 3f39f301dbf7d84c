//! Fixed-point decimal values and the single-scan decimal parser.
//!
//! A measurement is an ASCII decimal `-?[0-9]+(\.[0-9]+)?`. The parser
//! runs one left-to-right scan keeping an integer accumulator, a
//! fractional accumulator, a fractional-digit counter and two flags.
//! The grammar is deliberately loose: a `-` anywhere sets the negative
//! flag and a `.` after the first is ignored. Values are held
//! exactly as `mantissa / 10^scale`, and every well-formed value has an
//! exact `i64` image once rescaled to `SCALE_MAX` fractional digits.

use vstd::prelude::*;

use crate::pow10;
use crate::lemma_pow10_adds;
use crate::lemma_pow10_mono;
use crate::lemma_pow10_pos;
use crate::lemma_pow10_18;
use crate::RunError;

verus! {

/// Largest number of fractional digits a measurement may carry.
pub const SCALE_MAX: u32 = 6;

/// Exclusive bound on the integer part of a measurement.
pub const INT_LIMIT: u64 = 1_000_000_000_000;

/// Exclusive bound on `dec_scaled` over well-formed decimals:
/// `INT_LIMIT * pow10(SCALE_MAX)`.
pub const SCALED_LIMIT: i64 = 1_000_000_000_000_000_000;

/// An exact signed fixed-point decimal: the value is `mantissa / 10^scale`,
/// negated when `neg` is set.
#[derive(Clone, Copy, Debug, PartialEq, Eq, Structural)]
pub struct Decimal {
    pub neg: bool,
    pub mantissa: u64,
    pub scale: u32,
}

/// Well-formed decimals keep at most `SCALE_MAX` fractional digits and an
/// integer part below `INT_LIMIT`.
pub open spec fn dec_wf(d: Decimal) -> bool {
    d.scale <= SCALE_MAX && (d.mantissa as nat) < (INT_LIMIT as nat) * pow10(d.scale as nat)
}

/// The value of `d` rescaled to exactly `SCALE_MAX` fractional digits: the
/// integer `v` with `d == v / 10^SCALE_MAX`.
pub open spec fn dec_scaled(d: Decimal) -> int {
    let m = (d.mantissa as nat) * pow10((SCALE_MAX - d.scale) as nat);
    if d.neg {
        -(m as int)
    } else {
        m as int
    }
}

pub proof fn lemma_dec_scaled_bound(d: Decimal)
    requires
        dec_wf(d),
    ensures
        -(SCALED_LIMIT as int) < dec_scaled(d) < SCALED_LIMIT as int,
{
    let s = d.scale as nat;
    let e = (SCALE_MAX - d.scale) as nat;
    lemma_pow10_adds(s, e);
    lemma_pow10_18();
    lemma_pow10_pos(e);
    assert((d.mantissa as nat) * pow10(e) < ((INT_LIMIT as nat) * pow10(s)) * pow10(e))
        by (nonlinear_arith)
        requires
            (d.mantissa as nat) < (INT_LIMIT as nat) * pow10(s),
            pow10(e) >= 1,
    ;
    assert(((INT_LIMIT as nat) * pow10(s)) * pow10(e) == (INT_LIMIT as nat) * (pow10(s) * pow10(
        e,
    ))) by (nonlinear_arith);
}

/// ASCII digit `0` to `9`.
pub open spec fn is_digit(b: u8) -> bool {
    48 <= b && b <= 57
}

/// A byte the value grammar accepts: a digit, `.` (46) or `-` (45).
pub open spec fn is_value_byte(b: u8) -> bool {
    is_digit(b) || b == 46 || b == 45
}

pub open spec fn all_value_bytes(s: Seq<u8>) -> bool {
    forall|i: int| 0 <= i < s.len() ==> is_value_byte(#[trigger] s[i])
}

/// The number the digit bytes of `s` spell, most significant first;
/// non-digit bytes are skipped.
pub open spec fn digits_val(s: Seq<u8>) -> nat
    decreases s.len(),
{
    if s.len() == 0 {
        0
    } else {
        let p = digits_val(s.drop_last());
        if is_digit(s.last()) {
            p * 10 + (s.last() - 48) as nat
        } else {
            p
        }
    }
}

/// How many digit bytes `s` holds.
pub open spec fn digit_count(s: Seq<u8>) -> nat
    decreases s.len(),
{
    if s.len() == 0 {
        0
    } else {
        digit_count(s.drop_last()) + if is_digit(s.last()) {
            1nat
        } else {
            0nat
        }
    }
}

/// The scanner state of the decimal parser.
pub struct ScanState {
    pub units: nat,
    pub frac: nat,
    pub flen: nat,
    pub seen_dot: bool,
    pub neg: bool,
}

pub open spec fn scan_init() -> ScanState {
    ScanState { units: 0, frac: 0, flen: 0, seen_dot: false, neg: false }
}

/// One step of the scan. A digit feeds the integer or fractional
/// accumulator depending on the decimal-point flag; `.` sets that flag;
/// `-` sets the negative flag; any other byte leaves the state unchanged
/// (the parser rejects it separately).
pub open spec fn scan_step(st: ScanState, b: u8) -> ScanState {
    if is_digit(b) {
        if st.seen_dot {
            ScanState {
                units: st.units,
                frac: st.frac * 10 + (b - 48) as nat,
                flen: st.flen + 1,
                seen_dot: st.seen_dot,
                neg: st.neg,
            }
        } else {
            ScanState {
                units: st.units * 10 + (b - 48) as nat,
                frac: st.frac,
                flen: st.flen,
                seen_dot: st.seen_dot,
                neg: st.neg,
            }
        }
    } else if b == 46 {
        ScanState {
            units: st.units,
            frac: st.frac,
            flen: st.flen,
            seen_dot: true,
            neg: st.neg,
        }
    } else if b == 45 {
        ScanState { units: st.units, frac: st.frac, flen: st.flen, seen_dot: st.seen_dot, neg: true }
    } else {
        st
    }
}

pub open spec fn scan_from(st: ScanState, s: Seq<u8>) -> ScanState
    decreases s.len(),
{
    if s.len() == 0 {
        st
    } else {
        scan_step(scan_from(st, s.drop_last()), s.last())
    }
}

/// The full scan of `s` from the initial state.
pub open spec fn scan(s: Seq<u8>) -> ScanState {
    scan_from(scan_init(), s)
}

/// The accumulators stay within the engine's fixed-point range.
pub open spec fn value_in_range(s: Seq<u8>) -> bool {
    scan(s).units < INT_LIMIT as nat && scan(s).flen <= SCALE_MAX as nat
}

/// `s` is accepted by the decimal parser.
pub open spec fn parses(s: Seq<u8>) -> bool {
    all_value_bytes(s) && value_in_range(s)
}

/// The decimal the scan of `s` denotes:
/// `(units + frac / 10^flen)`, negated when a minus was seen.
pub open spec fn decimal_of(s: Seq<u8>) -> Decimal {
    let st = scan(s);
    Decimal {
        neg: st.neg,
        mantissa: (st.units * pow10(st.flen) + st.frac) as u64,
        scale: st.flen as u32,
    }
}

/// Scanning a concatenation scans the two halves in turn.
pub proof fn lemma_scan_from_append(st: ScanState, a: Seq<u8>, b: Seq<u8>)
    ensures
        scan_from(st, a + b) == scan_from(scan_from(st, a), b),
    decreases b.len(),
{
    if b.len() == 0 {
        assert(a + b =~= a);
    } else {
        lemma_scan_from_append(st, a, b.drop_last());
        assert((a + b).drop_last() =~= a + b.drop_last());
        assert((a + b).last() == b.last());
    }
}

/// The fractional accumulator always runs below `pow10` of the counter.
pub proof fn lemma_scan_from_frac_bound(st: ScanState, s: Seq<u8>)
    requires
        st.frac < pow10(st.flen),
    ensures
        scan_from(st, s).frac < pow10(scan_from(st, s).flen),
    decreases s.len(),
{
    if s.len() > 0 {
        lemma_scan_from_frac_bound(st, s.drop_last());
    }
}

/// `10^e` as a machine integer.
pub fn pow10_exec(e: u32) -> (r: u64)
    requires
        e <= 18,
    ensures
        r as nat == pow10(e as nat),
{
    let mut r: u64 = 1;
    let mut i: u32 = 0;
    while i < e
        invariant
            i <= e,
            e <= 18,
            r as nat == pow10(i as nat),
        decreases e - i,
    {
        proof {
            lemma_pow10_mono((i + 1) as nat, 18);
            lemma_pow10_18();
        }
        r = r * 10;
        i = i + 1;
    }
    r
}

/// A parsed decimal is well formed.
pub proof fn lemma_decimal_of_wf(s: Seq<u8>)
    requires
        parses(s),
    ensures
        dec_wf(decimal_of(s)),
        decimal_of(s).mantissa as nat == scan(s).units * pow10(scan(s).flen) + scan(s).frac,
        decimal_of(s).scale as nat == scan(s).flen,
        decimal_of(s).neg == scan(s).neg,
{
    let st = scan(s);
    lemma_scan_from_frac_bound(scan_init(), s);
    lemma_pow10_18();
    lemma_pow10_mono(st.flen, 6);
    assert(st.units * pow10(st.flen) + st.frac < (INT_LIMIT as nat) * pow10(st.flen))
        by (nonlinear_arith)
        requires
            st.units < INT_LIMIT as nat,
            st.frac < pow10(st.flen),
            pow10(st.flen) >= 1,
    {
        lemma_pow10_pos(st.flen);
    }
    assert((INT_LIMIT as nat) * pow10(st.flen) <= (INT_LIMIT as nat) * 1_000_000)
        by (nonlinear_arith)
        requires
            pow10(st.flen) <= 1_000_000,
    ;
    lemma_pow10_pos(st.flen);
}

/// Parse one measurement value.
///
/// Accepts exactly the byte strings whose scan stays in range; returns the
/// decimal the scan denotes. `InvalidCharacter` reports a byte outside
/// `[0-9.-]`; `ValueOutOfRange` reports a value too large for the engine's
/// fixed-point range.
pub fn parse_decimal(s: &[u8]) -> (r: Result<Decimal, RunError>)
    ensures
        parses(s@) ==> r == Ok::<Decimal, RunError>(decimal_of(s@)),
        parses(s@) ==> dec_wf(decimal_of(s@)),
        !all_value_bytes(s@) ==> r == Err::<Decimal, RunError>(RunError::InvalidCharacter),
        all_value_bytes(s@) && !value_in_range(s@) ==> r == Err::<Decimal, RunError>(
            RunError::ValueOutOfRange,
        ),
        r is Ok <==> parses(s@),
{
    let n = s.len();
    let mut units: u64 = 0;
    let mut frac: u64 = 0;
    let mut flen: u32 = 0;
    let mut seen_dot = false;
    let mut neg = false;
    let mut oor = false;
    let mut i: usize = 0;
    while i < n
        invariant
            n == s@.len(),
            0 <= i <= n,
            forall|j: int| 0 <= j < i ==> is_value_byte(#[trigger] s@[j]),
            seen_dot == scan(s@.take(i as int)).seen_dot,
            neg == scan(s@.take(i as int)).neg,
            oor == !(scan(s@.take(i as int)).units < INT_LIMIT as nat && scan(
                s@.take(i as int),
            ).flen <= SCALE_MAX as nat),
            !oor ==> units as nat == scan(s@.take(i as int)).units,
            !oor ==> frac as nat == scan(s@.take(i as int)).frac,
            !oor ==> flen as nat == scan(s@.take(i as int)).flen,
            !oor ==> units < INT_LIMIT,
            !oor ==> flen <= SCALE_MAX,
            !oor ==> (frac as nat) < pow10(flen as nat),
        decreases n - i,
    {
        let b = s[i];
        proof {
            assert(s@.take(i + 1).drop_last() =~= s@.take(i as int));
            assert(s@.take(i + 1).last() == s@[i as int]);
            if !oor {
                lemma_pow10_mono(flen as nat, 6);
            }
            lemma_pow10_18();
        }
        let ghost st_next = scan(s@.take(i + 1));
        assert(st_next == scan_step(scan(s@.take(i as int)), b));
        if 48 <= b && b <= 57 {
            if !oor {
                if seen_dot {
                    if flen == SCALE_MAX {
                        oor = true;
                    } else {
                        frac = frac * 10 + (b - 48) as u64;
                        flen = flen + 1;
                    }
                } else {
                    let nu = units * 10 + (b - 48) as u64;
                    if nu >= INT_LIMIT {
                        oor = true;
                    } else {
                        units = nu;
                    }
                }
            } else {
                proof {
                    let st = scan(s@.take(i as int));
                    assert(st_next.units >= st.units && st_next.flen >= st.flen);
                }
            }
        } else if b == 46 {
            seen_dot = true;
        } else if b == 45 {
            neg = true;
        } else {
            assert(!is_value_byte(s@[i as int]));
            return Err(RunError::InvalidCharacter);
        }
        i = i + 1;
    }
    proof {
        assert(s@.take(n as int) =~= s@);
    }
    if oor {
        return Err(RunError::ValueOutOfRange);
    }
    let p = pow10_exec(flen);
    proof {
        lemma_pow10_mono(flen as nat, 6);
        lemma_pow10_18();
        assert(units as nat * (p as nat) <= (INT_LIMIT - 1) as nat * 1_000_000)
            by (nonlinear_arith)
            requires
                units as nat <= (INT_LIMIT - 1) as nat,
                p as nat <= 1_000_000,
        ;
    }
    let mantissa = units * p + frac;
    let d = Decimal { neg, mantissa, scale: flen };
    proof {
        lemma_decimal_of_wf(s@);
    }
    Ok(d)
}

/// The exact `i64` image of `d` at `SCALE_MAX` fractional digits.
pub fn dec_scaled_exec(d: &Decimal) -> (r: i64)
    requires
        dec_wf(*d),
    ensures
        r as int == dec_scaled(*d),
        -SCALED_LIMIT < r < SCALED_LIMIT,
{
    proof {
        lemma_dec_scaled_bound(*d);
        let s = d.scale as nat;
        let e = (SCALE_MAX - d.scale) as nat;
        lemma_pow10_adds(s, e);
        lemma_pow10_18();
        lemma_pow10_pos(e);
        assert((d.mantissa as nat) * pow10(e) < ((INT_LIMIT as nat) * pow10(s)) * pow10(e))
            by (nonlinear_arith)
            requires
                (d.mantissa as nat) < (INT_LIMIT as nat) * pow10(s),
                pow10(e) >= 1,
        ;
        assert(((INT_LIMIT as nat) * pow10(s)) * pow10(e) == (INT_LIMIT as nat) * (pow10(s)
            * pow10(e))) by (nonlinear_arith);
    }
    let p = pow10_exec(SCALE_MAX - d.scale);
    let m = d.mantissa * p;
    if d.neg {
        -(m as i64)
    } else {
        m as i64
    }
}

/// The position of the first occurrence of `b` in `s`, or `s.len()`.
pub open spec fn first_at(s: Seq<u8>, b: u8) -> int
    decreases s.len(),
{
    if s.len() == 0 {
        0
    } else if s.first() == b {
        0
    } else {
        1 + first_at(s.drop_first(), b)
    }
}

pub proof fn lemma_first_at(s: Seq<u8>, b: u8)
    ensures
        0 <= first_at(s, b) <= s.len(),
        forall|i: int| 0 <= i < first_at(s, b) ==> s[i] != b,
        first_at(s, b) < s.len() ==> s[first_at(s, b)] == b,
    decreases s.len(),
{
    if s.len() > 0 && s.first() != b {
        lemma_first_at(s.drop_first(), b);
        assert forall|i: int| 0 <= i < first_at(s, b) implies s[i] != b by {
            if i > 0 {
                assert(s.drop_first()[i - 1] == s[i]);
                assert(s.drop_first()[i - 1] != b);
            }
        }
    }
}

/// The decimal digits of `n`, most significant first, no leading zeros
/// (a single `0` for zero).
pub open spec fn dec_digits(n: nat) -> Seq<u8>
    decreases n,
{
    if n < 10 {
        seq![(48 + n) as u8]
    } else {
        dec_digits(n / 10).push((48 + n % 10) as u8)
    }
}

/// The decimal digits of `n` written in exactly `w` places, zero-padded.
pub open spec fn dec_digits_fixed(n: nat, w: nat) -> Seq<u8>
    decreases w,
{
    if w == 0 {
        Seq::empty()
    } else {
        dec_digits_fixed(n / 10, (w - 1) as nat).push((48 + n % 10) as u8)
    }
}

pub proof fn lemma_dec_digits(n: nat)
    ensures
        dec_digits(n).len() >= 1,
        forall|i: int| 0 <= i < dec_digits(n).len() ==> is_digit(#[trigger] dec_digits(n)[i]),
        digits_val(dec_digits(n)) == n,
        digit_count(dec_digits(n)) == dec_digits(n).len(),
    decreases n,
{
    if n < 10 {
        let t = dec_digits(n);
        assert(t.drop_last() =~= Seq::<u8>::empty());
        assert(digits_val(Seq::<u8>::empty()) == 0);
        assert(digit_count(Seq::<u8>::empty()) == 0);
        assert(t.last() == (48 + n) as u8);
        assert(is_digit(t.last()));
        assert(digits_val(t) == digits_val(t.drop_last()) * 10 + (t.last() - 48) as nat);
        assert(digit_count(t) == digit_count(t.drop_last()) + 1);
    } else {
        lemma_dec_digits(n / 10);
        let t = dec_digits(n);
        assert(t.drop_last() =~= dec_digits(n / 10));
        assert(t.last() == (48 + n % 10) as u8);
        assert(is_digit(t.last()));
        assert(digits_val(t) == digits_val(t.drop_last()) * 10 + (t.last() - 48) as nat);
        assert(digits_val(t) == (n / 10) * 10 + n % 10);
        assert(digit_count(t) == digit_count(t.drop_last()) + 1);
    }
}

pub proof fn lemma_dec_digits_fixed(n: nat, w: nat)
    requires
        n < pow10(w),
    ensures
        dec_digits_fixed(n, w).len() == w,
        forall|i: int|
            0 <= i < w ==> is_digit(#[trigger] dec_digits_fixed(n, w)[i]),
        digits_val(dec_digits_fixed(n, w)) == n,
        digit_count(dec_digits_fixed(n, w)) == w,
    decreases w,
{
    if w == 0 {
    } else {
        assert(pow10(w) == 10 * pow10((w - 1) as nat));
        assert(n / 10 < pow10((w - 1) as nat)) by (nonlinear_arith)
            requires
                n < 10 * pow10((w - 1) as nat),
        ;
        lemma_dec_digits_fixed(n / 10, (w - 1) as nat);
        let t = dec_digits_fixed(n, w);
        assert(t.drop_last() =~= dec_digits_fixed(n / 10, (w - 1) as nat));
    }
}

/// The canonical rendering of `d`: sign, integer digits, `.`, then the
/// fractional digits as parsed (a single `0` when there are none).
pub open spec fn format_spec(d: Decimal) -> Seq<u8> {
    let sign: Seq<u8> = if d.neg {
        seq![45u8]
    } else {
        Seq::empty()
    };
    let units = (d.mantissa as nat) / pow10(d.scale as nat);
    let frac = (d.mantissa as nat) % pow10(d.scale as nat);
    let fracs: Seq<u8> = if d.scale == 0 {
        seq![48u8]
    } else {
        dec_digits_fixed(frac, d.scale as nat)
    };
    sign + dec_digits(units) + seq![46u8] + fracs
}

fn push_digits(n: u64, out: &mut Vec<u8>)
    ensures
        final(out)@ == old(out)@ + dec_digits(n as nat),
    decreases n,
{
    if n >= 10 {
        push_digits(n / 10, out);
    }
    out.push(48 + (n % 10) as u8);
    proof {
        if n < 10 {
            assert(old(out)@.push((48 + n % 10) as u8) =~= old(out)@ + dec_digits(n as nat));
        } else {
            assert((old(out)@ + dec_digits(n as nat / 10)).push((48 + n as nat % 10) as u8)
                =~= old(out)@ + dec_digits(n as nat));
        }
    }
}

fn push_digits_fixed(n: u64, w: u32, out: &mut Vec<u8>)
    ensures
        final(out)@ == old(out)@ + dec_digits_fixed(n as nat, w as nat),
    decreases w,
{
    if w == 0 {
        proof {
            assert(old(out)@ + dec_digits_fixed(n as nat, 0) =~= old(out)@);
        }
        return ;
    }
    push_digits_fixed(n / 10, w - 1, out);
    out.push(48 + (n % 10) as u8);
    proof {
        assert((old(out)@ + dec_digits_fixed(n as nat / 10, (w - 1) as nat)).push(
            (48 + n as nat % 10) as u8,
        ) =~= old(out)@ + dec_digits_fixed(n as nat, w as nat));
    }
}

/// Render `d` as ASCII bytes.
pub fn format_decimal(d: &Decimal) -> (out: Vec<u8>)
    requires
        dec_wf(*d),
    ensures
        out@ == format_spec(*d),
{
    let mut out: Vec<u8> = Vec::new();
    if d.neg {
        out.push(45);
    }
    proof {
        lemma_pow10_pos(d.scale as nat);
        lemma_pow10_18();
        lemma_pow10_mono(d.scale as nat, 6);
    }
    let p = pow10_exec(d.scale);
    let units = d.mantissa / p;
    let frac = d.mantissa % p;
    push_digits(units, &mut out);
    out.push(46);
    if d.scale == 0 {
        out.push(48);
    } else {
        proof {
            assert((frac as nat) < pow10(d.scale as nat));
        }
        push_digits_fixed(frac, d.scale, &mut out);
    }
    proof {
        let sign: Seq<u8> = if d.neg {
            seq![45u8]
        } else {
            Seq::<u8>::empty()
        };
        let su = (d.mantissa as nat) / pow10(d.scale as nat);
        let fracs: Seq<u8> = if d.scale == 0 {
            seq![48u8]
        } else {
            dec_digits_fixed((d.mantissa as nat) % pow10(d.scale as nat), d.scale as nat)
        };
        assert(out@ =~= sign + dec_digits(su) + seq![46u8] + fracs);
    }
    out
}

/// Drop trailing fractional zeros, keeping at least one fractional digit.
pub open spec fn strip_zeros(d: Decimal) -> Decimal
    decreases d.scale,
{
    if d.scale > 1 && d.mantissa % 10 == 0 {
        strip_zeros(
            Decimal { neg: d.neg, mantissa: d.mantissa / 10, scale: (d.scale - 1) as u32 },
        )
    } else {
        d
    }
}

/// The shortest decimal with at least one fractional digit whose scaled
/// image is `v`.
pub open spec fn dec_of_scaled(v: int) -> Decimal {
    strip_zeros(
        Decimal {
            neg: v < 0,
            mantissa: (if v < 0 {
                -v
            } else {
                v
            }) as u64,
            scale: SCALE_MAX,
        },
    )
}

pub proof fn lemma_strip_zeros(d: Decimal)
    requires
        dec_wf(d),
        d.scale >= 1,
    ensures
        dec_wf(strip_zeros(d)),
        strip_zeros(d).scale >= 1,
        dec_scaled(strip_zeros(d)) == dec_scaled(d),
        strip_zeros(d).neg == d.neg,
    decreases d.scale,
{
    if d.scale > 1 && d.mantissa % 10 == 0 {
        let n = Decimal { neg: d.neg, mantissa: d.mantissa / 10, scale: (d.scale - 1) as u32 };
        assert(pow10(d.scale as nat) == 10 * pow10(n.scale as nat));
        assert(d.mantissa == 10 * (d.mantissa as nat / 10));
        assert((n.mantissa as nat) < (INT_LIMIT as nat) * pow10(n.scale as nat))
            by (nonlinear_arith)
            requires
                d.mantissa as nat == 10 * (n.mantissa as nat),
                (d.mantissa as nat) < (INT_LIMIT as nat) * (10 * pow10(n.scale as nat)),
        ;
        lemma_strip_zeros(n);
        let ed = (SCALE_MAX - d.scale) as nat;
        assert(pow10((SCALE_MAX - n.scale) as nat) == 10 * pow10(ed));
        assert((n.mantissa as nat) * (10 * pow10(ed)) == (d.mantissa as nat) * pow10(ed))
            by (nonlinear_arith)
            requires
                d.mantissa as nat == 10 * (n.mantissa as nat),
        ;
    }
}

/// Rebuild the decimal shown for a scaled statistic.
pub fn dec_from_scaled(v: i64) -> (r: Decimal)
    requires
        -SCALED_LIMIT < v < SCALED_LIMIT,
    ensures
        r == dec_of_scaled(v as int),
        dec_wf(r),
        r.scale >= 1,
        dec_scaled(r) == v as int,
{
    let neg = v < 0;
    let m0: u64 = if neg {
        (-v) as u64
    } else {
        v as u64
    };
    let ghost d0 = Decimal { neg, mantissa: m0, scale: SCALE_MAX };
    proof {
        lemma_pow10_18();
        assert(dec_wf(d0));
        lemma_strip_zeros(d0);
        assert(pow10(0) == 1);
        assert((m0 as nat) * 1 == m0 as nat) by (nonlinear_arith);
        assert(dec_scaled(d0) == v as int);
    }
    let mut m = m0;
    let mut scale: u32 = SCALE_MAX;
    while scale > 1 && m % 10 == 0
        invariant
            1 <= scale,
            strip_zeros(Decimal { neg, mantissa: m, scale }) == dec_of_scaled(v as int),
            dec_wf(Decimal { neg, mantissa: m, scale }),
        decreases scale,
    {
        proof {
            let cur = Decimal { neg, mantissa: m, scale };
            let nxt = Decimal { neg, mantissa: m / 10, scale: (scale - 1) as u32 };
            assert(strip_zeros(cur) == strip_zeros(nxt));
            assert(pow10(scale as nat) == 10 * pow10(nxt.scale as nat));
            assert((nxt.mantissa as nat) < (INT_LIMIT as nat) * pow10(nxt.scale as nat))
                by (nonlinear_arith)
                requires
                    m as nat == 10 * (m as nat / 10),
                    nxt.mantissa as nat == m as nat / 10,
                    (m as nat) < (INT_LIMIT as nat) * (10 * pow10(nxt.scale as nat)),
            ;
        }
        m = m / 10;
        scale = scale - 1;
    }
    let r = Decimal { neg, mantissa: m, scale };
    proof {
        assert(strip_zeros(r) == r);
        lemma_strip_zeros(r);
    }
    r
}

pub proof fn lemma_all_value_bytes_append(a: Seq<u8>, b: Seq<u8>)
    requires
        all_value_bytes(a),
        all_value_bytes(b),
    ensures
        all_value_bytes(a + b),
{
    assert forall|i: int| 0 <= i < (a + b).len() implies is_value_byte(#[trigger] (a + b)[i]) by {
        if i < a.len() {
            assert((a + b)[i] == a[i]);
        } else {
            assert((a + b)[i] == b[i - a.len()]);
        }
    }
}

/// Scanning a run of digits before the decimal point extends the integer
/// accumulator.
pub proof fn lemma_scan_digits_int(st: ScanState, t: Seq<u8>)
    requires
        forall|i: int| 0 <= i < t.len() ==> is_digit(#[trigger] t[i]),
        !st.seen_dot,
    ensures
        scan_from(st, t) == (ScanState {
            units: st.units * pow10(t.len() as nat) + digits_val(t),
            frac: st.frac,
            flen: st.flen,
            seen_dot: false,
            neg: st.neg,
        }),
    decreases t.len(),
{
    if t.len() == 0 {
        assert(pow10(0) == 1);
        assert(st.units * 1 == st.units) by (nonlinear_arith);
    } else {
        let dl = t.drop_last();
        lemma_scan_digits_int(st, dl);
        assert(is_digit(t.last()));
        let l1 = dl.len() as nat;
        assert(pow10(t.len() as nat) == 10 * pow10(l1));
        assert((st.units * pow10(l1) + digits_val(dl)) * 10 + (t.last() - 48) as nat == st.units
            * (10 * pow10(l1)) + (digits_val(dl) * 10 + (t.last() - 48) as nat))
            by (nonlinear_arith);
    }
}

/// Scanning a run of digits after the decimal point extends the
/// fractional accumulator and counter.
pub proof fn lemma_scan_digits_frac(st: ScanState, t: Seq<u8>)
    requires
        forall|i: int| 0 <= i < t.len() ==> is_digit(#[trigger] t[i]),
        st.seen_dot,
    ensures
        scan_from(st, t) == (ScanState {
            units: st.units,
            frac: st.frac * pow10(t.len() as nat) + digits_val(t),
            flen: st.flen + t.len() as nat,
            seen_dot: true,
            neg: st.neg,
        }),
    decreases t.len(),
{
    if t.len() == 0 {
        assert(pow10(0) == 1);
        assert(st.frac * 1 == st.frac) by (nonlinear_arith);
    } else {
        let dl = t.drop_last();
        lemma_scan_digits_frac(st, dl);
        assert(is_digit(t.last()));
        let l1 = dl.len() as nat;
        assert(pow10(t.len() as nat) == 10 * pow10(l1));
        assert((st.frac * pow10(l1) + digits_val(dl)) * 10 + (t.last() - 48) as nat == st.frac * (
        10 * pow10(l1)) + (digits_val(dl) * 10 + (t.last() - 48) as nat)) by (nonlinear_arith);
    }
}

/// What the parser makes of a formatted decimal: the rendering is
/// accepted, and it denotes the same value.
pub proof fn lemma_format_reparses(d: Decimal)
    requires
        dec_wf(d),
    ensures
        parses(format_spec(d)),
        dec_scaled(decimal_of(format_spec(d))) == dec_scaled(d),
{
    let s = d.scale as nat;
    let p = pow10(s);
    let m = d.mantissa as nat;
    lemma_pow10_pos(s);
    let u = m / p;
    let f = m % p;
    assert(u * p + f == m) by (nonlinear_arith)
        requires
            p >= 1,
            u == m / p,
            f == m % p,
    ;
    assert(f < p) by (nonlinear_arith)
        requires
            p >= 1,
            f == m % p,
    ;
    assert(u < INT_LIMIT as nat) by (nonlinear_arith)
        requires
            u * p + f == m,
            m < (INT_LIMIT as nat) * p,
            p >= 1,
            f < p,
    ;
    let sign: Seq<u8> = if d.neg {
        seq![45u8]
    } else {
        Seq::empty()
    };
    let ints = dec_digits(u);
    let dot: Seq<u8> = seq![46u8];
    let fracs: Seq<u8> = if d.scale == 0 {
        seq![48u8]
    } else {
        dec_digits_fixed(f, s)
    };
    lemma_dec_digits(u);
    if d.scale != 0 {
        lemma_dec_digits_fixed(f, s);
    }
    let out = format_spec(d);
    assert(out == sign + ints + dot + fracs);

    // The scan of the concatenation, piece by piece.
    let st1 = scan_from(scan_init(), sign);
    if d.neg {
        assert(sign.drop_last() =~= Seq::<u8>::empty());
        assert(sign.last() == 45u8);
        assert(scan_from(scan_init(), Seq::<u8>::empty()) == scan_init());
        assert(st1 == scan_step(scan_init(), 45u8));
    }
    assert(st1 == (ScanState { units: 0, frac: 0, flen: 0, seen_dot: false, neg: d.neg }));
    lemma_scan_from_append(scan_init(), sign, ints);
    lemma_scan_digits_int(st1, ints);
    let st2 = scan_from(scan_init(), sign + ints);
    assert(st2.units == 0 * pow10(ints.len() as nat) + u);
    assert(0 * pow10(ints.len() as nat) == 0) by (nonlinear_arith);
    assert(st2 == (ScanState { units: u, frac: 0, flen: 0, seen_dot: false, neg: d.neg }));
    lemma_scan_from_append(scan_init(), sign + ints, dot);
    assert(dot.drop_last() =~= Seq::<u8>::empty());
    assert(dot.last() == 46u8);
    let st3 = scan_from(scan_init(), (sign + ints) + dot);
    assert(scan_from(st2, Seq::<u8>::empty()) == st2);
    assert(scan_from(st2, dot) == scan_step(st2, 46u8));
    assert(st3 == scan_from(st2, dot));
    assert(st3 == (ScanState { units: u, frac: 0, flen: 0, seen_dot: true, neg: d.neg }));
    lemma_scan_from_append(scan_init(), (sign + ints) + dot, fracs);
    lemma_scan_digits_frac(st3, fracs);
    let st4 = scan_from(scan_init(), ((sign + ints) + dot) + fracs);
    assert(st4 == scan_from(st3, fracs));
    assert(0 * pow10(fracs.len() as nat) == 0) by (nonlinear_arith);
    if d.scale == 0 {
        assert(fracs.drop_last() =~= Seq::<u8>::empty());
        assert(digits_val(Seq::<u8>::empty()) == 0);
        assert(fracs.last() == 48u8);
        assert(digits_val(fracs) == 0);
        assert(fracs.len() == 1);
    } else {
        assert(digits_val(fracs) == f);
        assert(fracs.len() == s);
    }
    assert(((sign + ints) + dot) + fracs =~= sign + ints + dot + fracs);
    let flen_out: nat = if d.scale == 0 {
        1
    } else {
        s
    };
    let frac_out: nat = if d.scale == 0 {
        0
    } else {
        f
    };
    assert(st4 == (ScanState {
        units: u,
        frac: frac_out,
        flen: flen_out,
        seen_dot: true,
        neg: d.neg,
    }));
    assert(scan(out) == st4);

    // Accepted: every byte is a value byte and the accumulators are in range.
    assert(all_value_bytes(sign));
    assert(all_value_bytes(ints));
    assert(all_value_bytes(dot));
    assert(all_value_bytes(fracs));
    lemma_all_value_bytes_append(sign, ints);
    lemma_all_value_bytes_append(sign + ints, dot);
    lemma_all_value_bytes_append((sign + ints) + dot, fracs);
    assert(all_value_bytes(out));
    assert(value_in_range(out));

    // Same value once rescaled.
    let r = decimal_of(out);
    lemma_decimal_of_wf(out);
    if d.scale == 0 {
        assert(p == 1);
        assert(u == m) by (nonlinear_arith)
            requires
                u * 1 + f == m,
                f < 1,
        ;
        assert(r.mantissa as nat == m * 10 + 0);
        assert(r.scale == 1);
        assert(pow10((SCALE_MAX - 1) as nat) == 100_000) by {
            lemma_pow10_18();
            reveal_with_fuel(pow10, 7);
        }
        assert(pow10((SCALE_MAX - d.scale) as nat) == 1_000_000) by {
            lemma_pow10_18();
        }
        assert((m * 10) * 100_000 == m * 1_000_000) by (nonlinear_arith);
    } else {
        assert(r.mantissa as nat == u * p + f);
        assert(r.scale == d.scale);
    }
}

/// `s` matches the strict literal grammar: an optional leading minus,
/// one or more digits, then optionally a dot and one or more digits.
pub open spec fn strict_decimal(s: Seq<u8>) -> bool {
    let b: int = if s.len() > 0 && s[0] == 45 {
        1
    } else {
        0
    };
    let d = first_at(s, 46);
    &&& (s.len() as int) > b
    &&& d >= b + 1
    &&& (forall|i: int| b <= i < d ==> is_digit(#[trigger] s[i]))
    &&& (d < s.len() ==> d + 1 < s.len() && (forall|i: int|
        d < i < s.len() ==> is_digit(#[trigger] s[i])))
}

/// Round trip: any in-range string of the strict decimal grammar is
/// accepted by the parser, and formatting the parsed decimal yields a
/// string that parses back to exactly the same value.
pub proof fn lemma_parse_format_round_trip(s: Seq<u8>)
    requires
        strict_decimal(s),
        value_in_range(s),
    ensures
        parses(s),
        parses(format_spec(decimal_of(s))),
        dec_scaled(decimal_of(format_spec(decimal_of(s)))) == dec_scaled(decimal_of(s)),
{
    let b: int = if s.len() > 0 && s[0] == 45 {
        1
    } else {
        0
    };
    let d = first_at(s, 46);
    lemma_first_at(s, 46);
    assert forall|i: int| 0 <= i < s.len() implies is_value_byte(#[trigger] s[i]) by {
        if i == 0 && b == 1 {
        } else if i < d {
            assert(is_digit(s[i]));
        } else if i == d {
            assert(s[i] == 46);
        } else {
            assert(is_digit(s[i]));
        }
    }
    lemma_decimal_of_wf(s);
    lemma_format_reparses(decimal_of(s));
}

} // verus!
