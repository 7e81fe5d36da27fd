//! Exact decimal numbers: the operand and result values of the calculator.
//!
//! A [`Number`] denotes the rational `sign * mantissa / 10^scale`.  Every
//! well-formed number is normalized (no trailing zero in the fraction, zero
//! is non-negative with scale 0), so each representable value has exactly one
//! representation and rendering it is canonical.

use vstd::prelude::*;
use vstd::arithmetic::mul::lemma_mul_increases;
use crate::operation::{CalcError, CalcOperator};

verus! {

/// How many fraction digits a quotient is carried to before truncation.
pub const FRAC_DIGITS: u32 = 12;

/// `10^e`, the denominators of decimal fractions.
pub open spec fn pow10(e: nat) -> nat
    decreases e,
{
    if e == 0 {
        1
    } else {
        10 * pow10((e - 1) as nat)
    }
}

pub proof fn lemma_pow10_pos(e: nat)
    ensures
        pow10(e) >= 1,
    decreases e,
{
    if e > 0 {
        lemma_pow10_pos((e - 1) as nat);
    }
}

pub proof fn lemma_pow10_increases(a: nat, b: nat)
    requires
        a <= b,
    ensures
        pow10(a) <= pow10(b),
    decreases b,
{
    if a < b {
        lemma_pow10_increases(a, (b - 1) as nat);
        lemma_pow10_pos((b - 1) as nat);
    }
}

/// An exact decimal value: `sign * mantissa / 10^scale`.
#[derive(Clone, Copy, Debug, PartialEq, Eq, Structural)]
pub struct Number {
    /// True for strictly negative values; zero is never negative.
    pub negative: bool,
    /// Magnitude numerator.
    pub mantissa: u128,
    /// The denominator is `10^scale`.
    pub scale: u32,
}

impl Number {
    /// The signed numerator of the denoted rational `val_num / 10^scale`.
    pub open spec fn val_num(self) -> int {
        if self.negative {
            -(self.mantissa as int)
        } else {
            self.mantissa as int
        }
    }

    /// Normal form: a unique representation per value.  Zero is
    /// `{false, 0, 0}`; a fraction never ends in a zero digit.
    pub open spec fn wf(self) -> bool {
        &&& (self.mantissa == 0 ==> !self.negative && self.scale == 0)
        &&& (self.scale > 0 ==> self.mantissa % 10 != 0)
    }

    /// The canonical zero.
    pub open spec fn spec_zero() -> Number {
        Number { negative: false, mantissa: 0, scale: 0 }
    }

    /// Whether `self` denotes the rational `num / 10^s`.
    pub open spec fn denotes(self, num: int, s: nat) -> bool {
        self.val_num() * pow10(s) == num * pow10(self.scale as nat)
    }

    pub fn zero() -> (r: Number)
        ensures
            r == Number::spec_zero(),
            r.wf(),
    {
        Number { negative: false, mantissa: 0, scale: 0 }
    }
}

/// Remove trailing zero digits of `m` from the fraction, one per unit of
/// scale; a zero mantissa collapses to scale 0.
pub open spec fn norm_pair(m: nat, s: nat) -> (nat, nat)
    decreases s,
{
    if m == 0 {
        (0, 0)
    } else if s > 0 && m % 10 == 0 {
        norm_pair(m / 10, (s - 1) as nat)
    } else {
        (m, s)
    }
}

/// The well-formed number for sign `neg` and magnitude `m / 10^s`.
pub open spec fn make_number(neg: bool, m: nat, s: nat) -> Number {
    let ns = norm_pair(m, s);
    Number { negative: neg && ns.0 != 0, mantissa: ns.0 as u128, scale: ns.1 as u32 }
}

pub proof fn lemma_norm_pair_props(m: nat, s: nat)
    ensures
        norm_pair(m, s).0 <= m,
        norm_pair(m, s).1 <= s,
        norm_pair(m, s).0 == 0 <==> m == 0,
        norm_pair(m, s).0 == 0 ==> norm_pair(m, s).1 == 0,
        norm_pair(m, s).1 > 0 ==> norm_pair(m, s).0 % 10 != 0,
        norm_pair(m, s).0 * pow10(s) == m * pow10(norm_pair(m, s).1),
    decreases s,
{
    if m == 0 {
    } else if s > 0 && m % 10 == 0 {
        lemma_norm_pair_props(m / 10, (s - 1) as nat);
        let ns = norm_pair(m / 10, (s - 1) as nat);
        let m10 = m / 10;
        let ps1 = pow10((s - 1) as nat);
        let pns = pow10(ns.1);
        assert(m == 10 * m10);
        assert(pow10(s) == 10 * ps1);
        assert(ns.0 * (10 * ps1) == 10 * (ns.0 * ps1)) by (nonlinear_arith);
        assert((10 * m10) * pns == 10 * (m10 * pns)) by (nonlinear_arith);
    } else {
    }
}

pub proof fn lemma_make_number_wf(neg: bool, m: nat, s: nat)
    requires
        m <= u128::MAX,
        s <= u32::MAX,
    ensures
        make_number(neg, m, s).wf(),
        make_number(neg, m, s).mantissa == norm_pair(m, s).0,
        make_number(neg, m, s).scale == norm_pair(m, s).1,
{
    lemma_norm_pair_props(m, s);
}

/// Build the well-formed number for `neg`, `m / 10^s` by stripping trailing
/// fraction zeros.
pub fn normalize_parts(negative: bool, mantissa: u128, scale: u32) -> (r: Number)
    ensures
        r == make_number(negative, mantissa as nat, scale as nat),
        r.wf(),
{
    proof {
        lemma_make_number_wf(negative, mantissa as nat, scale as nat);
    }
    if mantissa == 0 {
        return Number { negative: false, mantissa: 0, scale: 0 };
    }
    let mut m = mantissa;
    let mut s = scale;
    while s > 0 && m % 10 == 0
        invariant
            m > 0,
            m <= u128::MAX,
            norm_pair(m as nat, s as nat) == norm_pair(mantissa as nat, scale as nat),
        decreases s,
    {
        m = m / 10;
        s = s - 1;
    }
    Number { negative, mantissa: m, scale: s }
}

/// `10^e` as a machine integer, where it fits.
pub fn pow10_u128(e: u32) -> (r: Option<u128>)
    ensures
        match r {
            Some(v) => v as nat == pow10(e as nat),
            None => pow10(e as nat) > u128::MAX,
        },
{
    let mut acc: u128 = 1;
    let mut i: u32 = 0;
    while i < e
        invariant
            i <= e,
            acc as nat == pow10(i as nat),
        decreases e - i,
    {
        proof {
            assert(pow10((i + 1) as nat) == 10 * pow10(i as nat));
        }
        match acc.checked_mul(10) {
            Some(v) => {
                acc = v;
                i = i + 1;
            },
            None => {
                proof {
                    lemma_pow10_increases((i + 1) as nat, e as nat);
                }
                return None;
            },
        }
    }
    Some(acc)
}

/// `m * 10^e` as a machine integer, where it fits; `m` must be non-zero so
/// that a factor beyond capacity means the product is too.
fn scale_up(m: u128, e: u32) -> (r: Option<u128>)
    requires
        m >= 1,
    ensures
        match r {
            Some(v) => v as nat == m as nat * pow10(e as nat),
            None => m as nat * pow10(e as nat) > u128::MAX,
        },
{
    match pow10_u128(e) {
        Some(f) => match m.checked_mul(f) {
            Some(v) => Some(v),
            None => None,
        },
        None => {
            proof {
                lemma_mul_increases(m as int, pow10(e as nat) as int);
            }
            None
        },
    }
}

/// The larger of the two scales: the common denominator's exponent.
pub open spec fn common_scale(a: Number, b: Number) -> u32 {
    if a.scale >= b.scale {
        a.scale
    } else {
        b.scale
    }
}

/// The exact sum of the two values, or `Overflow` where an aligned mantissa
/// or the sum itself exceeds capacity.  Opposite signs cancel exactly; a sum
/// of zero is the canonical zero.
pub open spec fn spec_add(a: Number, b: Number) -> Result<Number, CalcError> {
    if a.mantissa == 0 {
        Ok(b)
    } else if b.mantissa == 0 {
        Ok(a)
    } else {
        let s = common_scale(a, b);
        let ma = a.mantissa as nat * pow10((s - a.scale) as nat);
        let mb = b.mantissa as nat * pow10((s - b.scale) as nat);
        if ma > u128::MAX || mb > u128::MAX {
            Err(CalcError::Overflow)
        } else if a.negative == b.negative {
            if ma + mb > u128::MAX {
                Err(CalcError::Overflow)
            } else {
                Ok(make_number(a.negative, ma + mb, s as nat))
            }
        } else if ma >= mb {
            Ok(make_number(a.negative, (ma - mb) as nat, s as nat))
        } else {
            Ok(make_number(b.negative, (mb - ma) as nat, s as nat))
        }
    }
}

/// The same magnitude with the sign flipped; zero stays zero.
pub open spec fn spec_negate(n: Number) -> Number {
    Number { negative: !n.negative && n.mantissa != 0, ..n }
}

/// The exact product, or `Overflow` where the mantissa product or the summed
/// scale exceeds capacity.
pub open spec fn spec_mul(a: Number, b: Number) -> Result<Number, CalcError> {
    if a.mantissa == 0 || b.mantissa == 0 {
        Ok(Number::spec_zero())
    } else if a.mantissa as nat * b.mantissa as nat > u128::MAX {
        Err(CalcError::Overflow)
    } else if a.scale + b.scale > u32::MAX {
        Err(CalcError::Overflow)
    } else {
        Ok(make_number(
            a.negative != b.negative,
            a.mantissa as nat * b.mantissa as nat,
            (a.scale + b.scale) as nat,
        ))
    }
}

/// The quotient's magnitude carried to `FRAC_DIGITS` fraction digits and
/// truncated there (toward zero): `|a| / |b| == num / den` scaled by
/// `10^FRAC_DIGITS`, rounded down.
pub open spec fn spec_div(a: Number, b: Number) -> Result<Number, CalcError> {
    if b.mantissa == 0 {
        Err(CalcError::DivisionByZero)
    } else if a.mantissa == 0 {
        Ok(Number::spec_zero())
    } else if b.scale + FRAC_DIGITS > u32::MAX {
        Err(CalcError::Overflow)
    } else {
        let num = a.mantissa as nat * pow10((b.scale + FRAC_DIGITS) as nat);
        let den = b.mantissa as nat * pow10(a.scale as nat);
        if num > u128::MAX || den > u128::MAX {
            Err(CalcError::Overflow)
        } else {
            Ok(make_number(a.negative != b.negative, num / den, FRAC_DIGITS as nat))
        }
    }
}

/// What evaluating `l op r` yields.
pub open spec fn spec_eval(op: CalcOperator, l: Number, r: Number) -> Result<Number, CalcError> {
    match op {
        CalcOperator::Add => spec_add(l, r),
        CalcOperator::Sub => spec_add(l, spec_negate(r)),
        CalcOperator::Mul => spec_mul(l, r),
        CalcOperator::Div => spec_div(l, r),
    }
}

/// The value divided by one hundred: the percent transform.
pub open spec fn spec_percent(n: Number) -> Result<Number, CalcError> {
    if n.mantissa == 0 {
        Ok(Number::spec_zero())
    } else if n.scale + 2 > u32::MAX {
        Err(CalcError::Overflow)
    } else {
        Ok(make_number(n.negative, n.mantissa as nat, (n.scale + 2) as nat))
    }
}

pub fn num_negate(n: Number) -> (r: Number)
    requires
        n.wf(),
    ensures
        r == spec_negate(n),
        r.wf(),
{
    if n.mantissa == 0 {
        n
    } else {
        Number { negative: !n.negative, mantissa: n.mantissa, scale: n.scale }
    }
}

pub fn num_add(a: Number, b: Number) -> (r: Result<Number, CalcError>)
    requires
        a.wf(),
        b.wf(),
    ensures
        r == spec_add(a, b),
        r matches Ok(n) ==> n.wf(),
{
    if a.mantissa == 0 {
        return Ok(b);
    }
    if b.mantissa == 0 {
        return Ok(a);
    }
    let s = if a.scale >= b.scale {
        a.scale
    } else {
        b.scale
    };
    let ma = match scale_up(a.mantissa, s - a.scale) {
        Some(v) => v,
        None => {
            return Err(CalcError::Overflow);
        },
    };
    let mb = match scale_up(b.mantissa, s - b.scale) {
        Some(v) => v,
        None => {
            return Err(CalcError::Overflow);
        },
    };
    if a.negative == b.negative {
        match ma.checked_add(mb) {
            Some(m) => Ok(normalize_parts(a.negative, m, s)),
            None => Err(CalcError::Overflow),
        }
    } else if ma >= mb {
        Ok(normalize_parts(a.negative, ma - mb, s))
    } else {
        Ok(normalize_parts(b.negative, mb - ma, s))
    }
}

pub fn num_mul(a: Number, b: Number) -> (r: Result<Number, CalcError>)
    requires
        a.wf(),
        b.wf(),
    ensures
        r == spec_mul(a, b),
        r matches Ok(n) ==> n.wf(),
{
    if a.mantissa == 0 || b.mantissa == 0 {
        return Ok(Number::zero());
    }
    let m = match a.mantissa.checked_mul(b.mantissa) {
        Some(m) => m,
        None => {
            return Err(CalcError::Overflow);
        },
    };
    match a.scale.checked_add(b.scale) {
        Some(s) => Ok(normalize_parts(a.negative != b.negative, m, s)),
        None => Err(CalcError::Overflow),
    }
}

pub fn num_div(a: Number, b: Number) -> (r: Result<Number, CalcError>)
    requires
        a.wf(),
        b.wf(),
    ensures
        r == spec_div(a, b),
        r matches Ok(n) ==> n.wf(),
{
    if b.mantissa == 0 {
        return Err(CalcError::DivisionByZero);
    }
    if a.mantissa == 0 {
        return Ok(Number::zero());
    }
    let e = match b.scale.checked_add(FRAC_DIGITS) {
        Some(e) => e,
        None => {
            return Err(CalcError::Overflow);
        },
    };
    let num = match scale_up(a.mantissa, e) {
        Some(v) => v,
        None => {
            return Err(CalcError::Overflow);
        },
    };
    let den = match scale_up(b.mantissa, a.scale) {
        Some(v) => v,
        None => {
            return Err(CalcError::Overflow);
        },
    };
    proof {
        lemma_pow10_pos(a.scale as nat);
        lemma_mul_increases(b.mantissa as int, pow10(a.scale as nat) as int);
    }
    let q = num / den;
    Ok(normalize_parts(a.negative != b.negative, q, FRAC_DIGITS))
}

/// Evaluate `l op r`.
pub fn num_eval(op: CalcOperator, l: Number, r: Number) -> (res: Result<Number, CalcError>)
    requires
        l.wf(),
        r.wf(),
    ensures
        res == spec_eval(op, l, r),
        res matches Ok(n) ==> n.wf(),
{
    match op {
        CalcOperator::Add => num_add(l, r),
        CalcOperator::Sub => num_add(l, num_negate(r)),
        CalcOperator::Mul => num_mul(l, r),
        CalcOperator::Div => num_div(l, r),
    }
}

/// Law: a number built from sign and magnitude denotes exactly `±m / 10^s`.
pub proof fn lemma_make_number_denotes(neg: bool, m: nat, s: nat)
    requires
        m <= u128::MAX,
        s <= u32::MAX,
    ensures
        make_number(neg, m, s).denotes(if neg { -(m as int) } else { m as int }, s),
{
    lemma_norm_pair_props(m, s);
    let r = make_number(neg, m, s);
    let p = pow10(r.scale as nat);
    assert(r.mantissa as int * pow10(s) == m as int * p);
    if neg && r.mantissa != 0 {
        assert(-(r.mantissa as int) * pow10(s) == -(r.mantissa as int * pow10(s)))
            by (nonlinear_arith);
        assert(-(m as int) * p == -(m as int * p)) by (nonlinear_arith);
    } else if m == 0 {
        assert(r.mantissa == 0);
        assert((if neg { -(m as int) } else { m as int }) == 0);
    }
}

/// Law: a sum the engine accepts denotes the exact rational sum of its
/// operands, both brought to the common scale.
pub proof fn lemma_add_denotes(a: Number, b: Number)
    requires
        a.wf(),
        b.wf(),
        spec_add(a, b) is Ok,
    ensures
        ({
            let r = spec_add(a, b)->Ok_0;
            let s = common_scale(a, b) as nat;
            r.denotes(
                a.val_num() * pow10((s - a.scale) as nat) + b.val_num() * pow10(
                    (s - b.scale) as nat,
                ),
                s,
            )
        }),
{
    let r = spec_add(a, b)->Ok_0;
    let s = common_scale(a, b) as nat;
    let fa = pow10((s - a.scale) as nat);
    let fb = pow10((s - b.scale) as nat);
    let x = a.val_num() * fa + b.val_num() * fb;
    if a.mantissa == 0 {
        assert(a.val_num() == 0);
        assert(a.scale == 0 && s == b.scale as nat);
        assert(fb == 1);
        assert(0 * fa == 0) by (nonlinear_arith);
        assert(b.val_num() * fb == b.val_num()) by (nonlinear_arith)
            requires
                fb == 1,
        ;
        assert(x == b.val_num());
    } else if b.mantissa == 0 {
        assert(b.val_num() == 0);
        assert(b.scale == 0 && s == a.scale as nat);
        assert(fa == 1);
        assert(0 * fb == 0) by (nonlinear_arith);
        assert(a.val_num() * fa == a.val_num()) by (nonlinear_arith)
            requires
                fa == 1,
        ;
        assert(x == a.val_num());
    } else {
        let ma = a.mantissa as nat * fa;
        let mb = b.mantissa as nat * fb;
        if a.negative {
            assert(a.val_num() * fa == -(ma as int)) by (nonlinear_arith)
                requires
                    a.val_num() == -(a.mantissa as int) && ma == a.mantissa as nat * fa,
            ;
        }
        if b.negative {
            assert(b.val_num() * fb == -(mb as int)) by (nonlinear_arith)
                requires
                    b.val_num() == -(b.mantissa as int) && mb == b.mantissa as nat * fb,
            ;
        }
        if a.negative == b.negative {
            let m = ma + mb;
            lemma_norm_pair_props(m, s);
            let p = pow10(r.scale as nat);
            assert(r.mantissa as int * pow10(s) == m as int * p);
            if a.negative {
                assert(x == -(m as int));
                assert(-(m as int) * p == -(m as int * p)) by (nonlinear_arith);
                assert(-(r.mantissa as int) * pow10(s) == -(r.mantissa as int * pow10(s)))
                    by (nonlinear_arith);
            } else {
                assert(x == m);
            }
        } else {
            let m: nat = if ma >= mb {
                (ma - mb) as nat
            } else {
                (mb - ma) as nat
            };
            let neg = if ma >= mb {
                a.negative
            } else {
                b.negative
            };
            lemma_norm_pair_props(m, s);
            let p = pow10(r.scale as nat);
            assert(r.mantissa as int * pow10(s) == m as int * p);
            assert(x == if neg { -(m as int) } else { m as int });
            if neg && r.mantissa != 0 {
                assert(-(m as int) * p == -(m as int * p)) by (nonlinear_arith);
                assert(-(r.mantissa as int) * pow10(s) == -(r.mantissa as int * pow10(s)))
                    by (nonlinear_arith);
            } else if m == 0 {
                assert(r.mantissa == 0);
                assert(0 * p == 0) by (nonlinear_arith);
                assert(r.val_num() == 0 && x == 0);
                assert(0 * pow10(s) == 0) by (nonlinear_arith);
            }
        }
    }
}

/// Law: a product the engine accepts denotes the exact rational product of
/// its operands.
pub proof fn lemma_mul_denotes(a: Number, b: Number)
    requires
        a.wf(),
        b.wf(),
        spec_mul(a, b) is Ok,
    ensures
        ({
            let r = spec_mul(a, b)->Ok_0;
            r.denotes(a.val_num() * b.val_num(), (a.scale + b.scale) as nat)
        }),
{
    let r = spec_mul(a, b)->Ok_0;
    let s = (a.scale + b.scale) as nat;
    if a.mantissa == 0 || b.mantissa == 0 {
        assert(a.val_num() * b.val_num() == 0) by (nonlinear_arith)
            requires
                a.val_num() == 0 || b.val_num() == 0,
        ;
        assert(r.val_num() == 0);
        assert(0 * pow10(s) == 0) by (nonlinear_arith);
        assert(0 * pow10(r.scale as nat) == 0) by (nonlinear_arith);
    } else {
        let m = a.mantissa as nat * b.mantissa as nat;
        lemma_norm_pair_props(m, s);
        let p = pow10(r.scale as nat);
        assert(r.mantissa as int * pow10(s) == m as int * p);
        assert(a.val_num() * b.val_num() == if a.negative != b.negative {
            -(m as int)
        } else {
            m as int
        }) by (nonlinear_arith)
            requires
                m == a.mantissa as nat * b.mantissa as nat,
                a.val_num() == if a.negative {
                    -(a.mantissa as int)
                } else {
                    a.mantissa as int
                },
                b.val_num() == if b.negative {
                    -(b.mantissa as int)
                } else {
                    b.mantissa as int
                },
                a.mantissa > 0 && b.mantissa > 0,
        ;
        assert(m > 0) by (nonlinear_arith)
            requires
                m == a.mantissa as nat * b.mantissa as nat,
                a.mantissa > 0 && b.mantissa > 0,
        ;
        if a.negative != b.negative {
            assert(r.negative && r.mantissa > 0);
            assert(-(m as int) * p == -(m as int * p)) by (nonlinear_arith);
            assert(-(r.mantissa as int) * pow10(s) == -(r.mantissa as int * pow10(s)))
                by (nonlinear_arith);
        }
    }
}

/// Law: the percent transform the engine accepts denotes exactly the value
/// over one hundred.
pub proof fn lemma_percent_denotes(n: Number)
    requires
        n.wf(),
        spec_percent(n) is Ok,
    ensures
        ({
            let r = spec_percent(n)->Ok_0;
            r.denotes(n.val_num(), (n.scale + 2) as nat)
        }),
{
    let r = spec_percent(n)->Ok_0;
    if n.mantissa == 0 {
        assert(n.val_num() == 0 && r.val_num() == 0);
        assert(0 * pow10((n.scale + 2) as nat) == 0) by (nonlinear_arith);
        assert(0 * pow10(r.scale as nat) == 0) by (nonlinear_arith);
    } else {
        let s = (n.scale + 2) as nat;
        lemma_norm_pair_props(n.mantissa as nat, s);
        let p = pow10(r.scale as nat);
        assert(r.mantissa as int * pow10(s) == n.mantissa as int * p);
        if n.negative {
            assert(r.negative && r.mantissa > 0);
            assert(-(n.mantissa as int) * p == -(n.mantissa as int * p)) by (nonlinear_arith);
            assert(-(r.mantissa as int) * pow10(s) == -(r.mantissa as int * pow10(s)))
                by (nonlinear_arith);
        }
    }
}

/// Law: negation denotes exactly the opposite value and keeps the scale.
pub proof fn lemma_negate_denotes(n: Number)
    requires
        n.wf(),
    ensures
        spec_negate(n).val_num() == -n.val_num(),
        spec_negate(n).scale == n.scale,
        spec_negate(n).wf(),
{
}

/// Law: an accepted quotient is `|a| / |b|` scaled to `FRAC_DIGITS` fraction
/// digits and truncated there: over the integers `num` (the dividend
/// magnitude brought to the result scale) and `den` (the divisor magnitude),
/// the kept integer `q` satisfies `den * q <= num < den * (q + 1)`, and the
/// result is `q / 10^FRAC_DIGITS` with the operands' combined sign.
pub proof fn lemma_div_truncates(a: Number, b: Number)
    requires
        a.wf(),
        b.wf(),
        a.mantissa != 0,
        spec_div(a, b) is Ok,
    ensures
        ({
            let r = spec_div(a, b)->Ok_0;
            let num = a.mantissa as nat * pow10((b.scale + FRAC_DIGITS) as nat);
            let den = b.mantissa as nat * pow10(a.scale as nat);
            let q = num / den;
            &&& den * q <= num < den * (q + 1)
            &&& r.mantissa as nat * pow10(FRAC_DIGITS as nat) == q * pow10(r.scale as nat)
            &&& r.negative == ((a.negative != b.negative) && q != 0)
            &&& r.wf()
        }),
{
    let num = a.mantissa as nat * pow10((b.scale + FRAC_DIGITS) as nat);
    let den = b.mantissa as nat * pow10(a.scale as nat);
    let q = num / den;
    lemma_pow10_pos(a.scale as nat);
    assert(den >= 1) by (nonlinear_arith)
        requires
            den == b.mantissa as nat * pow10(a.scale as nat),
            b.mantissa >= 1,
            pow10(a.scale as nat) >= 1,
    ;
    vstd::arithmetic::div_mod::lemma_fundamental_div_mod(num as int, den as int);
    vstd::arithmetic::div_mod::lemma_mod_bound(num as int, den as int);
    assert(den as int * (q + 1) == den as int * q + den as int) by (nonlinear_arith);
    lemma_norm_pair_props(q, FRAC_DIGITS as nat);
    lemma_make_number_wf(a.negative != b.negative, q, FRAC_DIGITS as nat);
}

/// An accepted percent result is well-formed.
pub proof fn lemma_percent_wf(n: Number)
    requires
        n.wf(),
    ensures
        spec_percent(n) matches Ok(v) ==> v.wf(),
{
    if n.mantissa != 0 && n.scale + 2 <= u32::MAX {
        lemma_make_number_wf(n.negative, n.mantissa as nat, (n.scale + 2) as nat);
    }
}

/// An accepted evaluation result is well-formed.
pub proof fn lemma_eval_wf(op: CalcOperator, l: Number, r: Number)
    requires
        l.wf(),
        r.wf(),
    ensures
        spec_eval(op, l, r) matches Ok(n) ==> n.wf(),
{
    match op {
        CalcOperator::Add => lemma_add_wf(l, r),
        CalcOperator::Sub => {
            lemma_negate_denotes(r);
            lemma_add_wf(l, spec_negate(r));
        },
        CalcOperator::Mul => {
            if l.mantissa != 0 && r.mantissa != 0 && l.mantissa as nat * r.mantissa as nat
                <= u128::MAX && l.scale + r.scale <= u32::MAX {
                lemma_make_number_wf(
                    l.negative != r.negative,
                    l.mantissa as nat * r.mantissa as nat,
                    (l.scale + r.scale) as nat,
                );
            }
        },
        CalcOperator::Div => {
            if l.mantissa != 0 && spec_div(l, r) is Ok {
                lemma_div_truncates(l, r);
            }
        },
    }
}

/// An accepted sum is well-formed.
pub proof fn lemma_add_wf(a: Number, b: Number)
    requires
        a.wf(),
        b.wf(),
    ensures
        spec_add(a, b) matches Ok(n) ==> n.wf(),
{
    if a.mantissa != 0 && b.mantissa != 0 {
        let s = common_scale(a, b) as nat;
        let ma = a.mantissa as nat * pow10((s - a.scale) as nat);
        let mb = b.mantissa as nat * pow10((s - b.scale) as nat);
        if ma <= u128::MAX && mb <= u128::MAX {
            if a.negative == b.negative {
                if ma + mb <= u128::MAX {
                    lemma_make_number_wf(a.negative, ma + mb, s);
                }
            } else if ma >= mb {
                lemma_make_number_wf(a.negative, (ma - mb) as nat, s);
            } else {
                lemma_make_number_wf(b.negative, (mb - ma) as nat, s);
            }
        }
    }
}

/// Divide by one hundred: the percent transform.
pub fn num_percent(n: Number) -> (r: Result<Number, CalcError>)
    requires
        n.wf(),
    ensures
        r == spec_percent(n),
        r matches Ok(v) ==> v.wf(),
{
    if n.mantissa == 0 {
        return Ok(Number::zero());
    }
    match n.scale.checked_add(2) {
        Some(s) => Ok(normalize_parts(n.negative, n.mantissa, s)),
        None => Err(CalcError::Overflow),
    }
}

} // verus!
