//! The display-buffer grammar and its exact reading.
//!
//! A display buffer is a (possibly partial) decimal literal: an optional
//! leading `-`, digits, and at most one `.`, with at least one digit.  Its
//! value is `sign * lit_mant / 10^lit_scale`: the digits read as one integer
//! over ten to the number of fraction digits.

use vstd::prelude::*;
use vstd::string::{StringExecFns, StrSliceExecFns};
use vstd::utf8::is_ascii_chars;
use crate::number::{Number, make_number, norm_pair, lemma_make_number_wf};
use crate::operation::CalcError;

verus! {

pub open spec fn is_digit_char(c: char) -> bool {
    48 <= c as int && c as int <= 57
}

pub open spec fn digit_val(c: char) -> nat {
    (c as int - 48) as nat
}

/// The character for one decimal digit.
pub open spec fn digit_char(d: nat) -> char {
    if d == 0 {
        '0'
    } else if d == 1 {
        '1'
    } else if d == 2 {
        '2'
    } else if d == 3 {
        '3'
    } else if d == 4 {
        '4'
    } else if d == 5 {
        '5'
    } else if d == 6 {
        '6'
    } else if d == 7 {
        '7'
    } else if d == 8 {
        '8'
    } else {
        '9'
    }
}

/// Scan of the unsigned part of a literal: digits and at most one point,
/// ending with at least one digit seen.
pub open spec fn scan_valid(s: Seq<char>, seen_dot: bool, seen_digit: bool) -> bool
    decreases s.len(),
{
    if s.len() == 0 {
        seen_digit
    } else if s[0] == '.' {
        !seen_dot && scan_valid(s.skip(1), true, seen_digit)
    } else if is_digit_char(s[0]) {
        scan_valid(s.skip(1), seen_dot, true)
    } else {
        false
    }
}

pub open spec fn lit_neg(s: Seq<char>) -> bool {
    s.len() > 0 && s[0] == '-'
}

pub open spec fn lit_body(s: Seq<char>) -> Seq<char> {
    if lit_neg(s) {
        s.skip(1)
    } else {
        s
    }
}

/// A well-formed (possibly partial) decimal literal.
pub open spec fn valid_literal(s: Seq<char>) -> bool {
    scan_valid(lit_body(s), false, false)
}

/// The digits of `s` read as one integer, the point ignored.
pub open spec fn scan_mant(s: Seq<char>, acc: nat) -> nat
    decreases s.len(),
{
    if s.len() == 0 {
        acc
    } else if is_digit_char(s[0]) {
        scan_mant(s.skip(1), acc * 10 + digit_val(s[0]))
    } else {
        scan_mant(s.skip(1), acc)
    }
}

pub open spec fn lit_mant(s: Seq<char>) -> nat {
    scan_mant(s, 0)
}

/// How many digits follow the first point.
pub open spec fn scan_scale(s: Seq<char>, seen_dot: bool, acc: nat) -> nat
    decreases s.len(),
{
    if s.len() == 0 {
        acc
    } else if s[0] == '.' {
        scan_scale(s.skip(1), true, acc)
    } else if is_digit_char(s[0]) && seen_dot {
        scan_scale(s.skip(1), true, acc + 1)
    } else {
        scan_scale(s.skip(1), seen_dot, acc)
    }
}

pub open spec fn lit_scale(s: Seq<char>) -> nat {
    scan_scale(s, false, 0)
}

/// What parsing a display buffer yields: the normalized exact value of a
/// valid literal, `InvalidNumericLiteral` for anything else, and `Overflow`
/// for a literal beyond the representation's capacity.
pub open spec fn spec_parse(s: Seq<char>) -> Result<Number, CalcError> {
    if !valid_literal(s) {
        Err(CalcError::InvalidNumericLiteral)
    } else if lit_mant(s) > u128::MAX || lit_scale(s) > u32::MAX {
        Err(CalcError::Overflow)
    } else {
        Ok(make_number(lit_neg(s), lit_mant(s), lit_scale(s)))
    }
}

pub proof fn lemma_scan_mant_lower(s: Seq<char>, acc: nat)
    ensures
        scan_mant(s, acc) >= acc,
    decreases s.len(),
{
    if s.len() > 0 {
        if is_digit_char(s[0]) {
            lemma_scan_mant_lower(s.skip(1), acc * 10 + digit_val(s[0]));
        } else {
            lemma_scan_mant_lower(s.skip(1), acc);
        }
    }
}

/// A parsed number is well-formed.
pub proof fn lemma_parse_wf(s: Seq<char>)
    ensures
        spec_parse(s) matches Ok(n) ==> n.wf(),
{
    if spec_parse(s) is Ok {
        lemma_make_number_wf(lit_neg(s), lit_mant(s), lit_scale(s));
    }
}

/// A digit appended to a scannable buffer keeps it scannable.
pub proof fn lemma_scan_valid_push_digit(s: Seq<char>, seen_dot: bool, seen_digit: bool, c: char)
    requires
        is_digit_char(c),
        scan_valid(s, seen_dot, seen_digit),
    ensures
        scan_valid(s.push(c), seen_dot, seen_digit),
    decreases s.len(),
{
    if s.len() == 0 {
        assert(s.push(c)[0] == c);
        assert(s.push(c).skip(1) =~= Seq::<char>::empty());
        assert(scan_valid(Seq::<char>::empty(), seen_dot, true));
    } else {
        assert(s.push(c)[0] == s[0]);
        assert(s.push(c).skip(1) =~= s.skip(1).push(c));
        if s[0] == '.' {
            lemma_scan_valid_push_digit(s.skip(1), true, seen_digit, c);
        } else {
            lemma_scan_valid_push_digit(s.skip(1), seen_dot, true, c);
        }
    }
}

/// A point appended to a scannable buffer without one keeps it scannable.
pub proof fn lemma_scan_valid_push_dot(s: Seq<char>, seen_digit: bool)
    requires
        forall|i: int| 0 <= i < s.len() ==> s[i] != '.',
        scan_valid(s, false, seen_digit),
    ensures
        scan_valid(s.push('.'), false, seen_digit),
    decreases s.len(),
{
    if s.len() == 0 {
        assert(s.push('.')[0] == '.');
        assert(s.push('.').skip(1) =~= Seq::<char>::empty());
        assert(scan_valid(Seq::<char>::empty(), true, seen_digit) == seen_digit);
    } else {
        assert(s.push('.')[0] == s[0]);
        assert(s.push('.').skip(1) =~= s.skip(1).push('.'));
        lemma_scan_valid_push_dot(s.skip(1), true);
    }
}

/// The digit characters are exactly the values below ten, and round-trip
/// through their value.
pub proof fn lemma_digit_char_facts(d: nat)
    requires
        d <= 9,
    ensures
        is_digit_char(digit_char(d)),
        digit_val(digit_char(d)) == d,
        d != 0 ==> digit_char(d) != '0',
{
}

/// Reading digits folds from the left: a split buffer reads as the right
/// part carried in after the left part.
pub proof fn lemma_scan_mant_split(a: Seq<char>, b: Seq<char>, acc: nat)
    ensures
        scan_mant(a + b, acc) == scan_mant(b, scan_mant(a, acc)),
    decreases a.len(),
{
    if a.len() == 0 {
        assert(a + b =~= b);
    } else {
        assert((a + b)[0] == a[0]);
        assert((a + b).skip(1) =~= a.skip(1) + b);
        if is_digit_char(a[0]) {
            lemma_scan_mant_split(a.skip(1), b, acc * 10 + digit_val(a[0]));
        } else {
            lemma_scan_mant_split(a.skip(1), b, acc);
        }
    }
}

/// The decimal digits of `m` read back as `m`.
pub proof fn lemma_dec_digits_value(m: nat)
    ensures
        scan_mant(dec_digits(m), 0) == m,
    decreases m,
{
    lemma_digit_char_facts(m % 10);
    if m < 10 {
        let c = digit_char(m);
        assert(dec_digits(m)[0] == c);
        assert(dec_digits(m).skip(1) =~= Seq::<char>::empty());
        assert(scan_mant(Seq::<char>::empty(), m) == m);
    } else {
        lemma_dec_digits_value(m / 10);
        let c = digit_char(m % 10);
        lemma_scan_mant_split(dec_digits(m / 10), seq![c], 0);
        assert(seq![c][0] == c);
        assert(seq![c].skip(1) =~= Seq::<char>::empty());
        assert(scan_mant(Seq::<char>::empty(), (m / 10) * 10 + m % 10) == (m / 10) * 10 + m % 10);
        assert(scan_mant(seq![c], m / 10) == (m / 10) * 10 + m % 10);
    }
}

/// Zero digits read as zero.
pub proof fn lemma_scan_mant_zeros(k: nat)
    ensures
        scan_mant(zeros(k), 0) == 0,
    decreases k,
{
    if k > 0 {
        assert(zeros(k)[0] == '0');
        assert(digit_val('0') == 0);
        assert(zeros(k).skip(1) =~= zeros((k - 1) as nat));
        lemma_scan_mant_zeros((k - 1) as nat);
    }
}

/// A run of digits adds no fraction places while no point was seen.
pub proof fn lemma_scan_scale_all_digits(cs: Seq<char>, acc: nat)
    requires
        forall|i: int| 0 <= i < cs.len() ==> is_digit_char(#[trigger] cs[i]),
    ensures
        scan_scale(cs, false, acc) == acc,
    decreases cs.len(),
{
    if cs.len() > 0 {
        assert(cs[0] as int != 46);
        lemma_scan_scale_all_digits(cs.skip(1), acc);
    }
}

/// After the point, every digit is one fraction place.
pub proof fn lemma_scan_scale_after_dot(y: Seq<char>, acc: nat)
    requires
        forall|i: int| 0 <= i < y.len() ==> is_digit_char(#[trigger] y[i]),
    ensures
        scan_scale(y, true, acc) == acc + y.len(),
    decreases y.len(),
{
    if y.len() > 0 {
        assert(y[0] as int != 46);
        lemma_scan_scale_after_dot(y.skip(1), acc + 1);
    }
}

/// Digits around a single point have as many fraction places as digits
/// behind the point.
pub proof fn lemma_scan_scale_digits_dot_digits(x: Seq<char>, y: Seq<char>)
    requires
        forall|i: int| 0 <= i < x.len() ==> is_digit_char(#[trigger] x[i]),
        forall|i: int| 0 <= i < y.len() ==> is_digit_char(#[trigger] y[i]),
    ensures
        scan_scale(x + seq!['.'] + y, false, 0) == y.len(),
    decreases x.len(),
{
    let w = x + seq!['.'] + y;
    if x.len() == 0 {
        assert(w[0] == '.');
        assert(w.skip(1) =~= y);
        lemma_scan_scale_after_dot(y, 0);
    } else {
        assert(w[0] == x[0]);
        assert(x[0] as int != 46);
        assert(w.skip(1) =~= x.skip(1) + seq!['.'] + y);
        lemma_scan_scale_digits_dot_digits(x.skip(1), y);
    }
}

/// A non-empty run of digits is scannable.
pub proof fn lemma_scan_valid_all_digits(cs: Seq<char>, seen_dot: bool, seen_digit: bool)
    requires
        forall|i: int| 0 <= i < cs.len() ==> is_digit_char(#[trigger] cs[i]),
    ensures
        scan_valid(cs, seen_dot, seen_digit) == (seen_digit || cs.len() > 0),
    decreases cs.len(),
{
    if cs.len() > 0 {
        assert(cs[0] as int != 46);
        lemma_scan_valid_all_digits(cs.skip(1), seen_dot, true);
    }
}

/// Digits around a single point are scannable.
pub proof fn lemma_scan_valid_digits_dot_digits(x: Seq<char>, y: Seq<char>, seen_digit: bool)
    requires
        forall|i: int| 0 <= i < x.len() ==> is_digit_char(#[trigger] x[i]),
        forall|i: int| 0 <= i < y.len() ==> is_digit_char(#[trigger] y[i]),
        y.len() > 0,
    ensures
        scan_valid(x + seq!['.'] + y, false, seen_digit),
    decreases x.len(),
{
    let w = x + seq!['.'] + y;
    if x.len() == 0 {
        assert(w[0] == '.');
        assert(w.skip(1) =~= y);
        lemma_scan_valid_all_digits(y, true, seen_digit);
    } else {
        assert(w[0] == x[0]);
        assert(w.skip(1) =~= x.skip(1) + seq!['.'] + y);
        lemma_scan_valid_digits_dot_digits(x.skip(1), y, true);
    }
}

/// The canonical form of a well-formed number is itself a valid literal, so
/// a rendered result can stand as the next display buffer.
pub proof fn lemma_render_valid(n: Number)
    requires
        n.wf(),
    ensures
        valid_literal(spec_render(n)),
        spec_render(n).len() > 0,
{
    let sign: Seq<char> = if n.negative {
        seq!['-']
    } else {
        Seq::<char>::empty()
    };
    let ds = dec_digits(n.mantissa as nat);
    lemma_dec_digits_are_digits(n.mantissa as nat);
    let r = spec_render(n);
    let body = lit_body(r);
    if n.scale == 0 {
        if n.negative {
            assert(r[0] == '-');
            assert(body =~= ds);
        } else {
            assert(r =~= ds);
            assert(is_digit_char(r[0]));
            assert(r[0] as int != 45);
            assert(body =~= ds);
        }
        lemma_scan_valid_all_digits(ds, false, false);
    } else if ds.len() > n.scale {
        let x = ds.take(ds.len() - n.scale);
        let y = ds.skip(ds.len() - n.scale);
        assert(forall|i: int| 0 <= i < x.len() ==> is_digit_char(#[trigger] x[i]));
        assert(forall|i: int| 0 <= i < y.len() ==> is_digit_char(#[trigger] y[i]));
        if n.negative {
            assert(r[0] == '-');
            assert(body =~= x + seq!['.'] + y);
        } else {
            assert(r =~= x + seq!['.'] + y);
            assert(r[0] == x[0]);
            assert(r[0] as int != 45);
            assert(body =~= x + seq!['.'] + y);
        }
        lemma_scan_valid_digits_dot_digits(x, y, false);
    } else {
        let x = seq!['0'];
        let y = zeros((n.scale - ds.len()) as nat) + ds;
        assert(forall|i: int| 0 <= i < x.len() ==> is_digit_char(#[trigger] x[i]));
        assert(forall|i: int| 0 <= i < y.len() ==> is_digit_char(#[trigger] y[i]));
        if n.negative {
            assert(r[0] == '-');
            assert(body =~= x + seq!['.'] + y);
        } else {
            assert(r =~= x + seq!['.'] + y);
            assert(r[0] == '0');
            assert(body =~= x + seq!['.'] + y);
        }
        lemma_scan_valid_digits_dot_digits(x, y, false);
    }
}

/// Law: rendering and parsing round-trip.  The canonical display form of a
/// well-formed number parses back to exactly that number, so the display a
/// result leaves behind denotes the result and nothing else.
pub proof fn lemma_render_parse_round_trip(n: Number)
    requires
        n.wf(),
    ensures
        spec_parse(spec_render(n)) == Ok::<Number, CalcError>(n),
{
    lemma_render_valid(n);
    lemma_dec_digits_are_digits(n.mantissa as nat);
    lemma_dec_digits_value(n.mantissa as nat);
    let r = spec_render(n);
    let ds = dec_digits(n.mantissa as nat);
    let body: Seq<char> = if n.negative {
        r.skip(1)
    } else {
        r
    };
    // The sign is read off the first character alone.
    if n.negative {
        assert(r[0] == '-');
        assert(lit_neg(r));
        assert(!is_digit_char('-') && '-' != '.');
        assert(lit_mant(r) == scan_mant(body, 0));
        assert(lit_scale(r) == scan_scale(body, false, 0));
    } else {
        if n.scale == 0 || ds.len() > n.scale {
            assert(is_digit_char(r[0]));
            assert(r[0] as int != 45);
        } else {
            assert(r[0] == '0');
        }
        assert(!lit_neg(r));
        assert(body == r);
    }
    // The digits read back as the mantissa, and the fraction places as the
    // scale, in each of the three shapes.
    if n.scale == 0 {
        assert(body =~= ds);
        lemma_scan_scale_all_digits(ds, 0);
    } else if ds.len() > n.scale {
        let x = ds.take(ds.len() - n.scale);
        let y = ds.skip(ds.len() - n.scale);
        assert(forall|i: int| 0 <= i < x.len() ==> is_digit_char(#[trigger] x[i]));
        assert(forall|i: int| 0 <= i < y.len() ==> is_digit_char(#[trigger] y[i]));
        assert(body =~= x + seq!['.'] + y);
        lemma_scan_mant_split(x, seq!['.'] + y, 0);
        assert(x + seq!['.'] + y =~= x + (seq!['.'] + y));
        assert((seq!['.'] + y)[0] == '.');
        assert((seq!['.'] + y).skip(1) =~= y);
        lemma_scan_mant_split(x, y, 0);
        assert(x + y =~= ds);
        assert(scan_mant(body, 0) == scan_mant(y, scan_mant(x, 0)));
        assert(scan_mant(ds, 0) == scan_mant(y, scan_mant(x, 0)));
        assert(lit_mant(body) == n.mantissa);
        lemma_scan_scale_digits_dot_digits(x, y);
        assert(y.len() == n.scale);
    } else {
        let z = zeros((n.scale - ds.len()) as nat);
        let x = seq!['0'];
        let y = z + ds;
        assert(forall|i: int| 0 <= i < x.len() ==> is_digit_char(#[trigger] x[i]));
        assert(forall|i: int| 0 <= i < y.len() ==> is_digit_char(#[trigger] y[i]));
        assert(body =~= x + seq!['.'] + y);
        // The leading zero and the padding zeros contribute nothing.
        assert(body[0] == '0');
        assert(digit_val('0') == 0);
        assert(body.skip(1) =~= seq!['.'] + y);
        assert((seq!['.'] + y)[0] == '.');
        assert((seq!['.'] + y).skip(1) =~= y);
        lemma_scan_mant_split(z, ds, 0);
        lemma_scan_mant_zeros((n.scale - ds.len()) as nat);
        assert(scan_mant(seq!['.'] + y, 0) == scan_mant(y, 0));
        assert(scan_mant(body, 0) == scan_mant(y, 0));
        assert(scan_mant(y, 0) == scan_mant(ds, scan_mant(z, 0)));
        assert(lit_mant(body) == n.mantissa);
        lemma_scan_scale_digits_dot_digits(x, y);
        assert(y.len() == n.scale);
    }
    assert(lit_mant(r) == n.mantissa);
    assert(lit_scale(r) == n.scale);
    // A well-formed number is already in normal form, so rebuilding it from
    // the read parts changes nothing.
    assert(norm_pair(n.mantissa as nat, n.scale as nat) == (n.mantissa as nat, n.scale as nat));
    assert(lit_neg(r) == n.negative);
    assert(make_number(lit_neg(r), lit_mant(r), lit_scale(r)) == n);
}

/// Read a display buffer as an exact decimal number.
pub fn parse_literal(s: &str) -> (r: Result<Number, CalcError>)
    ensures
        r == spec_parse(s@),
        r matches Ok(n) ==> n.wf(),
{
    let len = s.unicode_len();
    let neg = len > 0 && s.get_char(0) == '-';
    let mut i: usize = if neg { 1 } else { 0 };
    let mut mant: u128 = 0;
    let mut scale: usize = 0;
    let mut seen_dot = false;
    let mut seen_digit = false;
    let mut valid = true;
    let mut over = false;

    proof {
        assert(s@.subrange(i as int, len as int) =~= lit_body(s@));
        if neg {
            assert(!is_digit_char(s@[0]) && s@[0] != '.');
            assert(s@.skip(1) =~= s@.subrange(1, len as int));
            assert(lit_mant(s@) == scan_mant(s@.subrange(1, len as int), 0));
            assert(lit_scale(s@) == scan_scale(s@.subrange(1, len as int), false, 0));
        } else {
            assert(s@.subrange(0, len as int) =~= s@);
        }
    }

    while i < len
        invariant
            i <= len,
            len == s@.len(),
            scale <= i,
            (valid && scan_valid(s@.subrange(i as int, len as int), seen_dot, seen_digit))
                == valid_literal(s@),
            !over ==> scan_mant(s@.subrange(i as int, len as int), mant as nat) == lit_mant(s@),
            over ==> lit_mant(s@) > u128::MAX,
            scan_scale(s@.subrange(i as int, len as int), seen_dot, scale as nat)
                == lit_scale(s@),
        decreases len - i,
    {
        let c = s.get_char(i);
        proof {
            let suf = s@.subrange(i as int, len as int);
            assert(suf[0] == s@[i as int]);
            assert(suf.skip(1) =~= s@.subrange(i as int + 1, len as int));
        }
        let u = c as u32;
        if c == '.' {
            if seen_dot {
                valid = false;
            } else {
                seen_dot = true;
            }
        } else if 48 <= u && u <= 57 {
            proof {
                assert(is_digit_char(c));
                assert(digit_val(c) == (u - 48) as nat);
            }
            seen_digit = true;
            if seen_dot {
                scale = scale + 1;
            }
            if !over {
                let d = (u - 48) as u128;
                let mul_step = mant.checked_mul(10);
                match mul_step {
                    Some(m10) => {
                        match m10.checked_add(d) {
                            Some(m) => {
                                mant = m;
                            },
                            None => {
                                proof {
                                    lemma_scan_mant_lower(
                                        s@.subrange(i as int + 1, len as int),
                                        mant as nat * 10 + digit_val(c),
                                    );
                                }
                                over = true;
                            },
                        }
                    },
                    None => {
                        proof {
                            lemma_scan_mant_lower(
                                s@.subrange(i as int + 1, len as int),
                                mant as nat * 10 + digit_val(c),
                            );
                        }
                        over = true;
                    },
                }
            }
        } else {
            proof {
                assert(!is_digit_char(c) && c != '.');
            }
            valid = false;
        }
        i = i + 1;
    }

    proof {
        assert(s@.subrange(len as int, len as int) =~= Seq::<char>::empty());
    }
    if !valid || !seen_digit {
        return Err(CalcError::InvalidNumericLiteral);
    }
    if over {
        return Err(CalcError::Overflow);
    }
    if scale > u32::MAX as usize {
        return Err(CalcError::Overflow);
    }
    proof {
        lemma_make_number_wf(neg, mant as nat, scale as nat);
    }
    Ok(crate::number::normalize_parts(neg, mant, scale as u32))
}

/// The decimal digits of `m`, most significant first; `0` is the single
/// digit `0`.
pub open spec fn dec_digits(m: nat) -> Seq<char>
    decreases m,
{
    if m < 10 {
        seq![digit_char(m)]
    } else {
        dec_digits(m / 10) + seq![digit_char(m % 10)]
    }
}

/// `k` zero digits: the fraction padding of values below one.
pub open spec fn zeros(k: nat) -> Seq<char> {
    Seq::new(k, |i: int| '0')
}

/// The canonical display form of a well-formed number: minus sign only on
/// negative values, no leading zero except just before the point, a point
/// only for a proper fraction, no trailing fraction zero.
pub open spec fn spec_render(n: Number) -> Seq<char> {
    let sign: Seq<char> = if n.negative {
        seq!['-']
    } else {
        Seq::<char>::empty()
    };
    let ds = dec_digits(n.mantissa as nat);
    if n.scale == 0 {
        sign + ds
    } else if ds.len() > n.scale {
        sign + ds.take(ds.len() - n.scale) + seq!['.'] + ds.skip(ds.len() - n.scale)
    } else {
        sign + seq!['0', '.'] + zeros((n.scale - ds.len()) as nat) + ds
    }
}

pub proof fn lemma_dec_digits_are_digits(m: nat)
    ensures
        forall|i: int|
            0 <= i < dec_digits(m).len() ==> is_digit_char(#[trigger] dec_digits(m)[i]),
        1 <= dec_digits(m).len(),
    decreases m,
{
    if m >= 10 {
        lemma_dec_digits_are_digits(m / 10);
    }
}

pub proof fn lemma_dec_digits_ascii(m: nat)
    ensures
        is_ascii_chars(dec_digits(m)),
{
    lemma_dec_digits_are_digits(m);
    assert forall|i| 0 <= i < dec_digits(m).len() implies '\0' <= #[trigger] dec_digits(
        m,
    )[i] <= '\u{7f}' by {
        assert(is_digit_char(dec_digits(m)[i]));
    }
}

/// Append the character of one digit.
pub(crate) fn push_digit_char(out: &mut String, d: u8)
    requires
        d < 10,
    ensures
        final(out)@ == old(out)@ + seq![digit_char(d as nat)],
{
    if d == 0 {
        out.append("0");
        proof {
            reveal_strlit("0");
            assert(final(out)@ =~= old(out)@ + seq![digit_char(d as nat)]);
        }
    } else if d == 1 {
        out.append("1");
        proof {
            reveal_strlit("1");
            assert(final(out)@ =~= old(out)@ + seq![digit_char(d as nat)]);
        }
    } else if d == 2 {
        out.append("2");
        proof {
            reveal_strlit("2");
            assert(final(out)@ =~= old(out)@ + seq![digit_char(d as nat)]);
        }
    } else if d == 3 {
        out.append("3");
        proof {
            reveal_strlit("3");
            assert(final(out)@ =~= old(out)@ + seq![digit_char(d as nat)]);
        }
    } else if d == 4 {
        out.append("4");
        proof {
            reveal_strlit("4");
            assert(final(out)@ =~= old(out)@ + seq![digit_char(d as nat)]);
        }
    } else if d == 5 {
        out.append("5");
        proof {
            reveal_strlit("5");
            assert(final(out)@ =~= old(out)@ + seq![digit_char(d as nat)]);
        }
    } else if d == 6 {
        out.append("6");
        proof {
            reveal_strlit("6");
            assert(final(out)@ =~= old(out)@ + seq![digit_char(d as nat)]);
        }
    } else if d == 7 {
        out.append("7");
        proof {
            reveal_strlit("7");
            assert(final(out)@ =~= old(out)@ + seq![digit_char(d as nat)]);
        }
    } else if d == 8 {
        out.append("8");
        proof {
            reveal_strlit("8");
            assert(final(out)@ =~= old(out)@ + seq![digit_char(d as nat)]);
        }
    } else {
        out.append("9");
        proof {
            reveal_strlit("9");
            assert(final(out)@ =~= old(out)@ + seq![digit_char(d as nat)]);
        }
    }
}

/// Append the decimal digits of `m`.
fn push_digits(out: &mut String, m: u128)
    ensures
        final(out)@ == old(out)@ + dec_digits(m as nat),
    decreases m,
{
    if m < 10 {
        push_digit_char(out, m as u8);
    } else {
        push_digits(out, m / 10);
        push_digit_char(out, (m % 10) as u8);
        proof {
            assert(final(out)@ =~= old(out)@ + dec_digits(m as nat));
        }
    }
}

/// Append `k` zero digits.
fn push_zeros(out: &mut String, k: u32)
    ensures
        final(out)@ == old(out)@ + zeros(k as nat),
{
    let mut i: u32 = 0;
    while i < k
        invariant
            i <= k,
            out@ == old(out)@ + zeros(i as nat),
        decreases k - i,
    {
        out.append("0");
        proof {
            reveal_strlit("0");
            assert(out@ =~= old(out)@ + zeros((i + 1) as nat));
        }
        i = i + 1;
    }
}

/// Write a number in its canonical display form.
pub fn render_number(n: &Number) -> (r: String)
    requires
        n.wf(),
    ensures
        r@ == spec_render(*n),
{
    let mut out = String::new();
    if n.negative {
        out.append("-");
        proof {
            reveal_strlit("-");
        }
    }
    let ghost sign: Seq<char> = if n.negative {
        seq!['-']
    } else {
        Seq::<char>::empty()
    };
    proof {
        assert(out@ =~= sign);
    }
    let ghost ds = dec_digits(n.mantissa as nat);
    if n.scale == 0 {
        push_digits(&mut out, n.mantissa);
        proof {
            assert(out@ =~= spec_render(*n));
        }
        out
    } else {
        let mut buf = String::new();
        push_digits(&mut buf, n.mantissa);
        proof {
            assert(buf@ =~= ds);
            lemma_dec_digits_ascii(n.mantissa as nat);
        }
        let dlen = buf.as_str().unicode_len();
        if dlen > n.scale as usize {
            let k = dlen - n.scale as usize;
            let intpart = buf.as_str().substring_ascii(0, k);
            out.append(intpart);
            out.append(".");
            let frac = buf.as_str().substring_ascii(k, dlen);
            out.append(frac);
            proof {
                reveal_strlit(".");
                assert(intpart@ == ds.take(ds.len() - n.scale));
                assert(frac@ == ds.skip(ds.len() - n.scale));
                assert(out@ =~= spec_render(*n));
            }
            out
        } else {
            out.append("0.");
            proof {
                reveal_strlit("0.");
            }
            push_zeros(&mut out, n.scale - dlen as u32);
            push_digits(&mut out, n.mantissa);
            proof {
                assert(out@ =~= spec_render(*n));
            }
            out
        }
    }
}

} // verus!
