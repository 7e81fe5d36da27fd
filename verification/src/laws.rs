//! The engine's laws: properties of whole interactions, proved once and for
//! all over the transition relation [`spec_apply`].

use vstd::prelude::*;
use crate::engine::{spec_apply, Action};
use crate::literal::{
    digit_char, digit_val, is_digit_char, lemma_digit_char_facts, lemma_scan_scale_all_digits,
    lemma_scan_valid_all_digits, lit_mant, lit_neg, lit_scale, scan_mant, scan_scale, scan_valid,
    spec_parse, valid_literal,
};
use crate::number::Number;
use crate::operation::{CalcError, CalcOperator, OperationMetadata};

verus! {

/// Law: `Equals` with no pending operator changes neither the display nor
/// the state.
pub proof fn lemma_equals_without_operator_is_noop(display: Seq<char>, state: OperationMetadata)
    requires
        state.operator is None,
    ensures
        spec_apply(display, state, Action::Equals) == Ok::<(Seq<char>, OperationMetadata), CalcError>(
            (display, state),
        ),
{
}

/// Law: an operator pressed while `left` is unset captures the display's
/// value as `left` before storing the operator; a second operator pressed
/// before any further digit leaves `left` (and `right`) unchanged and only
/// replaces the operator.
pub proof fn lemma_operator_capture_and_replace(
    display: Seq<char>,
    state: OperationMetadata,
    op1: CalcOperator,
    op2: CalcOperator,
)
    requires
        state.left_operand is None,
        spec_parse(display) is Ok,
    ensures
        ({
            let r1 = spec_apply(display, state, Action::Operator(op1));
            &&& r1 matches Ok(p1)
            &&& p1.0 == display
            &&& p1.1.left_operand == Some(spec_parse(display)->Ok_0)
            &&& p1.1.operator == Some(op1)
            &&& p1.1.right_operand == state.right_operand
            &&& ({
                let r2 = spec_apply(p1.0, p1.1, Action::Operator(op2));
                &&& r2 matches Ok(p2)
                &&& p2.0 == display
                &&& p2.1.left_operand == p1.1.left_operand
                &&& p2.1.right_operand == p1.1.right_operand
                &&& p2.1.operator == Some(op2)
            })
        }),
{
}

/// Law: `Negate` never touches the state; it leaves `"0"` unchanged,
/// strips a leading minus, prepends one to any other display, and applied
/// twice it restores the display.
pub proof fn lemma_negate_toggle(display: Seq<char>, state: OperationMetadata)
    requires
        display.len() > 0,
    ensures
        display == seq!['0'] ==> spec_apply(display, state, Action::Negate) == Ok::<
            (Seq<char>, OperationMetadata),
            CalcError,
        >((display, state)),
        display[0] == '-' ==> spec_apply(display, state, Action::Negate) == Ok::<
            (Seq<char>, OperationMetadata),
            CalcError,
        >((display.skip(1), state)),
        display != seq!['0'] && display[0] != '-' ==> ({
            let once = seq!['-'] + display;
            &&& spec_apply(display, state, Action::Negate) == Ok::<
                (Seq<char>, OperationMetadata),
                CalcError,
            >((once, state))
            &&& spec_apply(once, state, Action::Negate) == Ok::<
                (Seq<char>, OperationMetadata),
                CalcError,
            >((display, state))
        }),
{
    if display == seq!['0'] {
        assert(display[0] == '0');
        assert(!lit_neg(display));
    }
    if display != seq!['0'] && display[0] != '-' {
        let once = seq!['-'] + display;
        assert(lit_neg(once));
        assert(once.skip(1) =~= display);
        assert(!lit_neg(display));
    }
}

/// Law: `Percent` on display `"50"` yields `"0.5"` and resets the whole
/// operation state, whatever was pending, so a following `Equals` changes
/// nothing.
pub proof fn lemma_percent_fifty(state: OperationMetadata)
    ensures
        spec_apply("50"@, state, Action::Percent) == Ok::<
            (Seq<char>, OperationMetadata),
            CalcError,
        >(("0.5"@, OperationMetadata::spec_empty())),
        spec_apply("0.5"@, OperationMetadata::spec_empty(), Action::Equals) == Ok::<
            (Seq<char>, OperationMetadata),
            CalcError,
        >(("0.5"@, OperationMetadata::spec_empty())),
{
    reveal_strlit("50");
    reveal_strlit("0.5");
    let s = seq!['5', '0'];
    assert("50"@ =~= s);
    assert(s.skip(1) =~= seq!['0']);
    assert(seq!['0'].skip(1) =~= Seq::<char>::empty());
    assert(is_digit_char('5') && is_digit_char('0'));
    assert(scan_valid(Seq::<char>::empty(), false, true));
    assert(scan_valid(seq!['0'], false, true));
    assert(scan_valid(s, false, false));
    assert(!lit_neg(s));
    assert(valid_literal(s));
    assert(digit_val('5') == 5 && digit_val('0') == 0);
    assert(scan_mant(seq!['0'], 5) == scan_mant(Seq::<char>::empty(), 50));
    assert(lit_mant(s) == 50);
    assert(scan_scale(Seq::<char>::empty(), false, 0) == 0);
    assert(scan_scale(seq!['0'], false, 0) == 0);
    assert(lit_scale(s) == 0);
    let n50 = Number { negative: false, mantissa: 50, scale: 0 };
    assert(crate::number::norm_pair(50, 0) == (50nat, 0nat));
    assert(spec_parse(s) == Ok::<Number, CalcError>(n50));
    let half = Number { negative: false, mantissa: 5, scale: 1 };
    assert(crate::number::norm_pair(50, 2) == crate::number::norm_pair(5, 1));
    assert(crate::number::norm_pair(5, 1) == (5nat, 1nat));
    assert(crate::number::spec_percent(n50) == Ok::<Number, CalcError>(half));
    let ds = crate::literal::dec_digits(5);
    assert(ds =~= seq![digit_char(5)]);
    assert(crate::literal::zeros(0) =~= Seq::<char>::empty());
    assert(crate::literal::spec_render(half) =~= seq!['0', '.', '5']);
    assert("0.5"@ =~= seq!['0', '.', '5']);
    lemma_equals_without_operator_is_noop("0.5"@, OperationMetadata::spec_empty());
}

/// Law: the display buffer is an invariant of the engine.  Starting from a
/// valid (possibly partial) literal — never empty, optional leading minus,
/// digits, at most one point — every accepted step yields a valid literal
/// again; the initial `"0"` is one, so a session's display always parses.
pub proof fn lemma_display_stays_valid(
    display: Seq<char>,
    state: OperationMetadata,
    action: Action,
)
    requires
        valid_literal(display),
        state.wf(),
        crate::engine::action_wf(action),
    ensures
        spec_apply(display, state, action) matches Ok(p) ==> valid_literal(p.0) && p.0.len() > 0,
{
    assert(display.len() > 0);
    let body = crate::literal::lit_body(display);
    match action {
        Action::Digit(d) => {
            lemma_digit_char_facts(d as nat);
            let c = digit_char(d as nat);
            if display == seq!['0'] || state.spec_is_new_operand() {
                let nd = seq![c];
                assert(nd[0] == c);
                assert(nd.skip(1) =~= Seq::<char>::empty());
                assert(scan_valid(Seq::<char>::empty(), false, true));
                assert(c as int != 45);
                assert(!lit_neg(nd));
                assert(valid_literal(nd));
            } else {
                let nd = display.push(c);
                assert(nd[0] == display[0]);
                if lit_neg(display) {
                    assert(nd.skip(1) =~= body.push(c));
                    crate::literal::lemma_scan_valid_push_digit(body, false, false, c);
                    assert(crate::literal::lit_body(nd) == body.push(c));
                } else {
                    assert(nd =~= body.push(c));
                    crate::literal::lemma_scan_valid_push_digit(body, false, false, c);
                }
            }
        },
        Action::Dot => {
            if !crate::engine::contains_dot(display) {
                let nd = display.push('.');
                assert(nd[0] == display[0]);
                assert(forall|i: int| 0 <= i < body.len() ==> body[i] != '.') by {
                    if lit_neg(display) {
                        assert(forall|i: int|
                            0 <= i < body.len() ==> body[i] == display[i + 1]);
                    }
                }
                if lit_neg(display) {
                    assert(nd.skip(1) =~= body.push('.'));
                    crate::literal::lemma_scan_valid_push_dot(body, false);
                    assert(crate::literal::lit_body(nd) == body.push('.'));
                } else {
                    assert(nd =~= body.push('.'));
                    crate::literal::lemma_scan_valid_push_dot(body, false);
                }
            }
        },
        Action::Negate => {
            if lit_neg(display) {
                let nd = display.skip(1);
                assert(nd == body);
                assert(scan_valid(nd, false, false));
                assert(nd.len() > 0);
                assert(nd[0] == '.' || is_digit_char(nd[0]));
                assert(nd[0] as int != 45);
                assert(!lit_neg(nd));
                assert(crate::literal::lit_body(nd) == nd);
            } else if display != seq!['0'] {
                let nd = seq!['-'] + display;
                assert(nd[0] == '-');
                assert(lit_neg(nd));
                assert(nd.skip(1) =~= display);
                assert(crate::literal::lit_body(nd) == display);
                assert(body == display);
            }
        },
        Action::Percent => {
            crate::literal::lemma_parse_wf(display);
            match spec_parse(display) {
                Ok(n) => {
                    crate::number::lemma_percent_wf(n);
                    match crate::number::spec_percent(n) {
                        Ok(v) => crate::literal::lemma_render_valid(v),
                        Err(_) => {},
                    }
                },
                Err(_) => {},
            }
        },
        Action::Operator(_op) => {},
        Action::Equals => {
            if state.operator is Some {
                match state.spec_calculate() {
                    Ok(v) => {
                        crate::number::lemma_eval_wf(
                            state.operator->0,
                            state.left_operand->0,
                            state.right_operand->0,
                        );
                        crate::literal::lemma_render_valid(v);
                    },
                    Err(_) => {},
                }
            }
        },
        Action::Clear => {
            let nd = seq!['0'];
            assert(nd[0] == '0');
            assert(nd.skip(1) =~= Seq::<char>::empty());
            assert(scan_valid(Seq::<char>::empty(), false, true));
            assert(!lit_neg(nd));
            assert(valid_literal(nd));
        },
    }
}

/// The digits `ds` keyed in order, each applied as one action.
pub open spec fn apply_digits(
    display: Seq<char>,
    state: OperationMetadata,
    ds: Seq<u8>,
) -> Result<(Seq<char>, OperationMetadata), CalcError>
    decreases ds.len(),
{
    if ds.len() == 0 {
        Ok((display, state))
    } else {
        match spec_apply(display, state, Action::Digit(ds[0])) {
            Ok(p) => apply_digits(p.0, p.1, ds.skip(1)),
            Err(e) => Err(e),
        }
    }
}

/// `ds` without its leading zeros.
pub open spec fn strip_leading_zeros(ds: Seq<u8>) -> Seq<u8>
    decreases ds.len(),
{
    if ds.len() > 0 && ds[0] == 0 {
        strip_leading_zeros(ds.skip(1))
    } else {
        ds
    }
}

/// Digits as display characters.
pub open spec fn to_chars(ds: Seq<u8>) -> Seq<char> {
    ds.map_values(|d: u8| digit_char(d as nat))
}

/// The digits `ds` read as one integer, `acc` carried in from the left.
pub open spec fn dv_scan(ds: Seq<u8>, acc: nat) -> nat
    decreases ds.len(),
{
    if ds.len() == 0 {
        acc
    } else {
        dv_scan(ds.skip(1), acc * 10 + ds[0] as nat)
    }
}

/// The digits `ds` read as one integer.
pub open spec fn digits_value(ds: Seq<u8>) -> nat {
    dv_scan(ds, 0)
}

/// The display a digit sequence produces: the digits as characters with
/// leading zeros dropped; all zeros show as `"0"`.
pub open spec fn entered_display(ds: Seq<u8>) -> Seq<char> {
    let t = strip_leading_zeros(ds);
    if t.len() == 0 {
        seq!['0']
    } else {
        to_chars(t)
    }
}

/// The state a digit sequence entered from idle produces: its value as the
/// left operand, nothing else pending.
pub open spec fn entered_state(ds: Seq<u8>) -> OperationMetadata {
    OperationMetadata {
        left_operand: Some(
            Number { negative: false, mantissa: digits_value(ds) as u128, scale: 0 },
        ),
        right_operand: None,
        operator: None,
    }
}

proof fn lemma_dv_scan_lower(ds: Seq<u8>, acc: nat)
    ensures
        dv_scan(ds, acc) >= acc,
    decreases ds.len(),
{
    if ds.len() > 0 {
        lemma_dv_scan_lower(ds.skip(1), acc * 10 + ds[0] as nat);
    }
}

proof fn lemma_dv_scan_split(a: Seq<u8>, b: Seq<u8>, acc: nat)
    ensures
        dv_scan(a + b, acc) == dv_scan(b, dv_scan(a, acc)),
    decreases a.len(),
{
    if a.len() == 0 {
        assert(a + b =~= b);
    } else {
        assert((a + b).skip(1) =~= a.skip(1) + b);
        assert((a + b)[0] == a[0]);
        lemma_dv_scan_split(a.skip(1), b, acc * 10 + a[0] as nat);
    }
}

proof fn lemma_scan_mant_of_chars(ds: Seq<u8>, acc: nat)
    requires
        forall|i: int| 0 <= i < ds.len() ==> #[trigger] ds[i] <= 9,
    ensures
        scan_mant(to_chars(ds), acc) == dv_scan(ds, acc),
    decreases ds.len(),
{
    if ds.len() > 0 {
        lemma_digit_char_facts(ds[0] as nat);
        assert(to_chars(ds)[0] == digit_char(ds[0] as nat));
        assert(to_chars(ds).skip(1) =~= to_chars(ds.skip(1)));
        lemma_scan_mant_of_chars(ds.skip(1), acc * 10 + ds[0] as nat);
    }
}

/// A non-empty all-digit buffer parses to its digits' value.
proof fn lemma_parse_digit_chars(t: Seq<u8>)
    requires
        t.len() > 0,
        forall|i: int| 0 <= i < t.len() ==> #[trigger] t[i] <= 9,
        digits_value(t) <= u128::MAX,
    ensures
        spec_parse(to_chars(t)) == Ok::<Number, CalcError>(
            Number { negative: false, mantissa: digits_value(t) as u128, scale: 0 },
        ),
{
    let cs = to_chars(t);
    assert forall|i: int| 0 <= i < cs.len() implies is_digit_char(#[trigger] cs[i]) by {
        lemma_digit_char_facts(t[i] as nat);
    }
    lemma_digit_char_facts(t[0] as nat);
    assert(cs[0] as int != 45);
    assert(!lit_neg(cs));
    lemma_scan_valid_all_digits(cs, false, false);
    assert(valid_literal(cs));
    lemma_scan_scale_all_digits(cs, 0);
    assert(lit_scale(cs) == 0);
    lemma_scan_mant_of_chars(t, 0);
    assert(lit_mant(cs) == digits_value(t));
    assert(crate::number::norm_pair(digits_value(t), 0) == (digits_value(t), 0nat));
}

proof fn lemma_strip_push(ds: Seq<u8>, d: u8)
    ensures
        strip_leading_zeros(ds).len() == 0 && d == 0 ==> strip_leading_zeros(ds.push(d))
            =~= Seq::<u8>::empty(),
        strip_leading_zeros(ds).len() == 0 && d != 0 ==> strip_leading_zeros(ds.push(d))
            =~= seq![d],
        strip_leading_zeros(ds).len() > 0 ==> strip_leading_zeros(ds.push(d))
            =~= strip_leading_zeros(ds).push(d),
    decreases ds.len(),
{
    if ds.len() == 0 {
        assert(ds.push(d)[0] == d);
        assert(ds.push(d).skip(1) =~= Seq::<u8>::empty());
        if d == 0 {
            assert(strip_leading_zeros(Seq::<u8>::empty()) =~= Seq::<u8>::empty());
            assert(strip_leading_zeros(ds.push(d)) =~= Seq::<u8>::empty());
        }
    } else {
        assert(ds.push(d)[0] == ds[0]);
        assert(ds.push(d).skip(1) =~= ds.skip(1).push(d));
        lemma_strip_push(ds.skip(1), d);
    }
}

proof fn lemma_strip_props(ds: Seq<u8>)
    requires
        forall|i: int| 0 <= i < ds.len() ==> #[trigger] ds[i] <= 9,
    ensures
        forall|i: int|
            0 <= i < strip_leading_zeros(ds).len() ==> #[trigger] strip_leading_zeros(ds)[i] <= 9,
        strip_leading_zeros(ds).len() > 0 ==> strip_leading_zeros(ds)[0] != 0,
        digits_value(strip_leading_zeros(ds)) == digits_value(ds),
    decreases ds.len(),
{
    if ds.len() > 0 && ds[0] == 0 {
        lemma_strip_props(ds.skip(1));
    }
}

/// One digit keyed over an entered prefix extends it.
proof fn lemma_digit_entry_step(prefix: Seq<u8>, d: u8)
    requires
        prefix.len() > 0,
        forall|i: int| 0 <= i < prefix.len() ==> #[trigger] prefix[i] <= 9,
        d <= 9,
        digits_value(prefix.push(d)) <= u128::MAX,
    ensures
        spec_apply(entered_display(prefix), entered_state(prefix), Action::Digit(d)) == Ok::<
            (Seq<char>, OperationMetadata),
            CalcError,
        >((entered_display(prefix.push(d)), entered_state(prefix.push(d)))),
{
    let t = strip_leading_zeros(prefix);
    let disp = entered_display(prefix);
    let st = entered_state(prefix);
    lemma_strip_props(prefix);
    lemma_strip_push(prefix, d);
    lemma_dv_scan_split(prefix, seq![d], 0);
    assert(prefix + seq![d] =~= prefix.push(d));
    assert(seq![d][0] == d);
    assert(seq![d].skip(1) =~= Seq::<u8>::empty());
    assert(dv_scan(Seq::<u8>::empty(), digits_value(prefix) * 10 + d as nat) == digits_value(
        prefix,
    ) * 10 + d);
    assert(dv_scan(seq![d], digits_value(prefix)) == digits_value(prefix) * 10 + d);
    assert(digits_value(prefix.push(d)) == digits_value(prefix) * 10 + d);
    assert(!st.spec_is_new_operand());
    if t.len() == 0 {
        // All zeros so far: the display shows "0" and is replaced.
        assert(disp == seq!['0']);
        assert(digits_value(prefix) == 0);
        let nd = seq![digit_char(d as nat)];
        assert(nd =~= to_chars(seq![d]));
        lemma_parse_digit_chars(seq![d]);
        assert(dv_scan(seq![d], 0) == d);
        assert(nd == entered_display(prefix.push(d))) by {
            lemma_digit_char_facts(d as nat);
            if d == 0 {
                assert(entered_display(prefix.push(d)) == seq!['0']);
                assert(nd =~= seq!['0']);
            } else {
                assert(entered_display(prefix.push(d)) == to_chars(seq![d]));
            }
        }
    } else {
        // A significant digit stands: the display is extended.
        assert(disp == to_chars(t));
        assert(disp[0] == digit_char(t[0] as nat));
        lemma_digit_char_facts(t[0] as nat);
        assert(disp != seq!['0']);
        let nd = disp.push(digit_char(d as nat));
        assert(nd =~= to_chars(t.push(d)));
        assert(forall|i: int| 0 <= i < t.push(d).len() ==> #[trigger] t.push(d)[i] <= 9);
        lemma_dv_scan_split(t, seq![d], 0);
        assert(t + seq![d] =~= t.push(d));
        assert(digits_value(t.push(d)) == digits_value(t) * 10 + d);
        assert(digits_value(t.push(d)) == digits_value(prefix.push(d)));
        lemma_parse_digit_chars(t.push(d));
        assert(entered_display(prefix.push(d)) == to_chars(t.push(d)));
    }
}

/// Law: a digit sequence keyed from the idle start `("0", empty state)`
/// shows exactly those digits, with no leading-zero artifact (all zeros show
/// as `"0"`), and holds their value as the left operand with nothing else
/// pending.
pub proof fn lemma_digit_entry(ds: Seq<u8>)
    requires
        ds.len() > 0,
        forall|i: int| 0 <= i < ds.len() ==> #[trigger] ds[i] <= 9,
        digits_value(ds) <= u128::MAX,
    ensures
        apply_digits(seq!['0'], OperationMetadata::spec_empty(), ds) == Ok::<
            (Seq<char>, OperationMetadata),
            CalcError,
        >((entered_display(ds), entered_state(ds))),
{
    let first = seq![ds[0]];
    assert(first[0] == ds[0]);
    assert(first.skip(1) =~= Seq::<u8>::empty());
    assert(dv_scan(Seq::<u8>::empty(), ds[0] as nat) == ds[0]);
    assert(dv_scan(first, 0) == ds[0]);
    // The first digit replaces the initial "0" and becomes the left operand.
    lemma_parse_digit_chars(first);
    lemma_digit_char_facts(ds[0] as nat);
    let nd = seq![digit_char(ds[0] as nat)];
    assert(nd =~= to_chars(first));
    if ds[0] == 0 {
        assert(strip_leading_zeros(Seq::<u8>::empty()) =~= Seq::<u8>::empty());
        assert(strip_leading_zeros(first) =~= Seq::<u8>::empty());
        assert(entered_display(first) == seq!['0']);
        assert(nd =~= seq!['0']);
    } else {
        assert(strip_leading_zeros(first) == first);
        assert(entered_display(first) == to_chars(first));
    }
    assert(spec_apply(seq!['0'], OperationMetadata::spec_empty(), Action::Digit(ds[0])) == Ok::<
        (Seq<char>, OperationMetadata),
        CalcError,
    >((entered_display(first), entered_state(first))));
    assert(first + ds.skip(1) =~= ds);
    lemma_digit_entry_rest(first, ds.skip(1));
    assert(apply_digits(seq!['0'], OperationMetadata::spec_empty(), ds) == apply_digits(
        entered_display(first),
        entered_state(first),
        ds.skip(1),
    ));
}

/// Keying `rest` after an already entered non-empty `prefix` extends it.
proof fn lemma_digit_entry_rest(prefix: Seq<u8>, rest: Seq<u8>)
    requires
        prefix.len() > 0,
        forall|i: int| 0 <= i < prefix.len() ==> #[trigger] prefix[i] <= 9,
        forall|i: int| 0 <= i < rest.len() ==> #[trigger] rest[i] <= 9,
        digits_value(prefix + rest) <= u128::MAX,
    ensures
        apply_digits(entered_display(prefix), entered_state(prefix), rest) == Ok::<
            (Seq<char>, OperationMetadata),
            CalcError,
        >((entered_display(prefix + rest), entered_state(prefix + rest))),
    decreases rest.len(),
{
    if rest.len() == 0 {
        assert(prefix + rest =~= prefix);
    } else {
        let d = rest[0];
        let next = prefix.push(d);
        assert(next + rest.skip(1) =~= prefix + rest);
        // The next prefix's value is bounded by the whole sequence's value.
        lemma_dv_scan_split(next, rest.skip(1), 0);
        lemma_dv_scan_lower(rest.skip(1), digits_value(next));
        assert(digits_value(next) <= digits_value(prefix + rest));
        lemma_digit_entry_step(prefix, d);
        lemma_digit_entry_rest(next, rest.skip(1));
    }
}

} // verus!
