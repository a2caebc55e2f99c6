//! What the text written by `format_num` denotes: the same number as the digits and
//! exponent it was given.

use vstd::prelude::*;
use crate::decimal::{all_digits, digits_value, int_decimal, is_digit, lemma_digits_value_concat, pow10};
use crate::render::{contains_text, rendered};
use crate::notation::{
    formattable, formatted, fraction_digits, integer_digits, is_negative, lemma_trim_shape,
    lemma_trim_suffix, lemma_trim_zero_prefixed, magnitude_part, point_joined, sign_part,
    trim_trailing_zeros, uses_scientific, zeros,
};

verus! {

/// The minus sign of a negative numeral.
pub open spec fn sign_text(negative: bool) -> Seq<char> {
    if negative {
        seq!['-']
    } else {
        Seq::empty()
    }
}

/// The exponent part of a numeral: `e` and the exponent, when there is one.
pub open spec fn exponent_text(exponent: Option<int>) -> Seq<char> {
    match exponent {
        Some(x) => seq!['e'] + int_decimal(x),
        None => Seq::empty(),
    }
}

/// `text` is a decimal numeral with the given sign, the digits `whole` before the point,
/// the digits `frac` after it (no point when there are none, and never a zero last), and
/// an optional exponent.
pub open spec fn numeral(
    text: Seq<char>,
    negative: bool,
    whole: Seq<char>,
    frac: Seq<char>,
    exponent: Option<int>,
) -> bool {
    &&& whole.len() > 0
    &&& all_digits(whole)
    &&& all_digits(frac)
    &&& frac.len() > 0 ==> frac.last() != '0'
    &&& text == sign_text(negative) + point_joined(whole, frac) + exponent_text(exponent)
}

/// The power of ten by which the digits `whole + frac` of a numeral are scaled.
pub open spec fn numeral_power(frac: Seq<char>, exponent: Option<int>) -> int {
    let written: int = match exponent {
        Some(x) => x,
        None => 0,
    };
    written - frac.len()
}

/// `n1 * 10^p1 == n2 * 10^p2`.
pub open spec fn same_decimal_value(n1: nat, p1: int, n2: nat, p2: int) -> bool {
    if p1 <= p2 {
        n1 == n2 * pow10((p2 - p1) as nat)
    } else {
        n1 * pow10((p1 - p2) as nat) == n2
    }
}

proof fn lemma_zeros_value(n: nat)
    ensures
        all_digits(zeros(n)),
        digits_value(zeros(n)) == 0,
    decreases n,
{
    if n > 0 {
        lemma_zeros_value((n - 1) as nat);
        assert(zeros(n).drop_last() =~= zeros((n - 1) as nat));
    }
}

/// Digits followed by zeros only denote the digits before the zeros, shifted.
proof fn lemma_trailing_zeros_value(s: Seq<char>, k: int)
    requires
        0 <= k <= s.len(),
        forall|i: int| k <= i < s.len() ==> s[i] == '0',
    ensures
        digits_value(s) == digits_value(s.take(k)) * pow10((s.len() - k) as nat),
{
    let z = zeros((s.len() - k) as nat);
    assert(s =~= s.take(k) + z);
    lemma_digits_value_concat(s.take(k), z);
    lemma_zeros_value((s.len() - k) as nat);
}

/// Zeros in front of digits do not change what they denote.
proof fn lemma_leading_zeros_value(z: nat, s: Seq<char>)
    ensures
        digits_value(zeros(z) + s) == digits_value(s),
{
    lemma_digits_value_concat(zeros(z), s);
    lemma_zeros_value(z);
}

/// The significant prefix `m.take(big_k)` of `m`, scaled back, is `m`: the same value.
proof fn lemma_prefix_same_value(m: Seq<char>, big_k: int, e: int)
    requires
        trim_trailing_zeros(m).len() <= big_k <= m.len(),
    ensures
        same_decimal_value(digits_value(m.take(big_k)), e - big_k, digits_value(m), e - m.len()),
{
    lemma_trim_shape(m);
    lemma_trailing_zeros_value(m, big_k);
    if big_k == m.len() {
        assert(m.take(big_k) =~= m);
        assert(pow10(0) == 1);
    } else {
        assert((e - big_k) - (e - m.len()) == m.len() - big_k);
    }
}

proof fn lemma_all_digits_sub(m: Seq<char>, a: int, b: int)
    requires
        all_digits(m),
        0 <= a <= b <= m.len(),
    ensures
        all_digits(m.subrange(a, b)),
{
    assert forall|i: int| 0 <= i < b - a implies is_digit(#[trigger] m.subrange(a, b)[i]) by {
        assert(m.subrange(a, b)[i] == m[a + i]);
    }
}

/// Law: the text that [`format_num`](crate::notation::format_num) writes is a decimal
/// numeral, with the sign of the digits, that denotes the value `0.d1d2... * 10^exp` of the
/// digits and exponent it was given. It has an exponent exactly when the digits are not "0"
/// and the exponent lies outside `[-6, 14]`, and then exactly one digit before the point;
/// no fraction it writes ends in a zero.
pub proof fn format_num_preserves_value(d: Seq<char>, exp: int)
    requires
        all_digits(magnitude_part(d)),
        formattable(d, exp),
    ensures
        exists|whole: Seq<char>, frac: Seq<char>, exponent: Option<int>|
            {
                &&& #[trigger] numeral(formatted(d, exp), is_negative(d), whole, frac, exponent)
                &&& same_decimal_value(
                    digits_value(whole + frac),
                    numeral_power(frac, exponent),
                    digits_value(magnitude_part(d)),
                    exp - magnitude_part(d).len(),
                )
                &&& (exponent is Some <==> d != seq!['0'] && uses_scientific(exp))
                &&& (exponent is Some ==> whole.len() == 1)
            },
{
    let m = magnitude_part(d);
    lemma_trim_shape(m);
    let k = trim_trailing_zeros(m).len() as int;
    assert(sign_part(d) == sign_text(is_negative(d)));
    if d == seq!['0'] {
        let whole = seq!['0'];
        let frac = Seq::<char>::empty();
        let exponent: Option<int> = None;
        assert(whole + frac =~= whole);
        assert(digits_value(whole) == 0) by {
            assert(whole =~= zeros(1));
            lemma_zeros_value(1);
        }
        assert(m == d);
        assert(formatted(d, exp) =~= sign_text(false) + point_joined(whole, frac)
            + exponent_text(exponent));
        assert(numeral(formatted(d, exp), is_negative(d), whole, frac, exponent));
    } else if uses_scientific(exp) {
        let big_k = if k < 1 { 1 } else { k };
        let whole = m.take(1);
        lemma_trim_suffix(m, 1);
        let frac = trim_trailing_zeros(m.skip(1));
        let exponent = Some(exp - 1);
        assert(frac == m.subrange(1, big_k));
        assert(whole + frac =~= m.take(big_k));
        lemma_all_digits_sub(m, 0, 1);
        lemma_all_digits_sub(m, 1, big_k);
        assert(whole =~= m.subrange(0, 1));
        lemma_trim_shape(m.skip(1));
        assert(formatted(d, exp) =~= sign_text(is_negative(d)) + point_joined(whole, frac)
            + exponent_text(exponent));
        assert(numeral(formatted(d, exp), is_negative(d), whole, frac, exponent));
        lemma_prefix_same_value(m, big_k, exp);
    } else {
        let whole = integer_digits(m, exp);
        let fd = fraction_digits(m, exp);
        let frac = trim_trailing_zeros(fd);
        let exponent: Option<int> = None;
        lemma_trim_shape(fd);
        assert(formatted(d, exp) =~= sign_text(is_negative(d)) + point_joined(whole, frac)
            + exponent_text(exponent));
        if exp <= 0 {
            let z = (-exp) as nat;
            lemma_trim_zero_prefixed(z, m);
            lemma_zeros_value(z);
            if k > 0 {
                lemma_all_digits_sub(m, 0, k);
                assert forall|i: int| 0 <= i < frac.len() implies is_digit(#[trigger] frac[i]) by {
                    if i >= z {
                        assert(frac[i] == m.take(k)[i - z]);
                    }
                }
                assert(whole + frac =~= zeros(z + 1) + m.take(k));
                lemma_leading_zeros_value(z + 1, m.take(k));
                lemma_prefix_same_value(m, k, exp);
            } else {
                assert(whole + frac =~= zeros(1));
                lemma_zeros_value(1);
                lemma_trailing_zeros_value(m, 0);
                lemma_zeros_value(0);
                assert(m.take(0) =~= zeros(0));
            }
            assert(numeral(formatted(d, exp), is_negative(d), whole, frac, exponent));
        } else if exp <= m.len() {
            lemma_trim_suffix(m, exp);
            let big_k = if k < exp { exp } else { k };
            assert(frac == m.subrange(exp, big_k));
            assert(whole + frac =~= m.take(big_k));
            lemma_all_digits_sub(m, 0, exp);
            lemma_all_digits_sub(m, exp, big_k);
            assert(whole =~= m.subrange(0, exp));
            assert(numeral(formatted(d, exp), is_negative(d), whole, frac, exponent));
            lemma_prefix_same_value(m, big_k, exp);
        } else {
            let z = (exp - m.len()) as nat;
            assert(frac =~= Seq::<char>::empty());
            assert(whole + frac =~= m + zeros(z));
            lemma_digits_value_concat(m, zeros(z));
            lemma_zeros_value(z);
            assert forall|i: int| 0 <= i < whole.len() implies is_digit(#[trigger] whole[i]) by {
                if i >= m.len() {
                    assert(whole[i] == zeros(z)[i - m.len()]);
                }
            }
            assert(numeral(formatted(d, exp), is_negative(d), whole, frac, exponent));
        }
    }
}

/// Law: what [`render_digits`](crate::render::render_digits) writes for a digit string that
/// holds neither `@Inf@` nor `@NaN@` is the notation of those digits and that exponent,
/// whatever the exponent: a decimal numeral, with the sign of the digits, that denotes
/// `0.d1d2... * 10^exp`. So `Inf`, `-Inf`, `NaN` and a zero are never written for it.
pub proof fn render_digits_preserves_value(d: Seq<char>, exp: int)
    requires
        all_digits(magnitude_part(d)),
        formattable(d, exp),
        !contains_text(d, "@Inf@"@),
        !contains_text(d, "@NaN@"@),
    ensures
        rendered(Some(d), exp) == formatted(d, exp),
        exists|whole: Seq<char>, frac: Seq<char>, exponent: Option<int>|
            {
                &&& #[trigger] numeral(rendered(Some(d), exp), is_negative(d), whole, frac, exponent)
                &&& same_decimal_value(
                    digits_value(whole + frac),
                    numeral_power(frac, exponent),
                    digits_value(magnitude_part(d)),
                    exp - magnitude_part(d).len(),
                )
            },
{
    format_num_preserves_value(d, exp);
}

} // verus!
