//! Decimal notation of integers.

use vstd::prelude::*;

verus! {

/// The ASCII character of a decimal digit.
pub open spec fn digit_char(d: nat) -> char
    recommends
        d < 10,
{
    (d + 48) as char
}

/// The decimal digits of a natural number, most significant first, without leading zeros.
pub open spec fn nat_decimal(n: nat) -> Seq<char>
    decreases n,
{
    if n < 10 {
        seq![digit_char(n)]
    } else {
        nat_decimal(n / 10).push(digit_char(n % 10))
    }
}

/// The decimal notation of an integer: a `-` before the digits of a negative number.
pub open spec fn int_decimal(x: int) -> Seq<char> {
    if x < 0 {
        seq!['-'] + nat_decimal((-x) as nat)
    } else {
        nat_decimal(x as nat)
    }
}

/// Appends the decimal digits of `n` to `out`.
fn append_nat_decimal(out: &mut String, n: u64)
    ensures
        final(out)@ == old(out)@ + nat_decimal(n as nat),
    decreases n,
{
    if n >= 10 {
        append_nat_decimal(out, n / 10);
    }
    let d: usize = (n % 10) as usize;
    let table = "0123456789";
    proof {
        reveal_strlit("0123456789");
    }
    out.append(table.substring_ascii(d, d + 1));
    proof {
        assert(table@.subrange(d as int, d + 1) =~= seq![digit_char((n % 10) as nat)]);
    }
}

/// Writes an integer in decimal notation, as `{}` formatting does.
pub fn decimal_string(x: i64) -> (out: String)
    ensures
        out@ == int_decimal(x as int),
{
    let mut out = String::new();
    if x < 0 {
        let magnitude: u64 = ((-(x + 1)) as u64) + 1;
        let minus = "-";
        proof {
            reveal_strlit("-");
        }
        out.append(minus);
        append_nat_decimal(&mut out, magnitude);
    } else {
        append_nat_decimal(&mut out, x as u64);
    }
    out
}

/// A decimal digit character.
pub open spec fn is_digit(c: char) -> bool {
    '0' <= c <= '9'
}

/// Every character of `s` is a decimal digit.
pub open spec fn all_digits(s: Seq<char>) -> bool {
    forall|i: int| 0 <= i < s.len() ==> is_digit(#[trigger] s[i])
}

/// The value of a digit character.
pub open spec fn digit_value(c: char) -> nat {
    (c as int - 48) as nat
}

/// The number that a string of decimal digits denotes, most significant first.
pub open spec fn digits_value(s: Seq<char>) -> nat
    decreases s.len(),
{
    if s.len() == 0 {
        0
    } else {
        digits_value(s.drop_last()) * 10 + digit_value(s.last())
    }
}

/// Ten to the power `n`.
pub open spec fn pow10(n: nat) -> nat
    decreases n,
{
    if n == 0 {
        1
    } else {
        10 * pow10((n - 1) as nat)
    }
}

/// Digits written after others shift them by as many places.
pub proof fn lemma_digits_value_concat(a: Seq<char>, b: Seq<char>)
    ensures
        digits_value(a + b) == digits_value(a) * pow10(b.len()) + digits_value(b),
    decreases b.len(),
{
    if b.len() == 0 {
        assert(a + b =~= a);
        assert(digits_value(b) == 0);
        assert(pow10(0) == 1);
        assert(a + b == a);
        assert(digits_value(a + b) == digits_value(a));
        assert(digits_value(a) * 1 == digits_value(a));
    } else {
        let b0 = b.drop_last();
        lemma_digits_value_concat(a, b0);
        assert((a + b).drop_last() =~= a + b0);
        assert((a + b).last() == b.last());
        let x = digits_value(a);
        let p = pow10(b0.len());
        let y = digits_value(b0);
        let c = digit_value(b.last());
        assert(digits_value(a + b) == digits_value(a + b0) * 10 + c);
        assert(digits_value(b) == y * 10 + c);
        assert(pow10(b.len()) == 10 * p);
        assert((x * p + y) * 10 == x * (10 * p) + y * 10) by (nonlinear_arith);
        assert(digits_value(a + b) == (x * p + y) * 10 + c);
        assert(digits_value(a + b) == digits_value(a) * pow10(b.len()) + digits_value(b));
    }
}

/// The decimal digits of `n` are digits, denote `n`, and start with a zero only when `n` is zero.
pub proof fn lemma_nat_decimal(n: nat)
    ensures
        nat_decimal(n).len() > 0,
        all_digits(nat_decimal(n)),
        digits_value(nat_decimal(n)) == n,
        nat_decimal(n)[0] == '0' ==> n == 0,
    decreases n,
{
    if n < 10 {
        assert(digit_value(digit_char(n)) == n);
        assert(nat_decimal(n).drop_last() =~= Seq::<char>::empty());
        assert(digits_value(Seq::<char>::empty()) == 0);
        assert(digits_value(nat_decimal(n)) == digits_value(nat_decimal(n).drop_last()) * 10 + digit_value(nat_decimal(n).last()));
        assert(digits_value(nat_decimal(n)) == n);
    } else {
        lemma_nat_decimal(n / 10);
        let s = nat_decimal(n);
        assert(s.drop_last() =~= nat_decimal(n / 10));
        assert(digit_value(digit_char(n % 10)) == n % 10);
        assert(s[0] == nat_decimal(n / 10)[0]);
        assert(s.last() == digit_char(n % 10));
        assert(digits_value(s) == digits_value(s.drop_last()) * 10 + digit_value(s.last()));
        assert((n / 10) * 10 + n % 10 == n);
        assert(digits_value(s) == n);
    }
}

/// The digits of the decimal notation of `x`: what follows the minus sign, if there is one.
pub open spec fn int_decimal_digits(x: int) -> Seq<char> {
    if x < 0 {
        int_decimal(x).drop_first()
    } else {
        int_decimal(x)
    }
}

/// Law: the decimal notation of an integer `x` is a minus sign exactly when `x < 0`,
/// followed by a non-empty string of digits that denotes `|x|` and starts with a zero
/// only when `x` is zero.
pub proof fn int_decimal_denotes(x: int)
    ensures
        int_decimal(x).len() > 0,
        (int_decimal(x)[0] == '-') == (x < 0),
        x < 0 ==> int_decimal(x) == seq!['-'] + int_decimal_digits(x),
        x >= 0 ==> int_decimal(x) == int_decimal_digits(x),
        int_decimal_digits(x).len() > 0,
        all_digits(int_decimal_digits(x)),
        digits_value(int_decimal_digits(x)) == if x < 0 { -x } else { x },
        int_decimal_digits(x)[0] == '0' ==> x == 0,
{
    if x < 0 {
        let n = (-x) as nat;
        lemma_nat_decimal(n);
        assert(int_decimal(x).drop_first() =~= nat_decimal(n));
        assert(int_decimal(x) =~= seq!['-'] + int_decimal_digits(x));
    } else {
        lemma_nat_decimal(x as nat);
        assert(is_digit(nat_decimal(x as nat)[0]));
    }
}

} // verus!
