//! The notation in which a value given by its significant decimal digits and a
//! decimal exponent is written out.

use vstd::prelude::*;
use vstd::string::*;
use vstd::utf8::*;
use crate::decimal::{decimal_string, int_decimal};

verus! {

broadcast use vstd::string::group_string_axioms;

/// `n` copies of the digit zero.
pub open spec fn zeros(n: nat) -> Seq<char> {
    Seq::new(n, |i: int| '0')
}

/// `s` without the zeros that end it.
pub open spec fn trim_trailing_zeros(s: Seq<char>) -> Seq<char>
    decreases s.len(),
{
    if s.len() > 0 && s.last() == '0' {
        trim_trailing_zeros(s.drop_last())
    } else {
        s
    }
}

/// Whether the digit string starts with a minus sign.
pub open spec fn is_negative(d: Seq<char>) -> bool {
    d.len() > 0 && d[0] == '-'
}

/// The sign that is written in front of the number.
pub open spec fn sign_part(d: Seq<char>) -> Seq<char> {
    if is_negative(d) {
        seq!['-']
    } else {
        Seq::empty()
    }
}

/// The digits without the sign.
pub open spec fn magnitude_part(d: Seq<char>) -> Seq<char> {
    if is_negative(d) {
        d.drop_first()
    } else {
        d
    }
}

/// Exponents outside `[-6, 14]` are written in scientific notation.
pub open spec fn uses_scientific(exp: int) -> bool {
    exp < -6 || exp > 14
}

/// The digits before the decimal point in plain notation.
pub open spec fn integer_digits(m: Seq<char>, exp: int) -> Seq<char> {
    if exp <= 0 {
        seq!['0']
    } else if exp <= m.len() {
        m.take(exp)
    } else {
        m + zeros((exp - m.len()) as nat)
    }
}

/// The digits after the decimal point in plain notation, before trailing zeros are dropped.
pub open spec fn fraction_digits(m: Seq<char>, exp: int) -> Seq<char> {
    if exp <= 0 {
        zeros((-exp) as nat) + m
    } else if exp < m.len() {
        m.skip(exp)
    } else {
        Seq::empty()
    }
}

/// A whole part, and the fraction after a point if there is one.
pub open spec fn point_joined(whole: Seq<char>, fraction: Seq<char>) -> Seq<char> {
    if fraction.len() == 0 {
        whole
    } else {
        whole + seq!['.'] + fraction
    }
}

/// Plain notation: the point stands `exp` digits after the first digit.
pub open spec fn plain_notation(d: Seq<char>, exp: int) -> Seq<char> {
    let m = magnitude_part(d);
    sign_part(d) + point_joined(
        integer_digits(m, exp),
        trim_trailing_zeros(fraction_digits(m, exp)),
    )
}

/// Scientific notation: one digit before the point, and `e` with the exponent of that digit.
pub open spec fn scientific_notation(d: Seq<char>, exp: int) -> Seq<char> {
    let m = magnitude_part(d);
    sign_part(d) + point_joined(m.take(1), trim_trailing_zeros(m.skip(1))) + seq!['e']
        + int_decimal(exp - 1)
}

/// The text of the value `0.d1d2... * 10^exp` whose digits are `d`.
pub open spec fn formatted(d: Seq<char>, exp: int) -> Seq<char> {
    if d == seq!['0'] {
        seq!['0']
    } else if uses_scientific(exp) {
        scientific_notation(d, exp)
    } else {
        plain_notation(d, exp)
    }
}

/// The inputs that `format_num` formats: scientific notation needs a first digit,
/// and an exponent whose predecessor is an `i64`.
pub open spec fn formattable(d: Seq<char>, exp: int) -> bool {
    d != seq!['0'] && uses_scientific(exp) ==> magnitude_part(d).len() > 0 && exp > i64::MIN
}

/// Dropping trailing zeros keeps a prefix, after which only zeros stood, and which
/// does not itself end in a zero.
pub proof fn lemma_trim_shape(s: Seq<char>)
    ensures
        trim_trailing_zeros(s).len() <= s.len(),
        trim_trailing_zeros(s) == s.take(trim_trailing_zeros(s).len() as int),
        forall|i: int| trim_trailing_zeros(s).len() <= i < s.len() ==> s[i] == '0',
        trim_trailing_zeros(s).len() > 0 ==> s[trim_trailing_zeros(s).len() - 1] != '0',
    decreases s.len(),
{
    if s.len() > 0 && s.last() == '0' {
        lemma_trim_shape(s.drop_last());
        let k = trim_trailing_zeros(s).len();
        assert(s.drop_last().take(k as int) =~= s.take(k as int));
        assert forall|i: int| k <= i < s.len() implies s[i] == '0' by {
            if i < s.len() - 1 {
                assert(s.drop_last()[i] == s[i]);
            }
        }
    } else {
        assert(s.take(s.len() as int) =~= s);
    }
}

/// The end of the significant part is the one place after which only zeros follow
/// and before which there is no zero.
proof fn lemma_trim_len_unique(s: Seq<char>, j: int)
    requires
        0 <= j <= s.len(),
        forall|i: int| j <= i < s.len() ==> s[i] == '0',
        j > 0 ==> s[j - 1] != '0',
    ensures
        trim_trailing_zeros(s).len() == j,
{
    lemma_trim_shape(s);
    let k = trim_trailing_zeros(s).len() as int;
    if k < j {
        assert(s[j - 1] == '0');
    } else if j < k {
        assert(s[k - 1] == '0');
    }
}

/// The trailing zeros of a suffix end where those of the whole string do, or at its start.
pub proof fn lemma_trim_suffix(s: Seq<char>, p: int)
    requires
        0 <= p <= s.len(),
    ensures
        ({
            let k = trim_trailing_zeros(s).len() as int;
            trim_trailing_zeros(s.skip(p)) == s.subrange(p, if k < p { p } else { k })
        }),
{
    lemma_trim_shape(s);
    let k = trim_trailing_zeros(s).len() as int;
    let t = s.skip(p);
    let j = if k < p { 0 } else { k - p };
    lemma_trim_len_unique(t, j);
    lemma_trim_shape(t);
    assert(t.take(j) =~= s.subrange(p, if k < p { p } else { k }));
}

/// Zeros in front of digits stay when something significant follows them, and go with
/// the rest otherwise.
pub proof fn lemma_trim_zero_prefixed(z: nat, m: Seq<char>)
    ensures
        ({
            let k = trim_trailing_zeros(m).len() as int;
            trim_trailing_zeros(zeros(z) + m) == if k > 0 {
                zeros(z) + m.take(k)
            } else {
                Seq::empty()
            }
        }),
{
    lemma_trim_shape(m);
    let k = trim_trailing_zeros(m).len() as int;
    let s = zeros(z) + m;
    let j = if k > 0 { z + k } else { 0 };
    assert forall|i: int| j <= i < s.len() implies s[i] == '0' by {
        if i >= z {
            assert(s[i] == m[i - z]);
        }
    }
    if j > 0 {
        assert(s[j - 1] == m[k - 1]);
    }
    lemma_trim_len_unique(s, j);
    lemma_trim_shape(s);
    if k > 0 {
        assert(s.take(j) =~= zeros(z) + m.take(k));
    } else {
        assert(s.take(0) =~= Seq::<char>::empty());
    }
}

/// Each byte of an ASCII string is the code of its character.
pub proof fn lemma_ascii_bytes(s: &str)
    requires
        is_ascii(s),
    ensures
        s.spec_bytes().len() == s@.len(),
        forall|i: int| 0 <= i < s@.len() ==> (#[trigger] s.spec_bytes()[i]) as int == s@[i] as int,
{
    is_ascii_chars_encode_utf8(s@);
    is_ascii_chars_nat_bound(s@);
    assert forall|i: int| 0 <= i < s@.len() implies (#[trigger] s.spec_bytes()[i]) as int == s@[i] as int by {
        assert(s@[i] as u8 == s.spec_bytes()[i]);
        assert((s@[i] as nat) < 128);
    }
}

/// The length of `s` once its trailing zeros are dropped.
fn significant_len(s: &str) -> (k: usize)
    requires
        is_ascii(s),
    ensures
        k as int == trim_trailing_zeros(s@).len(),
{
    proof {
        lemma_ascii_bytes(s);
    }
    let bytes = s.as_bytes();
    let mut k = bytes.len();
    while k > 0 && bytes[k - 1] == 48u8
        invariant
            k <= s@.len(),
            bytes@ == s.spec_bytes(),
            bytes@.len() == s@.len(),
            forall|i: int| 0 <= i < s@.len() ==> (#[trigger] s.spec_bytes()[i]) as int == s@[i] as int,
            forall|i: int| k <= i < s@.len() ==> s@[i] == '0',
        decreases k,
    {
        k = k - 1;
    }
    proof {
        lemma_trim_len_unique(s@, k as int);
    }
    k
}

/// Appends `n` zeros to `out`.
fn append_zeros(out: &mut String, n: usize)
    ensures
        final(out)@ == old(out)@ + zeros(n as nat),
{
    let zero = "0";
    proof {
        reveal_strlit("0");
    }
    let mut i: usize = 0;
    while i < n
        invariant
            i <= n,
            zero@ == seq!['0'],
            out@ == old(out)@ + zeros(i as nat),
        decreases n - i,
    {
        out.append(zero);
        i = i + 1;
        assert(out@ =~= old(out)@ + zeros(i as nat));
    }
}

/// Appends the scientific notation of the magnitude `mag`, whose significant part has `keep` digits.
fn append_scientific(out: &mut String, mag: &str, keep: usize, exp: i64)
    requires
        mag.is_ascii(),
        mag@.len() > 0,
        keep as int == trim_trailing_zeros(mag@).len(),
        exp > i64::MIN,
    ensures
        final(out)@ == old(out)@ + point_joined(mag@.take(1), trim_trailing_zeros(mag@.skip(1)))
            + seq!['e'] + int_decimal(exp - 1),
{
    proof {
        reveal_strlit(".");
        reveal_strlit("e");
        lemma_trim_shape(mag@);
        lemma_trim_suffix(mag@, 1);
    }
    let ghost m = mag@;
    out.append(mag.substring_ascii(0, 1));
    if keep > 1 {
        out.append(".");
        out.append(mag.substring_ascii(1, keep));
    }
    assert(out@ =~= old(out)@ + point_joined(m.take(1), trim_trailing_zeros(m.skip(1))));
    out.append("e");
    let e = decimal_string(exp - 1);
    out.append(e.as_str());
}

/// Appends the plain notation of the magnitude `mag`, whose significant part has `keep` digits.
fn append_plain(out: &mut String, mag: &str, keep: usize, exp: i64)
    requires
        mag.is_ascii(),
        keep as int == trim_trailing_zeros(mag@).len(),
        -6 <= exp <= 14,
    ensures
        final(out)@ == old(out)@ + point_joined(
            integer_digits(mag@, exp as int),
            trim_trailing_zeros(fraction_digits(mag@, exp as int)),
        ),
{
    proof {
        reveal_strlit("0");
        reveal_strlit(".");
        lemma_trim_shape(mag@);
    }
    let ghost m = mag@;
    let m_len = mag.unicode_len();
    if exp <= 0 {
        out.append("0");
        proof {
            lemma_trim_zero_prefixed((-exp) as nat, m);
        }
        if keep > 0 {
            out.append(".");
            append_zeros(out, (-exp) as usize);
            out.append(mag.substring_ascii(0, keep));
        }
        assert(out@ =~= old(out)@ + point_joined(
            integer_digits(m, exp as int),
            trim_trailing_zeros(fraction_digits(m, exp as int)),
        ));
    } else {
        let int_len = exp as usize;
        if int_len <= m_len {
            out.append(mag.substring_ascii(0, int_len));
        } else {
            out.append(mag);
            append_zeros(out, int_len - m_len);
        }
        assert(out@ =~= old(out)@ + integer_digits(m, exp as int));
        if int_len < m_len {
            proof {
                lemma_trim_suffix(m, exp as int);
            }
        }
        if keep > int_len {
            out.append(".");
            out.append(mag.substring_ascii(int_len, keep));
        }
        assert(out@ =~= old(out)@ + point_joined(
            integer_digits(m, exp as int),
            trim_trailing_zeros(fraction_digits(m, exp as int)),
        ));
    }
}

/// Formats a numerical value given its base-10 digits (as a string slice) and an exponent.
///
/// The value is `0.d1d2... * 10^exp`. The formatting follows the rules:
/// - If the digits are exactly "0", returns "0".
/// - If the exponent is within the range `[-6, 14]`, standard decimal notation is used.
/// - Otherwise, scientific notation is used, with exactly one digit before the decimal point.
///
/// Trailing zeros after the decimal point are dropped, and so is the point when nothing follows it.
pub fn format_num(digits: &str, exp: i64) -> (out: String)
    requires
        digits.is_ascii(),
        formattable(digits@, exp as int),
    ensures
        out@ == formatted(digits@, exp as int),
{
    proof {
        lemma_ascii_bytes(digits);
        reveal_strlit("0");
        reveal_strlit("-");
    }
    let bytes = digits.as_bytes();
    let n = bytes.len();
    if n == 1 && bytes[0] == 48u8 {
        assert(digits@ =~= seq!['0']);
        return "0".to_owned();
    }
    let ghost d = digits@;
    let negative = n > 0 && bytes[0] == 45u8;
    let mag: &str = if negative {
        digits.substring_ascii(1, n)
    } else {
        digits
    };
    assert(mag@ =~= magnitude_part(d));
    let keep = significant_len(mag);
    let mut out = String::new();
    if negative {
        out.append("-");
    }
    assert(out@ =~= sign_part(d));
    if exp < -6 || exp > 14 {
        append_scientific(&mut out, mag, keep, exp);
    } else {
        append_plain(&mut out, mag, keep, exp);
    }
    out
}

} // verus!
