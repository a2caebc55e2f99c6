//! The text of a value as MPFR's `get_str` describes it, special values included.

use vstd::prelude::*;
use vstd::string::*;
use vstd::utf8::*;
use crate::notation::{format_num, formattable, formatted, lemma_ascii_bytes};

verus! {

broadcast use vstd::string::group_string_axioms;

/// The precision, in decimal digits, used when none is given.
pub const DEFAULT_DIGITS: u32 = 500;

/// The number of decimal digits asked for, or [`DEFAULT_DIGITS`] when none is given.
pub fn digits_or_default(d: Option<u32>) -> (digits: u32)
    ensures
        digits == match d {
            Some(n) => n,
            None => DEFAULT_DIGITS,
        },
{
    match d {
        Some(n) => n,
        None => DEFAULT_DIGITS,
    }
}

/// Whether `pat` occurs in `s` as a run of consecutive characters.
pub open spec fn contains_text(s: Seq<char>, pat: Seq<char>) -> bool {
    exists|i: int| 0 <= i && i + pat.len() <= s.len() && #[trigger] s.subrange(i, i + pat.len()) == pat
}

/// Whether MPFR wrote an infinity or a NaN.
pub open spec fn is_special(d: Seq<char>) -> bool {
    contains_text(d, "@Inf@"@) || contains_text(d, "@NaN@"@)
}

/// The text of a special value: `-Inf`, `NaN` or `Inf`.
pub open spec fn special_text(d: Seq<char>) -> Seq<char> {
    if contains_text(d, "-"@) {
        "-Inf"@
    } else if contains_text(d, "NaN"@) {
        "NaN"@
    } else {
        "Inf"@
    }
}

/// The text of a value whose digit string is `raw` (`None` where MPFR returned none)
/// and whose exponent is `exp`.
pub open spec fn rendered(raw: Option<Seq<char>>, exp: int) -> Seq<char> {
    match raw {
        None => "Error"@,
        Some(d) => if is_special(d) {
            special_text(d)
        } else {
            formatted(d, exp)
        },
    }
}

/// The inputs that [`render_digits`] renders.
pub open spec fn renderable(raw: Option<Seq<char>>, exp: int) -> bool {
    match raw {
        None => true,
        Some(d) => is_ascii_chars(d) && (!is_special(d) ==> formattable(d, exp)),
    }
}

/// Whether `pat` occurs in `s`.
pub fn contains(s: &str, pat: &str) -> (found: bool)
    requires
        s.is_ascii(),
        pat.is_ascii(),
    ensures
        found == contains_text(s@, pat@),
{
    proof {
        lemma_ascii_bytes(s);
        lemma_ascii_bytes(pat);
    }
    let sb = s.as_bytes();
    let pb = pat.as_bytes();
    let n = sb.len();
    let m = pb.len();
    if m > n {
        return false;
    }
    let mut i: usize = 0;
    while i <= n - m
        invariant
            m <= n,
            n == s@.len(),
            m == pat@.len(),
            sb@ == s.spec_bytes(),
            pb@ == pat.spec_bytes(),
            sb@.len() == n,
            pb@.len() == m,
            forall|k: int| 0 <= k < s@.len() ==> (#[trigger] s.spec_bytes()[k]) as int == s@[k] as int,
            forall|k: int| 0 <= k < pat@.len() ==> (#[trigger] pat.spec_bytes()[k]) as int == pat@[k] as int,
            i <= n - m + 1,
            forall|j: int| 0 <= j < i ==> #[trigger] s@.subrange(j, j + m) != pat@,
        decreases n - m + 1 - i,
    {
        let mut k: usize = 0;
        while k < m && sb[i + k] == pb[k]
            invariant
                m <= n,
                i <= n - m,
                n == s@.len(),
                m == pat@.len(),
                sb@ == s.spec_bytes(),
                pb@ == pat.spec_bytes(),
                sb@.len() == n,
                pb@.len() == m,
                forall|q: int| 0 <= q < s@.len() ==> (#[trigger] s.spec_bytes()[q]) as int == s@[q] as int,
                forall|q: int| 0 <= q < pat@.len() ==> (#[trigger] pat.spec_bytes()[q]) as int == pat@[q] as int,
                k <= m,
                forall|q: int| 0 <= q < k ==> s@[i + q] == pat@[q],
            decreases m - k,
        {
            proof {
                assert(s.spec_bytes()[i + k] as int == s@[i + k] as int);
                assert(pat.spec_bytes()[k as int] as int == pat@[k as int] as int);
            }
            k = k + 1;
        }
        if k == m {
            assert(s@.subrange(i as int, i + m) =~= pat@);
            return true;
        }
        proof {
            assert(s.spec_bytes()[i + k] as int == s@[i + k] as int);
            assert(pat.spec_bytes()[k as int] as int == pat@[k as int] as int);
            assert(s@.subrange(i as int, i + m)[k as int] != pat@[k as int]);
        }
        i = i + 1;
    }
    false
}

/// The characters of the digit string, where there is one.
pub open spec fn raw_view(raw: Option<&str>) -> Option<Seq<char>> {
    match raw {
        Some(d) => Some(d@),
        None => None,
    }
}

/// Renders what MPFR's `get_str` returned: `raw` is its digit string (`None` where it
/// returned none) and `exp` the exponent it stored.
///
/// Special values are rendered as `"Inf"`, `"-Inf"` or `"NaN"`; a missing string as
/// `"Error"`; anything else as [`format_num`] writes it.
pub fn render_digits(raw: Option<&str>, exp: i64) -> (out: String)
    requires
        renderable(raw_view(raw), exp as int),
    ensures
        out@ == rendered(raw_view(raw), exp as int),
{
    proof {
        reveal_strlit("Error");
        reveal_strlit("@Inf@");
        reveal_strlit("@NaN@");
        reveal_strlit("-");
        reveal_strlit("NaN");
        reveal_strlit("-Inf");
        reveal_strlit("Inf");
    }
    match raw {
        None => "Error".to_owned(),
        Some(d) => {
            if contains(d, "@Inf@") || contains(d, "@NaN@") {
                if contains(d, "-") {
                    "-Inf".to_owned()
                } else if contains(d, "NaN") {
                    "NaN".to_owned()
                } else {
                    "Inf".to_owned()
                }
            } else {
                format_num(d, exp)
            }
        },
    }
}

} // verus!
