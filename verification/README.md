# bigfloat

Arbitrary-precision floating-point arithmetic on top of GNU MPFR, with the decimal
rendering of its results verified in Verus.

- `src/` is the verified library: how the significant digits and the exponent that
  MPFR's `get_str` hands back are written as text (`notation::format_num`), the handling
  of infinities, NaN and a missing digit string (`render::render_digits`), integer
  exponents in decimal (`decimal`), and the proof that the text denotes the value it was
  given (`value::format_num_preserves_value`).
- `app/` is the `BigFloat` type, its operators and the free mathematical functions; they
  call MPFR through `gmp_mpfr_sys`, whose functions are foreign and `unsafe`.
