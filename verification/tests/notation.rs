use bigfloat::decimal::decimal_string;
use bigfloat::notation::format_num;
use bigfloat::render::{contains, digits_or_default, render_digits, DEFAULT_DIGITS};

fn padded(significant: &str, total: usize) -> String {
    let mut s = significant.to_string();
    while s.len() < total {
        s.push('0');
    }
    s
}

#[test]
fn plain_sum_drops_trailing_zeros() {
    assert_eq!(format_num(&padded("912468", 50), 3), "912.468");
}

#[test]
fn plain_negative_difference() {
    assert_eq!(format_num(&format!("-{}", padded("665556", 50)), 3), "-665.556");
}

#[test]
fn plain_product() {
    assert_eq!(format_num(&padded("97408265472", 50), 5), "97408.265472");
}

#[test]
fn plain_quotient_below_one() {
    assert_eq!(
        format_num("15646910313151130781280893066265151860808200635732", 0),
        "0.15646910313151130781280893066265151860808200635732"
    );
}

#[test]
fn plain_pi() {
    assert_eq!(
        format_num("31415926535897932384626433832795028841971693993751", 1),
        "3.1415926535897932384626433832795028841971693993751"
    );
}

#[test]
fn plain_e_rounded_digits_lose_their_zeros() {
    assert_eq!(
        format_num("27182818284590452353602874713526624977572470937000", 1),
        "2.7182818284590452353602874713526624977572470937"
    );
}

#[test]
fn plain_whole_numbers_have_no_point() {
    assert_eq!(format_num(&padded("2", 50), 1), "2");
    assert_eq!(format_num(&padded("3", 50), 1), "3");
    assert_eq!(format_num(&padded("1", 50), 1), "1");
}

#[test]
fn plain_long_integer_part() {
    assert_eq!(
        format_num("12815518384658169624251075892965841259873220802824", 8),
        "12815518.384658169624251075892965841259873220802824"
    );
}

#[test]
fn plain_fraction_with_trailing_zero_digit() {
    assert_eq!(
        format_num("40000000000000002220446049250313080847263336181640", 0),
        "0.4000000000000000222044604925031308084726333618164"
    );
}

#[test]
fn scientific_huge_exponent() {
    assert_eq!(format_num(&padded("82639316883312400623766461", 500), 5565709), "8.2639316883312400623766461e5565708");
}

#[test]
fn scientific_small_values() {
    assert_eq!(format_num("12345", -7), "1.2345e-8");
    assert_eq!(format_num("-12345", -7), "-1.2345e-8");
    assert_eq!(format_num("50000", -10), "5e-11");
}

#[test]
fn scientific_above_fourteen() {
    assert_eq!(format_num("12345", 15), "1.2345e14");
    assert_eq!(format_num("1", 15), "1e14");
}

#[test]
fn edges_of_plain_range() {
    assert_eq!(format_num("12345", -6), "0.00000012345");
    assert_eq!(format_num("1", 14), "10000000000000");
    assert_eq!(format_num("123", 14), "12300000000000");
}

#[test]
fn zero_digits() {
    assert_eq!(format_num("0", 0), "0");
    assert_eq!(format_num("0", 100), "0");
    assert_eq!(format_num(&padded("0", 50), 0), "0");
    assert_eq!(format_num("-000", 0), "-0");
}

#[test]
fn plain_exponent_inside_digits() {
    assert_eq!(format_num("12345", 2), "12.345");
    assert_eq!(format_num("12300", 2), "12.3");
    assert_eq!(format_num("12000", 2), "12");
    assert_eq!(format_num("123", 5), "12300");
}

#[test]
fn plain_negative_exponent_pads_with_zeros() {
    assert_eq!(format_num("25", -2), "0.0025");
    assert_eq!(format_num("-25", 0), "-0.25");
}

#[test]
fn decimal_of_integers() {
    assert_eq!(decimal_string(0), "0");
    assert_eq!(decimal_string(7), "7");
    assert_eq!(decimal_string(5565708), "5565708");
    assert_eq!(decimal_string(-8), "-8");
    assert_eq!(decimal_string(i64::MIN), "-9223372036854775808");
    assert_eq!(decimal_string(i64::MAX), "9223372036854775807");
}

#[test]
fn special_values() {
    assert_eq!(render_digits(Some("@Inf@"), 0), "Inf");
    assert_eq!(render_digits(Some("-@Inf@"), 0), "-Inf");
    assert_eq!(render_digits(Some("@NaN@"), 0), "NaN");
    assert_eq!(render_digits(None, 0), "Error");
}

#[test]
fn ordinary_values_are_formatted() {
    assert_eq!(render_digits(Some(&padded("912468", 50)), 3), "912.468");
    assert_eq!(render_digits(Some("12345"), -7), "1.2345e-8");
}

#[test]
fn substring_search() {
    assert!(contains("-@Inf@", "@Inf@"));
    assert!(contains("abc", ""));
    assert!(!contains("@In", "@Inf@"));
    assert!(!contains("12345", "-"));
}

#[test]
fn default_precision() {
    assert_eq!(digits_or_default(None), 500);
    assert_eq!(DEFAULT_DIGITS, 500);
    assert_eq!(digits_or_default(Some(50)), 50);
}
