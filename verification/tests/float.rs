//! Doubles and their text.
use gamestore::datamodel::commands::zset::{format_score, parse_score, parse_score_bound};
use gamestore::float::round::nearest_to;
use gamestore::float::shortest::shortest_digits;
use gamestore::float::text::{
    read_double, write_double, write_finite, NEGATIVE_INFINITY, NOT_A_NUMBER, POSITIVE_INFINITY,
};
use gamestore::float::whole::small_whole;

/// A sequence of numbers that looks random.
struct Numbers(u64);

impl Numbers {
    fn next(&mut self) -> u64 {
        self.0 ^= self.0 << 13;
        self.0 ^= self.0 >> 7;
        self.0 ^= self.0 << 17;
        self.0
    }
}

fn reads_as_std(text: &str) {
    let want: f64 = text.parse().unwrap();
    assert_eq!(read_double(text.as_bytes()), Some(want.to_bits()), "{text}");
}

#[test]
fn numbers_are_rounded_to_the_nearest_double() {
    for text in [
        "0", "-0", "1", "-1", "+1", "3.25", ".5", "5.", "1e3", "1E3", "1e+3", "1e-3", "0.1",
        "0.2", "0.3", "1e23", "9007199254740993", "9007199254740992.5",
        "9007199254740993.0000000000000000000000000000001", "2.2250738585072011e-308",
        "2.2250738585072014e-308", "4.9406564584124654e-324", "2.4703282292062327e-324",
        "2.4703282292062328e-324", "1.7976931348623157e308", "1.7976931348623158e308",
        "1.7976931348623159e308", "179769313486231580793e289", "1e309", "1e-400", "-1e400",
        "1e99999999999999999999999999", "1e-99999999999999999999999999", "0e99999999999999999999",
        "123456789012345678901234567890", "0.000000000000000000000000000001234",
        "6.8256703449799999e-250", "1.00000000000000011102230246251565404236316680908203125",
        "1.00000000000000011102230246251565404236316680908203124",
        "1.00000000000000011102230246251565404236316680908203126",
    ] {
        reads_as_std(text);
    }
}

#[test]
fn long_numbers_are_rounded_by_their_last_digit() {
    // Halfway between two doubles, and a digit far behind that decides.
    let mut text = String::from("9007199254740993.");
    text.push_str(&"0".repeat(2000));
    reads_as_std(&text);
    text.push('1');
    reads_as_std(&text);
    let mut tiny = String::from("0.");
    tiny.push_str(&"0".repeat(1500));
    tiny.push('7');
    reads_as_std(&tiny);
    let large = "9".repeat(400);
    reads_as_std(&large);
    let mut scaled = "9".repeat(1700);
    scaled.push_str("e-1690");
    reads_as_std(&scaled);
}

#[test]
fn what_is_no_number_is_refused() {
    for text in [
        "", "+", "-", ".", "e5", "1e", "1e+", "1e 5", " 1", "1 ", "0x10", "1_000", "infin", "na",
        "--1", "1..2", "1.2.3", "1e5.0", "\u{661}",
    ] {
        assert_eq!(read_double(text.as_bytes()), None, "{text:?}");
        assert!(text.parse::<f64>().is_err(), "{text:?}");
    }
    assert_eq!(read_double(b"\xff"), None);
}

#[test]
fn infinities_and_nan_are_read_in_any_letter_case() {
    for text in ["inf", "+inf", "Infinity", "INFINITY", "iNf"] {
        assert_eq!(read_double(text.as_bytes()), Some(POSITIVE_INFINITY));
    }
    for text in ["-inf", "-INF", "-Infinity"] {
        assert_eq!(read_double(text.as_bytes()), Some(NEGATIVE_INFINITY));
    }
    for text in ["nan", "NaN", "-nan", "+NAN"] {
        assert_eq!(read_double(text.as_bytes()), Some(NOT_A_NUMBER));
    }
    assert_eq!(POSITIVE_INFINITY, f64::INFINITY.to_bits());
    assert_eq!(NEGATIVE_INFINITY, f64::NEG_INFINITY.to_bits());
    assert!(f64::from_bits(NOT_A_NUMBER).is_nan());
}

#[test]
fn random_texts_are_read_as_std_reads_them() {
    let mut numbers = Numbers(0x1234_5678_9abc_def1);
    for _ in 0..400 {
        let digits = numbers.next() >> (numbers.next() % 60);
        let point = numbers.next() % 20;
        let exponent = (numbers.next() % 700) as i64 - 350;
        reads_as_std(&format!("{digits}.{point}e{exponent}"));
    }
}

fn writes_as_std(x: f64) {
    let text = write_finite(x.to_bits());
    assert_eq!(String::from_utf8(text).unwrap(), format!("{x}"));
}

#[test]
fn numbers_are_written_in_the_shortest_form() {
    for x in [
        0.0, -0.0, 1.0, -1.0, 3.25, 0.1, 0.2, 0.3, 0.1 + 0.2, 1e21, 1e22, 1e23, 1e-7, 123.456,
        1e300, 1e-300, 5e-324, 1e-323, 9.5e-323, 2.2250738585072014e-308, 2.225073858507201e-308,
        1.7976931348623157e308, 9007199254740993.0, 36028797018963968.0, 99999999999999984.0,
        1e17, 12345678901234567890.0, 0.000001, 4.35, 1.0e15, 8.41e21, 2f64.powi(1023),
        2f64.powi(-1022), 2f64.powi(60),
    ] {
        writes_as_std(x);
    }
}

#[test]
fn random_doubles_are_written_as_std_writes_them_and_read_back() {
    let mut numbers = Numbers(0xfeed_beef_dead_cafe);
    let mut seen = 0;
    while seen < 400 {
        let bits = numbers.next();
        let x = f64::from_bits(bits);
        if !x.is_finite() {
            continue;
        }
        seen += 1;
        writes_as_std(x);
        assert_eq!(read_double(&write_double(bits)), Some(bits));
    }
}

#[test]
fn what_is_no_number_has_a_word() {
    assert_eq!(write_double(f64::INFINITY.to_bits()), b"inf");
    assert_eq!(write_double(f64::NEG_INFINITY.to_bits()), b"-inf");
    assert_eq!(write_double(f64::NAN.to_bits()), b"nan");
    assert_eq!(write_double(0x7ff0_0000_0000_0001), b"nan");
    assert_eq!(write_double((-0.0f64).to_bits()), b"-0");
}

#[test]
fn digits_and_exponents_of_a_double() {
    assert_eq!(shortest_digits(1.5f64.to_bits()), (b"15".to_vec(), -1));
    assert_eq!(shortest_digits(1e23f64.to_bits()), (b"1".to_vec(), 23));
    assert_eq!(nearest_to(b"15", -1), 1.5f64.to_bits());
    assert_eq!(nearest_to(b"0", 400), 0);
    assert_eq!(nearest_to(b"2", 308), f64::INFINITY.to_bits());
}

#[test]
fn whole_numbers_are_told_from_fractions() {
    assert_eq!(small_whole(0), Some(0));
    assert_eq!(small_whole(7.0f64.to_bits()), Some(7));
    assert_eq!(small_whole(7.5f64.to_bits()), None);
    assert_eq!(small_whole(9007199254740994.0f64.to_bits()), Some(9007199254740994));
    assert_eq!(small_whole(99999999999999984.0f64.to_bits()), Some(99999999999999984));
    assert_eq!(small_whole(1e17f64.to_bits()), None);
    assert_eq!(small_whole(f64::INFINITY.to_bits()), None);
    assert_eq!(small_whole(5e-324f64.to_bits()), None);
}

fn score_as_std(x: f64) -> String {
    if x == x.trunc() && x.is_finite() && x.abs() < 1e17 {
        format!("{}", x as i64)
    } else {
        format!("{x}")
    }
}

#[test]
fn scores_are_written_as_integers_where_they_are() {
    for x in [
        0.0, -0.0, 3.0, -3.0, 1.5, 36028797018963968.0, 99999999999999984.0, 1e17, -1e17, 1e21,
        0.1, f64::INFINITY, f64::NEG_INFINITY, f64::NAN, -12345678.0, 1e16,
    ] {
        let text = format_score(x.to_bits());
        assert_eq!(String::from_utf8(text).unwrap(), score_as_std(x));
    }
}

#[test]
fn scores_are_numbers_or_infinite() {
    assert_eq!(parse_score(b"1.5"), Some(1.5f64.to_bits()));
    assert_eq!(parse_score(b"-inf"), Some(f64::NEG_INFINITY.to_bits()));
    assert_eq!(parse_score(b"nan"), None);
    assert_eq!(parse_score(b"abc"), None);
    assert_eq!(parse_score(b" 1"), None);
    assert_eq!(parse_score(b""), None);
    assert_eq!(parse_score_bound(b"(1.5"), Some((1.5f64.to_bits(), true)));
    assert_eq!(parse_score_bound(b"1.5"), Some((1.5f64.to_bits(), false)));
    assert_eq!(parse_score_bound(b"("), None);
    assert_eq!(parse_score_bound(b"((1"), None);
}
