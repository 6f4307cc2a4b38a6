use symboreg::helper::parse_specs;
use symboreg::parse::{
    field_starts, is_blank, is_broad_blank, is_wide_blank, parse_digits, parse_exponent, parse_integer,
    parse_probability, point_fields, space_at, space_before, trim, DataError, SpecsError, FAR, PARTS,
};
use symboreg::{string_to_points, Numerics, Point, Probability};
use rand::rngs::StdRng;

/// Reads single-precision numbers, and has no other use.
struct Reader;

impl Numerics<f32> for Reader {
    fn parse(&self, text: &[u8]) -> Option<f32> {
        std::str::from_utf8(text).ok()?.parse().ok()
    }

    fn ratio(&self, numerator: i32, denominator: u32) -> f32 {
        numerator as f32 / denominator as f32
    }

    fn least(&self) -> f32 {
        f32::MIN_POSITIVE
    }

    fn greatest(&self) -> f32 {
        f32::MAX
    }

    fn sum(&self, a: f32, b: f32) -> f32 {
        a + b
    }

    fn difference(&self, a: f32, b: f32) -> f32 {
        a - b
    }

    fn product(&self, a: f32, b: f32) -> f32 {
        a * b
    }

    fn quotient(&self, a: f32, b: f32) -> f32 {
        a / b
    }

    fn sine(&self, a: f32) -> f32 {
        a.sin()
    }

    fn cosine(&self, a: f32) -> f32 {
        a.cos()
    }

    fn is_zero(&self, a: f32) -> bool {
        a == 0.0
    }

    fn less(&self, a: f32, b: f32) -> bool {
        a < b
    }

    fn uniform(&self, _rng: &mut StdRng, low: f32, _high: f32) -> f32 {
        low
    }

    fn rank(&self, a: f32) -> u64 {
        u64::from(a.to_bits())
    }

    fn number(&self, rank: u64) -> f32 {
        f32::from_bits(rank as u32)
    }
}

fn parts(numerator: u32) -> Probability {
    Probability { numerator, denominator: PARTS }
}

#[test]
fn specs_of_six_fields() {
    assert_eq!(parse_specs("1,1,100,10,0.5,0.01"), Ok((1, 1, 100, 10, parts(500_000_000), parts(10_000_000))));
    assert_eq!(
        parse_specs(" 2 , 5,\t10000 ,100, 0.8 , 0.001\n"),
        Ok((2, 5, 10000, 100, parts(800_000_000), parts(1_000_000)))
    );
    assert_eq!(parse_specs("0,1,0,0,0,1"), Ok((0, 1, 0, 0, parts(0), parts(1_000_000_000))));
    assert_eq!(parse_specs("+3,1,7,10,1.0,.25"), Ok((3, 1, 7, 10, parts(1_000_000_000), parts(250_000_000))));
    assert_eq!(parse_specs("1,1,100,10,5e-1,1E-2"), Ok((1, 1, 100, 10, parts(500_000_000), parts(10_000_000))));
    assert_eq!(
        parse_specs("1,1,100,10,0.3333333333,1e0"),
        Ok((1, 1, 100, 10, parts(333_333_333), parts(1_000_000_000)))
    );
}

#[test]
fn specs_with_the_wrong_number_of_fields() {
    assert_eq!(parse_specs("1,1,100,10,0.5"), Err(SpecsError::FieldCount));
    assert_eq!(parse_specs("1,1,100,10,0.5,0.01,3"), Err(SpecsError::FieldCount));
    assert_eq!(parse_specs(""), Err(SpecsError::FieldCount));
    assert_eq!(parse_specs("X,1,100,10,0.5"), Err(SpecsError::FieldCount));
}

#[test]
fn specs_with_a_bad_integer() {
    assert_eq!(parse_specs("1,1,X,10,0.5,0.01"), Err(SpecsError::Integer(2)));
    assert_eq!(parse_specs("-1,1,100,10,0.5,0.01"), Err(SpecsError::Integer(0)));
    assert_eq!(parse_specs("1,,100,10,0.5,0.01"), Err(SpecsError::Integer(1)));
    assert_eq!(parse_specs("1,1,100,1 0,0.5,0.01"), Err(SpecsError::Integer(3)));
    assert_eq!(parse_specs("1,1.5,X,10,0.5,0.01"), Err(SpecsError::Integer(1)));
    assert_eq!(parse_specs("1,1,99999999999999999999999,10,0.5,0.01"), Err(SpecsError::Integer(2)));
}

#[test]
fn specs_with_a_bad_probability() {
    assert_eq!(parse_specs("1,1,100,10,half,0.01"), Err(SpecsError::Probability(4)));
    assert_eq!(parse_specs("1,1,100,10,0.5,1.01"), Err(SpecsError::Probability(5)));
    assert_eq!(parse_specs("1,1,100,10,2,0.01"), Err(SpecsError::Probability(4)));
    assert_eq!(parse_specs("1,1,100,10,0.5,-0.1"), Err(SpecsError::Probability(5)));
    assert_eq!(parse_specs("1,1,100,10,.,0.1"), Err(SpecsError::Probability(4)));
    assert_eq!(parse_specs("1,1,100,10,0.5,0.1.2"), Err(SpecsError::Probability(5)));
    assert_eq!(parse_specs("1,1,100,10,0.5,"), Err(SpecsError::Probability(5)));
    assert_eq!(parse_specs("1,1,100,10,1e1,0.5"), Err(SpecsError::Probability(4)));
    assert_eq!(parse_specs("1,1,100,10,0.5,inf"), Err(SpecsError::Probability(5)));
    assert_eq!(parse_specs("1,1,100,10,NaN,0.5"), Err(SpecsError::Probability(4)));
    assert_eq!(parse_specs("1,1,100,10,x,y"), Err(SpecsError::Probability(4)));
}

#[test]
fn integers() {
    assert_eq!(parse_integer(b"0"), Some(0));
    assert_eq!(parse_integer(b"007"), Some(7));
    assert_eq!(parse_integer(b"+42"), Some(42));
    assert_eq!(parse_integer(b"18446744073709551615"), Some(18446744073709551615));
    assert_eq!(parse_integer(b"18446744073709551616"), None);
    assert_eq!(parse_integer(b""), None);
    assert_eq!(parse_integer(b"+"), None);
    assert_eq!(parse_integer(b"++1"), None);
    assert_eq!(parse_integer(b"12a"), None);
    assert_eq!(parse_integer(b" 1"), None);
}

#[test]
fn probabilities() {
    assert_eq!(parse_probability(b"0.5"), Some(parts(500_000_000)));
    assert_eq!(parse_probability(b"0.50"), Some(parts(500_000_000)));
    assert_eq!(parse_probability(b"1"), Some(parts(1_000_000_000)));
    assert_eq!(parse_probability(b"1."), Some(parts(1_000_000_000)));
    assert_eq!(parse_probability(b"1.000"), Some(parts(1_000_000_000)));
    assert_eq!(parse_probability(b"0"), Some(parts(0)));
    assert_eq!(parse_probability(b"000.125"), Some(parts(125_000_000)));
    assert_eq!(parse_probability(b".999999999"), Some(parts(999_999_999)));
    assert_eq!(parse_probability(b"+0.75"), Some(parts(750_000_000)));
    assert_eq!(parse_probability(b"0.000000001"), Some(parts(1)));
    assert_eq!(parse_probability(b"1.001"), None);
    assert_eq!(parse_probability(b"1.000000001"), None);
    assert_eq!(parse_probability(b"10"), None);
    assert_eq!(parse_probability(b""), None);
    assert_eq!(parse_probability(b"+"), None);
    assert_eq!(parse_probability(b"."), None);
    assert_eq!(parse_probability(b"+."), None);
    assert_eq!(parse_probability(b"0,5"), None);
    assert_eq!(parse_probability(b"0x1"), None);
    assert_eq!(parse_probability(b"1.2.3"), None);
    assert_eq!(parse_probability(b" 1"), None);
    assert_eq!(parse_probability(b"inf"), None);
    assert_eq!(parse_probability(b"infinity"), None);
    assert_eq!(parse_probability(b"nan"), None);
    assert_eq!(parse_probability(b"NaN"), None);
}

#[test]
fn probabilities_with_many_digits() {
    assert_eq!(parse_probability(b"0.3333333333"), Some(parts(333_333_333)));
    assert_eq!(parse_probability(b"0.9999999999"), Some(parts(999_999_999)));
    assert_eq!(parse_probability(b"0.0000000001"), Some(parts(0)));
    assert_eq!(parse_probability(b"0.0000000019"), Some(parts(1)));
    assert_eq!(parse_probability(b"0.12345678901234567890123456789012345678901234567890"), Some(parts(123_456_789)));
    assert_eq!(parse_probability(b"1.0000000000000000000000000000000000000000"), Some(parts(1_000_000_000)));
    assert_eq!(parse_probability(b"1.0000000000000000000000000000000000000001"), None);
    assert_eq!(parse_probability(b"0000000000000000000000000000000000000000.25"), Some(parts(250_000_000)));
    assert_eq!(parse_probability(b"00000000000000000000000000000000000000001"), Some(parts(1_000_000_000)));
    assert_eq!(parse_probability(b"00000000000000000000000000000000000000002"), None);
    assert_eq!(parse_probability(b"123456789012345678901234567890"), None);
}

#[test]
fn probabilities_with_an_exponent() {
    assert_eq!(parse_probability(b"1e0"), Some(parts(1_000_000_000)));
    assert_eq!(parse_probability(b"5e-1"), Some(parts(500_000_000)));
    assert_eq!(parse_probability(b"5E-1"), Some(parts(500_000_000)));
    assert_eq!(parse_probability(b"1e-2"), Some(parts(10_000_000)));
    assert_eq!(parse_probability(b"25e-2"), Some(parts(250_000_000)));
    assert_eq!(parse_probability(b"0.01e2"), Some(parts(1_000_000_000)));
    assert_eq!(parse_probability(b"0.01e+2"), Some(parts(1_000_000_000)));
    assert_eq!(parse_probability(b"0.011e2"), None);
    assert_eq!(parse_probability(b"10e-1"), Some(parts(1_000_000_000)));
    assert_eq!(parse_probability(b"100e-3"), Some(parts(100_000_000)));
    assert_eq!(parse_probability(b".5e0"), Some(parts(500_000_000)));
    assert_eq!(parse_probability(b"5.e-1"), Some(parts(500_000_000)));
    assert_eq!(parse_probability(b"+2e-1"), Some(parts(200_000_000)));
    assert_eq!(parse_probability(b"1e-9"), Some(parts(1)));
    assert_eq!(parse_probability(b"19e-10"), Some(parts(1)));
    assert_eq!(parse_probability(b"1e-10"), Some(parts(0)));
    assert_eq!(parse_probability(b"1e-007"), Some(parts(100)));
    assert_eq!(parse_probability(b"0.00000000000000000001e20"), Some(parts(1_000_000_000)));
    assert_eq!(parse_probability(b"0.00000000000000000001e21"), None);
    assert_eq!(parse_probability(b"1000000000000000000000e-22"), Some(parts(100_000_000)));
    assert_eq!(parse_probability(b"0e5"), Some(parts(0)));
    assert_eq!(parse_probability(b"0.000e99999999999999999999999999999999999999999"), Some(parts(0)));
    assert_eq!(parse_probability(b"1e-99999999999999999999999999999999999999999"), Some(parts(0)));
    assert_eq!(parse_probability(b"1e99999999999999999999999999999999999999999"), None);
    assert_eq!(parse_probability(b"1e1"), None);
    assert_eq!(parse_probability(b"1e5"), None);
    assert_eq!(parse_probability(b"1e"), None);
    assert_eq!(parse_probability(b"1e+"), None);
    assert_eq!(parse_probability(b"1e-"), None);
    assert_eq!(parse_probability(b"e5"), None);
    assert_eq!(parse_probability(b".e1"), None);
    assert_eq!(parse_probability(b"1ee1"), None);
    assert_eq!(parse_probability(b"1e1e1"), None);
    assert_eq!(parse_probability(b"1e0.5"), None);
    assert_eq!(parse_probability(b"1e 0"), None);
    assert_eq!(parse_probability(b"1e+-1"), None);
}

#[test]
fn probabilities_with_a_minus_sign() {
    assert_eq!(parse_probability(b"-0"), Some(parts(0)));
    assert_eq!(parse_probability(b"-0.0"), Some(parts(0)));
    assert_eq!(parse_probability(b"-.0e5"), Some(parts(0)));
    assert_eq!(parse_probability(b"-0.1"), None);
    assert_eq!(parse_probability(b"-1"), None);
    assert_eq!(parse_probability(b"-1e-20"), None);
    assert_eq!(parse_probability(b"-"), None);
    assert_eq!(parse_probability(b"+-0"), None);
    assert_eq!(parse_probability(b"--0"), None);
}

#[test]
fn read_probabilities_agree_with_the_numbers_they_write() {
    let fields = ["0.5", "0.25", "1", "0", "1e-3", "0.0625", "12.5e-2", "0.000000001"];
    for field in fields {
        let read = parse_probability(field.as_bytes()).unwrap();
        let number: f64 = field.parse().unwrap();
        assert_eq!(read.denominator, PARTS);
        assert_eq!(f64::from(read.numerator), number * f64::from(PARTS));
    }
}

#[test]
fn exponents() {
    assert_eq!(parse_exponent(b"0"), Some(0));
    assert_eq!(parse_exponent(b"12"), Some(12));
    assert_eq!(parse_exponent(b"+12"), Some(12));
    assert_eq!(parse_exponent(b"-12"), Some(-12));
    assert_eq!(parse_exponent(b"-007"), Some(-7));
    assert_eq!(parse_exponent(b"999999999999999999999999999999"), Some(999_999_999_999_999_999_999_999_999_999));
    assert_eq!(parse_exponent(b"1000000000000000000000000000000"), Some(FAR));
    assert_eq!(parse_exponent(b"123456789012345678901234567890123456789012345"), Some(FAR));
    assert_eq!(parse_exponent(b"-123456789012345678901234567890123456789012345"), Some(-FAR));
    assert_eq!(parse_exponent(b""), None);
    assert_eq!(parse_exponent(b"+"), None);
    assert_eq!(parse_exponent(b"1.0"), None);
    assert_eq!(parse_exponent(b"1e1"), None);
}

#[test]
fn digits_of_a_decimal() {
    assert_eq!(parse_digits(b"12.345"), Some((b"12345".to_vec(), 3)));
    assert_eq!(parse_digits(b"12"), Some((b"12".to_vec(), 0)));
    assert_eq!(parse_digits(b"12."), Some((b"12".to_vec(), 0)));
    assert_eq!(parse_digits(b".5"), Some((b"5".to_vec(), 1)));
    assert_eq!(parse_digits(b"."), None);
    assert_eq!(parse_digits(b""), None);
    assert_eq!(parse_digits(b"1.2.3"), None);
    assert_eq!(parse_digits(b"1a"), None);
}

#[test]
fn white_space_of_every_kind_is_trimmed() {
    assert_eq!(trim("\u{a0}1.5\u{2003}".as_bytes()), b"1.5");
    assert_eq!(trim("\u{3000}\u{85} x\u{1680}\u{2028}\u{2029}\u{202f}\u{205f}\t".as_bytes()), b"x");
    assert_eq!(trim("\u{2000}\u{200a}".as_bytes()), b"");
    assert_eq!(trim("\u{200b}".as_bytes()), "\u{200b}".as_bytes());
    assert_eq!(trim("\u{feff}1".as_bytes()), "\u{feff}1".as_bytes());
    assert_eq!(trim("a\u{a0}b".as_bytes()), "a\u{a0}b".as_bytes());
    assert_eq!(trim(&[194]), &[194]);
    assert_eq!(trim(&[160]), &[160]);
    assert_eq!(trim(&[226, 128]), &[226, 128]);
    assert!(is_blank(b' ') && is_blank(b'\n') && !is_blank(b'a') && !is_blank(0xa0));
    assert!(is_wide_blank(0xc2, 0xa0) && is_wide_blank(0xc2, 0x85) && !is_wide_blank(0xc2, 0xa1));
    assert!(is_broad_blank(0xe2, 0x80, 0x8a) && !is_broad_blank(0xe2, 0x80, 0x8b));
    assert!(is_broad_blank(0xe3, 0x80, 0x80) && !is_broad_blank(0xe3, 0x80, 0x81));
    assert_eq!(space_at("\u{a0}x".as_bytes(), 0), 2);
    assert_eq!(space_at("\u{a0}x".as_bytes(), 2), 0);
    assert_eq!(space_at("x \u{3000}".as_bytes(), 1), 1);
    assert_eq!(space_at("x \u{3000}".as_bytes(), 2), 3);
    assert_eq!(space_at(b"x", 1), 0);
    assert_eq!(space_before("x\u{2009}".as_bytes(), 0, 4), 3);
    assert_eq!(space_before("x\u{2009}".as_bytes(), 2, 4), 0);
    assert_eq!(space_before("x\u{2009}".as_bytes(), 0, 1), 0);
    assert_eq!(space_before(b" ", 0, 0), 0);
    assert_eq!(
        parse_specs("\u{a0}1\u{2002},1,100,10,\u{3000}0.5\u{85},0.01\u{a0}\n"),
        Ok((1, 1, 100, 10, parts(500_000_000), parts(10_000_000)))
    );
    let points = string_to_points("\u{a0}1\u{a0},\u{2003}3\u{2003}\n", &Reader);
    assert_eq!(points, Ok(vec![Point::new(1.0, 3.0)]));
}

#[test]
fn trimming_agrees_with_the_trimming_of_strings() {
    for code in 0..=0x10ffffu32 {
        if let Some(space) = char::from_u32(code) {
            let text = format!("{space}{space}a{space}b{space}");
            assert_eq!(trim(text.as_bytes()), text.trim().as_bytes(), "{code:x}");
            let text = format!("{space}");
            assert_eq!(trim(text.as_bytes()), text.trim().as_bytes(), "{code:x}");
        }
    }
}

#[test]
fn trimming_and_splitting() {
    assert_eq!(trim(b"  a b \t\r\n"), b"a b");
    assert_eq!(trim(b""), b"");
    assert_eq!(trim(b" \n "), b"");
    assert_eq!(trim(b"x"), b"x");
    assert_eq!(field_starts(b"a,bc,,d", b','), vec![0, 2, 5, 6]);
    assert_eq!(field_starts(b"", b','), vec![0]);
    assert_eq!(field_starts(b",", b','), vec![0, 1]);
    assert_eq!(field_starts(b"one\ntwo\n", b'\n'), vec![0, 4, 8]);
    assert_eq!(point_fields(b" 1.5 , 2 ,3"), Some((&b"1.5"[..], &b"2"[..])));
    assert_eq!(point_fields(b"1,2"), Some((&b"1"[..], &b"2"[..])));
    assert_eq!(point_fields(b","), Some((&b""[..], &b""[..])));
    assert_eq!(point_fields(b"12"), None);
    assert_eq!(point_fields(b""), None);
}

#[test]
fn points_of_a_text() {
    let points = string_to_points("1,3\n2, 5\n 3.5 ,7,extra\n", &Reader);
    assert_eq!(points, Ok(vec![Point::new(1.0, 3.0), Point::new(2.0, 5.0), Point::new(3.5, 7.0)]));
    let points = string_to_points("1,3\r\n-2e1,5", &Reader);
    assert_eq!(points, Ok(vec![Point::new(1.0, 3.0), Point::new(-20.0, 5.0)]));
    assert_eq!(string_to_points("", &Reader), Ok(vec![]));
    assert_eq!(string_to_points("1,3\n4\n", &Reader), Err(DataError::Fields(1)));
    assert_eq!(string_to_points("1,3\n\n5,6", &Reader), Err(DataError::Fields(1)));
    assert_eq!(string_to_points("1,3\n4,x\n5", &Reader), Err(DataError::Number(1)));
    assert_eq!(string_to_points("a,3", &Reader), Err(DataError::Number(0)));
}
