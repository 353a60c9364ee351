use gcode::decimal::State;
use gcode::Sign;
use gcode::Significand;
use gcode::{Decimal, DecimalParser, Error};

fn read(s: &str) -> Result<Decimal<i32>, Error> {
    let parser: DecimalParser<i32> = DecimalParser::default();
    parser.try_feed_str_end(s)
}

fn read_one_at_a_time(s: &str) -> Result<Decimal<i32>, Error> {
    let mut parser: DecimalParser<i32> = DecimalParser::default();
    for c in s.chars() {
        parser.try_feed(c)?;
    }
    parser.try_end()
}

#[test]
fn literal_values_by_hand() {
    assert_eq!(read("12.5"), Ok(Decimal::new(125, 1)));
    assert_eq!(read("-3.14159"), Ok(Decimal::new(-314_159, 5)));
    assert_eq!(read("+0.025"), Ok(Decimal::new(25, 3)));
    assert_eq!(read("100"), Ok(Decimal::new(100, 0)));
    assert_eq!(read("100.500"), Ok(Decimal::new(1005, 1)));
    assert_eq!(read("-.5"), Ok(Decimal::new(-5, 1)));
}

#[test]
fn widest_literals() {
    assert_eq!(read("2147483647"), Ok(Decimal::new(i32::MAX, 0)));
    assert_eq!(read("-2147483648"), Ok(Decimal::new(i32::MIN, 0)));
    assert_eq!(read("-2147483649"), Err(Error::Capacity));
    assert_eq!(read("-21474.83648"), Ok(Decimal::new(i32::MIN, 5)));
}

#[test]
fn leading_zeros_change_nothing() {
    assert_eq!(read("0005"), read("5"));
    assert_eq!(read("0005"), Ok(Decimal::new(5, 0)));
    assert_eq!(read("-007.25"), read("-7.25"));
    assert_eq!(read("+000000000000000000001"), Ok(Decimal::new(1, 0)));
}

#[test]
fn fraction_zero_runs() {
    assert_eq!(read("0.0010"), Ok(Decimal::new(1, 3)));
    assert_eq!(read("0.0010"), read("0.001"));
    assert_eq!(read("1.0005"), Ok(Decimal::new(10005, 4)));
    assert_eq!(read(".0000000000001"), Ok(Decimal::new(1, 13)));
    assert_eq!(read("2.000"), Ok(Decimal::new(2, 0)));
}

#[test]
fn zero_literals_read_alike() {
    for s in ["-0", "0", "+0", "0.0", "-0.0", ".0"] {
        assert_eq!(read(s), Ok(Decimal::new(0, 0)));
    }
}

#[test]
fn overflow_at_the_digit() {
    let mut parser: DecimalParser<i32> = DecimalParser::default();
    for c in "214748364".chars() {
        assert_eq!(parser.try_feed(c), Ok(()));
    }
    assert_eq!(parser.try_feed('8'), Err(Error::Capacity));
    assert_eq!(parser.try_feed('7'), Ok(()));
    assert_eq!(parser.try_end(), Ok(Decimal::new(i32::MAX, 0)));
}

#[test]
fn no_digits_is_incomplete() {
    for s in ["", "+", "-", ".", "+.", "-."] {
        assert_eq!(read(s), Err(Error::Incomplete));
    }
    assert_eq!(read("+-"), Err(Error::InvalidCharacter));
    assert_eq!(read(".."), Err(Error::InvalidCharacter));
}

#[test]
fn invalid_character_position() {
    let mut parser: DecimalParser<i32> = DecimalParser::default();
    let mut refused = None;
    for (i, c) in "4904-3957".chars().enumerate() {
        if let Err(e) = parser.try_feed(c) {
            refused = Some((i, c, e));
            break;
        }
    }
    assert_eq!(refused, Some((4, '-', Error::InvalidCharacter)));
    assert_eq!(read("12x"), Err(Error::InvalidCharacter));
    assert_eq!(read("1.2.3"), Err(Error::InvalidCharacter));
    assert_eq!(read("X1"), Err(Error::InvalidCharacter));
}

#[test]
fn refused_character_leaves_parser_as_it_was() {
    let mut parser: DecimalParser<i32> = DecimalParser::default();
    assert_eq!(parser.try_feed_str("12"), Ok(()));
    assert_eq!(parser.try_feed('x'), Err(Error::InvalidCharacter));
    assert_eq!(parser.try_feed('3'), Ok(()));
    assert_eq!(parser.try_end(), Ok(Decimal::new(123, 0)));
}

#[test]
fn one_at_a_time_matches_whole() {
    for s in [
        "8.5", "148.452384", "21474.83648", "", "4904-3957", "-0.0010", "+.5", "007",
    ] {
        assert_eq!(read_one_at_a_time(s), read(s));
    }
    let mut parser: DecimalParser<i32> = DecimalParser::default();
    assert_eq!(parser.try_feed_str("-14"), Ok(()));
    assert_eq!(parser.try_feed_str("8.45"), Ok(()));
    assert_eq!(parser.try_feed_str("2384"), Ok(()));
    assert_eq!(parser.try_end(), Ok(Decimal::new(-148_452_384, 6)));
}

#[test]
fn end_to_end_scenarios() {
    assert_eq!(read("8.5"), Ok(Decimal::new(85, 1)));
    assert_eq!(read("148.452384"), Ok(Decimal::new(148_452_384, 6)));
    assert_eq!(read("21474.83648"), Err(Error::Capacity));
    assert_eq!(read(""), Err(Error::Incomplete));
    assert_eq!(read("4904-3957"), Err(Error::InvalidCharacter));
}

#[test]
fn exponent_counter_overflow() {
    let parser = DecimalParser::<i32> {
        state: State::Fraction,
        sign: Sign::Negative,
        significand: -7,
        negative_exponent: u32::MAX,
        trailing_zeros_plus_one: 1,
    };
    assert_eq!(parser.try_feed_str_end("1"), Err(Error::Capacity));
}

#[test]
fn fresh_parser() {
    let parser: DecimalParser<i32> = DecimalParser::default();
    assert_eq!(parser.state, State::Start);
    assert_eq!(parser.sign, Sign::Positive);
    assert_eq!(parser.significand, 0);
    assert_eq!(parser.negative_exponent, 0);
    assert_eq!(parser.trailing_zeros_plus_one, 1);
    assert_eq!(Sign::default(), Sign::Positive);
}

#[test]
fn shl10_edges() {
    assert_eq!(Significand::checked_shl10(0_i32, 20), Some(0));
    assert_eq!(Significand::checked_shl10(0_i32, u32::MAX), Some(0));
    assert_eq!(Significand::checked_shl10(2_i32, 9), Some(2_000_000_000));
    assert_eq!(Significand::checked_shl10(-3_i32, 9), None);
    assert_eq!(Significand::checked_shl10(1_i32, 10), None);
    assert_eq!(Significand::checked_shl10(-21_i32, 0), Some(-21));
    assert_eq!(<i32 as Significand>::zero(), 0_i32);
}
