use gcode::{Decimal, DecimalParser, Error, ShiftedI32, Significand};

fn read_shifted(s: &str) -> Result<(i32, u32), Error> {
    let parser: DecimalParser<ShiftedI32> = DecimalParser::default();
    parser
        .try_feed_str_end(s)
        .map(|d: Decimal<ShiftedI32>| (d.significand().0, d.negative_exponent()))
}

fn read_plain(s: &str) -> Result<(i32, u32), Error> {
    let parser: DecimalParser<i32> = DecimalParser::default();
    parser
        .try_feed_str_end(s)
        .map(|d: Decimal<i32>| (d.significand(), d.negative_exponent()))
}

#[test]
fn shifted_reads_like_i32() {
    for s in [
        "8.5",
        "148.452384",
        "21474.83648",
        "-21474.83648",
        "2147483647",
        "2147483648",
        "-2147483648",
        "",
        "4904-3957",
        "-0.0",
        ".0000000000001",
        "0.0010",
    ] {
        assert_eq!(read_shifted(s), read_plain(s));
    }
    assert_eq!(read_shifted("8.5"), Ok((85, 1)));
}

#[test]
fn shifted_shl10() {
    assert_eq!(ShiftedI32(6).checked_shl10(4), Some(ShiftedI32(60000)));
    assert_eq!(ShiftedI32(0).checked_shl10(u32::MAX), Some(ShiftedI32(0)));
    assert_eq!(ShiftedI32(214_748_364).checked_shl10(1), Some(ShiftedI32(2_147_483_640)));
    assert_eq!(ShiftedI32(214_748_365).checked_shl10(1), None);
    assert_eq!(ShiftedI32(-214_748_364).checked_shl10(1), Some(ShiftedI32(-2_147_483_640)));
    assert_eq!(ShiftedI32(-214_748_365).checked_shl10(1), None);
    assert_eq!(ShiftedI32(536_870_912).checked_shl10(1), None);
    assert_eq!(ShiftedI32(-7).checked_shl10(8), Some(ShiftedI32(-700_000_000)));
    assert_eq!(ShiftedI32(-7).checked_shl10(9), None);
}

#[test]
fn shifted_checked_add_sub() {
    assert_eq!(ShiftedI32(7).checked_add_unsigned(8), Some(ShiftedI32(15)));
    assert_eq!(ShiftedI32(i32::MAX).checked_add_unsigned(1), None);
    assert_eq!(ShiftedI32(-9).checked_sub_unsigned(3), Some(ShiftedI32(-12)));
    assert_eq!(ShiftedI32(i32::MIN).checked_sub_unsigned(1), None);
    assert!(ShiftedI32(0).is_zero());
    assert!(!ShiftedI32(-1).is_zero());
}
