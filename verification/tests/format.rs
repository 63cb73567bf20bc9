use bigdecimal::BigDecimal;
use bigdecimal::FromPrimitive;
use slotted_pig_lib::decimal::Amount;
use slotted_pig_lib::util::format_bigdecimal;
use slotted_pig_lib::util::format_parts;

fn amount(value: BigDecimal) -> Amount {
    Amount::parse(&value.to_string()).unwrap()
}

#[test]
fn test_format_bigdecimal_large_fraction() {
    let input = amount(BigDecimal::from_f64(1234567890.123456).unwrap());
    assert_eq!(format_bigdecimal(&input), "1,234,567,890.12");
}

#[test]
fn test_format_bigdecimal_unsigned_integer() {
    let input = amount(BigDecimal::from_u32(123456).unwrap());
    assert_eq!(format_bigdecimal(&input), "123,456.00");
}

#[test]
fn test_format_bigdecimal_negative_integer() {
    let input = amount(BigDecimal::from_i32(-123456).unwrap());
    assert_eq!(format_bigdecimal(&input), "-123,456.00");
}

#[test]
fn test_format_bigdecimal_zero() {
    let input = amount(BigDecimal::from_u8(0).unwrap());
    assert_eq!(format_bigdecimal(&input), "0.00");
}

#[test]
fn test_format_bigdecimal_rounds_up() {
    let input = amount(BigDecimal::from_f32(0.009).unwrap());
    assert_eq!(format_bigdecimal(&input), "0.01");
}

#[test]
fn test_format_bigdecimal_rounds_down() {
    let input = amount(BigDecimal::from_f32(0.001).unwrap());
    assert_eq!(format_bigdecimal(&input), "0.00");
}

#[test]
fn test_format_bigdecimal_small_integer() {
    let input = amount(BigDecimal::from_u8(123).unwrap());
    assert_eq!(format_bigdecimal(&input), "123.00");
}

#[test]
fn test_format_bigdecimal_small_negative_integer() {
    let input = amount(BigDecimal::from_i8(-123).unwrap());
    assert_eq!(format_bigdecimal(&input), "-123.00");
}

#[test]
fn test_format_bigdecimal_negative_fraction() {
    let input = amount(BigDecimal::from_f64(-9876.54321).unwrap());
    assert_eq!(format_bigdecimal(&input), "-9,876.54");
}

#[test]
fn format_bigdecimal_rounds_ties_to_even() {
    assert_eq!(format_bigdecimal(&Amount::parse("0.125").unwrap()), "0.12");
    assert_eq!(format_bigdecimal(&Amount::parse("0.135").unwrap()), "0.14");
    assert_eq!(format_bigdecimal(&Amount::parse("-0.125").unwrap()), "-0.12");
    assert_eq!(format_bigdecimal(&Amount::parse("-2.675").unwrap()), "-2.68");
    assert_eq!(format_bigdecimal(&Amount::parse("0.005").unwrap()), "0.00");
    assert_eq!(format_bigdecimal(&Amount::parse("0.015").unwrap()), "0.02");
    assert_eq!(format_bigdecimal(&Amount::parse("999.995").unwrap()), "1,000.00");
}

#[test]
fn format_bigdecimal_drops_the_sign_of_what_rounds_to_zero() {
    assert_eq!(format_bigdecimal(&Amount::parse("-0.001").unwrap()), "0.00");
}

#[test]
fn format_bigdecimal_fills_up_to_two_places() {
    assert_eq!(format_bigdecimal(&Amount::parse("1.5").unwrap()), "1.50");
    assert_eq!(format_bigdecimal(&Amount::parse("1e3").unwrap()), "1,000.00");
    assert_eq!(format_bigdecimal(&Amount::parse("-1234567").unwrap()), "-1,234,567.00");
}

#[test]
fn format_parts_groups_by_three_from_the_right() {
    assert_eq!(format_parts("1", false), "1.00");
    assert_eq!(format_parts("12", false), "12.00");
    assert_eq!(format_parts("123", false), "123.00");
    assert_eq!(format_parts("1234", false), "1,234.00");
    assert_eq!(format_parts("12345", false), "12,345.00");
    assert_eq!(format_parts("123456", false), "123,456.00");
    assert_eq!(format_parts("1234567", true), "-1,234,567.00");
}

#[test]
fn format_parts_cuts_and_fills_the_fraction() {
    assert_eq!(format_parts("1.2345", false), "1.23");
    assert_eq!(format_parts("1.2", false), "1.20");
    assert_eq!(format_parts("1.", false), "1.00");
    assert_eq!(format_parts(".5", true), "-.50");
    assert_eq!(format_parts("", false), ".00");
    assert_eq!(format_parts("1.2.3", false), "1.2.");
}
