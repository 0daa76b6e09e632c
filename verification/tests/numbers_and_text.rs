use cch23::numbers::{fmt_i128, parse_i128, parse_usize, push_decimal, IntErrorKind};
use cch23::text::{lines, str_eq, tokens};
use cch23::{error, Status};

#[test]
fn parse_usize_reads_decimal() {
    assert_eq!(parse_usize("0"), Ok(0));
    assert_eq!(parse_usize("+42"), Ok(42));
    assert_eq!(parse_usize("18446744073709551615"), Ok(u64::MAX as usize));
}

#[test]
fn parse_usize_errors() {
    assert_eq!(parse_usize(""), Err(IntErrorKind::Empty));
    assert_eq!(parse_usize("+"), Err(IntErrorKind::InvalidDigit));
    assert_eq!(parse_usize("-1"), Err(IntErrorKind::InvalidDigit));
    assert_eq!(parse_usize("1a"), Err(IntErrorKind::InvalidDigit));
    assert_eq!(parse_usize("18446744073709551616"), Err(IntErrorKind::PosOverflow));
}

#[test]
fn parse_i128_reads_signed() {
    assert_eq!(parse_i128("-170141183460469231731687303715884105728"), Ok(i128::MIN));
    assert_eq!(parse_i128("170141183460469231731687303715884105727"), Ok(i128::MAX));
    assert_eq!(parse_i128("-"), Err(IntErrorKind::InvalidDigit));
    assert_eq!(parse_i128("170141183460469231731687303715884105728"), Err(IntErrorKind::PosOverflow));
    assert_eq!(parse_i128("-170141183460469231731687303715884105729"), Err(IntErrorKind::NegOverflow));
}

#[test]
fn error_messages_are_std_texts() {
    assert_eq!(IntErrorKind::Empty.message(), "".parse::<usize>().unwrap_err().to_string());
    assert_eq!(IntErrorKind::InvalidDigit.message(), "x".parse::<usize>().unwrap_err().to_string());
    assert_eq!(
        IntErrorKind::PosOverflow.message(),
        "99999999999999999999999".parse::<u64>().unwrap_err().to_string()
    );
    assert_eq!(
        IntErrorKind::NegOverflow.message(),
        "-99999999999999999999999".parse::<i64>().unwrap_err().to_string()
    );
}

#[test]
fn decimal_writing() {
    assert_eq!(fmt_i128(0), "0");
    assert_eq!(fmt_i128(-27), "-27");
    assert_eq!(fmt_i128(i128::MIN), i128::MIN.to_string());
    let mut s = String::from("n=");
    push_decimal(&mut s, 1728);
    assert_eq!(s, "n=1728");
}

#[test]
fn lines_and_tokens() {
    assert_eq!(lines("a\r\nb\n\nc"), vec!["a", "b", "", "c"]);
    assert_eq!(lines("one\n"), vec!["one"]);
    assert!(lines("").is_empty());
    assert_eq!(tokens("  1 \t 2\n3 "), vec!["1", "2", "3"]);
    assert!(str_eq("elf", "elf"));
    assert!(!str_eq("elf", "Elf"));
}

#[test]
fn error_endpoint_is_500() {
    assert_eq!(error(), Status { code: 500 });
}
