use respkv::parse::{ParseError, RedisParser, RespParser};

use respkv::value::Value::{self, Array, BulkString, Error, Integer, NullArray, NullBulkString, SimpleString};

fn parse(input: &str) -> Result<(Value, usize), ParseError> {
    RespParser::new().parse(input.as_bytes())
}

#[test]
fn parse_integer() {
    let result = parse(":15\r\n");
    assert!(result.is_ok());
    assert_eq!(result.unwrap().0, Integer(15));
}

#[test]
fn parse_simple_string() {
    let result = parse("+hello world\r\n");
    assert!(result.is_ok());
    assert_eq!(result.unwrap().0, SimpleString(b"hello world".to_vec()));
}

#[test]
fn parse_bulk_string() {
    let result = parse("$11\r\nhello world\r\n");
    assert!(result.is_ok());
    assert_eq!(result.unwrap().0, BulkString(b"hello world".to_vec()));
}

#[test]
fn parse_error() {
    let result = parse("-Error\r\n");
    assert!(result.is_ok());
    assert_eq!(result.unwrap().0, Error(b"Error".to_vec()));
}

#[test]
fn parse_array() {
    let result = parse("*3\r\n$5\r\nhello\r\n$5\r\nworld\r\n:-150\r\n");
    assert!(result.is_ok());
    assert_eq!(
        result.unwrap().0,
        Array(vec![
            BulkString(b"hello".to_vec()),
            BulkString(b"world".to_vec()),
            Integer(-150)
        ])
    );
}

#[test]
fn parse_empty_array() {
    let result = parse("*0\r\n");
    assert!(result.is_ok());
    assert_eq!(result.unwrap().0, Array(vec![]));
}

#[test]
fn parse_empty_string() {
    let result = parse("$0\r\n\r\n");
    assert!(result.is_ok());
    assert_eq!(result.unwrap().0, BulkString(b"".to_vec()));
}

#[test]
fn parse_null_string() {
    let result = parse("$-1\r\n");
    assert!(result.is_ok());
    assert_eq!(result.unwrap().0, NullBulkString);
}

#[test]
fn parse_null_array() {
    let result = parse("*-1\r\n");
    assert!(result.is_ok());
    assert_eq!(result.unwrap().0, NullArray);
}

#[test]
fn parse_reports_bytes_taken() {
    let result = parse("+OK\r\n:1\r\n").unwrap();
    assert_eq!(result, (SimpleString(b"OK".to_vec()), 5));
}

#[test]
fn parse_bulk_string_with_crlf_inside() {
    let result = parse("$4\r\na\r\nb\r\n").unwrap();
    assert_eq!(result, (BulkString(b"a\r\nb".to_vec()), 10));
}

#[test]
fn parse_simple_string_lone_cr_is_literal() {
    let result = parse("+a\rb\r\n").unwrap();
    assert_eq!(result.0, SimpleString(b"a\rb".to_vec()));
}

#[test]
fn parse_nested_array() {
    let result = parse("*2\r\n*1\r\n:1\r\n$-1\r\n").unwrap();
    assert_eq!(result, (Array(vec![Array(vec![Integer(1)]), NullBulkString]), 17));
}

#[test]
fn parse_integer_extremes() {
    assert_eq!(parse(":-9223372036854775808\r\n").unwrap().0, Integer(i64::MIN));
    assert_eq!(parse(":9223372036854775807\r\n").unwrap().0, Integer(i64::MAX));
    assert_eq!(parse(":9223372036854775808\r\n"), Err(ParseError::InvalidInput));
}

#[test]
fn parse_empty_input_is_incomplete() {
    assert_eq!(parse(""), Err(ParseError::Incomplete));
}

#[test]
fn parse_bad_tag_is_invalid() {
    assert_eq!(parse("?x\r\n"), Err(ParseError::InvalidInput));
}

#[test]
fn parse_non_numeric_length_is_invalid() {
    assert_eq!(parse("$ab\r\nxx\r\n"), Err(ParseError::InvalidInput));
    assert_eq!(parse(":1x\r\n"), Err(ParseError::InvalidInput));
}

#[test]
fn parse_negative_length_other_than_minus_one_is_invalid() {
    assert_eq!(parse("*-2\r\n"), Err(ParseError::InvalidInput));
    assert_eq!(parse("$-5\r\n"), Err(ParseError::InvalidInput));
}

#[test]
fn parse_cut_short_is_incomplete() {
    assert_eq!(parse("$5\r\nhel"), Err(ParseError::Incomplete));
    assert_eq!(parse("*2\r\n:1\r\n"), Err(ParseError::Incomplete));
    assert_eq!(parse(":12"), Err(ParseError::Incomplete));
}

#[test]
fn parse_bulk_string_without_trailing_crlf_is_invalid() {
    assert_eq!(parse("$2\r\nabXY"), Err(ParseError::InvalidInput));
}

#[test]
fn format_then_parse_round_trip() {
    let v = Array(vec![
        SimpleString(b"hi".to_vec()),
        Error(b"bad".to_vec()),
        Integer(-42),
        BulkString(b"x\r\ny".to_vec()),
        NullBulkString,
        NullArray,
        Array(vec![]),
    ]);
    let bytes = v.to_bytes();
    let (back, n) = RespParser::new().parse(&bytes).unwrap();
    assert_eq!(back, v);
    assert_eq!(n, bytes.len());
}

#[test]
fn parse_minus_zero_and_minus_one_lengths() {
    assert_eq!(parse("$-0\r\n\r\n").unwrap(), (BulkString(vec![]), 7));
    assert_eq!(parse("$-01\r\n").unwrap(), (NullBulkString, 6));
    assert_eq!(parse("*-01\r\n").unwrap(), (NullArray, 6));
    assert_eq!(parse("*-\r\n"), Err(ParseError::InvalidInput));
}

#[test]
fn parse_final_treats_end_of_input_as_invalid() {
    let p = RespParser::new();
    assert_eq!(p.parse_final(b""), Err(ParseError::InvalidInput));
    assert_eq!(p.parse_final(b"+abc"), Err(ParseError::InvalidInput));
    assert_eq!(p.parse_final(b"$5\r\nhel"), Err(ParseError::InvalidInput));
    assert_eq!(p.parse_final(b"?"), Err(ParseError::InvalidInput));
    assert_eq!(p.parse_final(b":7\r\n"), Ok((Integer(7), 4)));
}
