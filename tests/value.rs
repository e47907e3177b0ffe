use respkv::value::Value;

#[test]
fn write_integer() {
    let token = Value::Integer(15232);
    let disp = token.to_bytes();
    assert_eq!(disp, b":15232\r\n".to_vec());
}

#[test]
fn write_simple_string() {
    let token = Value::SimpleString(b"hello world".to_vec());
    let disp = token.to_bytes();
    assert_eq!(disp, b"+hello world\r\n".to_vec());
}

#[test]
fn write_error() {
    let token = Value::Error(b"hello world".to_vec());
    let disp = token.to_bytes();
    assert_eq!(disp, b"-hello world\r\n".to_vec());
}

#[test]
fn write_bluk_string() {
    let token = Value::BulkString(b"hello".to_vec());
    let disp = token.to_bytes();
    assert_eq!(disp, b"$5\r\nhello\r\n".to_vec());
}

#[test]
fn write_null_bluk_string() {
    let token = Value::NullBulkString;
    let disp = token.to_bytes();
    assert_eq!(disp, b"$-1\r\n".to_vec());
}

#[test]
fn write_null_array() {
    let token = Value::NullArray;
    let disp = token.to_bytes();
    assert_eq!(disp, b"*-1\r\n".to_vec());
}

#[test]
fn write_array() {
    let token = Value::Array(vec![
        Value::SimpleString(b"hello world".to_vec()),
        Value::BulkString(b"hello".to_vec()),
        Value::Integer(15232),
        Value::NullBulkString,
    ]);
    let disp = token.to_bytes();
    assert_eq!(
        disp,
        b"*4\r\n+hello world\r\n$5\r\nhello\r\n:15232\r\n$-1\r\n".to_vec()
    );
}

#[test]
fn write_negative_and_extreme_integers() {
    assert_eq!(Value::Integer(-7).to_bytes(), b":-7\r\n".to_vec());
    assert_eq!(Value::Integer(0).to_bytes(), b":0\r\n".to_vec());
    assert_eq!(Value::Integer(i64::MIN).to_bytes(), b":-9223372036854775808\r\n".to_vec());
}

#[test]
fn write_empty_bulk_string_and_array() {
    assert_eq!(Value::BulkString(vec![]).to_bytes(), b"$0\r\n\r\n".to_vec());
    assert_eq!(Value::Array(vec![]).to_bytes(), b"*0\r\n".to_vec());
}
