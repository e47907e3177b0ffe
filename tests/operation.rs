use respkv::operation::{Operation, OperationDeducer, SetOptions, StandardOperationDeducer};
use respkv::value::Value;

fn bulk(s: &str) -> Value {
    Value::BulkString(s.as_bytes().to_vec())
}

fn deduce(items: Vec<Value>) -> Operation {
    StandardOperationDeducer::new().deduce_operation(&Value::Array(items))
}

#[test]
fn deduce_ping_any_case() {
    assert_eq!(deduce(vec![bulk("PiNg")]), Operation::Ping);
}

#[test]
fn deduce_ping_with_argument_is_invalid() {
    assert_eq!(
        deduce(vec![bulk("ping"), bulk("x")]),
        Operation::Invalid(b"Invalid syntax for ping".to_vec())
    );
}

#[test]
fn deduce_echo() {
    assert_eq!(deduce(vec![bulk("ECHO"), bulk("hey")]), Operation::Echo(b"hey".to_vec()));
    assert!(matches!(deduce(vec![bulk("echo")]), Operation::Invalid(_)));
    assert!(matches!(deduce(vec![bulk("echo"), Value::Integer(1)]), Operation::Invalid(_)));
}

#[test]
fn deduce_get() {
    assert_eq!(deduce(vec![bulk("get"), bulk("k")]), Operation::Get(b"k".to_vec()));
    assert_eq!(
        deduce(vec![bulk("get"), bulk("k"), bulk("x")]),
        Operation::Invalid(b"Invalid syntax for get".to_vec())
    );
}

#[test]
fn deduce_set_plain() {
    assert_eq!(
        deduce(vec![bulk("SET"), bulk("k"), bulk("v")]),
        Operation::SetEntry(b"k".to_vec(), b"v".to_vec(), SetOptions { expiration: None })
    );
}

#[test]
fn deduce_set_ex_and_px() {
    assert_eq!(
        deduce(vec![bulk("set"), bulk("k"), bulk("v"), bulk("Ex"), bulk("3")]),
        Operation::SetEntry(b"k".to_vec(), b"v".to_vec(), SetOptions { expiration: Some(3000) })
    );
    assert_eq!(
        deduce(vec![bulk("set"), bulk("k"), bulk("v"), bulk("PX"), bulk("50")]),
        Operation::SetEntry(b"k".to_vec(), b"v".to_vec(), SetOptions { expiration: Some(50) })
    );
    assert_eq!(
        deduce(vec![bulk("set"), bulk("k"), bulk("v"), bulk("ex"), bulk("18446744073709551615")]),
        Operation::SetEntry(
            b"k".to_vec(),
            b"v".to_vec(),
            SetOptions { expiration: Some(18446744073709551615u128 * 1000) }
        )
    );
}

#[test]
fn deduce_set_bad_forms_are_invalid() {
    for items in [
        vec![bulk("set"), bulk("k")],
        vec![bulk("set"), bulk("k"), bulk("v"), bulk("bad")],
        vec![bulk("set"), bulk("k"), bulk("v"), bulk("xx"), bulk("5")],
        vec![bulk("set"), bulk("k"), bulk("v"), bulk("px"), bulk("5s")],
        vec![bulk("set"), bulk("k"), bulk("v"), bulk("px"), bulk("")],
        vec![bulk("set"), bulk("k"), bulk("v"), bulk("px"), bulk("18446744073709551616")],
        vec![bulk("set"), bulk("k"), Value::Integer(1)],
    ] {
        assert_eq!(deduce(items), Operation::Invalid(b"Invalid syntax for set".to_vec()));
    }
}

#[test]
fn deduce_unknown_operation_names_it() {
    assert_eq!(
        deduce(vec![bulk("FLUSH")]),
        Operation::Invalid(b"Unknown operation flush".to_vec())
    );
}

#[test]
fn deduce_corrupt_input() {
    let d = StandardOperationDeducer::new();
    let corrupt = Operation::Invalid(b"Invalid or corrupt input".to_vec());
    assert_eq!(d.deduce_operation(&Value::Integer(3)), corrupt);
    assert_eq!(d.deduce_operation(&Value::Array(vec![])), corrupt);
    assert_eq!(d.deduce_operation(&Value::Array(vec![Value::SimpleString(b"ping".to_vec())])), corrupt);
}
