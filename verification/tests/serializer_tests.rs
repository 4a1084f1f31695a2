use miniredis::value::Value;

#[test]
fn test_seriaze_simple_value() {
    let v = Value::Simple(b"test".to_vec());
    assert_eq!(v.serialize(), b"+test\r\n".to_vec());
}

#[test]
fn test_seriaze_bulk_value() {
    let v = Value::Bulk(b"key_value".to_vec());
    assert_eq!(v.serialize(), b"$9\r\nkey_value\r\n".to_vec());
}

#[test]
fn test_seriaze_error_value() {
    let v = Value::Error(b"Error".to_vec(), b"Test Error".to_vec());
    assert_eq!(v.serialize(), b"-Error Test Error\r\n".to_vec());
}

#[test]
fn test_serialize_null() {
    assert_eq!(Value::Null.serialize(), b"$-1\r\n".to_vec());
}

#[test]
fn test_serialize_empty_bulk() {
    assert_eq!(Value::Bulk(Vec::new()).serialize(), b"$0\r\n\r\n".to_vec());
}

#[test]
fn test_serialize_bulk_is_binary_safe() {
    let v = Value::Bulk(b"a\r\nb".to_vec());
    assert_eq!(v.serialize(), b"$4\r\na\r\nb\r\n".to_vec());
}

#[test]
fn test_serialize_array() {
    let v = Value::Array(vec![
        Value::Bulk(b"GET".to_vec()),
        Value::Bulk(b"mykey".to_vec()),
    ]);
    assert_eq!(v.serialize(), b"*2\r\n$3\r\nGET\r\n$5\r\nmykey\r\n".to_vec());
}

#[test]
fn test_serialize_empty_array() {
    let v = Value::Array(Vec::new());
    assert_eq!(v.serialize(), b"*0\r\n".to_vec());
}

#[test]
fn test_serialize_long_bulk_length() {
    let v = Value::Bulk(vec![120u8; 12]);
    assert_eq!(v.serialize(), b"$12\r\nxxxxxxxxxxxx\r\n".to_vec());
}
