use miniredis::codec::decode;
use miniredis::value::Value;

fn round_trips(v: Value) {
    let bytes = v.serialize();
    let n = bytes.len();
    assert_eq!(decode(&bytes), Some((v, n)));
}

#[test]
fn test_simple_round_trip() {
    round_trips(Value::Simple(b"PONG".to_vec()));
}

#[test]
fn test_bulk_round_trip_with_embedded_crlf() {
    round_trips(Value::Bulk(b"a\r\nb c\rd\ne".to_vec()));
}

#[test]
fn test_null_round_trip() {
    round_trips(Value::Null);
}

#[test]
fn test_error_round_trip() {
    round_trips(Value::Error(b"ERR".to_vec(), b"unknown command 'x y'".to_vec()));
}

#[test]
fn test_array_round_trip() {
    round_trips(Value::Array(vec![
        Value::Simple(b"OK".to_vec()),
        Value::Bulk(b"he\r\nllo".to_vec()),
        Value::Null,
        Value::Array(vec![Value::Bulk(Vec::new()), Value::Error(b"E".to_vec(), b"m".to_vec())]),
    ]));
}

#[test]
fn test_empty_array_round_trip() {
    round_trips(Value::Array(Vec::new()));
}

#[test]
fn test_decode_rejects_unknown_lead_byte() {
    assert_eq!(decode(b"?what\r\n"), None);
}

#[test]
fn test_decode_rejects_truncated_bulk() {
    assert_eq!(decode(b"$5\r\nab"), None);
}

#[test]
fn test_decode_consumes_exactly_one_value() {
    let r = decode(b"+OK\r\n+OK\r\n");
    assert_eq!(r, Some((Value::Simple(b"OK".to_vec()), 5)));
}
