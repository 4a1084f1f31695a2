use miniredis::decode::{DecodeResult, ProtoError};
use miniredis::parser::parse_data_new;

#[test]
fn test_set_parse() {
    let test_data = "*3\r\n$3\r\nSET\r\n$3\r\nkey\r\n$5\r\nvalue\r\n";
    let temp = parse_data_new(test_data.as_bytes());
    let v = vec![b"SET".to_vec(), b"key".to_vec(), b"value".to_vec()];
    assert_eq!(temp, DecodeResult::Done(v, 33));
}

#[test]
fn test_set_parse_multiple_key_values() {
    // one call decodes exactly one frame; the trailing bytes are left for
    // the next call (and cannot start a request, since '$' is reply-only)
    let test_data =
        "*3\r\n$3\r\nSET\r\n$3\r\nkey\r\n$5\r\nvalue\r\n$3\r\nkey\r\n$5\r\nvalue\r\n$3\r\nkey\r\n$5\r\nvalue\r\n";
    let temp = parse_data_new(test_data.as_bytes());
    let v = vec![b"SET".to_vec(), b"key".to_vec(), b"value".to_vec()];
    assert_eq!(temp, DecodeResult::Done(v, 33));
    let rest = parse_data_new(&test_data.as_bytes()[33..]);
    assert_eq!(rest, DecodeResult::Fail(ProtoError::UnknownFrameType));
}

#[test]
fn test_ping_string_parse() {
    // the inline form is one line: the first frame here is "+1\r\n",
    // a one-argument frame, four bytes consumed
    let test_data = "+1\r\n$4\r\nping\r\n";
    let temp = parse_data_new(test_data.as_bytes());
    let v = vec![b"1".to_vec()];
    assert_eq!(temp, DecodeResult::Done(v, 4));
}

#[test]
fn test_get_value() {
    // a request may not start with '$': that marker is reply-only
    let test_data = "$6\r\nGET\r\n$5\r\nmykey\r\n";
    let temp = parse_data_new(test_data.as_bytes());
    assert_eq!(temp, DecodeResult::Fail(ProtoError::UnknownFrameType));
}

#[test]
fn test_parse_rejects_unknown_first_byte() {
    assert_eq!(
        parse_data_new(b"hello\r\n"),
        DecodeResult::Fail(ProtoError::UnknownFrameType)
    );
}

#[test]
fn test_parse_keeps_arguments_verbatim() {
    let temp = parse_data_new(b"*2\r\n$4\r\nab1c\r\n$3\r\nxyz\r\n");
    let v = vec![b"ab1c".to_vec(), b"xyz".to_vec()];
    assert_eq!(temp, DecodeResult::Done(v, 23));
}

#[test]
fn test_parse_empty_buffer_needs_more() {
    assert_eq!(parse_data_new(b""), DecodeResult::NeedMore);
}

#[test]
fn test_parse_incomplete_frame_needs_more() {
    assert_eq!(parse_data_new(b"*1\r\n$10\r\nabc"), DecodeResult::NeedMore);
}

#[test]
fn test_parse_malformed_length_fails() {
    assert_eq!(
        parse_data_new(b"*1x\r\nab\r\n"),
        DecodeResult::Fail(ProtoError::MalformedLength)
    );
}
