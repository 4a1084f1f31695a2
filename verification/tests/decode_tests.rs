use miniredis::decode::{decode_frame, DecodeResult, ProtoError};

const MAX: usize = 1024;

#[test]
fn test_decode_array_frame() {
    let r = decode_frame(b"*3\r\n$3\r\nSET\r\n$3\r\nkey\r\n$5\r\nvalue\r\n", MAX);
    let args = vec![b"SET".to_vec(), b"key".to_vec(), b"value".to_vec()];
    assert_eq!(r, DecodeResult::Done(args, 33));
}

#[test]
fn test_decode_inline_frame() {
    let r = decode_frame(b"+PING\r\n", MAX);
    assert_eq!(r, DecodeResult::Done(vec![b"PING".to_vec()], 7));
}

#[test]
fn test_decode_leaves_pipelined_rest() {
    let input = b"*1\r\n$4\r\nPING\r\n*1\r\n$4\r\nPING\r\n";
    let r = decode_frame(input, MAX);
    assert_eq!(r, DecodeResult::Done(vec![b"PING".to_vec()], 14));
    let rest = decode_frame(&input[14..], MAX);
    assert_eq!(rest, DecodeResult::Done(vec![b"PING".to_vec()], 14));
}

#[test]
fn test_decode_bulk_keeps_embedded_crlf() {
    let r = decode_frame(b"*1\r\n$4\r\na\r\nb\r\n", MAX);
    assert_eq!(r, DecodeResult::Done(vec![b"a\r\nb".to_vec()], 14));
}

#[test]
fn test_short_bulk_needs_more_until_buffer_reaches_length() {
    // declared length 10, only 3 bytes buffered
    assert_eq!(decode_frame(b"*1\r\n$10\r\nabc", MAX), DecodeResult::NeedMore);
    // still short of the trailing CRLF
    assert_eq!(decode_frame(b"*1\r\n$10\r\nabcdefghij", MAX), DecodeResult::NeedMore);
    // complete
    assert_eq!(
        decode_frame(b"*1\r\n$10\r\nabcdefghij\r\n", MAX),
        DecodeResult::Done(vec![b"abcdefghij".to_vec()], 21)
    );
}

#[test]
fn test_oversized_declared_length_fails_instead_of_need_more() {
    assert_eq!(
        decode_frame(b"*1\r\n$900\r\nab", 64),
        DecodeResult::Fail(ProtoError::FrameTooLarge)
    );
}

#[test]
fn test_buffer_at_max_while_incomplete_fails() {
    // 14 buffered bytes of an incomplete frame with max 14
    assert_eq!(
        decode_frame(b"*2\r\n$4\r\nPING\r\n", 14),
        DecodeResult::Fail(ProtoError::FrameTooLarge)
    );
}

#[test]
fn test_unknown_first_byte_fails() {
    assert_eq!(
        decode_frame(b"hello\r\n", MAX),
        DecodeResult::Fail(ProtoError::UnknownFrameType)
    );
}

#[test]
fn test_non_digit_in_length_fails() {
    assert_eq!(
        decode_frame(b"*1a\r\n", MAX),
        DecodeResult::Fail(ProtoError::MalformedLength)
    );
    assert_eq!(
        decode_frame(b"*1\r\n$2x\r\n", MAX),
        DecodeResult::Fail(ProtoError::MalformedLength)
    );
}

#[test]
fn test_negative_length_in_request_fails() {
    assert_eq!(
        decode_frame(b"*1\r\n$-1\r\n", MAX),
        DecodeResult::Fail(ProtoError::InvalidNullInRequest)
    );
    assert_eq!(
        decode_frame(b"*-1\r\n", MAX),
        DecodeResult::Fail(ProtoError::InvalidNullInRequest)
    );
}

#[test]
fn test_missing_terminator_after_bulk_body_fails() {
    assert_eq!(
        decode_frame(b"*1\r\n$3\r\nabcXY", MAX),
        DecodeResult::Fail(ProtoError::MalformedLength)
    );
}

#[test]
fn test_empty_buffer_needs_more() {
    assert_eq!(decode_frame(b"", MAX), DecodeResult::NeedMore);
}

#[test]
fn test_zero_count_array_decodes_to_empty_frame() {
    assert_eq!(decode_frame(b"*0\r\n", MAX), DecodeResult::Done(Vec::new(), 4));
}
