use miniredis::engine::process_input;
use miniredis::store::Store;

const MAX: usize = 1024;

#[test]
fn test_ping_frame_answers_pong() {
    let mut store = Store::new();
    let r = process_input(b"*1\r\n$4\r\nPING\r\n", &mut store, MAX);
    assert_eq!(r.output, b"+PONG\r\n".to_vec());
    assert_eq!(r.consumed, 14);
    assert!(!r.close);
}

#[test]
fn test_ping_with_argument_echoes_bulk() {
    let mut store = Store::new();
    let r = process_input(b"*2\r\n$4\r\nPING\r\n$5\r\nhello\r\n", &mut store, MAX);
    assert_eq!(r.output, b"$5\r\nhello\r\n".to_vec());
    assert!(!r.close);
}

#[test]
fn test_echo_answers_bulk() {
    let mut store = Store::new();
    let r = process_input(b"*2\r\n$4\r\nECHO\r\n$5\r\nhello\r\n", &mut store, MAX);
    assert_eq!(r.output, b"$5\r\nhello\r\n".to_vec());
    assert!(!r.close);
}

#[test]
fn test_set_then_get_round_trip() {
    let mut store = Store::new();
    let r1 = process_input(b"*3\r\n$3\r\nSET\r\n$3\r\nfoo\r\n$3\r\nbar\r\n", &mut store, MAX);
    assert_eq!(r1.output, b"+OK\r\n".to_vec());
    assert!(!r1.close);
    let r2 = process_input(b"*2\r\n$3\r\nGET\r\n$3\r\nfoo\r\n", &mut store, MAX);
    assert_eq!(r2.output, b"$3\r\nbar\r\n".to_vec());
    assert!(!r2.close);
}

#[test]
fn test_get_absent_key_answers_null() {
    let mut store = Store::new();
    let r = process_input(b"*2\r\n$3\r\nGET\r\n$7\r\nmissing\r\n", &mut store, MAX);
    assert_eq!(r.output, b"$-1\r\n".to_vec());
    assert!(!r.close);
}

#[test]
fn test_unknown_command_answers_error() {
    let mut store = Store::new();
    let r = process_input(b"*1\r\n$7\r\nUNKNOWN\r\n", &mut store, MAX);
    assert_eq!(r.output, b"-ERR unknown command 'UNKNOWN'\r\n".to_vec());
    assert!(!r.close);
}

#[test]
fn test_empty_array_answers_error_and_connection_stays_open() {
    let mut store = Store::new();
    let r = process_input(b"*0\r\n", &mut store, MAX);
    assert_eq!(r.output, b"-ERR empty command\r\n".to_vec());
    assert_eq!(r.consumed, 4);
    assert!(!r.close);
}

#[test]
fn test_pipelined_set_and_get_answer_in_order() {
    let mut store = Store::new();
    let input = b"*3\r\n$3\r\nSET\r\n$1\r\nk\r\n$5\r\nvalue\r\n*2\r\n$3\r\nGET\r\n$1\r\nk\r\n";
    let r = process_input(input, &mut store, MAX);
    assert_eq!(r.output, b"+OK\r\n$5\r\nvalue\r\n".to_vec());
    assert_eq!(r.consumed, input.len());
    assert!(!r.close);
}

#[test]
fn test_set_and_get_are_binary_safe() {
    let mut store = Store::new();
    let r1 = process_input(b"*3\r\n$3\r\nSET\r\n$4\r\na\r\nb\r\n$3\r\nx\ry\r\n", &mut store, MAX);
    assert_eq!(r1.output, b"+OK\r\n".to_vec());
    let r2 = process_input(b"*2\r\n$3\r\nGET\r\n$4\r\na\r\nb\r\n", &mut store, MAX);
    assert_eq!(r2.output, b"$3\r\nx\ry\r\n".to_vec());
}

#[test]
fn test_incomplete_frame_consumes_nothing() {
    let mut store = Store::new();
    let r = process_input(b"*2\r\n$4\r\nECHO\r\n$5\r\nhel", &mut store, MAX);
    assert_eq!(r.output, Vec::<u8>::new());
    assert_eq!(r.consumed, 0);
    assert!(!r.close);
}

#[test]
fn test_inline_ping_answers_pong() {
    let mut store = Store::new();
    let r = process_input(b"+PING\r\n", &mut store, MAX);
    assert_eq!(r.output, b"+PONG\r\n".to_vec());
    assert_eq!(r.consumed, 7);
    assert!(!r.close);
}

#[test]
fn test_wrong_arity_answers_error_and_stays_open() {
    let mut store = Store::new();
    let r = process_input(b"*1\r\n$4\r\nECHO\r\n", &mut store, MAX);
    assert_eq!(r.output, b"-ERR wrong number of arguments for 'ECHO' command\r\n".to_vec());
    assert!(!r.close);
}

#[test]
fn test_bad_first_byte_closes_connection() {
    let mut store = Store::new();
    let r = process_input(b"hello\r\n", &mut store, MAX);
    assert_eq!(r.output, b"-ERR unknown frame type\r\n".to_vec());
    assert!(r.close);
}

#[test]
fn test_negative_bulk_length_closes_connection() {
    let mut store = Store::new();
    let r = process_input(b"*1\r\n$-1\r\n", &mut store, MAX);
    assert_eq!(r.output, b"-ERR invalid null in request\r\n".to_vec());
    assert!(r.close);
}

#[test]
fn test_malformed_length_closes_connection() {
    let mut store = Store::new();
    let r = process_input(b"*1x\r\n", &mut store, MAX);
    assert_eq!(r.output, b"-ERR malformed length\r\n".to_vec());
    assert!(r.close);
}

#[test]
fn test_oversized_frame_closes_connection() {
    let mut store = Store::new();
    let r = process_input(b"*1\r\n$900\r\nab", &mut store, 64);
    assert_eq!(r.output, b"-ERR frame too large\r\n".to_vec());
    assert!(r.close);
}
