use minikv::wire::{
    encode_array, encode_bulk, encode_null, encode_ok, encode_pong, parse_request, ProtocolError,
};

fn v(s: &str) -> Vec<u8> {
    s.as_bytes().to_vec()
}

#[test]
fn parse_simple_request() {
    let toks = parse_request(&v("*2\r\n$4\r\nECHO\r\n$3\r\nhey\r\n")).unwrap();
    assert_eq!(toks, vec![v("ECHO"), v("hey")]);
}

#[test]
fn parse_ignores_trailing_bytes() {
    // a chunk may be longer than the request it carries
    let toks = parse_request(&v("*1\r\n$4\r\nPING\r\n\0\0\0\0")).unwrap();
    assert_eq!(toks, vec![v("PING")]);
}

#[test]
fn parse_empty_array() {
    let toks = parse_request(&v("*0\r\n")).unwrap();
    assert_eq!(toks, Vec::<Vec<u8>>::new());
}

#[test]
fn parse_empty_bulk_string() {
    let toks = parse_request(&v("*1\r\n$0\r\n\r\n")).unwrap();
    assert_eq!(toks, vec![v("")]);
}

#[test]
fn parse_refuses_missing_star() {
    assert_eq!(parse_request(&v("PING\r\n")), Err(ProtocolError::Malformed));
    assert_eq!(parse_request(&v("")), Err(ProtocolError::Malformed));
}

#[test]
fn parse_refuses_bad_count() {
    assert_eq!(parse_request(&v("*x\r\n")), Err(ProtocolError::Malformed));
    assert_eq!(parse_request(&v("*\r\n")), Err(ProtocolError::Malformed));
}

#[test]
fn parse_refuses_truncated_bulk() {
    assert_eq!(parse_request(&v("*1\r\n$4\r\nPI")), Err(ProtocolError::Malformed));
    assert_eq!(parse_request(&v("*2\r\n$4\r\nECHO\r\n")), Err(ProtocolError::Malformed));
}

#[test]
fn parse_refuses_wrong_length() {
    assert_eq!(parse_request(&v("*1\r\n$3\r\nPING\r\n")), Err(ProtocolError::Malformed));
}

#[test]
fn encode_fixed_replies() {
    assert_eq!(encode_null(), v("$-1\r\n"));
    assert_eq!(encode_ok(), v("+OK\r\n"));
    assert_eq!(encode_pong(), v("+PONG\r\n"));
}

#[test]
fn encode_bulk_reply() {
    assert_eq!(encode_bulk(&v("hey")), v("$3\r\nhey\r\n"));
    assert_eq!(encode_bulk(&v("")), v("$0\r\n\r\n"));
    assert_eq!(encode_bulk(&v("twelve chars")), v("$12\r\ntwelve chars\r\n"));
}

#[test]
fn encode_array_reply() {
    assert_eq!(encode_array(&vec![v("dir"), v("/data")]), v("*2\r\n$3\r\ndir\r\n$5\r\n/data\r\n"));
    assert_eq!(encode_array(&Vec::new()), v("*0\r\n"));
}

#[test]
fn request_reply_round_trip() {
    // an encoded array parses back to its items
    let encoded = encode_array(&vec![v("GET"), v("some key")]);
    let toks = parse_request(&encoded).unwrap();
    assert_eq!(toks, vec![v("GET"), v("some key")]);
}
