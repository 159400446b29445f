use riffle::bencode::{
    bytes_eq, parse_bytes, parse_int, parse_u64, push_bytes, push_int, skip_value,
};

#[test]
fn integers_encode_minimally() {
    let mut out = Vec::new();
    push_int(&mut out, 0);
    push_int(&mut out, 42);
    push_int(&mut out, -7);
    assert_eq!(out, b"i0ei42ei-7e".to_vec());
}

#[test]
fn integers_parse_back() {
    let buf = b"i0ei42ei-7e".to_vec();
    let (a, p) = parse_int(&buf, 0).expect("canonical");
    assert_eq!(a, 0);
    let (b, p) = parse_int(&buf, p).expect("canonical");
    assert_eq!(b, 42);
    let (c, p) = parse_int(&buf, p).expect("canonical");
    assert_eq!(c, -7);
    assert_eq!(p, buf.len());
}

#[test]
fn non_minimal_integers_are_rejected() {
    assert!(parse_int(b"i042e", 0).is_none());
    assert!(parse_int(b"i-0e", 0).is_none());
    assert!(parse_int(b"ie", 0).is_none());
    assert!(parse_u64(b"007", 0).is_none());
}

#[test]
fn byte_strings_round_trip() {
    let mut out = Vec::new();
    push_bytes(&mut out, b"spam");
    push_bytes(&mut out, b"");
    assert_eq!(out, b"4:spam0:".to_vec());
    let (s, p) = parse_bytes(&out, 0).expect("canonical");
    assert_eq!(s, b"spam".to_vec());
    let (e, p2) = parse_bytes(&out, p).expect("canonical");
    assert!(e.is_empty());
    assert_eq!(p2, out.len());
}

#[test]
fn truncated_byte_strings_fail() {
    assert!(parse_bytes(b"9:abc", 0).is_none());
    assert!(parse_bytes(b"4spam", 0).is_none());
}

#[test]
fn skipping_passes_whole_values() {
    let buf = b"d3:fooi1e3:barl1:a1:bee".to_vec();
    assert_eq!(skip_value(&buf, 0), Some(buf.len()));
    assert_eq!(skip_value(&buf, 1), Some(6)); // the key "foo"
    assert!(skip_value(b"l1:a", 0).is_none());
}

#[test]
fn slice_equality() {
    assert!(bytes_eq(b"abc", b"abc"));
    assert!(!bytes_eq(b"abc", b"abd"));
    assert!(!bytes_eq(b"abc", b"ab"));
}
