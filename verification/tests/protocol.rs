use mymq_rs::broker::Broker;
use mymq_rs::protocol::{can_serve, decimal_text, handle_line, handle_line_at, is_space_char, join_from, parse_u64, split_words};

#[test]
fn words_split_on_any_whitespace() {
    let words = split_words("  PUBLISH\torders  hello\u{3000}world \n");
    assert_eq!(words, vec!["PUBLISH", "orders", "hello", "world"]);
    assert!(split_words(" \r\n").is_empty());
    assert_eq!(split_words("a"), vec!["a"]);
}

#[test]
fn whitespace_matches_std() {
    for u in 0u32..0x3100 {
        if let Some(c) = char::from_u32(u) {
            assert_eq!(is_space_char(c), c.is_whitespace(), "{:x}", u);
        }
    }
}

#[test]
fn numbers_parse_like_std() {
    for s in ["0", "7", "+7", "42", "007", "18446744073709551615", "18446744073709551616", "", "+", "-1", "1a", "++1", " 1", "١"] {
        assert_eq!(parse_u64(s), s.parse::<u64>().ok(), "{:?}", s);
    }
}

#[test]
fn decimal_text_matches_display() {
    for n in [0u64, 1, 9, 10, 99, 100, 12345, u64::MAX] {
        assert_eq!(decimal_text(n), n.to_string());
        assert_eq!(parse_u64(&decimal_text(n)), Some(n));
    }
}

#[test]
fn join_from_joins_with_single_spaces() {
    let words = split_words("PUBLISH t  a   b c");
    assert_eq!(join_from(&words, 2), "a b c");
    assert_eq!(join_from(&words, 5), "");
}

#[test]
fn a_session_over_the_text_protocol() {
    let mut b = Broker::new();
    assert_eq!(handle_line(&mut b, "SUBSCRIBE orders A\n"), "OK\n");
    assert_eq!(handle_line(&mut b, "PUBLISH orders order  001\n"), "OK 1\n");
    assert_eq!(handle_line(&mut b, "DEQUEUE orders A\n"), "MSG 1 order 001 \n");
    assert_eq!(handle_line(&mut b, "DEQUEUE orders A\n"), "EMPTY\n");
    assert_eq!(handle_line(&mut b, "NACK orders A 1\n"), "OK\n");
    assert_eq!(handle_line(&mut b, "DEQUEUE orders A\n"), "MSG 1 order 001 \n");
    assert_eq!(handle_line(&mut b, "ACK orders A +1\n"), "OK\n");
    assert_eq!(handle_line(&mut b, "ACK orders A 1\n"), "FAIL\n");
    assert_eq!(handle_line(&mut b, "ACK orders A x\n"), "FAIL\n");
}

#[test]
fn malformed_requests() {
    let mut b = Broker::new();
    assert_eq!(handle_line(&mut b, "\n"), "ERR need more args\n");
    assert_eq!(handle_line(&mut b, "PUBLISH orders\n"), "ERR need more args\n");
    assert_eq!(handle_line(&mut b, "publish orders x\n"), "ERR unknown cmd\n");
    assert_eq!(handle_line_at(&mut b, "DEQUEUE nowhere A", 5), "EMPTY\n");
    // a publish to a topic without subscribers still issues an identifier
    assert_eq!(handle_line_at(&mut b, "PUBLISH nowhere x", 5), "OK 1\n");
}

#[test]
fn settle_request_without_identifier_cannot_be_served() {
    let b = Broker::new();
    assert!(!can_serve(&b, "ACK orders A\n"));
    assert!(!can_serve(&b, "NACK orders A"));
    assert!(can_serve(&b, "ACK orders A 1"));
    assert!(can_serve(&b, "FOO orders A"));
    assert!(can_serve(&b, "ACK"));
}
