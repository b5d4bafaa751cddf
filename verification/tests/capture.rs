use workspace_validator::execution::capture::OutputTail;

#[test]
fn output_tail_keeps_the_last_bytes_of_the_stream() {
    let mut tail = OutputTail::new(5);
    tail.push(b"abc");
    tail.push(b"defg");
    assert_eq!(tail.finish(), ("cdefg".to_string(), true));
}

#[test]
fn output_tail_within_the_limit_keeps_everything() {
    let mut tail = OutputTail::new(8);
    tail.push(b"ab");
    tail.push(b"");
    tail.push(b"cd");
    assert_eq!(tail.finish(), ("abcd".to_string(), false));
}

#[test]
fn output_tail_of_exactly_the_limit_drops_nothing() {
    let mut tail = OutputTail::new(4);
    tail.push(b"abcd");
    assert_eq!(tail.finish(), ("abcd".to_string(), false));
    let mut tail = OutputTail::new(4);
    tail.push(b"a");
    tail.push(b"bcdef");
    assert_eq!(tail.finish(), ("cdef".to_string(), true));
}

#[test]
fn output_tail_replaces_invalid_utf8() {
    let mut tail = OutputTail::new(16);
    tail.push(&[b'o', b'k', 0xff, b'!']);
    assert_eq!(tail.finish(), ("ok\u{fffd}!".to_string(), false));
    let mut tail = OutputTail::new(2);
    tail.push("é".as_bytes());
    tail.push(b"x");
    assert_eq!(tail.finish(), ("\u{fffd}x".to_string(), true));
}
