use chomp1::input::Input;

#[test]
fn new_input_starts_at_the_beginning() {
    let i = Input::new(b"abc");
    assert_eq!(i.len(), 3);
    assert_eq!(i.offset(), 0);
    assert!(!i.is_empty());
    assert!(!i.is_partial());
    assert!(!i.is_incomplete());
}

#[test]
fn partial_input_is_marked_partial() {
    let i = Input::partial(b"abc");
    assert_eq!(i.len(), 3);
    assert!(i.is_partial());
    assert!(!i.is_incomplete());
}

#[test]
fn empty_input_is_empty() {
    let i = Input::<u8>::new(b"");
    assert_eq!(i.len(), 0);
    assert!(i.is_empty());
}

#[test]
fn peek_does_not_consume() {
    let mut i = Input::new(b"ab");
    assert_eq!(i.peek(), Some(b'a'));
    assert_eq!(i.peek(), Some(b'a'));
    assert_eq!(i.offset(), 0);
    assert_eq!(i.len(), 2);
}

#[test]
fn pop_consumes_one_token() {
    let mut i = Input::new(b"ab");
    assert_eq!(i.pop(), Some(b'a'));
    assert_eq!(i.offset(), 1);
    assert_eq!(i.pop(), Some(b'b'));
    assert_eq!(i.offset(), 2);
    assert_eq!(i.pop(), None);
    assert_eq!(i.offset(), 2);
}

#[test]
fn running_out_of_a_complete_input_is_not_incomplete() {
    let mut i = Input::new(b"a");
    assert_eq!(i.pop(), Some(b'a'));
    assert_eq!(i.pop(), None);
    assert_eq!(i.peek(), None);
    assert_eq!(i.consume(1), None);
    assert!(!i.is_incomplete());
}

#[test]
fn running_out_of_a_partial_input_is_incomplete() {
    let mut i = Input::partial(b"a");
    assert_eq!(i.pop(), Some(b'a'));
    assert!(!i.is_incomplete());
    assert_eq!(i.pop(), None);
    assert!(i.is_incomplete());

    let mut j = Input::partial(b"");
    assert_eq!(j.peek(), None);
    assert!(j.is_incomplete());

    let mut k = Input::partial(b"ab");
    assert_eq!(k.consume(3), None);
    assert!(k.is_incomplete());
    assert_eq!(k.offset(), 0);
}

#[test]
fn consume_takes_exactly_n() {
    let mut i = Input::new(b"abcde");
    assert_eq!(i.consume(2), Some(&b"ab"[..]));
    assert_eq!(i.offset(), 2);
    assert_eq!(i.consume(0), Some(&b""[..]));
    assert_eq!(i.consume(3), Some(&b"cde"[..]));
    assert_eq!(i.offset(), 5);
    assert_eq!(i.consume(1), None);
    assert_eq!(i.offset(), 5);
}

#[test]
fn consume_while_stops_at_the_first_rejected_token() {
    let mut i = Input::partial(b"aab");
    assert_eq!(i.consume_while(|c| c == b'a'), &b"aa"[..]);
    assert_eq!(i.offset(), 2);
    assert!(!i.is_incomplete());
    assert_eq!(i.consume_while(|c| c == b'a'), &b""[..]);
    assert_eq!(i.offset(), 2);
    assert!(!i.is_incomplete());
}

#[test]
fn consume_while_to_the_end_of_a_partial_input_is_incomplete() {
    let mut i = Input::partial(b"aaa");
    assert_eq!(i.consume_while(|c| c == b'a'), &b"aaa"[..]);
    assert_eq!(i.offset(), 3);
    assert!(i.is_incomplete());

    let mut j = Input::new(b"aaa");
    assert_eq!(j.consume_while(|c| c == b'a'), &b"aaa"[..]);
    assert_eq!(j.offset(), 3);
    assert!(!j.is_incomplete());
}

#[test]
fn consume_remaining_takes_the_tail_and_changes_only_the_offset() {
    let mut i = Input::partial(b"abcd");
    assert_eq!(i.pop(), Some(b'a'));
    assert_eq!(i.consume_remaining(), &b"bcd"[..]);
    assert_eq!(i.offset(), 4);
    assert!(i.is_empty());
    assert!(i.is_partial());
    assert!(!i.is_incomplete());
    assert_eq!(i.consume_remaining(), &b""[..]);
}

#[test]
fn consume_from_gives_what_was_consumed_since_the_mark() {
    let mut i = Input::new(b"abcdef");
    assert_eq!(i.pop(), Some(b'a'));
    let m = i.mark();
    assert_eq!(i.consume_from(m), &b""[..]);
    assert_eq!(i.consume(3), Some(&b"bcd"[..]));
    assert_eq!(i.consume_from(m), &b"bcd"[..]);
    assert_eq!(i.offset(), 4);
}

#[test]
fn restore_returns_to_the_marked_state() {
    let mut s = Input::partial(b"abc");
    assert_eq!(s.pop(), Some(b'a'));
    let m = s.mark();
    let mut x = s;
    assert_eq!(x.consume(2), Some(&b"bc"[..]));
    assert_eq!(x.pop(), None);
    assert!(x.is_incomplete());
    let mut r = x.restore(m);
    assert_eq!(r.offset(), 1);
    assert_eq!(r.len(), 2);
    assert!(r.is_partial());
    assert!(!r.is_incomplete());
    assert_eq!(r.consume_remaining(), &b"bc"[..]);
}

#[test]
fn restore_of_an_untouched_input_is_the_identity() {
    let s = Input::new(b"abc");
    let expected = Input::new(b"abc");
    let m = s.mark();
    assert_eq!(s.restore(m), expected);
}

#[test]
fn mark_at_the_end_restores_to_the_end() {
    let mut s = Input::new(b"ab");
    assert_eq!(s.consume(2), Some(&b"ab"[..]));
    let m = s.mark();
    let r = s.restore(m);
    assert_eq!(r.offset(), 2);
    assert!(r.is_empty());
}

#[test]
fn restoring_twice_is_restoring_once() {
    let mut s = Input::new(b"abcd");
    assert_eq!(s.pop(), Some(b'a'));
    let m = s.mark();
    assert_eq!(s.consume(2), Some(&b"bc"[..]));
    let once = s.restore(m);
    assert_eq!(once.offset(), 1);
    let mut again = once.restore(m);
    assert_eq!(again.offset(), 1);
    assert_eq!(again.pop(), Some(b'b'));
    let third = again.restore(m);
    assert_eq!(third.offset(), 1);
    assert_eq!(third.len(), 3);
}

#[test]
fn a_mark_carries_its_own_buffer() {
    let s = Input::new(b"abc");
    let m = s.mark();
    let mut other = Input::new(b"x");
    assert_eq!(other.pop(), Some(b'x'));
    let mut r = other.restore(m);
    assert_eq!(r.offset(), 0);
    assert_eq!(r.consume_remaining(), &b"abc"[..]);
}

#[test]
fn inputs_over_other_tokens_than_bytes() {
    let words = ["let", "x", "=", "1"];
    let mut i = Input::new(&words[..]);
    assert_eq!(i.pop(), Some("let"));
    assert_eq!(i.consume_while(|w| w != "="), &["x"][..]);
    assert_eq!(i.len(), 2);
}

#[test]
fn a_mark_gives_back_the_input_it_was_taken_from() {
    let mut s = Input::partial(b"abc");
    assert_eq!(s.pop(), Some(b'a'));
    let m = s.mark();
    assert_eq!(s.consume(5), None);
    assert!(s.is_incomplete());
    let r = m.input();
    assert_eq!(r.offset(), 1);
    assert_eq!(r.len(), 2);
    assert!(r.is_partial());
    assert!(!r.is_incomplete());
}
