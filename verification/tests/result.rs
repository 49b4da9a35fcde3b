use chomp1::input::Input;
use chomp1::result::{run, ParseResult};

fn any<'a>(mut i: Input<'a, u8>) -> ParseResult<'a, u8, u8, &'static str> {
    match i.pop() {
        Some(t) => ParseResult::Success(i, t),
        None => ParseResult::Error(i, "end of input"),
    }
}

fn refuse<'a>(i: Input<'a, u8>) -> ParseResult<'a, u8, u8, &'static str> {
    ParseResult::Error(i, "refused")
}

fn hungry<'a>(_i: Input<'a, u8>) -> ParseResult<'a, u8, u8, &'static str> {
    ParseResult::Incomplete(Some(4))
}

#[test]
fn classify_keeps_a_success() {
    let mut i = Input::partial(b"a");
    assert_eq!(i.pop(), Some(b'a'));
    assert_eq!(i.pop(), None);
    assert!(i.is_incomplete());
    let r: ParseResult<u8, u8, ()> = ParseResult::Success(i, 7);
    match r.classify() {
        ParseResult::Success(rest, v) => {
            assert_eq!(v, 7);
            assert_eq!(rest.offset(), 1);
            assert!(rest.is_incomplete());
        }
        other => panic!("unexpected {:?}", other),
    }
}

#[test]
fn classify_keeps_a_definite_error() {
    let i = Input::partial(b"a");
    let r: ParseResult<u8, (), u8> = ParseResult::Error(i, 3);
    assert_eq!(r.classify(), ParseResult::Error(Input::partial(b"a"), 3));
}

#[test]
fn classify_turns_an_error_at_the_end_of_partial_data_into_incomplete() {
    let mut i = Input::partial(b"");
    assert_eq!(i.peek(), None);
    let r: ParseResult<u8, (), u8> = ParseResult::Error(i, 3);
    assert_eq!(r.classify(), ParseResult::Incomplete(None));
}

#[test]
fn classify_keeps_incomplete_and_its_hint() {
    let r: ParseResult<u8, (), u8> = ParseResult::Incomplete(Some(2));
    assert_eq!(r.classify(), ParseResult::Incomplete(Some(2)));
    let n: ParseResult<u8, (), u8> = ParseResult::Incomplete(None);
    assert_eq!(n.classify(), ParseResult::Incomplete(None));
}

#[test]
fn run_passes_a_success_on() {
    match run(any, Input::new(b"ab")) {
        ParseResult::Success(rest, v) => {
            assert_eq!(v, b'a');
            assert_eq!(rest.offset(), 1);
        }
        other => panic!("unexpected {:?}", other),
    }
}

#[test]
fn run_passes_a_definite_error_on() {
    assert_eq!(run(refuse, Input::partial(b"ab")), ParseResult::Error(Input::partial(b"ab"), "refused"));
    match run(any, Input::new(b"")) {
        ParseResult::Error(rest, e) => {
            assert_eq!(e, "end of input");
            assert_eq!(rest.offset(), 0);
        }
        other => panic!("unexpected {:?}", other),
    }
}

#[test]
fn run_reports_incomplete_when_partial_data_ran_out() {
    assert_eq!(run(any, Input::partial(b"")), ParseResult::Incomplete(None));
}

#[test]
fn run_passes_incomplete_on() {
    assert_eq!(run(hungry, Input::new(b"ab")), ParseResult::Incomplete(Some(4)));
}

#[test]
fn run_calls_the_parser_exactly_once() {
    let mut calls = 0;
    let r = run(
        |i: Input<u8>| {
            calls += 1;
            any(i)
        },
        Input::new(b"ab"),
    );
    assert!(matches!(r, ParseResult::Success(_, b'a')));
    assert_eq!(calls, 1);
}
