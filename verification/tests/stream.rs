use chomp1::buffer::{ChunkStream, SliceStream, StreamError};
use chomp1::combinators::{many, sep_by};
use chomp1::input::Input;
use chomp1::result::ParseResult;

type Res<'a, T> = ParseResult<'a, u8, T, &'static str>;

#[derive(Debug, PartialEq, Eq)]
struct Request<'a> {
    method: &'a [u8],
    uri: &'a [u8],
    version: &'a [u8],
}

fn any<'a>(mut i: Input<'a, u8>) -> Res<'a, u8> {
    match i.pop() {
        Some(t) => ParseResult::Success(i, t),
        None => ParseResult::Error(i, "unexpected end"),
    }
}

fn token<'a>(mut i: Input<'a, u8>, t: u8) -> Res<'a, u8> {
    match i.peek() {
        Some(c) if c == t => {
            i.pop();
            ParseResult::Success(i, c)
        }
        _ => ParseResult::Error(i, "unexpected token"),
    }
}

fn take<'a>(mut i: Input<'a, u8>, n: usize) -> Res<'a, &'a [u8]> {
    match i.consume(n) {
        Some(b) => ParseResult::Success(i, b),
        None => ParseResult::Error(i, "too short"),
    }
}

fn take_while1<'a>(mut i: Input<'a, u8>, accept: fn(u8) -> bool) -> Res<'a, &'a [u8]> {
    let b = i.consume_while(accept);
    if b.is_empty() {
        ParseResult::Error(i, "expected at least one")
    } else {
        ParseResult::Success(i, b)
    }
}

fn string<'a>(mut i: Input<'a, u8>, s: &'static [u8]) -> Res<'a, &'a [u8]> {
    let m = i.mark();
    for &expected in s {
        match i.peek() {
            Some(c) if c == expected => {
                i.pop();
            }
            _ => return ParseResult::Error(i, "expected a literal"),
        }
    }
    let b = i.consume_from(m);
    ParseResult::Success(i, b)
}

fn is_token(c: u8) -> bool {
    c.is_ascii_alphabetic()
}

fn is_space(c: u8) -> bool {
    c == b' '
}

fn is_not_space(c: u8) -> bool {
    c != b' '
}

fn is_http_version(c: u8) -> bool {
    c.is_ascii_digit() || c == b'.'
}

/// `f` then `x`, or the first verdict that is not a match.
fn then<'a, T, U>(
    r: Res<'a, T>,
    f: impl FnOnce(Input<'a, u8>) -> Res<'a, U>,
) -> Res<'a, (T, U)> {
    match r {
        ParseResult::Success(i, t) => match f(i) {
            ParseResult::Success(i, u) => ParseResult::Success(i, (t, u)),
            ParseResult::Error(i, e) => ParseResult::Error(i, e),
            ParseResult::Incomplete(n) => ParseResult::Incomplete(n),
        },
        ParseResult::Error(i, e) => ParseResult::Error(i, e),
        ParseResult::Incomplete(n) => ParseResult::Incomplete(n),
    }
}

fn request_line<'a>(i: Input<'a, u8>) -> Res<'a, Request<'a>> {
    let method = take_while1(i, is_token);
    let sp1 = then(method, |i| take_while1(i, is_space));
    let uri = then(sp1, |i| take_while1(i, is_not_space));
    let sp2 = then(uri, |i| take_while1(i, is_space));
    let http = then(sp2, |i| string(i, b"HTTP/"));
    let version = then(http, |i| take_while1(i, is_http_version));
    match version {
        ParseResult::Success(i, (((((method, _), uri), _), _), version)) => {
            ParseResult::Success(i, Request { method, uri, version })
        }
        ParseResult::Error(i, e) => ParseResult::Error(i, e),
        ParseResult::Incomplete(n) => ParseResult::Incomplete(n),
    }
}

fn hungry<'a>(_i: Input<'a, u8>) -> Res<'a, u8> {
    ParseResult::Incomplete(Some(1))
}

fn all<'a>(i: Input<'a, u8>) -> Res<'a, Vec<&'a [u8]>> {
    many(i, f_then_two)
}

fn letters<'a>(i: Input<'a, u8>) -> Res<'a, Vec<u8>> {
    sep_by(
        i,
        |i| match take_while1(i, is_token) {
            ParseResult::Success(i, b) if b.len() == 1 => ParseResult::Success(i, b[0]),
            ParseResult::Success(i, _) => ParseResult::Error(i, "one letter at a time"),
            ParseResult::Error(i, e) => ParseResult::Error(i, e),
            ParseResult::Incomplete(n) => ParseResult::Incomplete(n),
        },
        |i| token(i, b','),
    )
}

fn f_then_two<'a>(i: Input<'a, u8>) -> Res<'a, &'a [u8]> {
    match token(i, b'f') {
        ParseResult::Success(i, _) => take(i, 2),
        ParseResult::Error(i, e) => ParseResult::Error(i, e),
        ParseResult::Incomplete(n) => ParseResult::Incomplete(n),
    }
}

// SliceStream

#[test]
fn slice_stream_reports_length() {
    let s = SliceStream::new(b"foo");
    assert_eq!(s.len(), 3);
    assert!(!s.is_empty());
    let e = SliceStream::<u8>::new(b"");
    assert_eq!(e.len(), 0);
    assert!(e.is_empty());
}

#[test]
fn slice_stream_parses_a_sequence() {
    let r = SliceStream::new(b"foo").parse(f_then_two);
    assert_eq!(r, Ok(&b"oo"[..]));
}

#[test]
fn slice_stream_parses_a_repetition() {
    let mut s = SliceStream::new(b"foofoo");
    let r = s.parse(|i| many::<_, _, _, Vec<&[u8]>, _>(i, f_then_two));
    assert_eq!(r, Ok(vec![&b"oo"[..], &b"oo"[..]]));
    assert_eq!(s.len(), 0);
    assert!(s.is_empty());
}

#[test]
fn slice_stream_parses_a_repetition_that_stops_before_the_end() {
    let mut s = SliceStream::new(b"foofoo!");
    let r = s.parse(|i| many::<_, _, _, Vec<&[u8]>, _>(i, f_then_two));
    assert_eq!(r, Ok(vec![&b"oo"[..], &b"oo"[..]]));
    assert_eq!(s.len(), 1);
}

#[test]
fn slice_stream_parses_a_list_with_a_trailing_separator() {
    let mut s = SliceStream::new(b"a,b,");
    let r = s.parse(letters);
    assert_eq!(r, Ok(vec![b'a', b'b']));
    assert_eq!(s.len(), 1);
    assert_eq!(s.parse(any), Ok(b','));
    assert!(s.is_empty());
}

#[test]
fn slice_stream_parses_a_list_that_ends_with_the_slice() {
    let mut s = SliceStream::new(b"a,b,c");
    let r = s.parse(letters);
    assert_eq!(r, Ok(vec![b'a', b'b', b'c']));
    assert_eq!(s.len(), 0);
    assert!(s.is_empty());
}

#[test]
fn slice_stream_after_a_repetition_the_parser_matches_no_more() {
    let mut s = SliceStream::new(b"foofoofx");
    let r = s.parse(|i| many::<_, _, _, Vec<&[u8]>, _>(i, f_then_two));
    assert_eq!(r, Ok(vec![&b"oo"[..], &b"oo"[..]]));
    assert_eq!(s.len(), 2);
    assert_eq!(s.parse(f_then_two), Err(StreamError::Incomplete));
    assert_eq!(s.len(), 2);
}

#[test]
fn slice_stream_empty_accepts_any_parser() {
    let mut s = SliceStream::<u8>::new(b"");
    assert_eq!(s.parse(f_then_two), Err(StreamError::EndOfInput));
    assert_eq!(s.parse(letters), Err(StreamError::EndOfInput));
}

#[test]
fn slice_stream_commits_what_was_consumed() {
    let mut s = SliceStream::new(b"fo");
    assert_eq!(s.parse(any), Ok(b'f'));
    assert_eq!(s.len(), 1);
    assert_eq!(s.parse(any), Ok(b'o'));
    assert_eq!(s.len(), 0);
    assert!(s.is_empty());
}

#[test]
fn slice_stream_at_its_end_does_not_run_the_parser() {
    let mut s = SliceStream::new(b"f");
    assert_eq!(s.parse(any), Ok(b'f'));
    let mut called = false;
    let r = s.parse(|i| {
        called = true;
        any(i)
    });
    assert_eq!(r, Err(StreamError::EndOfInput));
    assert!(!called);
    assert_eq!(s.len(), 0);
}

#[test]
fn slice_stream_reports_a_parse_error_with_the_unconsumed_tail() {
    let mut s = SliceStream::new(b"faxyz");
    let r = s.parse(|i| match token(i, b'f') {
        ParseResult::Success(i, _) => match token(i, b'a') {
            ParseResult::Success(i, _) => token(i, b'b'),
            other => other,
        },
        other => other,
    });
    assert_eq!(r, Err(StreamError::ParseError(&b"xyz"[..], "unexpected token")));
    assert_eq!(s.len(), 3);
    assert_eq!(s.parse(any), Ok(b'x'));
}

#[test]
fn slice_stream_reports_incomplete_and_commits_nothing() {
    let mut s = SliceStream::new(b"fo");
    assert_eq!(s.parse(f_then_two), Err(StreamError::Incomplete));
    assert_eq!(s.len(), 2);
    assert_eq!(s.parse(any), Ok(b'f'));
    assert_eq!(s.len(), 1);
}

#[test]
fn slice_stream_hands_out_a_partial_input_from_the_start() {
    let mut s = SliceStream::new(b"abc");
    assert_eq!(s.parse(any), Ok(b'a'));
    let r = s.parse(|i| {
        let seen = (i.offset(), i.len(), i.is_partial(), i.is_incomplete());
        ParseResult::<u8, _, ()>::Success(i, seen)
    });
    assert_eq!(r, Ok((0, 2, true, false)));
    assert_eq!(s.len(), 2);
}

// ChunkStream

#[test]
fn chunk_stream_starts_empty_and_open() {
    let s = ChunkStream::<u8>::new();
    assert_eq!(s.len(), 0);
    assert!(s.is_empty());
    assert!(!s.is_exhausted());
}

#[test]
fn chunk_stream_buffers_what_is_fed() {
    let mut s = ChunkStream::new();
    s.feed(b"ab");
    assert_eq!(s.len(), 2);
    s.feed(b"");
    assert_eq!(s.len(), 2);
    s.feed(b"cde");
    assert_eq!(s.len(), 5);
    assert_eq!(s.parse(|i| take(i, 5)), Ok(&b"abcde"[..]));
    assert_eq!(s.len(), 0);
}

#[test]
fn chunk_stream_feeds_behind_what_is_unconsumed() {
    let mut s = ChunkStream::new();
    s.feed(b"abc");
    assert_eq!(s.parse(any), Ok(b'a'));
    s.feed(b"de");
    assert_eq!(s.len(), 4);
    assert_eq!(s.parse(|i| take(i, 4)), Ok(&b"bcde"[..]));
}

#[test]
fn chunk_stream_request_line_in_two_chunks() {
    let mut s = ChunkStream::new();
    s.feed(b"GET /");
    assert_eq!(s.parse(request_line), Err(StreamError::Incomplete));
    assert_eq!(s.len(), 5);
    s.feed(b" HTTP/1.1\r\n\r\n");
    assert_eq!(s.len(), 18);
    assert_eq!(
        s.parse(request_line),
        Ok(Request { method: b"GET", uri: b"/", version: b"1.1" })
    );
    assert_eq!(s.len(), 4);
    assert_eq!(s.parse(|i| take(i, 4)), Ok(&b"\r\n\r\n"[..]));
    assert_eq!(s.len(), 0);
}

#[test]
fn chunk_stream_empty_and_open_asks_for_more() {
    let mut s = ChunkStream::new();
    assert_eq!(s.parse(any), Err(StreamError::Incomplete));
    s.feed(b"x");
    assert_eq!(s.parse(any), Ok(b'x'));
    assert_eq!(s.parse(any), Err(StreamError::Incomplete));
}

#[test]
fn chunk_stream_exhausted_does_not_run_the_parser() {
    let mut s = ChunkStream::new();
    s.feed(b"x");
    s.finish();
    assert!(!s.is_exhausted());
    assert_eq!(s.parse(any), Ok(b'x'));
    assert!(s.is_exhausted());
    let mut called = false;
    let r = s.parse(|i| {
        called = true;
        any(i)
    });
    assert_eq!(r, Err(StreamError::EndOfInput));
    assert!(!called);
}

#[test]
fn chunk_stream_finished_hands_out_a_complete_input() {
    let mut s = ChunkStream::new();
    s.feed(b"fo");
    assert_eq!(s.parse(f_then_two), Err(StreamError::Incomplete));
    s.finish();
    assert_eq!(s.parse(f_then_two), Err(StreamError::ParseError(&b"o"[..], "too short")));
    assert_eq!(s.len(), 1);
}

#[test]
fn chunk_stream_finished_turns_incomplete_into_end_of_input() {
    let mut s = ChunkStream::new();
    s.feed(b"fo");
    assert_eq!(s.parse(hungry), Err(StreamError::Incomplete));
    s.finish();
    assert_eq!(s.parse(hungry), Err(StreamError::EndOfInput));
    assert_eq!(s.len(), 2);
    assert!(!s.is_exhausted());
}

#[test]
fn chunk_stream_many_yields_what_the_chunk_holds() {
    let mut s = ChunkStream::new();
    s.feed(b"fo");
    assert_eq!(s.parse(all), Err(StreamError::Incomplete));
    assert_eq!(s.len(), 2);
    s.feed(b"ofo");
    assert_eq!(s.parse(all), Ok(vec![&b"oo"[..]]));
    assert_eq!(s.len(), 2);
    s.feed(b"o");
    s.finish();
    assert_eq!(s.parse(all), Ok(vec![&b"oo"[..]]));
    assert!(s.is_exhausted());
}

#[test]
fn chunk_stream_list_on_a_finished_source() {
    let mut s = ChunkStream::new();
    s.feed(b"a,");
    s.feed(b"b,");
    s.finish();
    assert_eq!(s.parse(letters), Ok(vec![b'a', b'b']));
    assert_eq!(s.len(), 1);
}

#[test]
fn chunk_stream_reports_a_parse_error_with_the_unconsumed_tail() {
    let mut s = ChunkStream::new();
    s.feed(b"GET / FTP/1\r\n");
    assert_eq!(
        s.parse(request_line),
        Err(StreamError::ParseError(&b"FTP/1\r\n"[..], "expected a literal"))
    );
    assert_eq!(s.len(), 7);
}
