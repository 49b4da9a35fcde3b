use chomp1::collect::{Collector, Discard};
use chomp1::prelude::{many, Input, ParseResult};

fn any<'a>(mut i: Input<'a, u8>) -> ParseResult<'a, u8, u8, ()> {
    match i.pop() {
        Some(t) => ParseResult::Success(i, t),
        None => ParseResult::Error(i, ()),
    }
}

#[test]
fn a_vector_starts_empty() {
    let v = <Vec<u8> as Collector<u8>>::start();
    assert!(v.is_empty());
}

#[test]
fn a_vector_collects_in_order() {
    let mut v = <Vec<u8> as Collector<u8>>::start();
    Collector::append(&mut v, 3);
    Collector::append(&mut v, 1);
    Collector::append(&mut v, 2);
    assert_eq!(v, vec![3, 1, 2]);
}

#[test]
fn discard_accepts_items() {
    let mut d = <Discard<u8> as Collector<u8>>::start();
    d.append(1);
    d.append(2);
}

#[test]
fn many_collects_into_a_vector() {
    let r: ParseResult<u8, Vec<u8>, ()> = many(Input::new(b"xyz"), any);
    match r {
        ParseResult::Success(rest, items) => {
            assert_eq!(items, b"xyz".to_vec());
            assert!(rest.is_empty());
        }
        other => panic!("unexpected {:?}", other),
    }
}

#[test]
fn many_collects_into_a_discarding_collector() {
    let r: ParseResult<u8, Discard<u8>, ()> = many(Input::new(b"xyz"), any);
    match r {
        ParseResult::Success(rest, _) => assert_eq!(rest.offset(), 3),
        ParseResult::Error(_, _) => panic!("unexpected failure"),
        ParseResult::Incomplete(_) => panic!("unexpected incomplete"),
    }
}
