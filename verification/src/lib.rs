//! A parser-combinator engine with verified contracts.
//!
//! A parser is a function from an [`input::Input`] to a
//! [`result::ParseResult`]: it either matches and hands back the input that is
//! left together with a value, or fails at some point of the input, or
//! reports that it cannot tell without more tokens. The modules build on one
//! another:
//!
//! * [`input`] is the cursor: a borrowed buffer of tokens, an offset, and
//!   snapshots to rewind to.
//! * [`result`] is the three-way outcome and the one place where a parser is
//!   run and its outcome classified.
//! * [`collect`] says what a container must offer to collect repeated
//!   matches.
//! * [`combinators`] builds parsers from parsers: alternatives, optional
//!   parts, repetition, separated lists.
//! * [`buffer`] drives a parser over a source that is consumed parse by
//!   parse, and possibly delivered chunk by chunk.
//!
//! Every function states in its contract what it returns in terms of the
//! outcomes of the parsers it was given, and is proved to meet it.

pub mod buffer;
pub mod collect;
pub mod combinators;
pub mod input;
pub mod prelude;
pub mod result;
