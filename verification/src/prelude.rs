//! The names that most grammars need, in one place.

pub use crate::buffer::{ChunkStream, SliceStream, StreamError};
pub use crate::collect::{Collector, Discard};
pub use crate::combinators::{
    count, either_of, many, many1, many_till, matched_by, option, or, sep_by, sep_by1, skip_many,
    skip_many1,
};
pub use crate::input::{Input, Mark};
pub use crate::result::{run, ParseResult};
pub use either::Either;
