use vstd::prelude::*;
use crate::badges::ParseError;

verus! {

/// What can go wrong; failures of outside services carry their message.
pub enum Error {
    /// An unknown identifier, an identifier already in use, or a missing channel.
    NotFound,
    Regex(String),
    Query(String),
    State(String),
    Parse(String),
    IO(String),
    Reqwest(String),
    BadgeParse(ParseError),
}

} // verus!
