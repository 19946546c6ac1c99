//! A first-order Markov chain text generator: a tokenizer, a counted
//! transition model over word tokens, and a walk that samples it.

pub mod chain;
pub mod generator;
pub mod tokenizer;

pub use chain::Chain;
pub use generator::{gen, ingest};
pub use tokenizer::split;

use vstd::prelude::*;

verus! {

/// What generation can fail with.
#[derive(Debug, PartialEq)]
pub enum MarkovErr {
    /// Reserved; never raised.
    Error,
    /// Reserved; never raised.
    NotImplemented,
    /// A successor was asked of a token with no outgoing transitions.
    NotSeen { w: String },
}

} // verus!
