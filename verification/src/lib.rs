//! A fixed-order Markov chain over token sequences: it learns which tokens
//! tend to follow a run of `order` preceding tokens, generates new token
//! sequences by weighted random sampling from those learned continuations,
//! and persists a trained model in a self-contained binary form.

pub mod chain;
pub mod codec;
pub mod generate;
pub mod model;

pub use chain::MarkovChain;
