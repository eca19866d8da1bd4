//! A bounded, reversible, order-N Markov text model.
//!
//! The model learns character-level transition statistics from a rolling
//! window of recently digested strings and generates new strings by a
//! weighted random walk through those statistics.  Learning is exactly
//! reversible: the contribution of the oldest string is subtracted when the
//! history bound is exceeded, so the table always equals the superposition
//! of the strings currently held in the history queue.

pub mod chain;
mod rng;
pub mod symbol;

pub use chain::MarkovChain;
pub use chain::MarkovEntry;
pub use symbol::Symbol;
pub use symbol::Token;
