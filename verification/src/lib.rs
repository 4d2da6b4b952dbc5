//! A Monte Carlo tree search engine for a Wordle-style guessing game.
//!
//! The library models the set of dictionary words still consistent with the
//! feedback seen so far, evaluates feedback for a guess against an assumed
//! solution, and refines per-solution game trees with MCTS.  Search statistics
//! are kept in a persisted state space keyed by (candidate set, word) and can
//! be merged across independent explorations.

pub mod cache;
pub mod guess;
pub mod math;
pub mod mcts;
pub mod numtext;
pub mod state;
pub mod word;
