//! Joker-aware poker hand categories, and the tally that estimates by random
//! sampling how often each of them turns up in a hand.
//!
//! A hand is a slice of real cards together with a number of jokers. Each
//! category is a predicate on both: `card` holds the cards and their
//! histograms; `kinds`, `pairs`, `flush`, `straight` and `suited` hold the
//! categories, each as a predicate in closed form and a function that decides it;
//! `wildcards` proves that the closed forms say what trying every card for
//! every joker would say, and `laws` what else holds of them whatever the
//! hand.
//!
//! `deck` builds the deck, `sample` draws hands from it and counts them in a
//! `tally`, which also tells when the counts are far enough apart to stop;
//! `report` puts the counts in the order in which they are shown. `inline_vec`
//! and `wide` serve the others: the first holds what is taken on trust about
//! the vector that keeps a hand on the stack, the second the 256-bit
//! arithmetic that comparing confidence intervals takes.

pub mod card;
pub mod deck;
pub mod flush;
pub mod inline_vec;
pub mod kinds;
pub mod laws;
pub mod pairs;
pub mod report;
pub mod sample;
pub mod straight;
pub mod suited;
pub mod tally;
pub mod wide;
pub mod wildcards;
