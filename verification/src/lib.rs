//! Help with a word-guessing puzzle: from the guesses made so far and the
//! feedback for their letters to the words that are still possible, ranked by
//! how much each has in common with the others.
//!
//! - [`worker::determine_inferences`] reads the rows of the board and gathers
//!   what they say about the hidden word.
//! - [`Engine::evaluate`] keeps the words of its pool that meet every
//!   inference and gives each its [`Overlap`] with all of them.
//! - [`rank::rank`] sorts the scored words and keeps the first few.
//! - [`worker::Worker`] puts the three together, and [`state::Model`] holds
//!   the board between the events of the page.
//!
//! Every function is verified against its contract. The contracts speak of
//! words as sequences of characters; [`theorems`] holds what follows from
//! them for every pool and every set of inferences.

pub mod alphabet;
pub mod engine;
pub mod inference;
pub mod model;
pub mod overlap;
pub mod rank;
pub mod state;
pub mod sums;
pub mod theorems;
pub mod worker;

pub use engine::Engine;
pub use inference::{Inference, InferenceKind};
pub use overlap::Overlap;
