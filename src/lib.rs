//! Indexes short phrases by the words they share and splices two phrases
//! together at a common word to produce new sentences.

pub mod generate;
pub mod index;
pub mod normalize;
pub mod splice;
pub mod text;
