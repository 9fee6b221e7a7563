//! A generator and validator for short phrases whose words' syllable
//! counts sum to an exact target, backed by a word-to-syllable lexicon.

pub mod extract;
pub mod generate;
pub mod lexicon;
pub mod retry;
pub mod text;

use vstd::prelude::*;

verus! {

/// The largest syllable count a lexicon entry may carry; rows above it
/// are dropped when the lexicon is built.
pub const MAX_SYLLABLES: u32 = 5;

} // verus!
