//! Grapheme-to-phoneme conversion for English text.
//!
//! The pipeline normalizes the input text (Unicode NFKC plus a fixed
//! non-ASCII-to-ASCII substitution table), splits it into typed tokens with a
//! maximal-munch scanner, and resolves each token to a phoneme fragment via
//! dictionary lookup, a digit-spelling rule, pass-through, or an external
//! fallback model for unknown words.

pub mod dictionary;
pub mod normalizer;
pub mod phonemizer;
pub mod tokenizer;

pub use dictionary::{TranscriptionDict, TranscriptionEntry, TranscriptionLookup, TranscriptionStoreEN};
pub use phonemizer::{EnPhonemizer, InitError, PhonemizeError};
pub use tokenizer::{EnTokenizer, LexError, Token, TokenContext};
