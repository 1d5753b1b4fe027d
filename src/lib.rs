//! wvec: subword tokenization for a multilingual word-embedding pipeline.
//!
//! The core is a Byte Pair Encoding tokenizer: a vocabulary of text fragments
//! with its ordered merge rules, a trainer that learns them from a corpus, an
//! encoder and a decoder, and a compact binary format for the vocabulary.
//! Around it stand the collaborators that feed the trainer (HTML and
//! wikitext stripping, the reader of MediaWiki dumps, text normalization and
//! pre-tokenization) and small helpers of the command-line program.
pub mod cli;
pub mod codec;
pub mod decode;
pub mod encode;
pub mod ffi;
pub mod html;
pub mod laws;
pub mod normalize;
pub mod pretokenize;
mod text_util;
pub mod train;
pub mod types;
pub mod vocab;
pub mod wiki;

pub use codec::{from_bytes, to_bytes, FormatError};
pub use decode::decode;
pub use encode::encode;
pub use train::train;
pub use types::{BpePair, BpeTokenId};
pub use vocab::Vocabulary;
