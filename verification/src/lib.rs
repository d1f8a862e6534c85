//! NEON — a compact textual serialization for the JSON data model.
//!
//! The format shortens structured data with sigil-prefixed containers
//! (`#` arrays, `@` objects, `^` schemas), length-prefixed arrays, and
//! aggressive literal compression (`T`/`F`/`N`, `95K`-style numbers,
//! `_` for spaces in bare strings).  The crate holds the codec pair:
//! an encoder from a [`value::Value`] tree to NEON text and a decoder
//! back, each verified against a character-level specification of the
//! format.

#![allow(unused_imports)]

pub mod decoder;
pub mod encoder;
pub mod error;
pub mod laws;
pub mod lexer;
pub mod number;
pub mod parser;
pub mod text;
pub mod types;
pub mod value;

pub use decoder::{decode, NeonDecoder};
pub use encoder::{encode, encode_compact, NeonEncoder};
pub use error::NeonError;
pub use number::Number;
pub use types::{
    get_abbreviations, get_expansions, EncodeMode, NeonDecodeOptions, NeonEncodeOptions, NeonStats,
    Token, TokenType,
};
pub use value::Value;
