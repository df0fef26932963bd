//! Binary delta patches and their entropy coding.
//!
//! A patch is an ordered list of [`EditOp`]s that rebuilds a target buffer
//! from a source buffer. [`get_patch`] finds the list, [`encode`] and
//! [`decode`] move it to and from its wire format, and [`apply`] replays it.
//! [`compress`] shrinks any byte buffer with a Huffman code built from the
//! buffer itself; [`unpack`] reverses it given the code.

pub mod error;
pub mod huffman;
pub mod matcher;
pub mod ops;
pub mod roundtrip;
pub mod varint;
pub mod wire;

pub use error::CodecError;
pub use huffman::{accept_symbols, build, compress, pack, unpack, HuffmanCode};
pub use matcher::get_patch;
pub use ops::{apply, EditOp, EditOpView};
pub use wire::{decode, encode};
