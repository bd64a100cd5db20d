//! Three byte-stream compressors, each with its decompressor.
//!
//! The range coder is the main one. `encode` turns a message into a
//! self-describing stream: a header that carries the frequency table of the
//! message, followed by the message coded symbol by symbol as ever narrower
//! sub-intervals of a 32-bit interval. `decode` reads the table back and
//! recovers the message.
//!
//! Beside it stand a run-length coder and a Huffman coder, which share its
//! alphabet and its way of writing numbers.

pub mod bits;
pub mod codec;
pub mod cumulative;
pub mod decoder;
pub mod encoder;
pub mod error;
pub mod frequency;
pub mod huffman;
pub mod huffman_roundtrip;
pub mod interval;
pub mod rejection;
pub mod rle;
pub mod roundtrip;
pub mod sample;
pub mod stream;
pub mod tree;
pub mod wire;

pub use codec::{decode, encode};
pub use error::{ErrorKind, Fault, RangeError};
pub use frequency::{EOF_SYMBOL, MAX_TOTAL, SYMBOL_LIMIT};
pub use huffman::{huffman_decode_file, huffman_encode_file, HuffmanError};
pub use rle::{rle_decode_file, rle_encode_file, RleError};
pub use sample::make_test_data;
