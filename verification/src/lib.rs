//! A resumable, streaming decoder for the DEFLATE compressed-data format.
//!
//! The decoder consumes arbitrarily-chunked compressed input and produces
//! arbitrarily-chunked decompressed output: the caller repeatedly hands it an
//! input slice, an output buffer and a write offset, and the engine reports
//! how much of each it consumed and produced until the stream is done.
//!
//! - [`adler`] holds the Adler-32 checksum accumulator that emitted bytes are
//!   folded into, together with its mathematical specification.
//! - [`huffman`] builds and queries the canonical Huffman decode tables used
//!   for the literal/length, distance and code-length alphabets.
//! - [`inflate`] holds the decode engine itself: the resumable state machine
//!   that parses block headers, decodes symbols and replays back-references.
//!
//! Every function is verified: no panics, no out-of-bounds access, no
//! arithmetic overflow, and termination of every loop, on every input. The
//! contracts further pin down the engine's accounting exactly: which input
//! bytes were consumed (the ghost consumed stream), which bytes were emitted
//! and that the caller's buffer mirrors them, the back-reference window law,
//! the byte-exact replay of back-references against the emitted history, the
//! bit-level behaviour of the bit reader, the validity condition of Huffman
//! code-length assignments, and the Adler-32 checksum as a mathematical fold.
//! That the decoded bytes are the DEFLATE decoding of the consumed stream is
//! not itself expressed as a contract — stating it needs a specification-level
//! decoder for the whole format — and is instead established by the test
//! suite's round trips against an independent implementation and its
//! differential runs across chunkings and table configurations.

pub mod adler;
pub mod huffman;
pub mod inflate;

pub use inflate::DecompressionError;
pub use inflate::Decompressor;
