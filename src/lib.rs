//! Decoder for a small LZ77-style byte-stream format.
//!
//! A compressed stream is a sequence of groups. Each group starts with a
//! control byte whose bits, least significant first, say whether each of up
//! to eight following operations is a literal byte (bit clear) or a
//! two-byte back-reference into the output produced so far (bit set).
pub mod decoder;
pub mod format;
pub mod laws;
pub mod result;
