//! Decoding of run-length-encoded sprite bitmaps and of the binary index that
//! locates sprites inside a packed texture atlas.
//!
//! * [`stream`]: a read cursor over bytes, with little-endian integers.
//! * [`varint`]: variable-length integers and length-prefixed strings.
//! * [`codec`]: the run-length pixel codec; [`codec_lemmas`] holds what is
//!   proved of it.
//! * [`meta`]: the atlas index, a tree of sprite tables and sprites.
//! * [`atlas`]: cutting the rectangle of a sprite out of a decoded atlas.
//! * [`image`]: the RGBA8 bitmap that the codec produces and the crop reads.
//! * [`error`]: the ways in which decoding fails.

pub mod atlas;
pub mod codec;
pub mod codec_lemmas;
pub mod error;
pub mod image;
pub mod meta;
pub mod stream;
pub mod varint;
