//! Fixed-width binary codec for multi-limb unsigned integers.
//!
//! A value is represented as a sequence of 64-bit words, least-significant
//! word first; the empty sequence stands for zero.  The codec converts such
//! word arrays to and from byte buffers of a caller-chosen width, in either
//! big-endian or little-endian byte order, truncating or zero-extending as
//! the width demands, and can produce the two's-complement image of a
//! magnitude at a given width so that negative values can be serialized.

pub mod model;
pub mod decode;
pub mod encode;
pub mod complement;
pub mod laws;

pub use decode::be_bytes_to_words;
pub use decode::le_bytes_to_words;
pub use encode::words_to_be_bytes;
pub use encode::words_to_le_bytes;
pub use encode::words_to_be_bytes_into;
pub use encode::words_to_le_bytes_into;
pub use encode::to_buffer_be_fast;
pub use encode::to_buffer_le_fast;
pub use complement::twos_complement;
