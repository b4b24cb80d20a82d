//! An order-preserving variable-length encoding of `u64`.
//!
//! A value takes one to nine bytes. The first byte tells how many bytes follow
//! and how to read them; byte sequences compare in the same order as the
//! numbers they encode, so encodings can serve directly as sort keys.
//!
//! Layout by leading byte:
//! - `0x00..=0xf0`: the value itself.
//! - `0xf1..=0xf7`: one more byte; value `0xf0 + 256 * (lead - 0xf1) + b1`.
//! - `0xf8`: two more bytes; value `0x7f0 + 256 * b1 + b2`.
//! - `0xf9..=0xfe`: `lead - 0xf6` more bytes holding the value big-endian.
//! - `0xff`: reserved for integers wider than 64 bits.

pub mod layout;
pub mod lemmas;
pub mod codec;
pub mod laws;

pub use codec::{encoded_len, read_bvarint, write_bvarint};
pub use layout::DecodeError;
