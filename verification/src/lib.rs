//! A compact codec that packs sequences of small integers (each in 1..=300)
//! into a dense bitstream and renders it as printable text over a 64-symbol
//! alphabet.

pub mod bits;
pub mod codec;

pub use codec::CodecError;
pub use codec::determine_bits_per_number;
pub use codec::deserialize;
pub use codec::joined_decimal_len;
pub use codec::serialize;
