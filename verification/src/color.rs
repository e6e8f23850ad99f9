//! Linear RGB color values.
//!
//! A channel is an IEEE 754 binary64 number. It is held as the 64 bits of its
//! encoding, so that a color is a plain value whose every bit the encoder can
//! read: the sign in bit 63, the biased exponent in bits 52 to 62 and the
//! fraction in bits 0 to 51.

use vstd::prelude::*;

verus! {

/// A linear RGB triple. Each field holds the binary64 encoding of the channel.
/// Channels are not bounded: they may exceed one or be negative, and only the
/// encoder clamps them.
#[derive(Clone, Copy, Debug)]
pub struct Color {
    pub red: u64,
    pub green: u64,
    pub blue: u64,
}

impl Color {
    /// Black: all three channels are positive zero, whose encoding is all zero bits.
    pub open spec fn black() -> Color {
        Color { red: 0, green: 0, blue: 0 }
    }
}

} // verus!
