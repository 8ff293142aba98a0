//! Packed 32-bit colours: blue in byte 0, green in byte 1, red in byte 2,
//! byte 3 unused and zero.

use vstd::prelude::*;

verus! {

/// The blue channel of a packed colour.
pub open spec fn blue_of(c: u32) -> int {
    (c & 0xFF) as int
}

/// The green channel of a packed colour.
pub open spec fn green_of(c: u32) -> int {
    ((c >> 8) & 0xFF) as int
}

/// The red channel of a packed colour.
pub open spec fn red_of(c: u32) -> int {
    ((c >> 16) & 0xFF) as int
}

/// The colour word made of three channel values, each below 256.
pub open spec fn packed(r: int, g: int, b: int) -> int {
    r * 65536 + g * 256 + b
}

/// A colour whose unused top byte is zero.
pub open spec fn is_opaque_rgb(c: u32) -> bool {
    c <= 0x00FF_FFFF
}

/// Each channel of a colour word is a byte.
pub proof fn lemma_channels_are_bytes(c: u32)
    ensures
        0 <= red_of(c) <= 255,
        0 <= green_of(c) <= 255,
        0 <= blue_of(c) <= 255,
{
    assert((c >> 16) & 0xFF <= 255 && (c >> 8) & 0xFF <= 255 && c & 0xFF <= 255) by (bit_vector);
}

} // verus!
