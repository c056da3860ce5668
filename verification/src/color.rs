//! Packing of 8-bit colour channels into a `0x00RRGGBB` word, and back.

use vstd::prelude::*;

verus! {

/// Largest value of one colour channel.
pub const CHANNEL_MAX: u32 = 255;

/// The packed word `0x00RRGGBB` for the channels `r`, `g`, `b`.
pub open spec fn packed_rgb(r: int, g: int, b: int) -> int {
    r * 65536 + g * 256 + b
}

/// Packs three channel bytes into `0x00RRGGBB`.
pub fn rgb_bytes_to_u32(r: u32, g: u32, b: u32) -> (p: u32)
    requires
        r <= CHANNEL_MAX,
        g <= CHANNEL_MAX,
        b <= CHANNEL_MAX,
    ensures
        p == packed_rgb(r as int, g as int, b as int),
{
    let p = (r << 16) | (g << 8) | b;
    assert((r << 16) | (g << 8) | b == r * 65536 + g * 256 + b) by (bit_vector)
        requires
            r <= 255,
            g <= 255,
            b <= 255,
    ;
    p
}

/// Splits a packed `0x00RRGGBB` word into its red, green and blue bytes; the
/// top byte is ignored.
pub fn u32_to_rgb_bytes(p: u32) -> (rgb: (u32, u32, u32))
    ensures
        rgb.0 == (p as int / 65536) % 256,
        rgb.1 == (p as int / 256) % 256,
        rgb.2 == p as int % 256,
{
    let r = (p >> 16) & 0xFF;
    let g = (p >> 8) & 0xFF;
    let b = p & 0xFF;
    assert((p >> 16) & 0xFF == (p / 65536) % 256) by (bit_vector);
    assert((p >> 8) & 0xFF == (p / 256) % 256) by (bit_vector);
    assert(p & 0xFF == p % 256) by (bit_vector);
    (r, g, b)
}

/// Unpacking a packed word gives back the three channels that were packed.
pub proof fn lemma_unpack_pack(r: int, g: int, b: int)
    requires
        0 <= r <= 255,
        0 <= g <= 255,
        0 <= b <= 255,
    ensures
        (packed_rgb(r, g, b) / 65536) % 256 == r,
        (packed_rgb(r, g, b) / 256) % 256 == g,
        packed_rgb(r, g, b) % 256 == b,
{
    assert((r * 65536 + g * 256 + b) / 65536 == r) by (nonlinear_arith)
        requires 0 <= r <= 255, 0 <= g <= 255, 0 <= b <= 255;
    assert((r * 65536 + g * 256 + b) / 256 == r * 256 + g) by (nonlinear_arith)
        requires 0 <= r <= 255, 0 <= g <= 255, 0 <= b <= 255;
    assert((r * 256 + g) % 256 == g) by (nonlinear_arith)
        requires 0 <= r <= 255, 0 <= g <= 255;
    assert((r * 65536 + g * 256 + b) % 256 == b) by (nonlinear_arith)
        requires 0 <= r <= 255, 0 <= g <= 255, 0 <= b <= 255;
}

/// Packing the channels of a word gives back its low 24 bits.
pub proof fn lemma_pack_unpack(p: u32)
    ensures
        packed_rgb((p as int / 65536) % 256, (p as int / 256) % 256, p as int % 256)
            == p as int % 16777216,
{
    let x = p as int;
    assert(((x / 65536) % 256) * 65536 + ((x / 256) % 256) * 256 + x % 256 == x % 16777216)
        by (nonlinear_arith)
        requires 0 <= x;
}

} // verus!
