//! Packed colours: one primitive's colour is a single `u32` holding
//! `r << 24 | g << 16 | b << 8 | alpha`, with every channel 8 bits wide.

use vstd::prelude::*;

verus! {

/// The packed form of an (r, g, b, alpha) quadruple of 8-bit channels.
pub open spec fn pack_rgba_spec(r: u8, g: u8, b: u8, a: u8) -> u32 {
    ((r as u32) << 24 | (g as u32) << 16 | (b as u32) << 8 | (a as u32)) as u32
}

/// The red channel of a packed colour.
pub open spec fn unpack_r_spec(c: u32) -> u8 {
    (c >> 24) as u8
}

/// The green channel of a packed colour.
pub open spec fn unpack_g_spec(c: u32) -> u8 {
    ((c >> 16) & 0xff) as u8
}

/// The blue channel of a packed colour.
pub open spec fn unpack_b_spec(c: u32) -> u8 {
    ((c >> 8) & 0xff) as u8
}

/// The alpha channel of a packed colour.
pub open spec fn unpack_a_spec(c: u32) -> u8 {
    (c & 0xff) as u8
}

/// Pack four 8-bit channels into one `u32`, red in the highest byte.
pub fn pack_rgba(r: u8, g: u8, b: u8, a: u8) -> (c: u32)
    ensures
        c == pack_rgba_spec(r, g, b, a),
{
    (r as u32) << 24 | (g as u32) << 16 | (b as u32) << 8 | (a as u32)
}

/// Recover the four channels of a packed colour.
pub fn unpack_rgba(c: u32) -> (rgba: (u8, u8, u8, u8))
    ensures
        rgba == (unpack_r_spec(c), unpack_g_spec(c), unpack_b_spec(c), unpack_a_spec(c)),
{
    ((c >> 24) as u8, ((c >> 16) & 0xff) as u8, ((c >> 8) & 0xff) as u8, (c & 0xff) as u8)
}

/// Unpacking a packed colour returns every channel unchanged.
pub proof fn lemma_pack_rgba_round_trip(r: u8, g: u8, b: u8, a: u8)
    ensures
        unpack_r_spec(pack_rgba_spec(r, g, b, a)) == r,
        unpack_g_spec(pack_rgba_spec(r, g, b, a)) == g,
        unpack_b_spec(pack_rgba_spec(r, g, b, a)) == b,
        unpack_a_spec(pack_rgba_spec(r, g, b, a)) == a,
{
    assert(unpack_r_spec(pack_rgba_spec(r, g, b, a)) == r) by (bit_vector);
    assert(unpack_g_spec(pack_rgba_spec(r, g, b, a)) == g) by (bit_vector);
    assert(unpack_b_spec(pack_rgba_spec(r, g, b, a)) == b) by (bit_vector);
    assert(unpack_a_spec(pack_rgba_spec(r, g, b, a)) == a) by (bit_vector);
}

} // verus!
