//! Packed references to quads: the words that the region holds. From the low
//! end a word carries 32 bits of offset, three coordinates of five bits, four
//! bits of sky exposure, and a width and a height of five bits.

use vstd::prelude::*;

verus! {

/// One step of the width field.
pub const WIDTH_UNIT: u64 = 0x0008_0000_0000_0000;

/// One step of the height field.
pub const HEIGHT_UNIT: u64 = 0x0100_0000_0000_0000;

/// The word made of the given fields, each cut to its width.
pub open spec fn packed(offset: u64, x: u64, y: u64, z: u64, sky: u64, width: u64, height: u64) -> u64 {
    offset | (x & 31) << 32 | (y & 31) << 37 | (z & 31) << 42 | (sky & 15) << 47 | (width & 31)
        << 51 | (height & 31) << 56
}

/// The offset field of a word.
pub open spec fn offset_of(quad: u64) -> u64 {
    quad & 0xFFFF_FFFF
}

/// The three coordinates of a word.
pub open spec fn location_of(quad: u64) -> (u64, u64, u64) {
    ((quad >> 32) & 31, (quad >> 37) & 31, (quad >> 42) & 31)
}

/// The sky exposure of a word.
pub open spec fn sky_of(quad: u64) -> u64 {
    (quad >> 47) & 15
}

/// The width field of a word.
pub open spec fn width_of(quad: u64) -> u64 {
    (quad >> 51) & 31
}

/// The height field of a word.
pub open spec fn height_of(quad: u64) -> u64 {
    (quad >> 56) & 31
}

/// Everything in a word but its width field.
pub open spec fn without_width(quad: u64) -> u64 {
    quad & !(31u64 << 51)
}

/// Everything in a word but its height field.
pub open spec fn without_height(quad: u64) -> u64 {
    quad & !(31u64 << 56)
}

/// Packs a quad reference. Coordinates are taken modulo 32, as are the width
/// and the height.
pub fn quad_ref(offset: usize, location: (i32, i32, i32), sky_exposure: u8, width: u8, height: u8) -> (r: u64)
    requires
        sky_exposure < 16,
    ensures
        r == packed(
            offset as u64,
            (location.0 & 31) as u64,
            (location.1 & 31) as u64,
            (location.2 & 31) as u64,
            sky_exposure as u64,
            width as u64,
            height as u64,
        ),
        offset < 0x1_0000_0000 ==> {
            &&& offset_of(r) == offset
            &&& location_of(r) == (
                (location.0 & 31) as u64,
                (location.1 & 31) as u64,
                (location.2 & 31) as u64,
            )
            &&& sky_of(r) == sky_exposure
            &&& width_of(r) == width % 32
            &&& height_of(r) == height % 32
        },
{
    let base = offset as u64;
    let (lx, ly, lz) = location;
    assert(0 <= lx & 31 <= 31 && 0 <= ly & 31 <= 31 && 0 <= lz & 31 <= 31) by (bit_vector);
    let x = (lx & 31) as u64;
    let y = (ly & 31) as u64;
    let z = (lz & 31) as u64;
    let sky = (sky_exposure as u64) & 15;
    let w = (width as u64) & 31;
    let h = (height as u64) & 31;
    let r = base | x << 32 | y << 37 | z << 42 | sky << 47 | w << 51 | h << 56;
    proof {
        let s = sky_exposure as u64;
        let wide = width as u64;
        let high = height as u64;
        assert(s < 16 ==> s & 15 == s) by (bit_vector);
        assert(wide & 31 == wide % 32) by (bit_vector);
        assert(high & 31 == high % 32) by (bit_vector);
        assert(base < 0x1_0000_0000 && x <= 31 && y <= 31 && z <= 31 && sky <= 15 && w <= 31 && h
            <= 31 && r == base | x << 32 | y << 37 | z << 42 | sky << 47 | w << 51 | h << 56 ==> r
            & 0xFFFF_FFFF == base && (r >> 32) & 31 == x && (r >> 37) & 31 == y && (r >> 42) & 31
            == z && (r >> 47) & 15 == sky && (r >> 51) & 31 == w && (r >> 56) & 31 == h)
            by (bit_vector);
        assert(x & 31 == x && y & 31 == y && z & 31 == z) by (bit_vector)
            requires
                x <= 31 && y <= 31 && z <= 31,
        ;
        assert(s & 15 <= 15 && wide & 31 <= 31 && high & 31 <= 31) by (bit_vector);
    }
    r
}

/// Makes the quad one unit wider. Where the width field is not full, it
/// grows by one and nothing else in the word changes.
pub fn extend_quad_ref_w(quad_ref: &mut u64)
    requires
        *old(quad_ref) <= u64::MAX - WIDTH_UNIT,
    ensures
        *final(quad_ref) == *old(quad_ref) + WIDTH_UNIT,
        width_of(*old(quad_ref)) < 31 ==> width_of(*final(quad_ref)) == width_of(*old(quad_ref))
            + 1 && without_width(*final(quad_ref)) == without_width(*old(quad_ref)),
{
    let before = *quad_ref;
    let after = before + WIDTH_UNIT;
    assert(before <= 0xFFFF_FFFF_FFFF_FFFF - 0x0008_0000_0000_0000 && after == before
        + 0x0008_0000_0000_0000 && (before >> 51) & 31 < 31 ==> (after >> 51) & 31 == ((before
        >> 51) & 31) + 1 && after & !(31u64 << 51) == before & !(31u64 << 51)) by (bit_vector);
    *quad_ref = after;
}

/// Makes the quad one unit higher. Where the height field is not full, it
/// grows by one and nothing else in the word changes.
pub fn extend_quad_ref_h(quad_ref: &mut u64)
    requires
        *old(quad_ref) <= u64::MAX - HEIGHT_UNIT,
    ensures
        *final(quad_ref) == *old(quad_ref) + HEIGHT_UNIT,
        height_of(*old(quad_ref)) < 31 ==> height_of(*final(quad_ref)) == height_of(
            *old(quad_ref),
        ) + 1 && without_height(*final(quad_ref)) == without_height(*old(quad_ref)),
{
    let before = *quad_ref;
    let after = before + HEIGHT_UNIT;
    assert(before <= 0xFFFF_FFFF_FFFF_FFFF - 0x0100_0000_0000_0000 && after == before
        + 0x0100_0000_0000_0000 && (before >> 56) & 31 < 31 ==> (after >> 56) & 31 == ((before
        >> 56) & 31) + 1 && after & !(31u64 << 56) == before & !(31u64 << 56)) by (bit_vector);
    *quad_ref = after;
}

} // verus!
