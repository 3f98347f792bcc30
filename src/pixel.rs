use vstd::prelude::*;

verus! {

/// The packed 24-bit value of a pixel: red in bits 16..24, green in 8..16, blue in 0..8.
pub open spec fn packed(r: u8, g: u8, b: u8) -> int {
    r as int * 65536 + g as int * 256 + b as int
}

/// The red, green and blue bytes of a packed pixel; bits above 24 are ignored.
pub open spec fn unpacked(v: u32) -> (u8, u8, u8) {
    (((v as int / 65536) % 256) as u8, ((v as int / 256) % 256) as u8, (v as int % 256) as u8)
}

/// The RGB bytes of a row-major frame of packed pixels, three per pixel.
pub open spec fn rgb_of(pixels: Seq<u32>) -> Seq<u8>
    decreases pixels.len(),
{
    if pixels.len() == 0 {
        Seq::empty()
    } else {
        let (r, g, b) = unpacked(pixels.last());
        rgb_of(pixels.drop_last()).push(r).push(g).push(b)
    }
}

/// Packs three 8-bit channels into one `0x00RRGGBB` word.
pub fn color(r: u8, g: u8, b: u8) -> (c: u32)
    ensures
        c as int == packed(r, g, b),
        unpacked(c) == (r, g, b),
{
    let c = (r as u32) << 16u32 | (g as u32) << 8u32 | (b as u32);
    assert(c == (r as u32) * 65536 + (g as u32) * 256 + (b as u32)) by (bit_vector)
        requires
            c == (r as u32) << 16u32 | (g as u32) << 8u32 | (b as u32),
    ;
    assert(c / 65536 % 256 == r as u32 && c / 256 % 256 == g as u32 && c % 256 == b as u32)
        by (bit_vector)
        requires
            c == (r as u32) << 16u32 | (g as u32) << 8u32 | (b as u32),
    ;
    c
}

/// Splits a packed pixel into its red, green and blue bytes.
pub fn channels(v: u32) -> (rgb: (u8, u8, u8))
    ensures
        rgb == unpacked(v),
{
    let r = ((v & 0x00FF0000u32) >> 16u32) as u8;
    let g = ((v & 0x0000FF00u32) >> 8u32) as u8;
    let b = (v & 0x000000FFu32) as u8;
    assert(((v & 0x00FF0000u32) >> 16u32) == (v / 65536) % 256) by (bit_vector);
    assert(((v & 0x0000FF00u32) >> 8u32) == (v / 256) % 256) by (bit_vector);
    assert((v & 0x000000FFu32) == v % 256) by (bit_vector);
    (r, g, b)
}

/// Unpacks a frame of packed pixels into consecutive red, green and blue bytes.
pub fn rgb_bytes(pixels: &Vec<u32>) -> (bytes: Vec<u8>)
    requires
        pixels.len() * 3 <= usize::MAX,
    ensures
        bytes@ == rgb_of(pixels@),
        bytes@.len() == 3 * pixels@.len(),
{
    let mut bytes: Vec<u8> = Vec::with_capacity(pixels.len() * 3);
    let mut i: usize = 0;
    while i < pixels.len()
        invariant
            i <= pixels.len(),
            bytes@ == rgb_of(pixels@.take(i as int)),
            bytes@.len() == 3 * i,
        decreases pixels.len() - i,
    {
        let (r, g, b) = channels(pixels[i]);
        bytes.push(r);
        bytes.push(g);
        bytes.push(b);
        assert(pixels@.take(i as int + 1).drop_last() =~= pixels@.take(i as int));
        i += 1;
    }
    assert(pixels@.take(i as int) =~= pixels@);
    bytes
}

} // verus!
