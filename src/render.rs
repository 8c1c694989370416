//! Quantization of heights into palette indices, and rendering of a field as
//! one line of glyphs.
use vstd::prelude::*;
use crate::field::HEIGHT_SCALE;

verus! {

/// Palette index for height `h` with a palette of `k` glyphs: `k * h`
/// truncated (heights being fixed-point with `HEIGHT_SCALE` as one), at most
/// the last index.
pub open spec fn quantized(h: int, k: int) -> int {
    let t = k * h / HEIGHT_SCALE as int;
    if t < k - 1 {
        t
    } else {
        k - 1
    }
}

/// Index of the glyph that shows `height` in a palette of `palette_len`
/// glyphs, from empty (index zero) to full (the last index).
pub fn palette_index(height: u64, palette_len: usize) -> (r: usize)
    requires
        palette_len > 0,
    ensures
        r == quantized(height as int, palette_len as int),
        r < palette_len,
{
    let last: usize = palette_len - 1;
    if height >= HEIGHT_SCALE {
        assert(palette_len * height / HEIGHT_SCALE as int >= palette_len) by (nonlinear_arith)
            requires
                height >= HEIGHT_SCALE,
                palette_len > 0,
        {
            assert(palette_len * height >= palette_len * HEIGHT_SCALE);
            vstd::arithmetic::div_mod::lemma_div_is_ordered(
                palette_len * HEIGHT_SCALE,
                palette_len * height,
                HEIGHT_SCALE as int,
            );
        }
        last
    } else {
        assert(palette_len * height < 0x1_0000_0000_0000_0000_0000) by (nonlinear_arith)
            requires
                height < HEIGHT_SCALE,
                palette_len <= usize::MAX,
                usize::MAX <= u64::MAX,
        ;
        let t: u128 = (palette_len as u128) * (height as u128) / (HEIGHT_SCALE as u128);
        if t < last as u128 {
            t as usize
        } else {
            last
        }
    }
}

/// The glyph line of a height field: one glyph of `palette` per sample, in
/// field order.
pub fn render(height_field: &Vec<u64>, palette: &Vec<char>) -> (line: Vec<char>)
    requires
        palette.len() > 0,
    ensures
        line.len() == height_field.len(),
        forall|i: int|
            0 <= i < line.len() ==> line[i] == palette[quantized(
                height_field[i] as int,
                palette.len() as int,
            )],
{
    let mut line: Vec<char> = Vec::with_capacity(height_field.len());
    for i in 0..height_field.len()
        invariant
            palette.len() > 0,
            line.len() == i,
            forall|m: int|
                0 <= m < i ==> line[m] == palette[quantized(
                    height_field[m] as int,
                    palette.len() as int,
                )],
    {
        let idx: usize = palette_index(height_field[i], palette.len());
        line.push(palette[idx]);
    }
    line
}

/// The quantizer's boundaries: zero shows as the first glyph; a height of at
/// least one `k`-th shows as a glyph past the first; a height of at least
/// `(k - 1) / k`, and any height of one or more, shows as the last glyph; no
/// height gives an index outside the palette.
pub proof fn lemma_quantization_levels(h: int, k: int)
    requires
        k > 0,
        h >= 0,
    ensures
        0 <= quantized(h, k) < k,
        h == 0 ==> quantized(h, k) == 0,
        k >= 2 && k * h >= HEIGHT_SCALE ==> quantized(h, k) >= 1,
        k * h >= (k - 1) * HEIGHT_SCALE ==> quantized(h, k) == k - 1,
        h >= HEIGHT_SCALE ==> quantized(h, k) == k - 1,
{
    let sc = HEIGHT_SCALE as int;
    assert(k * h >= 0) by (nonlinear_arith)
        requires
            k > 0,
            h >= 0,
    ;
    assert(k * h / sc >= 0);
    if k * h >= sc {
        vstd::arithmetic::div_mod::lemma_div_is_ordered(sc, k * h, sc);
        vstd::arithmetic::div_mod::lemma_div_by_self(sc);
    }
    if k * h >= (k - 1) * sc {
        vstd::arithmetic::div_mod::lemma_div_is_ordered((k - 1) * sc, k * h, sc);
        vstd::arithmetic::div_mod::lemma_div_multiples_vanish(k - 1, sc);
    }
    if h >= sc {
        assert(k * h >= k * sc) by (nonlinear_arith)
            requires
                h >= sc,
                k > 0,
        ;
        assert(k * sc >= (k - 1) * sc) by (nonlinear_arith)
            requires
                sc > 0,
        ;
        vstd::arithmetic::div_mod::lemma_div_is_ordered((k - 1) * sc, k * h, sc);
        vstd::arithmetic::div_mod::lemma_div_multiples_vanish(k - 1, sc);
    }
}

} // verus!
