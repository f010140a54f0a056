//! Decompression of one 4x4 S3TC block into 16 RGBA8 texels.
//!
//! A decoded block is 64 bytes: texel `t` holds bytes `4 * t .. 4 * t + 4`.
//! Texels come in four runs of four; run `q` is the block's row `3 - q`
//! (the last row first) and holds its columns left to right.
use vstd::prelude::*;

verus! {

/// The 16-bit little-endian RGB565 colour stored at `b[at]`, `b[at + 1]`.
pub open spec fn color_word(b: Seq<u8>, at: int) -> int {
    b[at] + 256 * b[at + 1]
}

/// Channel `ch` (0 red, 1 green, 2 blue) of an RGB565 colour, unscaled.
pub open spec fn channel_raw(c: int, ch: int) -> int {
    if ch == 0 {
        c / 2048
    } else if ch == 1 {
        c / 32 % 64
    } else {
        c % 32
    }
}

/// Bit width of channel `ch` in an RGB565 colour.
pub open spec fn channel_bits(ch: int) -> int {
    if ch == 1 { 6 } else { 5 }
}

/// Rescales a 5- or 6-bit channel to 8 bits: `raw * 255 / (2^bits - 1)`.
pub open spec fn widen(raw: int, bits: int) -> int {
    raw * 255 / (if bits == 5 { 31int } else { 63int })
}

/// The colour table shared by all block kinds, for one channel with widened
/// endpoints `e0` and `e1`. In three-colour mode (`four == false`) selector 3
/// has no colour: it stands for a transparent black texel.
pub open spec fn color_entry(four: bool, sel: int, e0: int, e1: int) -> Option<int> {
    if sel == 0 {
        Some(e0)
    } else if sel == 1 {
        Some(e1)
    } else if sel == 2 {
        Some((2 * e0 + e1) / 3)
    } else if four {
        Some((e0 + 2 * e1) / 3)
    } else {
        None
    }
}

/// Channel `ch` of the table entry `sel` for the two colours stored at `b[at..at + 4]`.
pub open spec fn texel_color(b: Seq<u8>, at: int, four: bool, sel: int, ch: int) -> Option<int> {
    color_entry(
        four,
        sel,
        widen(channel_raw(color_word(b, at), ch), channel_bits(ch)),
        widen(channel_raw(color_word(b, at + 2), ch), channel_bits(ch)),
    )
}

/// The 2-bit selector of column `j` in an index byte (column 0 in the low bits).
pub open spec fn selector2(code: int, j: int) -> int {
    if j == 0 {
        code % 4
    } else if j == 1 {
        code / 4 % 4
    } else if j == 2 {
        code / 16 % 4
    } else {
        code / 64
    }
}

/// Whether a DXT1 block is in four-colour mode: its first packed colour is
/// greater than the second.
pub open spec fn dxt1_four_color(b: Seq<u8>) -> bool {
    color_word(b, 0) > color_word(b, 2)
}

/// Selector of texel `t` of a DXT1 block.
pub open spec fn dxt1_selector(b: Seq<u8>, t: int) -> int {
    selector2(b[7 - t / 4] as int, t % 4)
}

/// Whether texel `t` of a DXT1 block is the transparent entry.
pub open spec fn dxt1_clear(b: Seq<u8>, t: int) -> bool {
    !dxt1_four_color(b) && dxt1_selector(b, t) == 3
}

/// Byte `ch` of texel `t` of a decoded DXT1 block; `alpha` enables punch-through.
pub open spec fn dxt1_texel(b: Seq<u8>, alpha: bool, t: int, ch: int) -> int {
    if ch == 3 {
        if alpha && dxt1_clear(b, t) { 0 } else { 255 }
    } else if dxt1_clear(b, t) {
        0
    } else {
        texel_color(b, 0, dxt1_four_color(b), dxt1_selector(b, t), ch).unwrap()
    }
}

/// Selector of texel `t` of a DXT2 to DXT5 block.
pub open spec fn dxt_selector(b: Seq<u8>, t: int) -> int {
    selector2(b[15 - t / 4] as int, t % 4)
}

/// The explicit 4-bit alpha of texel `t` of a DXT2/DXT3 block.
pub open spec fn dxt3_nibble(b: Seq<u8>, t: int) -> int {
    let byte = b[2 * (3 - t / 4) + (t % 4) / 2] as int;
    if t % 2 == 0 { byte % 16 } else { byte / 16 }
}

/// Byte `ch` of texel `t` of a decoded DXT2/DXT3 block.
pub open spec fn dxt3_texel(b: Seq<u8>, t: int, ch: int) -> int {
    if ch == 3 {
        dxt3_nibble(b, t) * 255 / 15
    } else {
        texel_color(b, 8, true, dxt_selector(b, t), ch).unwrap()
    }
}

/// The 48 bits of 3-bit alpha selectors of a DXT4/DXT5 block, little-endian.
pub open spec fn alpha_bits(b: Seq<u8>) -> u64 {
    (b[2] as u64) | ((b[3] as u64) << 8u64) | ((b[4] as u64) << 16u64) | ((b[5] as u64)
        << 24u64) | ((b[6] as u64) << 32u64) | ((b[7] as u64) << 40u64)
}

/// The 3-bit field number `n` of `bits`.
pub open spec fn alpha_code(bits: u64, n: u64) -> u64 {
    (bits >> (3 * n) as u64) & 7u64
}

/// The interpolated alpha table of DXT4/DXT5 for endpoints `a0`, `a1`.
pub open spec fn alpha_value(a0: int, a1: int, k: int) -> int {
    if k == 0 {
        a0
    } else if k == 1 {
        a1
    } else if a0 > a1 {
        if k == 2 {
            (6 * a0 + a1) / 7
        } else if k == 3 {
            (5 * a0 + 2 * a1) / 7
        } else if k == 4 {
            (4 * a0 + 3 * a1) / 7
        } else if k == 5 {
            (3 * a0 + 4 * a1) / 7
        } else if k == 6 {
            (2 * a0 + 5 * a1) / 7
        } else {
            (a0 + 6 * a1) / 7
        }
    } else if k == 2 {
        (4 * a0 + a1) / 5
    } else if k == 3 {
        (3 * a0 + 2 * a1) / 5
    } else if k == 4 {
        (2 * a0 + 3 * a1) / 5
    } else if k == 5 {
        (a0 + 4 * a1) / 5
    } else if k == 6 {
        0
    } else {
        255
    }
}

/// Byte `ch` of texel `t` of a decoded DXT4/DXT5 block.
pub open spec fn dxt5_texel(b: Seq<u8>, t: int, ch: int) -> int {
    if ch == 3 {
        alpha_value(
            b[0] as int,
            b[1] as int,
            alpha_code(alpha_bits(b), (4 * (3 - t / 4) + t % 4) as u64) as int,
        )
    } else {
        texel_color(b, 8, true, dxt_selector(b, t), ch).unwrap()
    }
}

proof fn lemma_widen_bound(raw: int, bits: int)
    requires
        bits == 5 || bits == 6,
        0 <= raw < (if bits == 5 { 32int } else { 64int }),
    ensures
        0 <= widen(raw, bits) <= 255,
{
    if bits == 5 {
        assert(0 <= raw * 255 / 31 <= 255) by (nonlinear_arith)
            requires
                0 <= raw < 32,
        ;
    } else {
        assert(0 <= raw * 255 / 63 <= 255) by (nonlinear_arith)
            requires
                0 <= raw < 64,
        ;
    }
}

proof fn lemma_channel_raw_bound(c: int, ch: int)
    requires
        0 <= c < 65536,
        0 <= ch < 3,
    ensures
        0 <= channel_raw(c, ch) < (if channel_bits(ch) == 5 { 32int } else { 64int }),
{
}

/// The 2-bit selector of column `j` of an index byte.
fn texel_selector(code: u8, j: usize) -> (r: u8)
    requires
        j < 4,
    ensures
        r == selector2(code as int, j as int),
        r < 4,
{
    if j == 0 {
        code % 4
    } else if j == 1 {
        code / 4 % 4
    } else if j == 2 {
        code / 16 % 4
    } else {
        code / 64
    }
}

/// Looks up one channel in the colour table: `key` is (four-colour mode,
/// selector), `c0` and `c1` the raw endpoints, `inflate_by` their bit width.
/// `None` is the transparent entry of three-colour mode.
fn color_lookup(key: (bool, u8), c0: u32, c1: u32, inflate_by: u32) -> (r: Option<u32>)
    requires
        key.1 < 4,
        inflate_by == 5 || inflate_by == 6,
        c0 < (if inflate_by == 5 { 32u32 } else { 64u32 }),
        c1 < (if inflate_by == 5 { 32u32 } else { 64u32 }),
    ensures
        r.is_some() == color_entry(
            key.0,
            key.1 as int,
            widen(c0 as int, inflate_by as int),
            widen(c1 as int, inflate_by as int),
        ).is_some(),
        r.is_some() ==> r.unwrap() as int == color_entry(
            key.0,
            key.1 as int,
            widen(c0 as int, inflate_by as int),
            widen(c1 as int, inflate_by as int),
        ).unwrap(),
        r.is_some() ==> r.unwrap() <= 255,
{
    proof {
        lemma_widen_bound(c0 as int, inflate_by as int);
        lemma_widen_bound(c1 as int, inflate_by as int);
    }
    let top: u32 = if inflate_by == 5 { 31 } else { 63 };
    let e0 = c0 * 255 / top;
    let e1 = c1 * 255 / top;
    if key.1 == 0 {
        Some(e0)
    } else if key.1 == 1 {
        Some(e1)
    } else if key.1 == 2 {
        Some((2 * e0 + e1) / 3)
    } else if key.0 {
        Some((e0 + 2 * e1) / 3)
    } else {
        None
    }
}

/// Looks up all three colour channels of one texel; the colours are the
/// packed RGB565 words `color0`, `color1`.
fn texel_rgb(four: bool, sel: u8, color0: u32, color1: u32) -> (r: Option<(u8, u8, u8)>)
    requires
        sel < 4,
        color0 < 65536,
        color1 < 65536,
    ensures
        r.is_none() == (!four && sel == 3),
        r.is_some() ==> r.unwrap().0 as int == color_entry(
            four,
            sel as int,
            widen(channel_raw(color0 as int, 0), 5),
            widen(channel_raw(color1 as int, 0), 5),
        ).unwrap(),
        r.is_some() ==> r.unwrap().1 as int == color_entry(
            four,
            sel as int,
            widen(channel_raw(color0 as int, 1), 6),
            widen(channel_raw(color1 as int, 1), 6),
        ).unwrap(),
        r.is_some() ==> r.unwrap().2 as int == color_entry(
            four,
            sel as int,
            widen(channel_raw(color0 as int, 2), 5),
            widen(channel_raw(color1 as int, 2), 5),
        ).unwrap(),
{
    let key = (four, sel);
    let red = color_lookup(key, color0 / 2048, color1 / 2048, 5);
    let green = color_lookup(key, color0 / 32 % 64, color1 / 32 % 64, 6);
    let blue = color_lookup(key, color0 % 32, color1 % 32, 5);
    match (red, green, blue) {
        (Some(r), Some(g), Some(b)) => Some((r as u8, g as u8, b as u8)),
        _ => None,
    }
}

/// Decodes an 8-byte DXT1 block into 16 texels. With `alpha` set, the
/// transparent entry of three-colour mode gets alpha 0; otherwise every texel
/// is opaque.
#[verifier::rlimit(30)]
pub fn decode_chunk_dxt1(bytes: &[u8], alpha: bool) -> (r: Vec<u8>)
    requires
        bytes@.len() == 8,
    ensures
        r@.len() == 64,
        forall|i: int| 0 <= i < 64 ==> r@[i] as int == dxt1_texel(bytes@, alpha, i / 4, i % 4),
{
    let color0: u32 = bytes[0] as u32 + 256 * bytes[1] as u32;
    let color1: u32 = bytes[2] as u32 + 256 * bytes[3] as u32;
    let four = color0 > color1;
    let mut layer: Vec<u8> = Vec::with_capacity(64);
    let mut q: usize = 0;
    while q < 4
        invariant
            q <= 4,
            bytes@.len() == 8,
            color0 as int == color_word(bytes@, 0),
            color1 as int == color_word(bytes@, 2),
            four == dxt1_four_color(bytes@),
            layer@.len() == 16 * q,
            forall|i: int| 0 <= i < 16 * q ==> layer@[i] as int == dxt1_texel(bytes@, alpha, i / 4, i % 4),
        decreases 4 - q,
    {
        let code = bytes[7 - q];
        let mut j: usize = 0;
        while j < 4
            invariant
                q < 4,
                j <= 4,
                bytes@.len() == 8,
                code == bytes@[7 - q],
                color0 as int == color_word(bytes@, 0),
                color1 as int == color_word(bytes@, 2),
                four == dxt1_four_color(bytes@),
                layer@.len() == 16 * q + 4 * j,
                forall|i: int| 0 <= i < 16 * q + 4 * j ==> layer@[i] as int == dxt1_texel(bytes@, alpha, i / 4, i % 4),
            decreases 4 - j,
        {
            let sel = texel_selector(code, j);
            let t = 4 * q + j;
            assert(t as int / 4 == q && t as int % 4 == j);
            let (r, g, b, a) = match texel_rgb(four, sel, color0, color1) {
                Some((r, g, b)) => (r, g, b, 255u8),
                None => (0u8, 0u8, 0u8, if alpha { 0u8 } else { 255u8 }),
            };
            layer.push(r);
            layer.push(g);
            layer.push(b);
            layer.push(a);
            j = j + 1;
        }
        q = q + 1;
    }
    layer
}

/// Decodes a 16-byte DXT2/DXT3 block into 16 texels: explicit 4-bit alpha,
/// colours always in four-colour mode.
#[verifier::rlimit(30)]
pub fn decode_chunk_dxt3(bytes: &[u8]) -> (r: Vec<u8>)
    requires
        bytes@.len() == 16,
    ensures
        r@.len() == 64,
        forall|i: int| 0 <= i < 64 ==> r@[i] as int == dxt3_texel(bytes@, i / 4, i % 4),
{
    let color0: u32 = bytes[8] as u32 + 256 * bytes[9] as u32;
    let color1: u32 = bytes[10] as u32 + 256 * bytes[11] as u32;
    let mut layer: Vec<u8> = Vec::with_capacity(64);
    let mut q: usize = 0;
    while q < 4
        invariant
            q <= 4,
            bytes@.len() == 16,
            color0 as int == color_word(bytes@, 8),
            color1 as int == color_word(bytes@, 10),
            layer@.len() == 16 * q,
            forall|i: int| 0 <= i < 16 * q ==> layer@[i] as int == dxt3_texel(bytes@, i / 4, i % 4),
        decreases 4 - q,
    {
        let code = bytes[15 - q];
        let mut j: usize = 0;
        while j < 4
            invariant
                q < 4,
                j <= 4,
                bytes@.len() == 16,
                code == bytes@[15 - q],
                color0 as int == color_word(bytes@, 8),
                color1 as int == color_word(bytes@, 10),
                layer@.len() == 16 * q + 4 * j,
                forall|i: int| 0 <= i < 16 * q + 4 * j ==> layer@[i] as int == dxt3_texel(bytes@, i / 4, i % 4),
            decreases 4 - j,
        {
            let sel = texel_selector(code, j);
            let t = 4 * q + j;
            assert(t as int / 4 == q && t as int % 4 == j && t as int % 2 == j as int % 2);
            let packed = bytes[2 * (3 - q) + j / 2];
            let nibble: u8 = if j % 2 == 0 { packed % 16 } else { packed / 16 };
            let a = (nibble as u32 * 255 / 15) as u8;
            let (r, g, b) = match texel_rgb(true, sel, color0, color1) {
                Some(rgb) => rgb,
                None => (0u8, 0u8, 0u8),
            };
            layer.push(r);
            layer.push(g);
            layer.push(b);
            layer.push(a);
            j = j + 1;
        }
        q = q + 1;
    }
    layer
}

/// Interpolates the alpha of selector `key` between the endpoints `alpha0`
/// and `alpha1`: a seven-step scale when `alpha0 > alpha1`, else a five-step
/// scale with 0 and 255 as the last two entries.
fn dxt5_alpha_interp(alpha0: u32, alpha1: u32, key: u64) -> (r: u32)
    requires
        alpha0 < 256,
        alpha1 < 256,
        key < 8,
    ensures
        r as int == alpha_value(alpha0 as int, alpha1 as int, key as int),
        r < 256,
{
    if key == 0 {
        alpha0
    } else if key == 1 {
        alpha1
    } else if alpha0 > alpha1 {
        if key == 2 {
            (6 * alpha0 + alpha1) / 7
        } else if key == 3 {
            (5 * alpha0 + 2 * alpha1) / 7
        } else if key == 4 {
            (4 * alpha0 + 3 * alpha1) / 7
        } else if key == 5 {
            (3 * alpha0 + 4 * alpha1) / 7
        } else if key == 6 {
            (2 * alpha0 + 5 * alpha1) / 7
        } else {
            (alpha0 + 6 * alpha1) / 7
        }
    } else if key == 2 {
        (4 * alpha0 + alpha1) / 5
    } else if key == 3 {
        (3 * alpha0 + 2 * alpha1) / 5
    } else if key == 4 {
        (2 * alpha0 + 3 * alpha1) / 5
    } else if key == 5 {
        (alpha0 + 4 * alpha1) / 5
    } else if key == 6 {
        0
    } else {
        255
    }
}

/// Decodes a 16-byte DXT4/DXT5 block into 16 texels: interpolated alpha,
/// colours always in four-colour mode.
#[verifier::rlimit(30)]
pub fn decode_chunk_dxt5(bytes: &[u8]) -> (r: Vec<u8>)
    requires
        bytes@.len() == 16,
    ensures
        r@.len() == 64,
        forall|i: int| 0 <= i < 64 ==> r@[i] as int == dxt5_texel(bytes@, i / 4, i % 4),
{
    let color0: u32 = bytes[8] as u32 + 256 * bytes[9] as u32;
    let color1: u32 = bytes[10] as u32 + 256 * bytes[11] as u32;
    let alpha0 = bytes[0] as u32;
    let alpha1 = bytes[1] as u32;
    let alpha_info: u64 = (bytes[2] as u64) | ((bytes[3] as u64) << 8u64) | ((bytes[4] as u64)
        << 16u64) | ((bytes[5] as u64) << 24u64) | ((bytes[6] as u64) << 32u64) | ((
    bytes[7] as u64) << 40u64);
    let mut layer: Vec<u8> = Vec::with_capacity(64);
    let mut q: usize = 0;
    while q < 4
        invariant
            q <= 4,
            bytes@.len() == 16,
            color0 as int == color_word(bytes@, 8),
            color1 as int == color_word(bytes@, 10),
            alpha0 == bytes@[0],
            alpha1 == bytes@[1],
            alpha_info == alpha_bits(bytes@),
            layer@.len() == 16 * q,
            forall|i: int| 0 <= i < 16 * q ==> layer@[i] as int == dxt5_texel(bytes@, i / 4, i % 4),
        decreases 4 - q,
    {
        let code = bytes[15 - q];
        let mut j: usize = 0;
        while j < 4
            invariant
                q < 4,
                j <= 4,
                bytes@.len() == 16,
                code == bytes@[15 - q],
                color0 as int == color_word(bytes@, 8),
                color1 as int == color_word(bytes@, 10),
                alpha0 == bytes@[0],
                alpha1 == bytes@[1],
                alpha_info == alpha_bits(bytes@),
                layer@.len() == 16 * q + 4 * j,
                forall|i: int| 0 <= i < 16 * q + 4 * j ==> layer@[i] as int == dxt5_texel(bytes@, i / 4, i % 4),
            decreases 4 - j,
        {
            let sel = texel_selector(code, j);
            let t = 4 * q + j;
            assert(t as int / 4 == q && t as int % 4 == j);
            let n: u64 = (4 * (3 - q) + j) as u64;
            let key = (alpha_info >> (3 * n)) & 7;
            assert(key == alpha_code(alpha_info, n));
            assert((alpha_info >> (3 * n)) & 7u64 < 8u64) by (bit_vector);
            let a = dxt5_alpha_interp(alpha0, alpha1, key) as u8;
            let (r, g, b) = match texel_rgb(true, sel, color0, color1) {
                Some(rgb) => rgb,
                None => (0u8, 0u8, 0u8),
            };
            layer.push(r);
            layer.push(g);
            layer.push(b);
            layer.push(a);
            j = j + 1;
        }
        q = q + 1;
    }
    layer
}

/// When both packed colours of a DXT1 block are equal and punch-through is
/// off, no texel is transparent, and every texel whose selector is 0, 1 or 2
/// has exactly the stored colour.
pub proof fn lemma_dxt1_equal_colors(b: Seq<u8>)
    requires
        b.len() == 8,
        color_word(b, 0) == color_word(b, 2),
    ensures
        forall|t: int| 0 <= t < 16 ==> #[trigger] dxt1_texel(b, false, t, 3) == 255,
        forall|t: int, ch: int|
            0 <= t < 16 && 0 <= ch < 3 && dxt1_selector(b, t) < 3 ==> #[trigger] dxt1_texel(
                b,
                false,
                t,
                ch,
            ) == widen(channel_raw(color_word(b, 0), ch), channel_bits(ch)),
{
}

/// The DXT4/DXT5 alpha table: selectors 0 and 1 are the endpoints, and when
/// `a0 > a1` the interpolated entries 2 to 7 never increase; from 255 down to
/// 0 they strictly decrease.
pub proof fn lemma_dxt5_alpha_table(a0: int, a1: int)
    requires
        0 <= a1 < a0 <= 255,
    ensures
        alpha_value(a0, a1, 0) == a0,
        alpha_value(a0, a1, 1) == a1,
        forall|k: int| 2 <= k < 7 ==> alpha_value(a0, a1, k + 1) <= #[trigger] alpha_value(a0, a1, k),
        forall|k: int| 2 <= k <= 7 ==> a1 <= #[trigger] alpha_value(a0, a1, k) <= a0,
        a0 == 255 && a1 == 0 ==> forall|k: int|
            2 <= k < 7 ==> alpha_value(a0, a1, k + 1) < #[trigger] alpha_value(a0, a1, k),
{
}

} // verus!
