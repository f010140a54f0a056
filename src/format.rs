//! Decoding of the pixel data that follows the header: one RGBA8 image per
//! mipmap level, from raw masked pixels or from S3TC blocks.
use vstd::prelude::*;
use vstd::arithmetic::div_mod::lemma_fundamental_div_mod_converse;
use vstd::slice::slice_subrange;
use crate::block::{decode_chunk_dxt1, decode_chunk_dxt3, decode_chunk_dxt5, dxt1_texel, dxt3_texel, dxt5_texel};
use crate::error::DecodeError;
use crate::header::Compression::Uncompressed;
use crate::header::{Compression, Header, PixelFormat, level_count, level_dim};
use vstd::arithmetic::power2::{lemma_pow2_pos, lemma2_to64, lemma_pow2_strictly_increases, lemma_pow2_unfold, pow2};

verus! {

/// An RGBA8 raster: `data` holds `width * height` pixels of four bytes each
/// (red, green, blue, alpha), row by row from the top.
#[derive(Debug, Clone, PartialEq, Eq)]
pub struct Image {
    pub width: u32,
    pub height: u32,
    pub data: Vec<u8>,
}

impl Image {
    /// The buffer holds exactly four bytes per pixel.
    pub open spec fn wf(&self) -> bool {
        self.data@.len() == self.width * self.height * 4
    }

    /// An image over `data`, if it holds exactly four bytes per pixel.
    pub fn from_raw(width: u32, height: u32, data: Vec<u8>) -> (r: Option<Image>)
        ensures
            r is Some <==> data@.len() == width * height * 4,
            r is Some ==> r->Some_0.width == width && r->Some_0.height == height
                && r->Some_0.data@ == data@,
    {
        assert(width as int * height as int <= u32::MAX as int * u32::MAX as int) by (nonlinear_arith)
            requires
                width <= u32::MAX,
                height <= u32::MAX,
        ;
        let n: u64 = width as u64 * height as u64;
        let len = data.len();
        if n > (usize::MAX / 4) as u64 {
            assert(len < n * 4);
            return None;
        }
        if data.len() == (n as usize) * 4 {
            Some(Image { width, height, data })
        } else {
            None
        }
    }

    /// The width and the height.
    pub fn dimensions(&self) -> (r: (u32, u32))
        ensures
            r == (self.width, self.height),
    {
        (self.width, self.height)
    }

    /// The pixel bytes, row by row.
    pub fn as_raw(&self) -> (r: &[u8])
        ensures
            r@ == self.data@,
    {
        self.data.as_slice()
    }
}

/// `v` shifted right once for each trailing zero bit of the mask `m`.
pub open spec fn trailing_shift(v: nat, m: nat) -> nat
    decreases m,
{
    if m == 0 || m % 2 == 1 {
        v
    } else {
        trailing_shift(v / 2, m / 2)
    }
}

/// The number of set bits of `m`.
pub open spec fn ones(m: nat) -> nat
    decreases m,
{
    if m == 0 {
        0
    } else {
        m % 2 + ones(m / 2)
    }
}

/// A channel of a packed pixel word, rescaled to 8 bits: the bits under the
/// mask, shifted down to bit 0, times 255 over the largest value that many
/// bits can hold. A zero mask gives 0; a mask with gaps gives the low byte of
/// that quotient.
pub open spec fn mask_channel(pixel: u32, mask: u32) -> u8 {
    if mask == 0 {
        0
    } else {
        (trailing_shift((pixel & mask) as nat, mask as nat) * 255 / ((pow2(ones(mask as nat))
            - 1) as nat)) as u8
    }
}

proof fn lemma_ones_bound(m: nat, k: nat)
    requires
        m < pow2(k),
    ensures
        ones(m) <= k,
    decreases k,
{
    if k == 0 {
        lemma2_to64();
    } else {
        lemma_pow2_unfold(k);
        lemma_ones_bound(m / 2, (k - 1) as nat);
    }
}

proof fn lemma_ones_positive(m: nat)
    requires
        m > 0,
    ensures
        ones(m) >= 1,
    decreases m,
{
    if m % 2 == 0 {
        lemma_ones_positive(m / 2);
    }
}

/// Extracts the channel under `mask` from a pixel word and rescales it to 8 bits.
fn uncompressed_convert_mask(pixel: u32, mask: u32) -> (r: u8)
    ensures
        r == mask_channel(pixel, mask),
{
    if mask == 0 {
        return 0;
    }
    let mut v: u32 = pixel & mask;
    let mut m: u32 = mask;
    while m % 2 == 0
        invariant
            m > 0,
            ones(m as nat) == ones(mask as nat),
            trailing_shift(v as nat, m as nat) == trailing_shift((pixel & mask) as nat, mask as nat),
        decreases m,
    {
        v = v / 2;
        m = m / 2;
    }
    proof {
        lemma2_to64();
        lemma_ones_bound(mask as nat, 32);
        lemma_ones_positive(mask as nat);
    }
    let mut rest: u32 = m;
    let mut top: u64 = 1;
    let mut count: u32 = 0;
    while rest > 0
        invariant
            count + ones(rest as nat) == ones(mask as nat),
            ones(mask as nat) <= 32,
            top == pow2(count as nat),
        decreases rest,
    {
        if rest % 2 == 1 {
            proof {
                lemma2_to64();
                lemma_pow2_unfold((count + 1) as nat);
                if count + 1 < 32 {
                    lemma_pow2_strictly_increases((count + 1) as nat, 32);
                }
            }
            top = top * 2;
            count = count + 1;
        }
        rest = rest / 2;
    }
    proof {
        if top < 2 {
            lemma_pow2_unfold(count as nat);
        }
    }
    let scaled: u64 = (v as u64) * 255 / (top - 1);
    #[verifier::truncate]
    (scaled as u8)
}

/// Byte `k` of pixel `p` in a run of `pb`-byte pixels; 0 past the pixel's end.
pub open spec fn pixel_byte(data: Seq<u8>, pb: nat, p: int, k: int) -> int {
    if k < pb { data[p * pb + k] as int } else { 0 }
}

/// The little-endian 32-bit word of pixel `p`: its first four bytes, with
/// zeros above a narrower pixel.
pub open spec fn pixel_word(data: Seq<u8>, pb: nat, p: int) -> u32 {
    (pixel_byte(data, pb, p, 0) + 256 * pixel_byte(data, pb, p, 1) + 65536 * pixel_byte(
        data,
        pb,
        p,
        2,
    ) + 16777216 * pixel_byte(data, pb, p, 3)) as u32
}

/// RGBA8 bytes of `n` masked pixels of `pb` bytes each.
pub open spec fn masked_pixels(data: Seq<u8>, pb: nat, masks: Seq<u32>, n: nat) -> Seq<u8> {
    Seq::new(4 * n, |i: int| mask_channel(pixel_word(data, pb, i / 4), masks[i % 4]))
}

/// Converts `n` packed pixels of `pixel_bytes` bytes each to RGBA8 through
/// the red, green, blue and alpha masks.
fn decode_pixels(data: &[u8], pixel_bytes: usize, masks: &[u32; 4], n: usize) -> (r: Vec<u8>)
    requires
        data@.len() == n * pixel_bytes,
        4 * n <= usize::MAX,
    ensures
        r@ == masked_pixels(data@, pixel_bytes as nat, masks@, n as nat),
{
    let pb = pixel_bytes;
    let mut layer: Vec<u8> = Vec::new();
    let mut p: usize = 0;
    let mut pos: usize = 0;
    while p < n
        invariant
            p <= n,
            data@.len() == n * pb,
            4 * n <= usize::MAX,
            pos == p * pb,
            layer@.len() == 4 * p,
            forall|i: int|
                0 <= i < 4 * p ==> layer@[i] == mask_channel(
                    pixel_word(data@, pb as nat, i / 4),
                    masks@[i % 4],
                ),
        decreases n - p,
    {
        assert((p + 1) * pb <= n * pb && (p + 1) * pb == p * pb + pb) by (nonlinear_arith)
            requires
                p < n,
        ;
        let b0: u32 = if pb > 0 { data[pos] as u32 } else { 0 };
        let b1: u32 = if pb > 1 { data[pos + 1] as u32 } else { 0 };
        let b2: u32 = if pb > 2 { data[pos + 2] as u32 } else { 0 };
        let b3: u32 = if pb > 3 { data[pos + 3] as u32 } else { 0 };
        let pixel: u32 = b0 + 256 * b1 + 65536 * b2 + 16777216 * b3;
        assert(pixel == pixel_word(data@, pb as nat, p as int));
        let t = 4 * p;
        assert(t as int / 4 == p && (t as int + 1) / 4 == p && (t as int + 2) / 4 == p && (t as int
            + 3) / 4 == p);
        layer.push(uncompressed_convert_mask(pixel, masks[0]));
        layer.push(uncompressed_convert_mask(pixel, masks[1]));
        layer.push(uncompressed_convert_mask(pixel, masks[2]));
        layer.push(uncompressed_convert_mask(pixel, masks[3]));
        p = p + 1;
        pos = pos + pb;
    }
    assert(layer@ =~= masked_pixels(data@, pb as nat, masks@, n as nat));
    layer
}

/// Position of pixel `p` of a band's output in the band's texel stream: the
/// band holds `4 * w / 4` blocks of 16 texels, each in last-row-first order,
/// and the output keeps `width` pixels of each of the band's four rows.
pub open spec fn band_texel(width: int, p: int) -> int {
    let y = p / width;
    let x = p % width;
    4 * (3 - y) + 16 * (x / 4) + x % 4
}

/// The four rows of a band of decoded blocks, top row first, each cropped to
/// `width` pixels.
#[verifier::opaque]
pub open spec fn transposed(band: Seq<u8>, width: nat) -> Seq<u8> {
    Seq::new(16 * width, |i: int| band[4 * band_texel(width as int, i / 4) + i % 4])
}

/// Rearranges one band of decoded blocks (a row of `w / 4` blocks of 16
/// texels, as RGBA8 bytes) into four image rows of `width` pixels, dropping
/// the padding columns of the last block.
fn dxt_transpose_texels(chunk: &[u8], w: usize, width: usize) -> (r: Vec<u8>)
    requires
        w % 4 == 0,
        width <= w,
        chunk@.len() == 16 * w,
    ensures
        r@ == transposed(chunk@, width as nat),
        r@.len() == 16 * width,
{
    reveal(transposed);
    let mut pixels: Vec<u8> = Vec::new();
    let mut p: usize = 0;
    let len = chunk.len();
    while p < 4 * width
        invariant
            16 * w == len <= usize::MAX,
            w % 4 == 0,
            width <= w,
            chunk@.len() == 16 * w,
            p <= 4 * width,
            pixels@.len() == 4 * p,
            forall|i: int|
                0 <= i < 4 * p ==> pixels@[i] == chunk@[4 * band_texel(width as int, i / 4) + i
                    % 4],
        decreases 4 * width - p,
    {
        let y = p / width;
        let x = p % width;
        assert(y < 4 && x < width) by (nonlinear_arith)
            requires
                p < 4 * width,
                y == p / width,
                x == p % width,
                width > 0,
        ;
        assert(16 * (x / 4) + 4 <= 4 * w) by (nonlinear_arith)
            requires
                x < w,
                w % 4 == 0,
        ;
        let at = 4 * (4 * (3 - y) + 16 * (x / 4) + x % 4);
        let t = 4 * p;
        assert(t as int / 4 == p && (t as int + 1) / 4 == p && (t as int + 2) / 4 == p && (t as int
            + 3) / 4 == p);
        pixels.push(chunk[at]);
        pixels.push(chunk[at + 1]);
        pixels.push(chunk[at + 2]);
        pixels.push(chunk[at + 3]);
        p = p + 1;
    }
    assert(pixels@ =~= transposed(chunk@, width as nat));
    pixels
}

/// Whether a tag names one of the block-compressed formats DXT1 to DXT5.
pub open spec fn is_dxt(c: Compression) -> bool {
    c is DXT1 || c is DXT2 || c is DXT3 || c is DXT4 || c is DXT5
}

/// Bytes per 4x4 block: 8 for DXT1, 16 for DXT2 to DXT5.
pub open spec fn block_size(c: Compression) -> nat {
    if c is DXT1 { 8 } else { 16 }
}

/// Whether DXT1 blocks may hold transparent texels: the header's pixel
/// masks name a known format.
pub open spec fn punch_through(header: Header) -> bool {
    header.pixel_format != PixelFormat::Unknown
}

/// Byte `ch` of texel `t` of block `b` decoded as compression `c`.
pub open spec fn block_texel(c: Compression, alpha: bool, b: Seq<u8>, t: int, ch: int) -> int {
    if c is DXT1 {
        dxt1_texel(b, alpha, t, ch)
    } else if c is DXT2 || c is DXT3 {
        dxt3_texel(b, t, ch)
    } else {
        dxt5_texel(b, t, ch)
    }
}

/// The 64 RGBA8 bytes of block `b` decoded as compression `c`.
pub open spec fn decoded_block(c: Compression, alpha: bool, b: Seq<u8>) -> Seq<u8> {
    Seq::new(64, |i: int| block_texel(c, alpha, b, i / 4, i % 4) as u8)
}

/// Decodes one block of a DXT1 to DXT5 image into 16 RGBA8 texels.
fn dxt_chunk_transform(chunk: &[u8], header: &Header) -> (r: Vec<u8>)
    requires
        is_dxt(header.compression),
        chunk@.len() == block_size(header.compression),
    ensures
        r@ == decoded_block(header.compression, punch_through(*header), chunk@),
{
    let r = match header.compression {
        Compression::DXT1 => decode_chunk_dxt1(chunk, header.pixel_format != PixelFormat::Unknown),
        Compression::DXT2 | Compression::DXT3 => decode_chunk_dxt3(chunk),
        _ => decode_chunk_dxt5(chunk),
    };
    assert(r@ =~= decoded_block(header.compression, punch_through(*header), chunk@));
    r
}

/// A dimension rounded up to whole blocks: a multiple of 4, at least 4.
pub open spec fn rounded(d: nat) -> nat {
    if d <= 4 { 4 } else { (d + 3) / 4 * 4 }
}

/// The decoded texels of the first `n` blocks of `data`, in stored order.
#[verifier::opaque]
pub open spec fn block_stream(c: Compression, alpha: bool, data: Seq<u8>, n: nat) -> Seq<u8> {
    Seq::new(
        64 * n,
        |i: int|
            decoded_block(
                c,
                alpha,
                data.subrange(block_size(c) * (i / 64), block_size(c) * (i / 64) + block_size(c)),
            )[i % 64],
    )
}

/// The first `bands` bands of `w`-texel-wide decoded blocks, each turned into
/// four image rows of `width` pixels.
#[verifier::opaque]
pub open spec fn reassembled(texels: Seq<u8>, w: nat, width: nat, bands: nat) -> Seq<u8> {
    Seq::new(
        16 * width * bands,
        |i: int|
            transposed(
                texels.subrange(
                    16 * (w as int) * (i / (16 * width as int)),
                    16 * (w as int) * (i / (16 * width as int) + 1),
                ),
                width,
            )[i % (16 * width as int)],
    )
}

/// The RGBA8 bytes of a `width` x `height` level stored as compression `c`:
/// the blocks of the rounded-up size reassembled into rows, and the padding
/// rows cut off.
pub open spec fn dxt_level(c: Compression, alpha: bool, data: Seq<u8>, height: nat, width: nat) -> Seq<u8> {
    let w = rounded(width);
    let h = rounded(height);
    reassembled(block_stream(c, alpha, data, (h / 4) * (w / 4)), w, width, h / 4).take(
        (4 * width * height) as int,
    )
}

/// Decodes the first `nb` blocks of `data` into one stream of texels.
fn decode_blocks(header: &Header, data: &[u8], nb: usize) -> (r: Vec<u8>)
    requires
        is_dxt(header.compression),
        data@.len() == block_size(header.compression) * nb,
        8 * data@.len() <= usize::MAX,
    ensures
        r@ == block_stream(header.compression, punch_through(*header), data@, nb as nat),
        r@.len() == 64 * nb,
{
    let ghost c = header.compression;
    let ghost alpha = punch_through(*header);
    let bs: usize = match header.compression {
        Compression::DXT1 => 8,
        _ => 16,
    };
    reveal(block_stream);
    let mut texels: Vec<u8> = Vec::new();
    let mut b: usize = 0;
    let mut pos: usize = 0;
    while b < nb
        invariant
            is_dxt(c),
            c == header.compression,
            alpha == punch_through(*header),
            bs == block_size(c),
            data@.len() == bs * nb,
            8 * data@.len() <= usize::MAX,
            b <= nb,
            pos == bs * b,
            texels@ == block_stream(c, alpha, data@, b as nat),
        decreases nb - b,
    {
        assert(bs * (b + 1) <= bs * nb && bs * (b + 1) == bs * b + bs && 64 * (b + 1) <= 8 * (bs
            * nb)) by (nonlinear_arith)
            requires
                b < nb,
                bs == 8 || bs == 16,
        ;
        let chunk = slice_subrange(data, pos, pos + bs);
        let mut decoded = dxt_chunk_transform(chunk, header);
        texels.append(&mut decoded);
        proof {
            reveal(block_stream);
            assert forall|i: int| 0 <= i < 64 * (b + 1) implies #[trigger] texels@[i] == block_stream(
                c,
                alpha,
                data@,
                (b + 1) as nat,
            )[i] by {
                if i >= 64 * b {
                    lemma_fundamental_div_mod_converse(i, 64, b as int, i - 64 * b);
                }
            }
            assert(texels@ =~= block_stream(c, alpha, data@, (b + 1) as nat));
        }
        b = b + 1;
        pos = pos + bs;
    }
    texels
}

/// Turns `bands` bands of decoded blocks, `w` texels wide, into image rows
/// of `width` pixels.
fn reassemble(texels: &Vec<u8>, w: usize, width: usize, bands: usize) -> (r: Vec<u8>)
    requires
        texels@.len() == 16 * w * bands,
        w % 4 == 0,
        width <= w,
    ensures
        r@ == reassembled(texels@, w as nat, width as nat, bands as nat),
        r@.len() == 16 * width * bands,
{
    reveal(reassembled);
    let ghost all = texels@;
    let len = texels.len();
    let mut layer: Vec<u8> = Vec::new();
    let mut r: usize = 0;
    while r < bands
        invariant
            texels@ == all,
            all.len() == 16 * w * bands,
            all.len() <= usize::MAX,
            w % 4 == 0,
            width <= w,
            r <= bands,
            layer@ == reassembled(all, w as nat, width as nat, r as nat),
        decreases bands - r,
    {
        assert(16 * w * (r + 1) <= 16 * w * bands && 16 * w * (r + 1) == 16 * w * r + 16 * w)
            by (nonlinear_arith)
            requires
                r < bands,
        ;
        let band = slice_subrange(texels.as_slice(), 16 * w * r, 16 * w * (r + 1));
        let mut rows = dxt_transpose_texels(band, w, width);
        let ghost before = layer@;
        layer.append(&mut rows);
        proof {
            reveal(reassembled);
            let n = 16 * width;
            assert forall|i: int| 0 <= i < n * (r + 1) implies #[trigger] layer@[i]
                == reassembled(all, w as nat, width as nat, (r + 1) as nat)[i] by {
                if i >= n * r {
                    assert(n * (r + 1) == n * r + n && r * n == n * r) by (nonlinear_arith);
                    lemma_fundamental_div_mod_converse(i, n as int, r as int, i - n * r);
                }
            }
            assert(layer@.len() == n * (r + 1)) by (nonlinear_arith)
                requires
                    layer@.len() == before.len() + n,
                    before.len() == n * r,
            ;
            assert(layer@ =~= reassembled(all, w as nat, width as nat, (r + 1) as nat));
        }
        r = r + 1;
    }
    layer
}

proof fn lemma_block_grid(bh: int, bw: int, bs: int, len: int, height: int, width: int)
    requires
        len == bs * (bh * bw),
        bs == 8 || bs == 16,
        bh >= 1,
        bw >= 1,
        8 * len <= usize::MAX,
        0 <= height <= 4 * bh,
        0 <= width <= 4 * bw,
    ensures
        bh * bw <= len,
        4 * bh <= len,
        4 * bw <= len,
        64 * (bh * bw) == 16 * (4 * bw) * bh,
        64 * (bh * bw) <= usize::MAX,
        4 * width * height <= 16 * (4 * bw) * bh,
        4 * width <= 16 * (4 * bw) * bh,
        4 * width * height <= 16 * width * bh,
{
    assert(bh * bw <= len && 4 * bh <= len && 4 * bw <= len && 64 * (bh * bw) == 16 * (4 * bw)
        * bh && 64 * (bh * bw) <= 8 * len) by (nonlinear_arith)
        requires
            len == bs * (bh * bw),
            bs == 8 || bs == 16,
            bh >= 1,
            bw >= 1,
    ;
    assert(4 * width * height <= 16 * (4 * bw) * bh && 4 * width <= 16 * (4 * bw) * bh && 4
        * width * height <= 16 * width * bh) by (nonlinear_arith)
        requires
            bh >= 1,
            0 <= height <= 4 * bh,
            0 <= width <= 4 * bw,
    ;
}

/// Decodes one level of a DXT1 to DXT5 image: `data` holds its blocks left
/// to right, top to bottom, for its size rounded up to whole blocks.
#[verifier::rlimit(40)]
fn decode_layer_dxt(header: &Header, data: &[u8], height: usize, width: usize) -> (r: Vec<u8>)
    requires
        is_dxt(header.compression),
        data@.len() == block_size(header.compression) * ((rounded(height as nat) / 4) * (rounded(
            width as nat,
        ) / 4)),
        8 * data@.len() <= usize::MAX,
        height <= u32::MAX,
        width <= u32::MAX,
    ensures
        r@ == dxt_level(
            header.compression,
            punch_through(*header),
            data@,
            height as nat,
            width as nat,
        ),
{
    let ghost c = header.compression;
    let ghost alpha = punch_through(*header);
    let bh: usize = if height <= 4 { 1 } else { (height - 1) / 4 + 1 };
    let bw: usize = if width <= 4 { 1 } else { (width - 1) / 4 + 1 };
    assert(rounded(height as nat) == 4 * bh && rounded(width as nat) == 4 * bw);
    proof {
        lemma_block_grid(
            bh as int,
            bw as int,
            block_size(c) as int,
            data@.len() as int,
            height as int,
            width as int,
        );
    }
    let nb = bh * bw;
    let w = 4 * bw;
    let texels = decode_blocks(header, data, nb);
    let mut layer = reassemble(&texels, w, width, bh);
    let ghost full = layer@;
    layer.truncate(4 * width * height);
    proof {
        let rh = rounded(height as nat);
        let rw = rounded(width as nat);
        assert(rh / 4 == bh && rw / 4 == bw && rw == w);
        assert(block_stream(c, alpha, data@, ((rh / 4) * (rw / 4)) as nat) == texels@);
        assert(full == reassembled(texels@, rw, width as nat, rh / 4));
        reveal(reassembled);
        assert(full.len() == 16 * width * bh);
        assert(layer@ =~= full.take((4 * width * height) as int));
    }
    layer
}

/// Whether the decoder handles a compression: none, or DXT1 to DXT5.
pub open spec fn supported(c: Compression) -> bool {
    c is Uncompressed || is_dxt(c)
}

/// Whether uncompressed pixels have a width that the decoder handles.
pub open spec fn pixel_bytes_ok(header: Header) -> bool {
    header.compression is Uncompressed ==> 1 <= header.pixel_bytes <= 4
}

/// Number of bytes that an `h` x `w` level takes in the pixel data.
pub open spec fn span_of(header: Header, h: nat, w: nat) -> nat {
    if header.compression is Uncompressed {
        h * w * (header.pixel_bytes as nat)
    } else {
        block_size(header.compression) * ((rounded(h) / 4) * (rounded(w) / 4))
    }
}

/// Number of bytes that level `i` takes in the pixel data.
pub open spec fn level_span(header: Header, i: nat) -> nat {
    span_of(header, level_dim(header.height, i), level_dim(header.width, i))
}

/// Where level `i` starts in the pixel data: the levels follow each other.
pub open spec fn level_offset(header: Header, i: nat) -> nat
    decreases i,
{
    if i == 0 {
        0
    } else {
        level_offset(header, (i - 1) as nat) + level_span(header, (i - 1) as nat)
    }
}

/// The bytes of level `i` in the pixel data.
pub open spec fn level_data(header: Header, buf: Seq<u8>, i: nat) -> Seq<u8> {
    buf.subrange(level_offset(header, i) as int, (level_offset(header, i) + level_span(header, i)) as int)
}

/// The RGBA8 bytes of level `i`, decoded from that level's own bytes.
pub open spec fn level_pixels(header: Header, data: Seq<u8>, i: nat) -> Seq<u8> {
    let h = level_dim(header.height, i);
    let w = level_dim(header.width, i);
    if header.compression is Uncompressed {
        masked_pixels(data, header.pixel_bytes as nat, header.channel_masks@, h * w)
    } else {
        dxt_level(header.compression, punch_through(header), data, h, w)
    }
}

/// Whether `v` holds every level of the pixel data `buf`, decoded, largest first.
pub open spec fn decodes_to(header: Header, buf: Seq<u8>, v: Seq<Image>) -> bool {
    &&& v.len() == level_count(header.mipmap_count)
    &&& forall|i: int|
        0 <= i < v.len() ==> {
            &&& (#[trigger] v[i]).width == level_dim(header.width, i as nat)
            &&& v[i].height == level_dim(header.height, i as nat)
            &&& v[i].data@ == level_pixels(header, level_data(header, buf, i as nat), i as nat)
        }
}

proof fn lemma_offset_grows(header: Header, i: nat, j: nat)
    requires
        i <= j,
    ensures
        level_offset(header, i) <= level_offset(header, j),
    decreases j - i,
{
    if i < j {
        lemma_offset_grows(header, i, (j - 1) as nat);
    }
}

proof fn lemma_level_dim_bound(base: u32, i: nat)
    ensures
        level_dim(base, i) <= base,
{
    lemma_pow2_pos(i);
    assert(base as nat / pow2(i) <= base as nat) by (nonlinear_arith)
        requires
            pow2(i) > 0,
    ;
}

/// The number of bytes of a `height` x `width` level, if at most `remaining`.
fn layer_span(header: &Header, height: usize, width: usize, remaining: usize) -> (r: Option<usize>)
    requires
        supported(header.compression),
        height <= u32::MAX,
        width <= u32::MAX,
    ensures
        r is Some <==> span_of(*header, height as nat, width as nat) <= remaining,
        r is Some ==> r->Some_0 == span_of(*header, height as nat, width as nat),
{
    let (a, b, c): (u128, u128, u128) = match header.compression {
        Uncompressed => (height as u128, width as u128, header.pixel_bytes as u128),
        _ => {
            let bh: u128 = if height <= 4 { 1 } else { ((height - 1) / 4 + 1) as u128 };
            let bw: u128 = if width <= 4 { 1 } else { ((width - 1) / 4 + 1) as u128 };
            let bs: u128 = match header.compression {
                Compression::DXT1 => 8,
                _ => 16,
            };
            assert(rounded(height as nat) / 4 == bh && rounded(width as nat) / 4 == bw);
            assert(bs * (bh * bw) == span_of(*header, height as nat, width as nat));
            (bs, bh, bw)
        },
    };
    assert(a * b <= u128::MAX && a * b * c <= u128::MAX) by (nonlinear_arith)
        requires
            a <= u64::MAX,
            b <= u32::MAX + 1,
            c <= u64::MAX,
            a <= u32::MAX + 1 || c <= u32::MAX + 1,
    ;
    let n = a * b * c;
    assert(a * b * c == a * (b * c)) by (nonlinear_arith);
    assert(n == span_of(*header, height as nat, width as nat));
    if n > remaining as u128 {
        None
    } else {
        Some(n as usize)
    }
}

/// Walks the pixel data level by level, largest first, decoding each level
/// from the bytes that follow the previous one.
fn decode_levels(header: &Header, buf: &[u8]) -> (r: Result<Vec<Image>, DecodeError>)
    requires
        supported(header.compression),
        pixel_bytes_ok(*header),
        8 * buf@.len() <= usize::MAX,
    ensures
        buf@.len() < level_offset(*header, level_count(header.mipmap_count)) ==> r
            == Err::<Vec<Image>, DecodeError>(DecodeError::BufferTooShort),
        buf@.len() >= level_offset(*header, level_count(header.mipmap_count)) ==> r is Ok
            && decodes_to(*header, buf@, r->Ok_0@),
{
    let sizes = header.get_layer_sizes();
    let ghost count = level_count(header.mipmap_count);
    let mut layers: Vec<Image> = Vec::new();
    let mut pos: usize = 0;
    let mut i: usize = 0;
    while i < sizes.len()
        invariant
            supported(header.compression),
            pixel_bytes_ok(*header),
            8 * buf@.len() <= usize::MAX,
            count == level_count(header.mipmap_count),
            sizes@.len() == count,
            forall|k: int|
                0 <= k < sizes@.len() ==> sizes@[k].0 == level_dim(header.height, k as nat)
                    && sizes@[k].1 == level_dim(header.width, k as nat),
            i <= count,
            pos == level_offset(*header, i as nat),
            pos <= buf@.len(),
            layers@.len() == i,
            forall|k: int|
                0 <= k < i ==> {
                    &&& (#[trigger] layers@[k]).width == level_dim(header.width, k as nat)
                    &&& layers@[k].height == level_dim(header.height, k as nat)
                    &&& layers@[k].data@ == level_pixels(
                        *header,
                        level_data(*header, buf@, k as nat),
                        k as nat,
                    )
                },
        decreases count - i,
    {
        let (h, w) = sizes[i];
        proof {
            lemma_level_dim_bound(header.height, i as nat);
            lemma_level_dim_bound(header.width, i as nat);
        }
        let span = match layer_span(header, h, w, buf.len() - pos) {
            Some(n) => n,
            None => {
                proof {
                    assert(level_offset(*header, (i + 1) as nat) == pos + level_span(
                        *header,
                        i as nat,
                    ));
                    lemma_offset_grows(*header, (i + 1) as nat, count);
                }
                return Err(DecodeError::BufferTooShort);
            },
        };
        let data = slice_subrange(buf, pos, pos + span);
        let bytes = match header.compression {
            Uncompressed => {
                assert(h * w <= span && 4 * (h * w) <= usize::MAX) by (nonlinear_arith)
                    requires
                        span == h * w * header.pixel_bytes,
                        header.pixel_bytes >= 1,
                        span <= buf@.len(),
                        8 * buf@.len() <= usize::MAX,
                ;
                assert(data@.len() == (h * w) * header.pixel_bytes) by (nonlinear_arith)
                    requires
                        data@.len() == h * w * header.pixel_bytes,
                ;
                decode_pixels(data, header.pixel_bytes, &header.channel_masks, h * w)
            },
            _ => decode_layer_dxt(header, data, h, w),
        };
        layers.push(Image { width: w as u32, height: h as u32, data: bytes });
        pos = pos + span;
        i = i + 1;
    }
    Ok(layers)
}

/// Decodes the levels of an uncompressed image: each pixel's first bytes
/// form a little-endian word from which the channel masks take red, green,
/// blue and alpha.
pub fn decode_layers_uncompressed(header: &Header, buf: &[u8]) -> (r: Result<Vec<Image>, DecodeError>)
    requires
        header.compression is Uncompressed,
        8 * buf@.len() <= usize::MAX,
    ensures
        !pixel_bytes_ok(*header) ==> r == Err::<Vec<Image>, DecodeError>(
            DecodeError::UnsupportedPixelBytes(header.pixel_bytes),
        ),
        pixel_bytes_ok(*header) && buf@.len() < level_offset(
            *header,
            level_count(header.mipmap_count),
        ) ==> r == Err::<Vec<Image>, DecodeError>(DecodeError::BufferTooShort),
        pixel_bytes_ok(*header) && buf@.len() >= level_offset(
            *header,
            level_count(header.mipmap_count),
        ) ==> r is Ok && decodes_to(*header, buf@, r->Ok_0@),
{
    if header.pixel_bytes == 0 || header.pixel_bytes > 4 {
        return Err(DecodeError::UnsupportedPixelBytes(header.pixel_bytes));
    }
    decode_levels(header, buf)
}

/// Decodes the levels of a DXT1 to DXT5 image: each level is stored as
/// whole 4x4 blocks and cropped to its own size.
pub fn decode_layers_dxt(header: &Header, buf: &[u8]) -> (r: Result<Vec<Image>, DecodeError>)
    requires
        is_dxt(header.compression),
        8 * buf@.len() <= usize::MAX,
    ensures
        buf@.len() < level_offset(*header, level_count(header.mipmap_count)) ==> r
            == Err::<Vec<Image>, DecodeError>(DecodeError::BufferTooShort),
        buf@.len() >= level_offset(*header, level_count(header.mipmap_count)) ==> r is Ok
            && decodes_to(*header, buf@, r->Ok_0@),
{
    decode_levels(header, buf)
}

/// Decodes the pixel data that follows the header into one image per
/// mipmap level, largest first.
pub fn decode_layers(header: &Header, buf: &[u8]) -> (r: Result<Vec<Image>, DecodeError>)
    requires
        8 * buf@.len() <= usize::MAX,
    ensures
        !supported(header.compression) ==> r == Err::<Vec<Image>, DecodeError>(
            DecodeError::UnsupportedCompression(header.compression),
        ),
        supported(header.compression) && !pixel_bytes_ok(*header) ==> r == Err::<
            Vec<Image>,
            DecodeError,
        >(DecodeError::UnsupportedPixelBytes(header.pixel_bytes)),
        supported(header.compression) && pixel_bytes_ok(*header) && buf@.len() < level_offset(
            *header,
            level_count(header.mipmap_count),
        ) ==> r == Err::<Vec<Image>, DecodeError>(DecodeError::BufferTooShort),
        supported(header.compression) && pixel_bytes_ok(*header) && buf@.len() >= level_offset(
            *header,
            level_count(header.mipmap_count),
        ) ==> r is Ok && decodes_to(*header, buf@, r->Ok_0@),
{
    match header.compression {
        Uncompressed => decode_layers_uncompressed(header, buf),
        Compression::DXT1 | Compression::DXT2 | Compression::DXT3 | Compression::DXT4
        | Compression::DXT5 => decode_layers_dxt(header, buf),
        compression => Err(DecodeError::UnsupportedCompression(compression)),
    }
}

/// What decoding the pixel data `buf` under `header` yields, by the rules of
/// `decode_layers`.
pub open spec fn decode_outcome(header: Header, buf: Seq<u8>, r: Result<Seq<Image>, DecodeError>) -> bool {
    if !supported(header.compression) {
        r == Err::<Seq<Image>, DecodeError>(DecodeError::UnsupportedCompression(header.compression))
    } else if !pixel_bytes_ok(header) {
        r == Err::<Seq<Image>, DecodeError>(DecodeError::UnsupportedPixelBytes(header.pixel_bytes))
    } else if buf.len() < level_offset(header, level_count(header.mipmap_count)) {
        r == Err::<Seq<Image>, DecodeError>(DecodeError::BufferTooShort)
    } else {
        r matches Ok(v) && decodes_to(header, buf, v)
    }
}

/// Decoding yields one image per level, at least one, and each image holds
/// exactly four bytes per pixel of its own size.
pub proof fn lemma_decoded_sizes(header: Header, buf: Seq<u8>, v: Seq<Image>)
    requires
        supported(header.compression),
        decodes_to(header, buf, v),
    ensures
        v.len() == level_count(header.mipmap_count),
        v.len() >= 1,
        forall|i: int| 0 <= i < v.len() ==> (#[trigger] v[i]).wf(),
{
    assert forall|i: int| 0 <= i < v.len() implies (#[trigger] v[i]).wf() by {
        let h = level_dim(header.height, i as nat);
        let w = level_dim(header.width, i as nat);
        let data = level_data(header, buf, i as nat);
        if header.compression is Uncompressed {
            assert(4 * (h * w) == w * h * 4) by (nonlinear_arith);
        } else {
            let rh = rounded(h);
            let rw = rounded(w);
            let c = header.compression;
            let full = reassembled(block_stream(c, punch_through(header), data, (rh / 4) * (rw / 4)), rw, w, rh / 4);
            reveal(reassembled);
            assert(4 * w * h <= 16 * w * (rh / 4) && 4 * w * h == w * h * 4) by (nonlinear_arith)
                requires
                    h <= rh,
                    rh % 4 == 0,
            ;
            assert(full.len() == 16 * w * (rh / 4));
        }
    }
}

proof fn lemma_shift_scaled(b: nat, m: nat, k: nat)
    requires
        m % 2 == 1,
    ensures
        trailing_shift(b * pow2(k), m * pow2(k)) == b,
        ones(m * pow2(k)) == ones(m),
    decreases k,
{
    if k == 0 {
        lemma2_to64();
        assert(b * pow2(0) == b && m * pow2(0) == m);
    } else {
        lemma_pow2_unfold(k);
        lemma_pow2_pos((k - 1) as nat);
        let p = pow2((k - 1) as nat);
        assert(b * pow2(k) == 2 * (b * p) && m * pow2(k) == 2 * (m * p)) by (nonlinear_arith)
            requires
                pow2(k) == 2 * p,
        ;
        assert(m * p > 0) by (nonlinear_arith)
            requires
                m % 2 == 1,
                p > 0,
        ;
        lemma_shift_scaled(b, m, (k - 1) as nat);
    }
}

/// A mask of eight set bits at byte `k` takes byte `k` of a word unchanged.
proof fn lemma_byte_mask(w: u32, mask: u32, b: u32, k: nat)
    requires
        b < 256,
        mask as nat == 255 * pow2(8 * k),
        (w & mask) as nat == b * pow2(8 * k),
    ensures
        mask_channel(w, mask) == b,
{
    lemma_pow2_pos(8 * k);
    lemma_shift_scaled(b as nat, 255, 8 * k);
    reveal_with_fuel(ones, 9);
    lemma2_to64();
    assert(ones(255) == 8);
    assert(ones(mask as nat) == 8);
    assert(trailing_shift((w & mask) as nat, mask as nat) == b);
    assert(pow2(8) - 1 == 255);
    assert(mask != 0) by (nonlinear_arith)
        requires
            mask as nat == 255 * pow2(8 * k),
            pow2(8 * k) > 0,
    ;
    assert((b * 255 / 255) as nat == b as nat);
}

/// Pixels of four bytes read through the masks of red in the lowest byte up
/// to alpha in the highest come out as the very same bytes.
pub proof fn lemma_rgba_masks_identity(data: Seq<u8>, n: nat)
    requires
        data.len() == 4 * n,
    ensures
        masked_pixels(data, 4, seq![0xFFu32, 0xFF00u32, 0xFF0000u32, 0xFF000000u32], n) == data,
{
    let masks = seq![0xFFu32, 0xFF00u32, 0xFF0000u32, 0xFF000000u32];
    lemma2_to64();
    assert(pow2(0) == 1 && pow2(8) == 256 && pow2(16) == 65536 && pow2(24) == 16777216);
    assert forall|i: int| 0 <= i < 4 * n implies #[trigger] masked_pixels(data, 4, masks, n)[i]
        == data[i] by {
        let p = i / 4;
        let k = i % 4;
        assert(p * 4 + 3 < 4 * n);
        let b0 = data[p * 4] as u32;
        let b1 = data[p * 4 + 1] as u32;
        let b2 = data[p * 4 + 2] as u32;
        let b3 = data[p * 4 + 3] as u32;
        let w = pixel_word(data, 4, p);
        assert(w == (b0 + 256 * b1 + 65536 * b2 + 16777216 * b3) as u32);
        assert(b0 + 256 * b1 + 65536 * b2 + 16777216 * b3 <= u32::MAX);
        assert(w & 0xFFu32 == b0 && w & 0xFF00u32 == b1 * 256 && w & 0xFF0000u32 == b2 * 65536
            && w & 0xFF000000u32 == b3 * 16777216) by (bit_vector)
            requires
                w == b0 + 256 * b1 + 65536 * b2 + 16777216 * b3,
                b0 < 256,
                b1 < 256,
                b2 < 256,
                b3 < 256,
        ;
        assert(i == p * 4 + k);
        if k == 0 {
            assert(8 * 0nat == 0nat);
            assert(b0 * pow2(8 * 0nat) == b0);
            lemma_byte_mask(w, 0xFF, b0, 0);
        } else if k == 1 {
            lemma_byte_mask(w, 0xFF00, b1, 1);
        } else if k == 2 {
            lemma_byte_mask(w, 0xFF0000, b2, 2);
        } else {
            lemma_byte_mask(w, 0xFF000000, b3, 3);
        }
    }
    assert(masked_pixels(data, 4, masks, n) =~= data);
}

/// Where each pixel of a compressed level comes from: byte `ch` of pixel
/// `(y, x)` is byte `ch` of texel `4 * (3 - y % 4) + x % 4` of block
/// `(y / 4) * (w / 4) + x / 4`, with `w` the width rounded up to whole
/// blocks. Padding columns and rows are never read.
#[verifier::rlimit(60)]
pub proof fn lemma_dxt_pixel(
    c: Compression,
    alpha: bool,
    data: Seq<u8>,
    height: nat,
    width: nat,
    y: nat,
    x: nat,
    ch: nat,
)
    requires
        is_dxt(c),
        data.len() == block_size(c) * ((rounded(height) / 4) * (rounded(width) / 4)),
        y < height,
        x < width,
        ch < 4,
    ensures
        ({
            let w = rounded(width);
            let b = (y / 4) * (w / 4) + x / 4;
            let bs = block_size(c);
            dxt_level(c, alpha, data, height, width)[(4 * (y * width + x) + ch) as int]
                == decoded_block(c, alpha, data.subrange((bs * b) as int, (bs * b + bs) as int))[(4
                * (4 * (3 - y % 4) + x % 4) + ch) as int]
        }),
{
    let w = rounded(width);
    let h = rounded(height);
    let nb = (h / 4) * (w / 4);
    let texels = block_stream(c, alpha, data, nb);
    let full = reassembled(texels, w, width, h / 4);
    let i = 4 * (y * width + x) + ch;
    let r = y / 4;
    let yy = y % 4;
    let p = yy * width + x;
    let ii = 4 * p + ch;
    assert(w % 4 == 0 && h % 4 == 0 && width <= w && height <= h);
    assert(i == r * (16 * width) + ii && 0 <= ii < 16 * width && i < 4 * width * height
        && 4 * width * height <= 16 * width * (h / 4) && r < h / 4) by (nonlinear_arith)
        requires
            i == 4 * (y * width + x) + ch,
            y == 4 * r + yy,
            0 <= yy < 4,
            p == yy * width + x,
            ii == 4 * p + ch,
            x < width,
            ch < 4,
            y < height,
            height <= h,
            h % 4 == 0,
    ;
    lemma_fundamental_div_mod_converse(i as int, 16 * width as int, r as int, ii as int);
    lemma_fundamental_div_mod_converse(ii as int, 4, p as int, ch as int);
    assert(p == yy * width + x);
    lemma_fundamental_div_mod_converse(p as int, width as int, yy as int, x as int);
    let t = 4 * (3 - yy) + 16 * (x / 4) + x % 4;
    let lb = 4 * (4 * (3 - yy) + x % 4) + ch;
    let b = r * (w / 4) + x / 4;
    let j = 16 * w * r + 4 * t + ch;
    assert(j == b * 64 + lb && 0 <= lb < 64 && 4 * t + ch < 16 * w && 16 * w * (r + 1) <= 64 * nb
        && b < nb && 16 * w * (r + 1) == 16 * w * r + 16 * w) by (nonlinear_arith)
        requires
            w % 4 == 0,
            t == 4 * (3 - yy) + 16 * (x / 4) + x % 4,
            0 <= yy < 4,
            lb == 4 * (4 * (3 - yy) + x % 4) + ch,
            b == r * (w / 4) + x / 4,
            j == 16 * w * r + 4 * t + ch,
            ch < 4,
            x < width,
            width <= w,
            r < h / 4,
            nb == (h / 4) * (w / 4),
    ;
    lemma_fundamental_div_mod_converse(j as int, 64, b as int, lb as int);
    let band = texels.subrange((16 * w * r) as int, (16 * w * (r + 1)) as int);
    assert(texels.len() == 64 * nb) by {
        reveal(block_stream);
    }
    assert(full.len() == 16 * width * (h / 4) && full[i as int] == transposed(band, width)[ii as int]) by {
        reveal(reassembled);
    }
    assert(transposed(band, width)[ii as int] == band[4 * t + ch]) by {
        reveal(transposed);
    }
    assert(texels[j as int] == decoded_block(
        c,
        alpha,
        data.subrange((block_size(c) * b) as int, (block_size(c) * b + block_size(c)) as int),
    )[lb as int]) by {
        reveal(block_stream);
    }
    assert(band[4 * t + ch] == texels[j as int]);
    assert(dxt_level(c, alpha, data, height, width) == full.take((4 * width * height) as int));
    assert(dxt_level(c, alpha, data, height, width)[i as int] == full[i as int]);
}

} // verus!
