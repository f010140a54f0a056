//! The DDS header: raw on-disk fields, the compression tag, the legacy
//! pixel-format classification, and the mipmap level sizes.
use vstd::prelude::*;
use crate::error::DecodeError;
use vstd::arithmetic::div_mod::lemma_div_denominator;
use vstd::arithmetic::power2::{lemma2_to64, lemma_pow2_unfold, lemma_pow2_pos, pow2};

verus! {

/// Common uncompressed pixel formats, recognised from the channel bit masks.
#[derive(Debug, Clone, Copy, PartialEq, Eq, PartialOrd, Ord, Hash, Structural)]
pub enum PixelFormat {
    A1R5G5B5,
    A2B10G10R10,
    A2R10G10B10,
    A4L4,
    A4R4G4B4,
    A8,
    A8B8G8R8,
    A8L8,
    A8R3G3B2,
    A8R8G8B8,
    G16R16,
    L16,
    L8,
    R5G6B5,
    R8G8B8,
    Unknown,
    X1R5G5B5,
    X4R4G4B4,
    X8B8G8R8,
    X8R8G8B8,
}

/// The compression of a DDS file, given by the four-character code.
#[derive(Debug, Clone, Copy, PartialEq, Eq, PartialOrd, Ord, Hash)]
pub enum Compression {
    DXT1,
    DXT2,
    DXT3,
    DXT4,
    DXT5,
    DX10,
    Uncompressed,
    Other([u8; 4]),
}

/// The four bytes `a b c d`.
pub open spec fn quad(a: u8, b: u8, c: u8, d: u8) -> Seq<u8> {
    seq![a, b, c, d]
}

/// The tag that a four-character code names, if it names one. The codes are
/// ASCII: 68 88 84 is `DXT`, 49 to 53 the digits 1 to 5, 49 48 `10`.
pub open spec fn named_compression(code: Seq<u8>) -> Option<Compression> {
    if code == quad(0, 0, 0, 0) {
        Some(Compression::Uncompressed)
    } else if code == quad(68, 88, 84, 49) {
        Some(Compression::DXT1)
    } else if code == quad(68, 88, 84, 50) {
        Some(Compression::DXT2)
    } else if code == quad(68, 88, 84, 51) {
        Some(Compression::DXT3)
    } else if code == quad(68, 88, 84, 52) {
        Some(Compression::DXT4)
    } else if code == quad(68, 88, 84, 53) {
        Some(Compression::DXT5)
    } else if code == quad(68, 88, 49, 48) {
        Some(Compression::DX10)
    } else {
        None
    }
}

/// The four-character code of a tag ("DXT1" .. "DX10"; zeros for none).
pub open spec fn compression_code(c: Compression) -> Seq<u8> {
    match c {
        Compression::DXT1 => quad(68, 88, 84, 49),
        Compression::DXT2 => quad(68, 88, 84, 50),
        Compression::DXT3 => quad(68, 88, 84, 51),
        Compression::DXT4 => quad(68, 88, 84, 52),
        Compression::DXT5 => quad(68, 88, 84, 53),
        Compression::DX10 => quad(68, 88, 49, 48),
        Compression::Uncompressed => quad(0, 0, 0, 0),
        Compression::Other(bytes) => bytes@,
    }
}

impl Compression {
    /// Reads a four-character code; an unrecognised code is kept as `Other`.
    pub fn from_bytes(bytes: [u8; 4]) -> (r: Compression)
        ensures
            r == (match named_compression(bytes@) {
                Some(c) => c,
                None => Compression::Other(bytes),
            }),
    {
        let (a, b, c, d) = (bytes[0], bytes[1], bytes[2], bytes[3]);
        assert(bytes@ == quad(a, b, c, d));
        if a == 0 && b == 0 && c == 0 && d == 0 {
            Compression::Uncompressed
        } else if a == 68u8 && b == 88u8 && c == 84u8 && d == 49u8 {
            Compression::DXT1
        } else if a == 68u8 && b == 88u8 && c == 84u8 && d == 50u8 {
            Compression::DXT2
        } else if a == 68u8 && b == 88u8 && c == 84u8 && d == 51u8 {
            Compression::DXT3
        } else if a == 68u8 && b == 88u8 && c == 84u8 && d == 52u8 {
            Compression::DXT4
        } else if a == 68u8 && b == 88u8 && c == 84u8 && d == 53u8 {
            Compression::DXT5
        } else if a == 68u8 && b == 88u8 && c == 49u8 && d == 48u8 {
            Compression::DX10
        } else {
            proof {
                assert(named_compression(bytes@) is None) by {
                    if bytes@ == quad(0, 0, 0, 0) || bytes@ == quad(68, 88, 84, 49) || bytes@
                        == quad(68, 88, 84, 50) || bytes@ == quad(68, 88, 84, 51) || bytes@ == quad(
                        68,
                        88,
                        84,
                        52,
                    ) || bytes@ == quad(68, 88, 84, 53) || bytes@ == quad(68, 88, 49, 48) {
                        assert(bytes@[0] == a && bytes@[1] == b && bytes@[2] == c && bytes@[3] == d);
                    }
                }
            }
            Compression::Other(bytes)
        }
    }

    /// The four-character code of this tag.
    pub fn to_bytes(self) -> (r: [u8; 4])
        ensures
            r@ == compression_code(self),
    {
        let r = match self {
            Compression::DXT1 => [68u8, 88u8, 84u8, 49u8],
            Compression::DXT2 => [68u8, 88u8, 84u8, 50u8],
            Compression::DXT3 => [68u8, 88u8, 84u8, 51u8],
            Compression::DXT4 => [68u8, 88u8, 84u8, 52u8],
            Compression::DXT5 => [68u8, 88u8, 84u8, 53u8],
            Compression::DX10 => [68u8, 88u8, 49u8, 48u8],
            Compression::Uncompressed => [0u8, 0u8, 0u8, 0u8],
            Compression::Other(bytes) => bytes,
        };
        assert(r@ =~= compression_code(self));
        r
    }
}

/// The pixel-format block of a DDS header, as stored.
#[derive(Debug, Clone, PartialEq, Eq)]
pub struct RawPixelFormat {
    pub size: u32,
    pub flags: u32,
    pub four_cc: [u8; 4],
    pub rgb_bit_count: u32,
    pub red_bit_mask: u32,
    pub green_bit_mask: u32,
    pub blue_bit_mask: u32,
    pub alpha_bit_mask: u32,
}

/// The 124-byte DDS header that follows the magic bytes, as stored.
#[derive(Debug, Clone, PartialEq, Eq)]
pub struct RawHeader {
    pub size: u32,
    pub flags: u32,
    pub height: u32,
    pub width: u32,
    pub pitch_or_linear_size: u32,
    pub depth: u32,
    pub mipmap_count: u32,
    pub reserved: [u32; 11],
    pub pixel_format: RawPixelFormat,
    pub caps: u32,
    pub caps2: u32,
    pub caps3: u32,
    pub caps4: u32,
    pub reserved2: u32,
}

/// The legacy pixel format named by a bit count and the red, green, blue and
/// alpha masks; `Unknown` where the combination is not one of the table's.
pub open spec fn classify(count: u32, r: u32, g: u32, b: u32, a: u32) -> PixelFormat {
    match (count, r, g, b, a) {
        (16, 0x7C00, 0x3E0, 0x1F, 0x8000) => PixelFormat::A1R5G5B5,
        (32, 0x3FF, 0xFFC00, 0x3FF00000, 0xC0000000) => PixelFormat::A2B10G10R10,
        (32, 0x3FF00000, 0xFFC00, 0x3FF, 0xC0000000) => PixelFormat::A2R10G10B10,
        (8, 0xF, 0x0, 0x0, 0xF0) => PixelFormat::A4L4,
        (16, 0xF00, 0xF0, 0xF, 0xF000) => PixelFormat::A4R4G4B4,
        (8, 0x0, 0x0, 0x0, 0xFF) => PixelFormat::A8,
        (32, 0xFF, 0xFF00, 0xFF0000, 0xFF000000) => PixelFormat::A8B8G8R8,
        (16, 0xFF, 0x0, 0x0, 0xFF00) => PixelFormat::A8L8,
        (16, 0xE0, 0x1C, 0x3, 0xFF00) => PixelFormat::A8R3G3B2,
        (32, 0xFF0000, 0xFF00, 0xFF, 0xFF000000) => PixelFormat::A8R8G8B8,
        (32, 0xFFFF, 0xFFFF0000, 0x0, 0x0) => PixelFormat::G16R16,
        (16, 0xFFFF, 0x0, 0x0, 0x0) => PixelFormat::L16,
        (8, 0xFF, 0x0, 0x0, 0x0) => PixelFormat::L8,
        (16, 0xF800, 0x7E0, 0x1F, 0x0) => PixelFormat::R5G6B5,
        (24, 0xFF0000, 0xFF00, 0xFF, 0x0) => PixelFormat::R8G8B8,
        (16, 0x7C00, 0x3E0, 0x1F, 0x0) => PixelFormat::X1R5G5B5,
        (16, 0xF00, 0xF0, 0xF, 0x0) => PixelFormat::X4R4G4B4,
        (32, 0xFF, 0xFF00, 0xFF0000, 0x0) => PixelFormat::X8B8G8R8,
        (32, 0xFF0000, 0xFF00, 0xFF, 0x0) => PixelFormat::X8R8G8B8,
        _ => PixelFormat::Unknown,
    }
}

impl RawPixelFormat {
    /// Recognises a common pixel format from the bit count and the masks.
    pub fn to_pixel_format(&self) -> (r: PixelFormat)
        ensures
            r == classify(
                self.rgb_bit_count,
                self.red_bit_mask,
                self.green_bit_mask,
                self.blue_bit_mask,
                self.alpha_bit_mask,
            ),
    {
        match (
            self.rgb_bit_count,
            self.red_bit_mask,
            self.green_bit_mask,
            self.blue_bit_mask,
            self.alpha_bit_mask,
        ) {
            (16, 0x7C00, 0x3E0, 0x1F, 0x8000) => PixelFormat::A1R5G5B5,
            (32, 0x3FF, 0xFFC00, 0x3FF00000, 0xC0000000) => PixelFormat::A2B10G10R10,
            (32, 0x3FF00000, 0xFFC00, 0x3FF, 0xC0000000) => PixelFormat::A2R10G10B10,
            (8, 0xF, 0x0, 0x0, 0xF0) => PixelFormat::A4L4,
            (16, 0xF00, 0xF0, 0xF, 0xF000) => PixelFormat::A4R4G4B4,
            (8, 0x0, 0x0, 0x0, 0xFF) => PixelFormat::A8,
            (32, 0xFF, 0xFF00, 0xFF0000, 0xFF000000) => PixelFormat::A8B8G8R8,
            (16, 0xFF, 0x0, 0x0, 0xFF00) => PixelFormat::A8L8,
            (16, 0xE0, 0x1C, 0x3, 0xFF00) => PixelFormat::A8R3G3B2,
            (32, 0xFF0000, 0xFF00, 0xFF, 0xFF000000) => PixelFormat::A8R8G8B8,
            (32, 0xFFFF, 0xFFFF0000, 0x0, 0x0) => PixelFormat::G16R16,
            (16, 0xFFFF, 0x0, 0x0, 0x0) => PixelFormat::L16,
            (8, 0xFF, 0x0, 0x0, 0x0) => PixelFormat::L8,
            (16, 0xF800, 0x7E0, 0x1F, 0x0) => PixelFormat::R5G6B5,
            (24, 0xFF0000, 0xFF00, 0xFF, 0x0) => PixelFormat::R8G8B8,
            (16, 0x7C00, 0x3E0, 0x1F, 0x0) => PixelFormat::X1R5G5B5,
            (16, 0xF00, 0xF0, 0xF, 0x0) => PixelFormat::X4R4G4B4,
            (32, 0xFF, 0xFF00, 0xFF0000, 0x0) => PixelFormat::X8B8G8R8,
            (32, 0xFF0000, 0xFF00, 0xFF, 0x0) => PixelFormat::X8R8G8B8,
            _ => PixelFormat::Unknown,
        }
    }
}

/// Whether `r` is the header that `RawHeader::new_uncompressed` writes for a
/// `height` x `width` image: 32-bit pixels, red in the lowest byte, alpha in
/// the highest, no four-character code, every other field zero.
pub open spec fn is_uncompressed_header(r: RawHeader, height: u32, width: u32) -> bool {
    &&& r.size == height * width * 4
    &&& r.flags == 0
    &&& r.height == height
    &&& r.width == width
    &&& r.pitch_or_linear_size == 0
    &&& r.depth == 0
    &&& r.mipmap_count == 0
    &&& forall|i: int| 0 <= i < 11 ==> r.reserved@[i] == 0
    &&& r.pixel_format.size == 0
    &&& r.pixel_format.flags == 0x41
    &&& r.pixel_format.four_cc@ == quad(0, 0, 0, 0)
    &&& r.pixel_format.rgb_bit_count == 32
    &&& r.pixel_format.red_bit_mask == 0xFF
    &&& r.pixel_format.green_bit_mask == 0xFF00
    &&& r.pixel_format.blue_bit_mask == 0xFF0000
    &&& r.pixel_format.alpha_bit_mask == 0xFF000000
    &&& r.caps == 0
    &&& r.caps2 == 0
    &&& r.caps3 == 0
    &&& r.caps4 == 0
    &&& r.reserved2 == 0
}

impl RawHeader {
    /// The header of an uncompressed 32-bit RGBA image of the given size, with
    /// red in the lowest byte and alpha in the highest.
    pub fn new_uncompressed(height: u32, width: u32) -> (r: RawHeader)
        requires
            height * width * 4 <= u32::MAX,
        ensures
            is_uncompressed_header(r, height, width),
    {
        let four_cc = [0u8, 0u8, 0u8, 0u8];
        assert(four_cc@ =~= quad(0, 0, 0, 0));
        RawHeader {
            size: height * width * 4,
            flags: 0,
            height,
            width,
            pitch_or_linear_size: 0,
            depth: 0,
            mipmap_count: 0,
            reserved: [0u32; 11],
            pixel_format: RawPixelFormat {
                size: 0,
                flags: 0x41,
                four_cc,
                rgb_bit_count: 32,
                red_bit_mask: 0xFF,
                green_bit_mask: 0xFF00,
                blue_bit_mask: 0xFF0000,
                alpha_bit_mask: 0xFF000000,
            },
            caps: 0,
            caps2: 0,
            caps3: 0,
            caps4: 0,
            reserved2: 0,
        }
    }
}

/// A parsed DDS header: what decoding needs of the raw one.
#[derive(Debug, Clone, PartialEq, Eq)]
pub struct Header {
    /// Height of the main image
    pub height: u32,
    /// Width of the main image
    pub width: u32,
    /// How many levels of mipmaps there are
    pub mipmap_count: u32,
    /// Compression type used
    pub compression: Compression,
    /// The 4-character code for this image
    pub fourcc: [u8; 4],
    /// The pixel format used
    pub pixel_format: PixelFormat,
    /// The number of bytes used per-pixel
    pub pixel_bytes: usize,
    /// The bit masks used for each channel: red, green, blue, alpha
    pub channel_masks: [u32; 4],
}

/// Number of mipmap levels decoded: the stored count, but at least one.
pub open spec fn level_count(mipmap_count: u32) -> nat {
    if mipmap_count == 0 { 1 } else { mipmap_count as nat }
}

/// A dimension of mipmap level `i`: the base dimension shifted right `i` times.
pub open spec fn level_dim(base: u32, i: nat) -> nat {
    base as nat / pow2(i)
}

impl Header {
    /// Derives the parsed header from the raw one.
    pub fn from_raw(raw: &RawHeader) -> (r: Header)
        ensures
            r.height == raw.height,
            r.width == raw.width,
            r.mipmap_count == raw.mipmap_count,
            r.compression == (match named_compression(raw.pixel_format.four_cc@) {
                Some(c) => c,
                None => Compression::Other(raw.pixel_format.four_cc),
            }),
            r.fourcc == raw.pixel_format.four_cc,
            r.pixel_format == classify(
                raw.pixel_format.rgb_bit_count,
                raw.pixel_format.red_bit_mask,
                raw.pixel_format.green_bit_mask,
                raw.pixel_format.blue_bit_mask,
                raw.pixel_format.alpha_bit_mask,
            ),
            r.pixel_bytes == raw.pixel_format.rgb_bit_count / 8,
            r.channel_masks@ == seq![
                raw.pixel_format.red_bit_mask,
                raw.pixel_format.green_bit_mask,
                raw.pixel_format.blue_bit_mask,
                raw.pixel_format.alpha_bit_mask,
            ],
    {
        let masks = [
            raw.pixel_format.red_bit_mask,
            raw.pixel_format.green_bit_mask,
            raw.pixel_format.blue_bit_mask,
            raw.pixel_format.alpha_bit_mask,
        ];
        assert(masks@ =~= seq![
            raw.pixel_format.red_bit_mask,
            raw.pixel_format.green_bit_mask,
            raw.pixel_format.blue_bit_mask,
            raw.pixel_format.alpha_bit_mask,
        ]);
        Header {
            height: raw.height,
            width: raw.width,
            mipmap_count: raw.mipmap_count,
            compression: Compression::from_bytes(raw.pixel_format.four_cc),
            fourcc: raw.pixel_format.four_cc,
            pixel_format: raw.pixel_format.to_pixel_format(),
            pixel_bytes: (raw.pixel_format.rgb_bit_count / 8) as usize,
            channel_masks: masks,
        }
    }

    /// The (height, width) of each mipmap level, largest first: level `i` is
    /// the base size shifted right `i` times, and there is at least one level.
    pub fn get_layer_sizes(&self) -> (r: Vec<(usize, usize)>)
        ensures
            r@.len() == level_count(self.mipmap_count),
            forall|i: int|
                0 <= i < r@.len() ==> r@[i].0 == level_dim(self.height, i as nat) && r@[i].1
                    == level_dim(self.width, i as nat),
    {
        let count: u32 = if self.mipmap_count == 0 { 1 } else { self.mipmap_count };
        let mut layers: Vec<(usize, usize)> = Vec::new();
        let mut h: u32 = self.height;
        let mut w: u32 = self.width;
        let mut i: u32 = 0;
        proof {
            lemma2_to64();
        }
        while i < count
            invariant
                i <= count,
                count == level_count(self.mipmap_count),
                layers@.len() == i,
                h == level_dim(self.height, i as nat),
                w == level_dim(self.width, i as nat),
                forall|k: int|
                    0 <= k < i ==> layers@[k].0 == level_dim(self.height, k as nat) && layers@[k].1
                        == level_dim(self.width, k as nat),
            decreases count - i,
        {
            layers.push((h as usize, w as usize));
            proof {
                lemma_pow2_pos(i as nat);
                lemma_pow2_unfold((i + 1) as nat);
                lemma_div_denominator(self.height as int, pow2(i as nat) as int, 2);
                lemma_div_denominator(self.width as int, pow2(i as nat) as int, 2);
                assert(pow2(i as nat) * 2 == pow2((i + 1) as nat));
            }
            h = h / 2;
            w = w / 2;
            i = i + 1;
        }
        layers
    }
}

/// The magic bytes that open every DDS file: `DDS ` in ASCII.
pub open spec fn magic() -> Seq<u8> {
    quad(68, 68, 83, 32)
}

/// The four little-endian bytes of `v`.
pub open spec fn le_bytes(v: u32) -> Seq<u8> {
    quad((v % 256) as u8, (v / 256 % 256) as u8, (v / 65536 % 256) as u8, (v / 16777216) as u8)
}

/// The little-endian word stored at `b[at..at + 4]`.
pub open spec fn le_u32(b: Seq<u8>, at: int) -> u32 {
    (b[at] + 256 * b[at + 1] + 65536 * b[at + 2] + 16777216 * b[at + 3]) as u32
}

/// The 31 words of a header in stored order; the four-character code counts
/// as the little-endian word of its bytes.
pub open spec fn raw_words(h: RawHeader) -> Seq<u32> {
    seq![h.size, h.flags, h.height, h.width, h.pitch_or_linear_size, h.depth, h.mipmap_count]
        + h.reserved@ + seq![
        h.pixel_format.size,
        h.pixel_format.flags,
        le_u32(h.pixel_format.four_cc@, 0),
        h.pixel_format.rgb_bit_count,
        h.pixel_format.red_bit_mask,
        h.pixel_format.green_bit_mask,
        h.pixel_format.blue_bit_mask,
        h.pixel_format.alpha_bit_mask,
        h.caps,
        h.caps2,
        h.caps3,
        h.caps4,
        h.reserved2,
    ]
}

/// Words stored one after another, each little-endian.
pub open spec fn words_bytes(ws: Seq<u32>) -> Seq<u8> {
    Seq::new(4 * ws.len(), |i: int| le_bytes(ws[i / 4])[i % 4])
}

/// The 128 bytes that open a DDS file with header `h`: the magic bytes, then
/// every field in declaration order.
pub open spec fn header_bytes(h: RawHeader) -> Seq<u8> {
    magic() + words_bytes(raw_words(h))
}

proof fn lemma_le_word(b0: u32, b1: u32, b2: u32, b3: u32)
    requires
        b0 < 256,
        b1 < 256,
        b2 < 256,
        b3 < 256,
    ensures
        (b0 + 256 * b1 + 65536 * b2 + 16777216 * b3) as u32 % 256 == b0,
        (b0 + 256 * b1 + 65536 * b2 + 16777216 * b3) as u32 / 256 % 256 == b1,
        (b0 + 256 * b1 + 65536 * b2 + 16777216 * b3) as u32 / 65536 % 256 == b2,
        (b0 + 256 * b1 + 65536 * b2 + 16777216 * b3) as u32 / 16777216 == b3,
{
    assert(b0 + 256 * b1 + 65536 * b2 + 16777216 * b3 <= u32::MAX);
    let v = (b0 + 256 * b1 + 65536 * b2 + 16777216 * b3) as u32;
    assert(v == b0 + 256 * b1 + 65536 * b2 + 16777216 * b3);
}

/// Reads the little-endian word at `b[at..at + 4]`.
fn read_u32(b: &[u8], at: usize) -> (r: u32)
    requires
        at + 4 <= b@.len(),
    ensures
        r == le_u32(b@, at as int),
        le_bytes(r) == b@.subrange(at as int, at + 4),
{
    let (b0, b1, b2, b3) = (b[at] as u32, b[at + 1] as u32, b[at + 2] as u32, b[at + 3] as u32);
    let r = b0 + 256 * b1 + 65536 * b2 + 16777216 * b3;
    proof {
        lemma_le_word(b0, b1, b2, b3);
    }
    assert(le_bytes(r) =~= b@.subrange(at as int, at + 4));
    r
}

/// Appends the four little-endian bytes of `v`.
fn push_u32(out: &mut Vec<u8>, v: u32)
    ensures
        final(out)@ == old(out)@ + le_bytes(v),
{
    out.push((v % 256) as u8);
    out.push((v / 256 % 256) as u8);
    out.push((v / 65536 % 256) as u8);
    out.push((v / 16777216) as u8);
    assert(final(out)@ =~= old(out)@ + le_bytes(v));
}

impl RawHeader {
    /// The stored words of this header, in order.
    fn words(&self) -> (r: Vec<u32>)
        ensures
            r@ == raw_words(*self),
    {
        let f = &self.pixel_format;
        let code = f.four_cc;
        let mut ws: Vec<u32> = vec![
            self.size,
            self.flags,
            self.height,
            self.width,
            self.pitch_or_linear_size,
            self.depth,
            self.mipmap_count,
        ];
        let mut k: usize = 0;
        while k < 11
            invariant
                k <= 11,
                ws@ == seq![
                    self.size,
                    self.flags,
                    self.height,
                    self.width,
                    self.pitch_or_linear_size,
                    self.depth,
                    self.mipmap_count,
                ] + self.reserved@.take(k as int),
            decreases 11 - k,
        {
            ws.push(self.reserved[k]);
            assert(self.reserved@.take(k + 1) =~= self.reserved@.take(k as int).push(self.reserved@[k as int]));
            k = k + 1;
        }
        assert(self.reserved@.take(11) =~= self.reserved@);
        ws.push(f.size);
        ws.push(f.flags);
        ws.push(code[0] as u32 + 256 * code[1] as u32 + 65536 * code[2] as u32 + 16777216 * code[3] as u32);
        ws.push(f.rgb_bit_count);
        ws.push(f.red_bit_mask);
        ws.push(f.green_bit_mask);
        ws.push(f.blue_bit_mask);
        ws.push(f.alpha_bit_mask);
        ws.push(self.caps);
        ws.push(self.caps2);
        ws.push(self.caps3);
        ws.push(self.caps4);
        ws.push(self.reserved2);
        assert(ws@ =~= raw_words(*self));
        ws
    }

    /// Reads the magic bytes and the header that open a DDS file.
    pub fn decode(bytes: &[u8]) -> (r: Result<RawHeader, DecodeError>)
        ensures
            bytes@.len() < 4 ==> r == Err::<RawHeader, DecodeError>(DecodeError::UnexpectedEOF),
            bytes@.len() >= 4 && bytes@.subrange(0, 4) != magic() ==> (r matches Err(
                DecodeError::InvalidMagicBytes(m),
            ) && m@ == bytes@.subrange(0, 4)),
            bytes@.len() >= 4 && bytes@.subrange(0, 4) == magic() && bytes@.len() < 128 ==> r
                == Err::<RawHeader, DecodeError>(DecodeError::UnexpectedEOF),
            bytes@.len() >= 128 && bytes@.subrange(0, 4) == magic() ==> (r matches Ok(h)
                && header_bytes(h) == bytes@.subrange(0, 128)),
    {
        if bytes.len() < 4 {
            return Err(DecodeError::UnexpectedEOF);
        }
        let m = [bytes[0], bytes[1], bytes[2], bytes[3]];
        assert(m@ =~= bytes@.subrange(0, 4));
        if !(m[0] == 68 && m[1] == 68 && m[2] == 83 && m[3] == 32) {
            assert(m@ != magic()) by {
                if m@ == magic() {
                    assert(m@[0] == 68 && m@[1] == 68 && m@[2] == 83 && m@[3] == 32);
                }
            }
            return Err(DecodeError::InvalidMagicBytes(m));
        }
        assert(m@ =~= magic());
        if bytes.len() < 128 {
            return Err(DecodeError::UnexpectedEOF);
        }
        let mut ws: Vec<u32> = Vec::new();
        let mut k: usize = 0;
        while k < 31
            invariant
                bytes@.len() >= 128,
                k <= 31,
                ws@.len() == k,
                forall|j: int| 0 <= j < k ==> #[trigger] ws@[j] == le_u32(bytes@, 4 + 4 * j),
                forall|j: int|
                    0 <= j < k ==> #[trigger] le_bytes(ws@[j]) == bytes@.subrange(4 + 4 * j, 8 + 4 * j),
            decreases 31 - k,
        {
            ws.push(read_u32(bytes, 4 + 4 * k));
            k = k + 1;
        }
        let code = [bytes[84], bytes[85], bytes[86], bytes[87]];
        let h = RawHeader {
            size: ws[0],
            flags: ws[1],
            height: ws[2],
            width: ws[3],
            pitch_or_linear_size: ws[4],
            depth: ws[5],
            mipmap_count: ws[6],
            reserved: [ws[7], ws[8], ws[9], ws[10], ws[11], ws[12], ws[13], ws[14], ws[15], ws[16], ws[17]],
            pixel_format: RawPixelFormat {
                size: ws[18],
                flags: ws[19],
                four_cc: code,
                rgb_bit_count: ws[21],
                red_bit_mask: ws[22],
                green_bit_mask: ws[23],
                blue_bit_mask: ws[24],
                alpha_bit_mask: ws[25],
            },
            caps: ws[26],
            caps2: ws[27],
            caps3: ws[28],
            caps4: ws[29],
            reserved2: ws[30],
        };
        proof {
            assert(code@ =~= bytes@.subrange(84, 88));
            assert(le_u32(code@, 0) == ws@[20]);
            assert(raw_words(h) =~= ws@);
            assert forall|i: int| 0 <= i < 124 implies #[trigger] words_bytes(ws@)[i] == bytes@[4 + i] by {
                let j = i / 4;
                assert(le_bytes(ws@[j]) == bytes@.subrange(4 + 4 * j, 8 + 4 * j));
                assert(le_bytes(ws@[j])[i % 4] == bytes@[4 + 4 * j + i % 4]);
            }
            assert(header_bytes(h) =~= bytes@.subrange(0, 128));
        }
        Ok(h)
    }

    /// The 128 bytes that open a DDS file with this header.
    pub fn encode(&self) -> (r: Vec<u8>)
        ensures
            r@ == header_bytes(*self),
    {
        let ws = self.words();
        let mut out: Vec<u8> = vec![68u8, 68u8, 83u8, 32u8];
        assert(out@ =~= magic());
        let mut k: usize = 0;
        while k < ws.len()
            invariant
                ws@ == raw_words(*self),
                k <= ws@.len(),
                out@ == magic() + words_bytes(ws@.take(k as int)),
            decreases ws@.len() - k,
        {
            let ghost before = out@;
            push_u32(&mut out, ws[k]);
            assert(words_bytes(ws@.take(k + 1)) =~= words_bytes(ws@.take(k as int)) + le_bytes(ws@[k as int]));
            assert(out@ =~= magic() + words_bytes(ws@.take(k + 1)));
            k = k + 1;
        }
        assert(ws@.take(ws@.len() as int) =~= ws@);
        out
    }
}

impl Header {
    /// Reads the magic bytes and the header that open a DDS file, and derives
    /// the parsed header from them.
    pub fn decode(bytes: &[u8]) -> (r: Result<Header, DecodeError>)
        ensures
            bytes@.len() < 4 ==> r == Err::<Header, DecodeError>(DecodeError::UnexpectedEOF),
            bytes@.len() >= 4 && bytes@.subrange(0, 4) != magic() ==> (r matches Err(
                DecodeError::InvalidMagicBytes(m),
            ) && m@ == bytes@.subrange(0, 4)),
            bytes@.len() >= 4 && bytes@.subrange(0, 4) == magic() && bytes@.len() < 128 ==> r
                == Err::<Header, DecodeError>(DecodeError::UnexpectedEOF),
            bytes@.len() >= 128 && bytes@.subrange(0, 4) == magic() ==> (r matches Ok(h)
                && exists|raw: RawHeader| header_bytes(raw) == bytes@.subrange(0, 128) && parsed(raw, h)),
    {
        match RawHeader::decode(bytes) {
            Ok(raw) => {
                let h = Header::from_raw(&raw);
                assert(parsed(raw, h));
                Ok(h)
            },
            Err(e) => Err(e),
        }
    }
}

/// What `Header::from_raw` makes of a raw header.
pub open spec fn parsed(raw: RawHeader, h: Header) -> bool {
    &&& h.height == raw.height
    &&& h.width == raw.width
    &&& h.mipmap_count == raw.mipmap_count
    &&& h.compression == (match named_compression(raw.pixel_format.four_cc@) {
        Some(c) => c,
        None => Compression::Other(raw.pixel_format.four_cc),
    })
    &&& h.fourcc == raw.pixel_format.four_cc
    &&& h.pixel_format == classify(
        raw.pixel_format.rgb_bit_count,
        raw.pixel_format.red_bit_mask,
        raw.pixel_format.green_bit_mask,
        raw.pixel_format.blue_bit_mask,
        raw.pixel_format.alpha_bit_mask,
    )
    &&& h.pixel_bytes == raw.pixel_format.rgb_bit_count / 8
    &&& h.channel_masks@ == seq![
        raw.pixel_format.red_bit_mask,
        raw.pixel_format.green_bit_mask,
        raw.pixel_format.blue_bit_mask,
        raw.pixel_format.alpha_bit_mask,
    ]
}

proof fn lemma_le_bytes_injective(v1: u32, v2: u32)
    requires
        le_bytes(v1) == le_bytes(v2),
    ensures
        v1 == v2,
{
    assert(le_bytes(v1)[0] == le_bytes(v2)[0] && le_bytes(v1)[1] == le_bytes(v2)[1]
        && le_bytes(v1)[2] == le_bytes(v2)[2] && le_bytes(v1)[3] == le_bytes(v2)[3]);
    let (a0, a1, a2, a3) = (v1 % 256, v1 / 256 % 256, v1 / 65536 % 256, v1 / 16777216);
    let (c0, c1, c2, c3) = (v2 % 256, v2 / 256 % 256, v2 / 65536 % 256, v2 / 16777216);
    assert(a0 == c0 && a1 == c1 && a2 == c2 && a3 == c3);
    assert(v1 == v2) by (bit_vector)
        requires
            v1 % 256 == v2 % 256,
            v1 / 256 % 256 == v2 / 256 % 256,
            v1 / 65536 % 256 == v2 / 65536 % 256,
            v1 / 16777216 == v2 / 16777216,
    ;
}

/// Two headers that are stored as the same bytes have the same words.
pub proof fn lemma_header_bytes_words(a: RawHeader, b: RawHeader)
    requires
        header_bytes(a) == header_bytes(b),
    ensures
        raw_words(a) == raw_words(b),
{
    let wa = raw_words(a);
    let wb = raw_words(b);
    assert(wa.len() == 31 && wb.len() == 31);
    assert forall|k: int| 0 <= k < 31 implies wa[k] == wb[k] by {
        assert forall|j: int| 0 <= j < 4 implies le_bytes(wa[k])[j] == le_bytes(wb[k])[j] by {
            let i = 4 * k + j;
            assert(i / 4 == k && i % 4 == j);
            assert(header_bytes(a)[4 + i] == words_bytes(wa)[i]);
            assert(header_bytes(b)[4 + i] == words_bytes(wb)[i]);
        }
        assert(le_bytes(wa[k]) =~= le_bytes(wb[k]));
        lemma_le_bytes_injective(wa[k], wb[k]);
    }
    assert(wa =~= wb);
}

} // verus!
