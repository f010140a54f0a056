//! A whole DDS file: header and mipmap levels.
use vstd::prelude::*;
use crate::error::{DecodeError, EncodeError};
use crate::format::{
    Image, decode_layers, decode_outcome, decodes_to, level_data, level_offset, level_span,
    lemma_rgba_masks_identity,
};
use crate::header::{
    Compression, Header, RawHeader, header_bytes, is_uncompressed_header, le_u32, level_count,
    level_dim, lemma_header_bytes_words, magic, named_compression, parsed, quad, raw_words,
};
use vstd::arithmetic::power2::lemma2_to64;

verus! {

/// A decoded DDS file.
#[derive(Debug, Clone, PartialEq, Eq)]
pub struct Dds {
    /// The parsed DDS header
    pub header: Header,
    /// Mipmap layers, largest first
    pub layers: Vec<Image>,
}

/// What decoding a whole file yields once its header has been read: the
/// pixel data after the 128 header bytes, decoded under the parsed header.
pub open spec fn file_outcome(bytes: Seq<u8>, r: Result<Dds, DecodeError>) -> bool {
    exists|raw: RawHeader, h: Header|
        {
            &&& header_bytes(raw) == bytes.subrange(0, 128)
            &&& parsed(raw, h)
            &&& match r {
                Ok(d) => d.header == h && decode_outcome(
                    h,
                    bytes.subrange(128, bytes.len() as int),
                    Ok(d.layers@),
                ),
                Err(e) => decode_outcome(h, bytes.subrange(128, bytes.len() as int), Err(e)),
            }
        }
}

impl Dds {
    /// Decodes a whole file into its header and one image per mipmap level.
    /// Handles uncompressed and DXT1 to DXT5 compressed images.
    pub fn decode(bytes: &[u8]) -> (r: Result<Dds, DecodeError>)
        requires
            8 * bytes@.len() <= usize::MAX,
        ensures
            bytes@.len() < 4 ==> r == Err::<Dds, DecodeError>(DecodeError::UnexpectedEOF),
            bytes@.len() >= 4 && bytes@.subrange(0, 4) != magic() ==> (r matches Err(
                DecodeError::InvalidMagicBytes(m),
            ) && m@ == bytes@.subrange(0, 4)),
            bytes@.len() >= 4 && bytes@.subrange(0, 4) == magic() && bytes@.len() < 128 ==> r
                == Err::<Dds, DecodeError>(DecodeError::UnexpectedEOF),
            bytes@.len() >= 128 && bytes@.subrange(0, 4) == magic() ==> file_outcome(bytes@, r),
    {
        let header = match Header::decode(bytes) {
            Ok(h) => h,
            Err(e) => return Err(e),
        };
        let (_, rest) = bytes.split_at(128);
        match decode_layers(&header, rest) {
            Ok(layers) => Ok(Dds { header, layers }),
            Err(e) => Err(e),
        }
    }

    /// Encodes an image as an uncompressed 32-bit RGBA file: the header, then
    /// the pixel bytes as they are.
    pub fn encode_uncompressed(image: &Image) -> (r: Vec<u8>)
        requires
            image.height * image.width * 4 <= u32::MAX,
        ensures
            exists|raw: RawHeader|
                is_uncompressed_header(raw, image.height, image.width) && r@ == header_bytes(raw)
                    + image.data@,
    {
        let raw = RawHeader::new_uncompressed(image.height, image.width);
        let mut out = raw.encode();
        let mut k: usize = 0;
        while k < image.data.len()
            invariant
                k <= image.data@.len(),
                out@ == header_bytes(raw) + image.data@.take(k as int),
            decreases image.data@.len() - k,
        {
            out.push(image.data[k]);
            assert(image.data@.take(k + 1) =~= image.data@.take(k as int).push(image.data@[k as int]));
            k = k + 1;
        }
        assert(image.data@.take(image.data@.len() as int) =~= image.data@);
        out
    }

    /// Encodes an image; only uncompressed output is written.
    pub fn encode(image: &Image, compression: Compression) -> (r: Result<Vec<u8>, EncodeError>)
        requires
            image.height * image.width * 4 <= u32::MAX,
        ensures
            !(compression is Uncompressed) ==> r == Err::<Vec<u8>, EncodeError>(
                EncodeError::UnsupportedCompression(compression),
            ),
            compression is Uncompressed ==> (r matches Ok(bytes) && exists|raw: RawHeader|
                is_uncompressed_header(raw, image.height, image.width) && bytes@ == header_bytes(raw)
                    + image.data@),
    {
        match compression {
            Compression::Uncompressed => Ok(Dds::encode_uncompressed(image)),
            c => Err(EncodeError::UnsupportedCompression(c)),
        }
    }
}

/// Encoding an image uncompressed and decoding the bytes again gives back
/// that image, pixel for pixel, as the one and only level.
pub proof fn lemma_round_trip(image: Image, raw: RawHeader)
    requires
        image.wf(),
        is_uncompressed_header(raw, image.height, image.width),
    ensures
        ({
            let bytes = header_bytes(raw) + image.data@;
            &&& bytes.len() >= 128
            &&& bytes.subrange(0, 4) == magic()
            &&& forall|raw2: RawHeader, h2: Header|
                header_bytes(raw2) == bytes.subrange(0, 128) && parsed(raw2, h2) ==> decode_outcome(
                    h2,
                    bytes.subrange(128, bytes.len() as int),
                    Ok(seq![image]),
                )
        }),
{
    let bytes = header_bytes(raw) + image.data@;
    let data = image.data@;
    assert(header_bytes(raw).len() == 128);
    assert(bytes.subrange(0, 128) =~= header_bytes(raw));
    assert(bytes.subrange(0, 4) =~= magic());
    assert(bytes.subrange(128, bytes.len() as int) =~= data);
    assert forall|raw2: RawHeader, h2: Header|
        header_bytes(raw2) == bytes.subrange(0, 128) && parsed(raw2, h2) implies decode_outcome(
        h2,
        bytes.subrange(128, bytes.len() as int),
        Ok(seq![image]),
    ) by {
        lemma_header_bytes_words(raw2, raw);
        let w2 = raw_words(raw2);
        let w1 = raw_words(raw);
        assert(w2[2] == w1[2] && w2[3] == w1[3] && w2[6] == w1[6] && w2[20] == w1[20] && w2[21]
            == w1[21] && w2[22] == w1[22] && w2[23] == w1[23] && w2[24] == w1[24] && w2[25]
            == w1[25]);
        let code = raw2.pixel_format.four_cc@;
        assert(le_u32(code, 0) == 0);
        assert(code =~= quad(0, 0, 0, 0));
        assert(named_compression(code) == Some(Compression::Uncompressed));
        let h = image.height;
        let w = image.width;
        lemma2_to64();
        assert(level_dim(h, 0) == h && level_dim(w, 0) == w);
        assert(h2.channel_masks@ =~= seq![0xFFu32, 0xFF00u32, 0xFF0000u32, 0xFF000000u32]);
        assert(level_count(h2.mipmap_count) == 1);
        assert(data.len() == 4 * (h * w) && h * w * 4 == 4 * (h * w)) by (nonlinear_arith)
            requires
                data.len() == w * h * 4,
        ;
        assert(level_offset(h2, 0) == 0);
        assert(level_offset(h2, 1) == level_span(h2, 0));
        assert(level_span(h2, 0) == h * w * 4);
        assert(level_data(h2, data, 0) =~= data);
        lemma_rgba_masks_identity(data, (h * w) as nat);
        assert(decodes_to(h2, data, seq![image]));
    }
}

} // verus!
