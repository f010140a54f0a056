use dds::block::{decode_chunk_dxt1, decode_chunk_dxt3, decode_chunk_dxt5};
use dds::{
    decode_layers, Compression, DecodeError, Dds, EncodeError, Header, Image, PixelFormat,
    RawHeader, RawPixelFormat,
};

fn header(height: u32, width: u32, mipmap_count: u32, compression: Compression) -> Header {
    Header {
        height,
        width,
        mipmap_count,
        compression,
        fourcc: compression.to_bytes(),
        pixel_format: PixelFormat::Unknown,
        pixel_bytes: 4,
        channel_masks: [0xFF, 0xFF00, 0xFF0000, 0xFF000000],
    }
}

fn texel(pixels: &[u8], t: usize) -> [u8; 4] {
    [pixels[4 * t], pixels[4 * t + 1], pixels[4 * t + 2], pixels[4 * t + 3]]
}

#[test]
fn test_encode_uncompressed() {
    let image = Image::from_raw(4, 4, vec![0u8; 64]).unwrap();

    let bytes = Dds::encode_uncompressed(&image);

    let dds = Dds::decode(bytes.as_slice()).unwrap();

    assert_eq!(dds.layers.len(), 1);
    assert_eq!(image, dds.layers[0]);
}

#[test]
fn test_encode_uncompressed_rectangular() {
    let image = Image::from_raw(8, 4, (0u8..128).collect()).unwrap();

    let bytes = Dds::encode_uncompressed(&image);

    let dds = Dds::decode(bytes.as_slice()).unwrap();

    assert_eq!(dds.layers.len(), 1);
    assert_eq!(image, dds.layers[0]);
}

#[test]
fn round_trip_keeps_every_byte() {
    let data: Vec<u8> = (0..3 * 5 * 4).map(|i| (i * 37 % 256) as u8).collect();
    let image = Image::from_raw(5, 3, data).unwrap();
    let bytes = Dds::encode(&image, Compression::Uncompressed).unwrap();
    assert_eq!(bytes.len(), 128 + 60);
    assert_eq!(&bytes[0..4], b"DDS ");
    let dds = Dds::decode(&bytes).unwrap();
    assert_eq!(dds.header.width, 5);
    assert_eq!(dds.header.height, 3);
    assert_eq!(dds.header.pixel_format, PixelFormat::A8B8G8R8);
    assert_eq!(dds.layers, vec![image]);
}

#[test]
fn encode_refuses_compressed_output() {
    let image = Image::from_raw(1, 1, vec![1, 2, 3, 4]).unwrap();
    assert_eq!(
        Dds::encode(&image, Compression::DXT1),
        Err(EncodeError::UnsupportedCompression(Compression::DXT1))
    );
}

#[test]
fn image_from_raw_checks_length() {
    assert!(Image::from_raw(2, 2, vec![0u8; 15]).is_none());
    let image = Image::from_raw(2, 1, vec![0u8; 8]).unwrap();
    assert_eq!(image.dimensions(), (2, 1));
    assert_eq!(image.as_raw().len(), 8);
}

#[test]
fn mip_sizes_halve_each_level() {
    let h = header(10, 7, 3, Compression::Uncompressed);
    assert_eq!(h.get_layer_sizes(), vec![(10, 7), (5, 3), (2, 1)]);
}

#[test]
fn mip_count_zero_still_gives_one_level() {
    let h = header(6, 9, 0, Compression::Uncompressed);
    assert_eq!(h.get_layer_sizes(), vec![(6, 9)]);
}

#[test]
fn mip_sizes_reach_zero() {
    let h = header(4, 1, 4, Compression::Uncompressed);
    assert_eq!(h.get_layer_sizes(), vec![(4, 1), (2, 0), (1, 0), (0, 0)]);
}

#[test]
fn decode_gives_one_image_per_level() {
    let h = header(2, 2, 2, Compression::Uncompressed);
    let buf: Vec<u8> = (0..20).collect();
    let layers = decode_layers(&h, &buf).unwrap();
    assert_eq!(layers.len(), 2);
    assert_eq!((layers[0].width, layers[0].height, layers[0].data.len()), (2, 2, 16));
    assert_eq!((layers[1].width, layers[1].height, layers[1].data.len()), (1, 1, 4));
    assert_eq!(layers[1].data, vec![16, 17, 18, 19]);
}

#[test]
fn decode_masks_narrow_pixels() {
    // R5G6B5: one pixel of pure blue; the zero alpha mask gives alpha 0.
    let mut h = header(1, 1, 1, Compression::Uncompressed);
    h.pixel_bytes = 2;
    h.channel_masks = [0xF800, 0x7E0, 0x1F, 0];
    let layers = decode_layers(&h, &[0x1F, 0x00]).unwrap();
    assert_eq!(layers[0].data, vec![0, 0, 255, 0]);
    // A green of 32 out of 63 rescales to 32 * 255 / 63.
    let layers = decode_layers(&h, &[0x00, 0x04]).unwrap();
    assert_eq!(layers[0].data, vec![0, (32u32 * 255 / 63) as u8, 0, 0]);
}

#[test]
fn decode_masks_rescale_four_bit_channels() {
    let mut h = header(1, 1, 1, Compression::Uncompressed);
    h.pixel_bytes = 2;
    h.channel_masks = [0xF00, 0xF0, 0xF, 0xF000];
    let layers = decode_layers(&h, &[0x5A, 0x3F]).unwrap();
    assert_eq!(layers[0].data, vec![255, 85, 170, 51]);
}

#[test]
fn decode_rejects_unsupported_compression() {
    let h = header(4, 4, 1, Compression::DX10);
    assert_eq!(
        decode_layers(&h, &[0u8; 64]),
        Err(DecodeError::UnsupportedCompression(Compression::DX10))
    );
    let other = Compression::Other(*b"ABCD");
    let h = header(4, 4, 1, other);
    assert_eq!(decode_layers(&h, &[]), Err(DecodeError::UnsupportedCompression(other)));
}

#[test]
fn decode_rejects_short_buffer() {
    let h = header(2, 2, 2, Compression::Uncompressed);
    assert_eq!(decode_layers(&h, &[0u8; 19]), Err(DecodeError::BufferTooShort));
    let h = header(4, 4, 1, Compression::DXT5);
    assert_eq!(decode_layers(&h, &[0u8; 15]), Err(DecodeError::BufferTooShort));
}

#[test]
fn decode_rejects_pixel_width() {
    let mut h = header(1, 1, 1, Compression::Uncompressed);
    h.pixel_bytes = 0;
    assert_eq!(decode_layers(&h, &[0u8; 4]), Err(DecodeError::UnsupportedPixelBytes(0)));
    h.pixel_bytes = 5;
    assert_eq!(decode_layers(&h, &[0u8; 5]), Err(DecodeError::UnsupportedPixelBytes(5)));
}

#[test]
fn file_errors() {
    assert_eq!(Dds::decode(b"DD"), Err(DecodeError::UnexpectedEOF));
    assert_eq!(Dds::decode(b"PNG!rest"), Err(DecodeError::InvalidMagicBytes(*b"PNG!")));
    assert_eq!(Dds::decode(&[b'D', b'D', b'S', b' ', 0, 0]), Err(DecodeError::UnexpectedEOF));
}

#[test]
fn dxt1_four_color_table() {
    let block = [0x00, 0xF8, 0x1F, 0x00, 0xE4, 0, 0, 0];
    let out = decode_chunk_dxt1(&block, true);
    assert_eq!(out.len(), 64);
    // The first run of texels is the block's last row: all selector 0.
    assert_eq!(texel(&out, 0), [255, 0, 0, 255]);
    // The last run is the first row, selectors 0, 1, 2, 3.
    assert_eq!(texel(&out, 12), [255, 0, 0, 255]);
    assert_eq!(texel(&out, 13), [0, 0, 255, 255]);
    assert_eq!(texel(&out, 14), [170, 0, 85, 255]);
    assert_eq!(texel(&out, 15), [85, 0, 170, 255]);
}

#[test]
fn dxt1_equal_colors_without_alpha_stay_opaque() {
    let block = [0xE0, 0x07, 0xE0, 0x07, 0xE4, 0xE4, 0xE4, 0xE4];
    let out = decode_chunk_dxt1(&block, false);
    for t in 0..16 {
        assert_eq!(texel(&out, t)[3], 255);
    }
    assert_eq!(texel(&out, 0), [0, 255, 0, 255]);
    assert_eq!(texel(&out, 1), [0, 255, 0, 255]);
    assert_eq!(texel(&out, 2), [0, 255, 0, 255]);
    assert_eq!(texel(&out, 3), [0, 0, 0, 255]);
}

#[test]
fn dxt1_equal_colors_with_alpha_punch_through() {
    let block = [0xE0, 0x07, 0xE0, 0x07, 0xE4, 0xE4, 0xE4, 0xE4];
    let out = decode_chunk_dxt1(&block, true);
    assert_eq!(texel(&out, 2), [0, 255, 0, 255]);
    assert_eq!(texel(&out, 3), [0, 0, 0, 0]);
}

#[test]
fn dxt3_explicit_alpha() {
    let mut block = [0u8; 16];
    block[0] = 0xF0;
    block[7] = 0x07;
    let out = decode_chunk_dxt3(&block);
    // First row (last run): columns 0 and 1 from byte 0.
    assert_eq!(texel(&out, 12)[3], 0);
    assert_eq!(texel(&out, 13)[3], 255);
    // Last row (first run): column 2 from the low nibble of byte 7.
    assert_eq!(texel(&out, 2)[3], 7 * 17);
    assert_eq!(texel(&out, 3)[3], 0);
}

#[test]
fn dxt5_seven_step_alpha() {
    let block = [255, 0, 136, 198, 250, 0, 0, 0, 0, 0, 0, 0, 0, 0, 0, 0];
    let out = decode_chunk_dxt5(&block);
    let expected = [255, 0, 218, 182, 145, 109, 72, 36];
    for k in 0..4 {
        assert_eq!(texel(&out, 12 + k)[3], expected[k]);
        assert_eq!(texel(&out, 8 + k)[3], expected[4 + k]);
    }
    for t in 0..8 {
        assert_eq!(texel(&out, t)[3], 255);
    }
    for k in 3..8 {
        assert!(expected[k] < expected[k - 1]);
    }
}

#[test]
fn dxt5_five_step_alpha() {
    // alpha0 <= alpha1: selectors 6 and 7 are 0 and 255.
    let block = [0, 100, 136, 198, 250, 0, 0, 0, 0, 0, 0, 0, 0, 0, 0, 0];
    let out = decode_chunk_dxt5(&block);
    let expected = [0, 100, 20, 40, 60, 80, 0, 255];
    for k in 0..4 {
        assert_eq!(texel(&out, 12 + k)[3], expected[k]);
        assert_eq!(texel(&out, 8 + k)[3], expected[4 + k]);
    }
}

#[test]
fn compressed_width_five_is_cropped() {
    let mut buf = vec![0x00, 0xF8, 0x1F, 0x00, 0, 0, 0, 0];
    buf.extend_from_slice(&[0x00, 0xF8, 0x1F, 0x00, 0x54, 0x54, 0x54, 0x54]);
    let h = header(4, 5, 1, Compression::DXT1);
    let layers = decode_layers(&h, &buf).unwrap();
    assert_eq!(layers.len(), 1);
    assert_eq!((layers[0].width, layers[0].height), (5, 4));
    assert_eq!(layers[0].data.len(), 5 * 4 * 4);
    for p in 0..20 {
        assert_eq!(texel(&layers[0].data, p), [255, 0, 0, 255]);
    }
}

#[test]
fn compressed_rows_come_top_first() {
    // One block whose first row is blue and the others red.
    let buf = [0x00, 0xF8, 0x1F, 0x00, 0x55, 0, 0, 0];
    let h = header(2, 3, 1, Compression::DXT1);
    let layers = decode_layers(&h, &buf).unwrap();
    assert_eq!(layers[0].data.len(), 2 * 3 * 4);
    for x in 0..3 {
        assert_eq!(texel(&layers[0].data, x), [0, 0, 255, 255]);
        assert_eq!(texel(&layers[0].data, 3 + x), [255, 0, 0, 255]);
    }
}

#[test]
fn compressed_levels_round_up_to_blocks() {
    // 8x4 DXT5 with two levels: 2 blocks, then one block for 4x2.
    let h = header(4, 8, 2, Compression::DXT5);
    let layers = decode_layers(&h, &[0u8; 48]).unwrap();
    assert_eq!(layers.len(), 2);
    assert_eq!(layers[1].data.len(), 4 * 2 * 4);
    assert_eq!(decode_layers(&h, &[0u8; 47]), Err(DecodeError::BufferTooShort));
}

#[test]
fn compression_codes() {
    assert_eq!(Compression::from_bytes(*b"DXT1"), Compression::DXT1);
    assert_eq!(Compression::from_bytes(*b"DXT5"), Compression::DXT5);
    assert_eq!(Compression::from_bytes(*b"DX10"), Compression::DX10);
    assert_eq!(Compression::from_bytes([0; 4]), Compression::Uncompressed);
    assert_eq!(Compression::from_bytes(*b"ATI2"), Compression::Other(*b"ATI2"));
    assert_eq!(Compression::DXT3.to_bytes(), *b"DXT3");
    assert_eq!(Compression::Uncompressed.to_bytes(), [0; 4]);
    assert_eq!(Compression::Other(*b"ATI2").to_bytes(), *b"ATI2");
}

#[test]
fn pixel_format_table() {
    let mut f = RawPixelFormat {
        size: 32,
        flags: 0x41,
        four_cc: [0; 4],
        rgb_bit_count: 32,
        red_bit_mask: 0xFF0000,
        green_bit_mask: 0xFF00,
        blue_bit_mask: 0xFF,
        alpha_bit_mask: 0xFF000000,
    };
    assert_eq!(f.to_pixel_format(), PixelFormat::A8R8G8B8);
    f.rgb_bit_count = 16;
    assert_eq!(f.to_pixel_format(), PixelFormat::Unknown);
    f.red_bit_mask = 0xF800;
    f.green_bit_mask = 0x7E0;
    f.blue_bit_mask = 0x1F;
    f.alpha_bit_mask = 0;
    assert_eq!(f.to_pixel_format(), PixelFormat::R5G6B5);
}

#[test]
fn raw_header_round_trip() {
    let mut raw = RawHeader::new_uncompressed(3, 7);
    raw.reserved[4] = 0xDEADBEEF;
    raw.caps2 = 0x200;
    raw.pixel_format.four_cc = *b"DXT5";
    let bytes = raw.encode();
    assert_eq!(bytes.len(), 128);
    assert_eq!(&bytes[12..16], &[3, 0, 0, 0]);
    assert_eq!(&bytes[84..88], b"DXT5");
    assert_eq!(RawHeader::decode(&bytes), Ok(raw));
    let h = Header::decode(&bytes).unwrap();
    assert_eq!(h.compression, Compression::DXT5);
    assert_eq!(h.pixel_bytes, 4);
    assert_eq!((h.height, h.width), (3, 7));
    assert_eq!(RawHeader::new_uncompressed(3, 7).size, 84);
}
