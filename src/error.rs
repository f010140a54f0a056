//! Errors of decoding and encoding.
use vstd::prelude::*;
use crate::header::Compression;

verus! {

/// Why a DDS file could not be decoded.
#[derive(Debug, Clone, PartialEq, Eq)]
pub enum DecodeError {
    /// The input ended inside the magic bytes or the header.
    UnexpectedEOF,
    /// The file does not start with `DDS `.
    InvalidMagicBytes([u8; 4]),
    /// The compression is not one that the decoder handles.
    UnsupportedCompression(Compression),
    /// Uncompressed pixels are not 1 to 4 bytes wide.
    UnsupportedPixelBytes(usize),
    /// Fewer bytes remain than the next mipmap level needs.
    BufferTooShort,
}

/// Why an image could not be encoded.
#[derive(Debug, Clone, PartialEq, Eq)]
pub enum EncodeError {
    /// Only uncompressed output is written.
    UnsupportedCompression(Compression),
}

} // verus!
