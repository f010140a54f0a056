//! Decoding of DirectDraw Surface textures, raw and S3TC (DXT1 to DXT5)
//! compressed, into one RGBA8 image per mipmap level.
pub mod block;
pub mod dds;
pub mod error;
pub mod format;
pub mod header;

pub use dds::Dds;
pub use error::{DecodeError, EncodeError};
pub use format::{Image, decode_layers, decode_layers_dxt, decode_layers_uncompressed};
pub use header::{Compression, Header, PixelFormat, RawHeader, RawPixelFormat};
