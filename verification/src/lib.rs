//! Lossless compression of uncompressed Sony ARW files into a JPEG container.

pub mod bytes;
pub mod codec;
pub mod compression;
pub mod error;
pub mod jpeg;
pub mod paths;
pub mod roundtrip;
pub mod tiff;
pub mod transform;

pub use codec::{
    decode, decode_checked, encode, encode_with_level, encode_with_progress, extract_preview,
    inspect, is_encoded, FileInfo, Kind, DEFAULT_LEVEL, ENCODED_EXTENSION, FOOTER_LEN,
    FOOTER_MAGIC, MAGIC, VERSION,
};
pub use error::{Error, Result};
pub use jpeg::{attach_view_exif, jpeg_end, jpeg_exif_orientation, jpeg_exif_thumbnail, strip_view_exif};
pub use paths::{decoded_output_path, encoded_output_path, has_encoded_extension};
pub use tiff::{parse_layout, ArwLayout, JpegRef};
