//! CTI: a container for large rasters stored as independently compressed tiles.
pub mod error;
pub mod codec;
pub mod rct;
pub mod bytes;
pub mod outside;
pub mod format;
pub mod tile;
pub mod tile_codec;
pub mod encoder;
pub mod decoder;
pub mod laws;
pub mod round_trip;

pub use decoder::CTIDecoder;
pub use encoder::{CTIEncoder, CompTile};
pub use error::CtiError;
pub use format::{
    read_header, read_indices, write_header, write_sections, CTIConfig, CTIHeader, ColorKind, CompressionType,
    SectionDesc, TiffImage, TileIndex,
};
pub use outside::crc32;
