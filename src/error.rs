use vstd::prelude::*;

verus! {

/// Why an encode or a decode failed.
#[derive(Debug, Clone, Copy, PartialEq, Eq, Structural)]
pub enum CtiError {
    /// The raster's colour kind, or the header's colour id, is not one of the five supported.
    UnsupportedColorKind,
    /// The file does not start with `CTI1`.
    BadMagic,
    /// The header's version is not 1.
    BadVersion,
    /// A byte stream or the file ended in the middle of a structure.
    TruncatedStream,
    /// An escaped stream holds an unknown tag or an invalid back-reference.
    CodecFraming,
    /// A general-purpose compressor failed.
    LibraryDecode,
    /// The header names a compression id that has no codec.
    UnknownCompression,
    /// A tile's checksum does not match its index record; the field is the tile's index.
    CrcMismatch(u64),
    /// The raster's geometry or data length is inconsistent, or a tile does not fit its window.
    BadGeometry,
    /// A size does not fit the field that stores it.
    SizeOverflow,
}

} // verus!
