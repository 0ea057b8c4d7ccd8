use vstd::prelude::*;

verus! {

/// The ways a mosaic run can fail.
#[derive(Clone, Copy, Debug, PartialEq, Eq, Structural)]
pub enum MosaicError {
    /// A directory or path could not be read.
    Io,
    /// Image bytes were invalid or of an unsupported format.
    Decode,
    /// No tile survived loading.
    EmptyTileSet,
    /// A nearest-color query was made against an empty index.
    Index,
}

} // verus!
