use vstd::prelude::*;

verus! {

/// Errors raised while reading a `.fig` file.
#[derive(Debug, Clone, PartialEq, Eq)]
pub enum FigError {
    /// The input is shorter than the format requires.
    FileTooSmall { expected: usize, actual: usize },
    /// The first eight bytes are neither `fig-kiwi` nor `fig-jam.`; holds those bytes.
    InvalidMagicHeader(Vec<u8>),
    /// A chunk announces more bytes than the file holds.
    IncompleteChunk { offset: usize, expected: usize, actual: usize },
    /// Fewer chunks than the schema and data chunks that every file carries.
    NotEnoughChunks { expected: usize, actual: usize },
    /// A ZIP container without a `canvas.fig` entry.
    CanvasNotFoundInZip,
    /// Decompression, container or decoding failure, with a message.
    ZipError(String),
}

/// Result type of the library.
pub type FigResult<T> = Result<T, FigError>;

} // verus!
