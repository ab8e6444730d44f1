use vstd::prelude::*;

verus! {

/// Kind of Figma file, told apart by its magic header.
#[derive(Debug, Clone, Copy, PartialEq, Eq)]
pub enum FileType {
    /// Standard Figma file (`fig-kiwi`).
    Figma,
    /// FigJam file (`fig-jam.`).
    FigJam,
}

/// A `.fig` file split into its version and its chunks: the schema chunk, the
/// data chunk, then the image chunks.
#[derive(Debug, Clone)]
pub struct ParsedFile {
    /// File format version (little-endian `u32` at offset 8).
    pub version: u32,
    /// The chunks, in file order.
    pub chunks: Vec<Vec<u8>>,
}

impl ParsedFile {
    /// The contents of the chunks, as byte sequences.
    pub open spec fn chunk_seqs(&self) -> Seq<Seq<u8>> {
        self.chunks@.map_values(|c: Vec<u8>| c@)
    }

    /// Builds a parsed file from its parts.
    pub fn new(version: u32, chunks: Vec<Vec<u8>>) -> (r: Self)
        ensures
            r.version == version,
            r.chunks == chunks,
    {
        ParsedFile { version, chunks }
    }

    /// The schema chunk: the first chunk, if any.
    pub fn schema_chunk(&self) -> (r: Option<&[u8]>)
        ensures
            self.chunks@.len() == 0 ==> r is None,
            self.chunks@.len() > 0 ==> (r matches Some(s) && s@ == self.chunks@[0]@),
    {
        if self.chunks.len() > 0 {
            Some(self.chunks[0].as_slice())
        } else {
            None
        }
    }

    /// The data chunk: the second chunk, if any.
    pub fn data_chunk(&self) -> (r: Option<&[u8]>)
        ensures
            self.chunks@.len() < 2 ==> r is None,
            self.chunks@.len() >= 2 ==> (r matches Some(s) && s@ == self.chunks@[1]@),
    {
        if self.chunks.len() > 1 {
            Some(self.chunks[1].as_slice())
        } else {
            None
        }
    }

    /// The image chunks: every chunk after the first two.
    pub fn image_chunks(&self) -> (r: &[Vec<u8>])
        ensures
            self.chunks@.len() > 2 ==> r@ == self.chunks@.subrange(2, self.chunks@.len() as int),
            self.chunks@.len() <= 2 ==> r@.len() == 0,
    {
        if self.chunks.len() > 2 {
            &self.chunks.as_slice()[2..self.chunks.len()]
        } else {
            let empty: &[Vec<u8>] = &[];
            empty
        }
    }
}

} // verus!
