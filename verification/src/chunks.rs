use vstd::prelude::*;
use crate::error::FigError;
use crate::types::ParsedFile;

verus! {

/// The little-endian unsigned 32-bit number stored at `off` in `b`.
pub open spec fn u32_le(b: Seq<u8>, off: int) -> int {
    b[off] + 256 * b[off + 1] + 65536 * b[off + 2] + 16777216 * b[off + 3]
}

/// Reads the little-endian `u32` at `off`.
pub fn read_u32_le(b: &[u8], off: usize) -> (r: u32)
    requires
        off + 4 <= b@.len(),
    ensures
        r == u32_le(b@, off as int),
{
    b[off] as u32 + (b[off + 1] as u32) * 256 + (b[off + 2] as u32) * 65536 + (b[off + 3] as u32)
        * 16777216
}

/// How reading chunks can fail: the offset of the chunk header, the length that
/// it announces, and the number of bytes that follow the header.
pub type ChunkFailure = (int, int, int);

/// The chunks stored from offset `off` on: each is a 4-byte little-endian length
/// followed by that many bytes. Reading stops at the end of the input or before
/// a trailing header of fewer than 4 bytes; a chunk that runs past the end fails.
pub open spec fn spec_chunks_from(b: Seq<u8>, off: int) -> Result<Seq<Seq<u8>>, ChunkFailure>
    decreases b.len() - off,
{
    if off < 0 || off + 4 > b.len() {
        Ok(Seq::empty())
    } else {
        let len = u32_le(b, off);
        let start = off + 4;
        if start + len > b.len() {
            Err((off, len, b.len() - start))
        } else {
            match spec_chunks_from(b, start + len) {
                Ok(rest) => Ok(seq![b.subrange(start, start + len)] + rest),
                Err(e) => Err(e),
            }
        }
    }
}

/// What `extract_chunks` answers for the bytes `b` of a `.fig` file: the
/// version at offset 8 and the chunks from offset 12 on, of which there must be
/// at least two.
pub open spec fn spec_extract_chunks(b: Seq<u8>) -> Result<(int, Seq<Seq<u8>>), FigError> {
    if b.len() < 12 {
        Err(FigError::FileTooSmall { expected: 12, actual: b.len() as usize })
    } else {
        match spec_chunks_from(b, 12) {
            Err((o, e, a)) => Err(
                FigError::IncompleteChunk { offset: o as usize, expected: e as usize, actual: a as usize },
            ),
            Ok(cs) => if cs.len() < 2 {
                Err(FigError::NotEnoughChunks { expected: 2, actual: cs.len() as usize })
            } else {
                Ok((u32_le(b, 8), cs))
            },
        }
    }
}

/// Splits a `.fig` file into its version and chunks.
///
/// Layout: 8 bytes of magic header, a little-endian `u32` version, then chunks,
/// each a little-endian `u32` length followed by that many bytes.
pub fn extract_chunks(bytes: &[u8]) -> (r: Result<ParsedFile, FigError>)
    ensures
        match spec_extract_chunks(bytes@) {
            Ok((v, cs)) => (r matches Ok(p) && p.version == v && p.chunk_seqs() == cs),
            Err(e) => r == Err::<ParsedFile, FigError>(e),
        },
{
    if bytes.len() < 12 {
        return Err(FigError::FileTooSmall { expected: 12, actual: bytes.len() });
    }
    let version = read_u32_le(bytes, 8);
    let mut chunks: Vec<Vec<u8>> = Vec::new();
    let mut offset: usize = 12;
    let ghost b = bytes@;
    while offset < bytes.len()
        invariant_except_break
            12 <= offset <= b.len(),
            b == bytes@,
            match spec_chunks_from(b, offset as int) {
                Ok(rest) => spec_chunks_from(b, 12) == Ok::<Seq<Seq<u8>>, ChunkFailure>(
                    chunks@.map_values(|c: Vec<u8>| c@) + rest,
                ),
                Err(e) => spec_chunks_from(b, 12) == Err::<Seq<Seq<u8>>, ChunkFailure>(e),
            },
        ensures
            spec_chunks_from(b, 12) == Ok::<Seq<Seq<u8>>, ChunkFailure>(
                chunks@.map_values(|c: Vec<u8>| c@),
            ),
        decreases b.len() - offset,
    {
        if bytes.len() - offset < 4 {
            assert(spec_chunks_from(b, offset as int) == Ok::<Seq<Seq<u8>>, ChunkFailure>(Seq::empty()));
            assert(chunks@.map_values(|c: Vec<u8>| c@) + Seq::<Seq<u8>>::empty() =~= chunks@.map_values(|c: Vec<u8>| c@));
            break;
        }
        let chunk_length = read_u32_le(bytes, offset) as usize;
        let start = offset + 4;
        if chunk_length > bytes.len() - start {
            return Err(
                FigError::IncompleteChunk {
                    offset,
                    expected: chunk_length,
                    actual: bytes.len() - start,
                },
            );
        }
        let chunk = vstd::slice::slice_to_vec(vstd::slice::slice_subrange(bytes, start, start + chunk_length));
        let ghost prev = chunks@.map_values(|c: Vec<u8>| c@);
        chunks.push(chunk);
        assert(chunks@.map_values(|c: Vec<u8>| c@) =~= prev.push(b.subrange(start as int, start + chunk_length)));
        proof {
            let next = start + chunk_length;
            match spec_chunks_from(b, next as int) {
                Ok(rest) => {
                    assert(prev + (seq![b.subrange(start as int, next as int)] + rest)
                        =~= prev.push(b.subrange(start as int, next as int)) + rest);
                }
                Err(e) => {}
            }
        }
        offset = start + chunk_length;
    }
    proof {
        if offset >= b.len() {
            assert(chunks@.map_values(|c: Vec<u8>| c@) + Seq::<Seq<u8>>::empty() =~= chunks@.map_values(|c: Vec<u8>| c@));
        }
    }
    if chunks.len() < 2 {
        return Err(FigError::NotEnoughChunks { expected: 2, actual: chunks.len() });
    }
    Ok(ParsedFile::new(version, chunks))
}

/// The four little-endian bytes of `n`.
pub open spec fn le32(n: u32) -> Seq<u8> {
    seq![(n & 0xff) as u8, ((n >> 8u32) & 0xff) as u8, ((n >> 16u32) & 0xff) as u8, (n >> 24u32) as u8]
}

/// The chunks laid out one after the other, each behind its length as four
/// little-endian bytes.
pub open spec fn chunk_layout(cs: Seq<Seq<u8>>) -> Seq<u8>
    decreases cs.len(),
{
    if cs.len() == 0 {
        Seq::empty()
    } else {
        le32(cs[0].len() as u32) + cs[0] + chunk_layout(cs.drop_first())
    }
}

/// A `.fig` file laid out as documented: an 8-byte header, the version as four
/// little-endian bytes, then the chunks.
pub open spec fn fig_layout(header: Seq<u8>, version: u32, cs: Seq<Seq<u8>>) -> Seq<u8> {
    header + le32(version) + chunk_layout(cs)
}

proof fn lemma_le32(b: Seq<u8>, off: int, n: u32)
    requires
        0 <= off,
        off + 4 <= b.len(),
        b.subrange(off, off + 4) == le32(n),
    ensures
        u32_le(b, off) == n,
{
    assert(b[off] == le32(n)[0] && b[off + 1] == le32(n)[1] && b[off + 2] == le32(n)[2] && b[off + 3] == le32(n)[3]);
    let b0: u32 = n & 0xff;
    let b1: u32 = (n >> 8u32) & 0xff;
    let b2: u32 = (n >> 16u32) & 0xff;
    let b3: u32 = n >> 24u32;
    assert(b0 < 256 && b1 < 256 && b2 < 256 && b3 < 256) by (bit_vector)
        requires
            b0 == n & 0xff,
            b1 == (n >> 8u32) & 0xff,
            b2 == (n >> 16u32) & 0xff,
            b3 == n >> 24u32,
    ;
    assert(b0 + 256 * b1 + 65536 * b2 + 16777216 * b3 == n) by (bit_vector)
        requires
            b0 == n & 0xff,
            b1 == (n >> 8u32) & 0xff,
            b2 == (n >> 16u32) & 0xff,
            b3 == n >> 24u32,
    ;
    assert(b[off] == b0 && b[off + 1] == b1 && b[off + 2] == b2 && b[off + 3] == b3);
}

proof fn lemma_chunks_from_layout(p: Seq<u8>, cs: Seq<Seq<u8>>, tail: Seq<u8>)
    requires
        forall|i: int| 0 <= i < cs.len() ==> #[trigger] cs[i].len() <= u32::MAX,
        tail.len() < 4,
    ensures
        spec_chunks_from(p + chunk_layout(cs) + tail, p.len() as int) == Ok::<Seq<Seq<u8>>, ChunkFailure>(cs),
    decreases cs.len(),
{
    let b = p + chunk_layout(cs) + tail;
    let off = p.len() as int;
    if cs.len() == 0 {
        assert(b =~= p + tail);
        assert(cs =~= Seq::<Seq<u8>>::empty());
    } else {
        let c = cs[0];
        let len = c.len() as u32;
        let rest = cs.drop_first();
        let p2 = p + le32(len) + c;
        assert(b =~= p2 + chunk_layout(rest) + tail);
        assert(b.subrange(off, off + 4) =~= le32(len));
        lemma_le32(b, off, len);
        assert(b.subrange(off + 4, off + 4 + c.len()) =~= c);
        assert forall|i: int| 0 <= i < rest.len() implies #[trigger] rest[i].len() <= u32::MAX by {
            assert(rest[i] == cs[i + 1]);
        }
        lemma_chunks_from_layout(p2, rest, tail);
        assert(p2.len() == off + 4 + c.len());
        assert(seq![c] + rest =~= cs);
    }
}

/// Reading a file laid out as documented gives back its version and its
/// chunks, when there are at least two of them, whatever the 8 header bytes
/// and whatever fewer than 4 bytes follow the last chunk.
pub proof fn lemma_extract_layout(header: Seq<u8>, version: u32, cs: Seq<Seq<u8>>, tail: Seq<u8>)
    requires
        header.len() == 8,
        cs.len() >= 2,
        forall|i: int| 0 <= i < cs.len() ==> #[trigger] cs[i].len() <= u32::MAX,
        tail.len() < 4,
    ensures
        spec_extract_chunks(fig_layout(header, version, cs) + tail) == Ok::<(int, Seq<Seq<u8>>), FigError>(
            (version as int, cs),
        ),
{
    let b = fig_layout(header, version, cs) + tail;
    let p = header + le32(version);
    assert(b =~= p + chunk_layout(cs) + tail);
    assert(b.subrange(8, 12) =~= le32(version));
    lemma_le32(b, 8, version);
    lemma_chunks_from_layout(p, cs, tail);
}

proof fn lemma_bytes_le32(b: Seq<u8>, off: int)
    requires
        0 <= off,
        off + 4 <= b.len(),
    ensures
        0 <= u32_le(b, off) <= u32::MAX,
        le32(u32_le(b, off) as u32) == b.subrange(off, off + 4),
{
    let y0: u32 = b[off] as u32;
    let y1: u32 = b[off + 1] as u32;
    let y2: u32 = b[off + 2] as u32;
    let y3: u32 = b[off + 3] as u32;
    let n: u32 = (y0 + 256 * y1 + 65536 * y2 + 16777216 * y3) as u32;
    assert(y0 + 256 * y1 + 65536 * y2 + 16777216 * y3 <= u32::MAX);
    assert((n & 0xff) == y0 && ((n >> 8u32) & 0xff) == y1 && ((n >> 16u32) & 0xff) == y2 && (n >> 24u32) == y3)
        by (bit_vector)
        requires
            y0 < 256,
            y1 < 256,
            y2 < 256,
            y3 < 256,
            n == y0 + 256 * y1 + 65536 * y2 + 16777216 * y3,
    ;
    assert(le32(n) =~= b.subrange(off, off + 4));
}

proof fn lemma_chunks_read_layout(b: Seq<u8>, off: int, cs: Seq<Seq<u8>>)
    requires
        0 <= off <= b.len(),
        spec_chunks_from(b, off) == Ok::<Seq<Seq<u8>>, ChunkFailure>(cs),
    ensures
        forall|i: int| 0 <= i < cs.len() ==> #[trigger] cs[i].len() <= u32::MAX,
        off + chunk_layout(cs).len() <= b.len() < off + chunk_layout(cs).len() + 4,
        b.subrange(off, off + chunk_layout(cs).len()) == chunk_layout(cs),
    decreases b.len() - off,
{
    if off + 4 > b.len() {
        assert(cs =~= Seq::<Seq<u8>>::empty());
        assert(b.subrange(off, off) =~= chunk_layout(cs));
    } else {
        let len = u32_le(b, off);
        let start = off + 4;
        let rest = spec_chunks_from(b, start + len)->Ok_0;
        lemma_bytes_le32(b, off);
        lemma_chunks_read_layout(b, start + len, rest);
        let c = b.subrange(start, start + len);
        assert(cs =~= seq![c] + rest);
        assert(cs[0] == c);
        assert(cs.drop_first() =~= rest);
        assert(c.len() as u32 == len);
        assert forall|i: int| 0 <= i < cs.len() implies #[trigger] cs[i].len() <= u32::MAX by {
            if i > 0 {
                assert(cs[i] == rest[i - 1]);
            }
        }
        let l = chunk_layout(rest);
        assert(chunk_layout(cs) == le32(c.len() as u32) + c + l);
        assert(b.subrange(off, off + chunk_layout(cs).len()) =~= b.subrange(off, off + 4) + c + b.subrange(
            start + len,
            start + len + l.len(),
        ));
    }
}

/// A file that reads is laid out as documented: its 8 header bytes, the
/// version as four little-endian bytes, the chunks each behind its length,
/// and fewer than 4 bytes after them.
pub proof fn lemma_extract_reads_layout(b: Seq<u8>)
    requires
        spec_extract_chunks(b) is Ok,
    ensures
        ({
            let (v, cs) = spec_extract_chunks(b)->Ok_0;
            &&& cs.len() >= 2
            &&& 0 <= v <= u32::MAX
            &&& forall|i: int| 0 <= i < cs.len() ==> #[trigger] cs[i].len() <= u32::MAX
            &&& fig_layout(b.take(8), v as u32, cs).len() <= b.len() < fig_layout(b.take(8), v as u32, cs).len() + 4
            &&& b.take(fig_layout(b.take(8), v as u32, cs).len() as int) == fig_layout(b.take(8), v as u32, cs)
        }),
{
    let (v, cs) = spec_extract_chunks(b)->Ok_0;
    lemma_bytes_le32(b, 8);
    lemma_chunks_read_layout(b, 12, cs);
    let f = fig_layout(b.take(8), v as u32, cs);
    assert(b.take(f.len() as int) =~= b.take(8) + b.subrange(8, 12) + b.subrange(12, 12 + chunk_layout(cs).len() as int));
}

/// The documented layout followed by `tail`.
pub open spec fn laid_out(header: Seq<u8>, version: u32, cs: Seq<Seq<u8>>, tail: Seq<u8>) -> Seq<u8> {
    fig_layout(header, version, cs) + tail
}

/// Reading the bytes gives version `v` and chunks `cs` exactly when there are
/// at least two chunks, each short enough for its length field, and the bytes
/// are some 8 header bytes, `v` as four little-endian bytes, the chunks each
/// behind its length, and fewer than 4 bytes more: the header bytes are not
/// looked at, and a trailing piece too short for a length is ignored.
pub proof fn lemma_extract_chunks_round_trip(b: Seq<u8>, v: u32, cs: Seq<Seq<u8>>)
    ensures
        spec_extract_chunks(b) == Ok::<(int, Seq<Seq<u8>>), FigError>((v as int, cs)) <==> {
            &&& cs.len() >= 2
            &&& forall|i: int| 0 <= i < cs.len() ==> #[trigger] cs[i].len() <= u32::MAX
            &&& exists|h: Seq<u8>, tail: Seq<u8>|
                h.len() == 8 && tail.len() < 4 && #[trigger] laid_out(h, v, cs, tail) == b
        },
{
    if spec_extract_chunks(b) == Ok::<(int, Seq<Seq<u8>>), FigError>((v as int, cs)) {
        lemma_extract_reads_layout(b);
        let l = fig_layout(b.take(8), v, cs).len() as int;
        let h = b.take(8);
        let tail = b.skip(l);
        assert(laid_out(h, v, cs, tail) =~= b);
    }
    if cs.len() >= 2 && (forall|i: int| 0 <= i < cs.len() ==> #[trigger] cs[i].len() <= u32::MAX) && exists|
        h: Seq<u8>,
        tail: Seq<u8>,
    | h.len() == 8 && tail.len() < 4 && #[trigger] laid_out(h, v, cs, tail) == b {
        let (h, tail) = choose|h: Seq<u8>, tail: Seq<u8>|
            h.len() == 8 && tail.len() < 4 && #[trigger] laid_out(h, v, cs, tail) == b;
        lemma_extract_layout(h, v, cs, tail);
    }
}

} // verus!
