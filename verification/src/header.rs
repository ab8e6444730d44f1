use vstd::prelude::*;
use crate::error::FigError;
use crate::types::FileType;

verus! {

/// `fig-kiwi`: the magic header of a standard Figma file.
pub open spec fn figma_magic() -> Seq<u8> {
    seq![0x66u8, 0x69, 0x67, 0x2d, 0x6b, 0x69, 0x77, 0x69]
}

/// `fig-jam.`: the magic header of a FigJam file.
pub open spec fn figjam_magic() -> Seq<u8> {
    seq![0x66u8, 0x69, 0x67, 0x2d, 0x6a, 0x61, 0x6d, 0x2e]
}

/// `PK`: the first two bytes of a ZIP archive.
pub open spec fn zip_magic() -> Seq<u8> {
    seq![0x50u8, 0x4b]
}

/// What `detect_file_type` answers for the bytes `b`.
pub open spec fn spec_detect_file_type(b: Seq<u8>) -> Result<FileType, Seq<u8>> {
    if b.take(8) == figma_magic() {
        Ok(FileType::Figma)
    } else if b.take(8) == figjam_magic() {
        Ok(FileType::FigJam)
    } else {
        Err(b.take(8))
    }
}

/// True when `bytes` starts with `prefix`.
pub fn starts_with(bytes: &[u8], prefix: &[u8]) -> (r: bool)
    ensures
        r == (prefix@.len() <= bytes@.len() && bytes@.take(prefix@.len() as int) == prefix@),
{
    if bytes.len() < prefix.len() {
        return false;
    }
    let mut i: usize = 0;
    while i < prefix.len()
        invariant
            prefix@.len() <= bytes@.len(),
            i <= prefix@.len(),
            forall|j: int| 0 <= j < i ==> bytes@[j] == prefix@[j],
        decreases prefix@.len() - i,
    {
        if bytes[i] != prefix[i] {
            assert(bytes@.take(prefix@.len() as int)[i as int] != prefix@[i as int]);
            return false;
        }
        i = i + 1;
    }
    assert(bytes@.take(prefix@.len() as int) =~= prefix@);
    true
}

/// Detects the file type from the magic header in the first eight bytes.
pub fn detect_file_type(bytes: &[u8]) -> (r: Result<FileType, FigError>)
    ensures
        bytes@.len() < 8 ==> r == Err::<FileType, FigError>(
            FigError::FileTooSmall { expected: 8, actual: bytes@.len() as usize },
        ),
        bytes@.len() >= 8 ==> match spec_detect_file_type(bytes@) {
            Ok(t) => r == Ok::<FileType, FigError>(t),
            Err(h) => (r matches Err(FigError::InvalidMagicHeader(v)) && v@ == h),
        },
{
    if bytes.len() < 8 {
        return Err(FigError::FileTooSmall { expected: 8, actual: bytes.len() });
    }
    let figma: [u8; 8] = [0x66u8, 0x69, 0x67, 0x2d, 0x6b, 0x69, 0x77, 0x69];
    let figjam: [u8; 8] = [0x66u8, 0x69, 0x67, 0x2d, 0x6a, 0x61, 0x6d, 0x2e];
    assert(figma@ =~= figma_magic());
    assert(figjam@ =~= figjam_magic());
    if starts_with(bytes, figma.as_slice()) {
        return Ok(FileType::Figma);
    }
    if starts_with(bytes, figjam.as_slice()) {
        return Ok(FileType::FigJam);
    }
    let header = vstd::slice::slice_to_vec(vstd::slice::slice_subrange(bytes, 0, 8));
    Err(FigError::InvalidMagicHeader(header))
}

/// True when the bytes start with the ZIP signature `PK`.
pub fn is_zip_container(bytes: &[u8]) -> (r: bool)
    ensures
        r == (bytes@.len() >= 2 && bytes@.take(2) == zip_magic()),
{
    bytes.len() >= 2 && bytes[0] == 0x50u8 && bytes[1] == 0x4bu8 && {
        assert(bytes@.take(2) =~= zip_magic());
        true
    }
}

} // verus!
