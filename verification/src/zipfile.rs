use vstd::prelude::*;
use std::io::Read;
use crate::error::FigError;
use crate::text::str_equal;

verus! {

/// What opening the bytes as a ZIP archive gives: its number of entries, or
/// the message of the `zip` crate's error.
pub uninterp spec fn zip_entry_count(bytes: Seq<u8>) -> Result<nat, Seq<char>>;

/// The name of entry `i` of the ZIP archive in the bytes, as `by_index`
/// opens it (see `archive_entry_name`), or the message of the error met.
pub uninterp spec fn zip_entry_name(bytes: Seq<u8>, i: int) -> Result<Seq<char>, Seq<char>>;

/// The contents of entry `i` of the ZIP archive in the bytes, as `by_index`
/// and `read_to_end` give them, or the message of the error met.
pub uninterp spec fn zip_entry_data(bytes: Seq<u8>, i: int) -> Result<Seq<u8>, Seq<char>>;

/// `zip::ZipArchive::new` on the bytes, then `len`: the number of entries, or
/// the error's message.
#[verifier::external_body]
fn archive_len(bytes: &[u8]) -> (r: Result<usize, String>)
    ensures
        match zip_entry_count(bytes@) {
            Ok(n) => (r matches Ok(m) && m == n),
            Err(e) => (r matches Err(s) && s@ == e),
        },
{
    match zip::ZipArchive::new(std::io::Cursor::new(bytes)) {
        Ok(a) => Ok(a.len()),
        Err(e) => Err(e.to_string()),
    }
}

/// `zip::ZipArchive::new` on the bytes, then `by_index(i)` and `name`: the
/// entry's name, or the error's message. `by_index` panics on an entry that
/// is not marked encrypted but carries an AES header; such an entry, which
/// `by_index_decrypt(i, b"")` reports as `InvalidPassword`, gets that error's
/// message instead and is not opened. The same message comes back for an
/// entry marked encrypted whose check rejects the empty password, where
/// `by_index` would say that a password is required; no contents are read
/// with a password.
#[verifier::external_body]
fn archive_entry_name(bytes: &[u8], i: usize) -> (r: Result<String, String>)
    ensures
        match zip_entry_name(bytes@, i as int) {
            Ok(n) => (r matches Ok(s) && s@ == n),
            Err(e) => (r matches Err(s) && s@ == e),
        },
{
    let mut archive = match zip::ZipArchive::new(std::io::Cursor::new(bytes)) {
        Ok(a) => a,
        Err(e) => return Err(e.to_string()),
    };
    if let Ok(Err(e)) = archive.by_index_decrypt(i, b"") {
        return Err(e.to_string());
    }
    let r = match archive.by_index(i) {
        Ok(f) => Ok(f.name().to_string()),
        Err(e) => Err(e.to_string()),
    };
    r
}

/// `zip::ZipArchive::new` on the bytes, then `by_index(i)` and `read_to_end`:
/// the entry's contents, or the error's message. Only for an entry whose
/// name `archive_entry_name` reads: `by_index` opens such an entry without
/// panicking, and it is not encrypted.
#[verifier::external_body]
fn archive_entry_data(bytes: &[u8], i: usize) -> (r: Result<Vec<u8>, String>)
    requires
        zip_entry_name(bytes@, i as int) is Ok,
    ensures
        match zip_entry_data(bytes@, i as int) {
            Ok(d) => (r matches Ok(v) && v@ == d),
            Err(e) => (r matches Err(s) && s@ == e),
        },
{
    let mut archive = match zip::ZipArchive::new(std::io::Cursor::new(bytes)) {
        Ok(a) => a,
        Err(e) => return Err(e.to_string()),
    };
    let mut file = match archive.by_index(i) {
        Ok(f) => f,
        Err(e) => return Err(e.to_string()),
    };
    let mut contents = Vec::new();
    match file.read_to_end(&mut contents) {
        Ok(_) => Ok(contents),
        Err(e) => Err(e.to_string()),
    }
}

/// The `canvas.fig` entry from entry `i` on: its contents, `Err(None)` when
/// no such entry follows, or `Err(Some(message))` for the first entry that
/// cannot be read.
pub open spec fn canvas_from(bytes: Seq<u8>, i: int, n: int) -> Result<Seq<u8>, Option<Seq<char>>>
    decreases n - i,
{
    if i >= n {
        Err(None)
    } else {
        match zip_entry_name(bytes, i) {
            Err(m) => Err(Some(m)),
            Ok(name) => if name == "canvas.fig"@ {
                match zip_entry_data(bytes, i) {
                    Ok(d) => Ok(d),
                    Err(m) => Err(Some(m)),
                }
            } else {
                canvas_from(bytes, i + 1, n)
            },
        }
    }
}

/// The `canvas.fig` entry of a ZIP archive (see `canvas_from`).
pub open spec fn spec_zip_canvas(bytes: Seq<u8>) -> Result<Seq<u8>, Option<Seq<char>>> {
    match zip_entry_count(bytes) {
        Err(m) => Err(Some(m)),
        Ok(n) => canvas_from(bytes, 0, n as int),
    }
}

/// Extracts the `canvas.fig` entry of a ZIP archive: its entries are read in
/// order until one is named `canvas.fig`.
pub fn extract_from_zip(bytes: &[u8]) -> (r: Result<Vec<u8>, FigError>)
    ensures
        match spec_zip_canvas(bytes@) {
            Ok(d) => (r matches Ok(v) && v@ == d),
            Err(None) => r == Err::<Vec<u8>, FigError>(FigError::CanvasNotFoundInZip),
            Err(Some(m)) => (r matches Err(FigError::ZipError(e)) && e@ == m),
        },
{
    let n = match archive_len(bytes) {
        Ok(n) => n,
        Err(e) => {
            return Err(FigError::ZipError(e));
        },
    };
    let mut i: usize = 0;
    while i < n
        invariant
            zip_entry_count(bytes@) == Ok::<nat, Seq<char>>(n as nat),
            i <= n,
            spec_zip_canvas(bytes@) == canvas_from(bytes@, i as int, n as int),
        decreases n - i,
    {
        let name = match archive_entry_name(bytes, i) {
            Ok(s) => s,
            Err(e) => {
                return Err(FigError::ZipError(e));
            },
        };
        if str_equal(name.as_str(), "canvas.fig") {
            return match archive_entry_data(bytes, i) {
                Ok(d) => Ok(d),
                Err(e) => Err(FigError::ZipError(e)),
            };
        }
        i = i + 1;
    }
    Err(FigError::CanvasNotFoundInZip)
}

} // verus!
