//! Archive codec: a single-entry compressed container around raw bytes.
//!
//! A chunk or manifest may be stored inside a zip archive holding one entry
//! under the fixed name `raw.data`.  The container format belongs to the zip
//! crate; the library only relies on reading back from an archive exactly the
//! bytes that were written into it.  What an arbitrary byte sequence yields
//! when read as such an archive is known here under the name `unzip_of`.

use vstd::prelude::*;

verus! {

/// What reading the single `raw.data` entry of an archive yields:
/// `Some(payload)` when the bytes form an archive holding that entry,
/// `None` otherwise.  Deterministic: a function of the archive bytes alone.
pub uninterp spec fn unzip_of(archive: Seq<u8>) -> Option<Seq<u8>>;

/// Relies on `zip::ZipWriter`: writing the payload as the single entry
/// `raw.data` of a fresh archive produces bytes from which `zip::ZipArchive`
/// reads that same payload back.
#[verifier::external_body]
pub(crate) fn zip_bytes(payload: &Vec<u8>) -> (r: Option<Vec<u8>>)
    ensures
        match r {
            Some(a) => unzip_of(a@) == Some(payload@),
            None => true,
        },
{
    let mut w = zip::ZipWriter::new(std::io::Cursor::new(Vec::new()));
    if w.start_file("raw.data", zip::write::SimpleFileOptions::default()).is_err() {
        return None;
    }
    if std::io::Write::write_all(&mut w, payload.as_slice()).is_err() {
        return None;
    }
    match w.finish() {
        Ok(cur) => Some(cur.into_inner()),
        Err(_) => None,
    }
}

/// Relies on `zip::ZipArchive`: opening the bytes as an archive and reading
/// the entry `raw.data` is a function of those bytes alone; it fails exactly
/// when the bytes do not form an archive holding that entry.
#[verifier::external_body]
pub(crate) fn unzip_bytes(archive: &Vec<u8>) -> (r: Option<Vec<u8>>)
    ensures
        match r {
            Some(b) => unzip_of(archive@) == Some(b@),
            None => unzip_of(archive@) is None,
        },
{
    let mut a = match zip::ZipArchive::new(std::io::Cursor::new(archive.as_slice())) {
        Ok(a) => a,
        Err(_) => return None,
    };
    let mut f = match a.by_name("raw.data") {
        Ok(f) => f,
        Err(_) => return None,
    };
    let mut buf = Vec::new();
    match std::io::Read::read_to_end(&mut f, &mut buf) {
        Ok(_) => Some(buf),
        Err(_) => None,
    }
}

} // verus!
