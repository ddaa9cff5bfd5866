//! The manifest: the authoritative record of one split, mapping chunk
//! indices to fingerprints and artifact names.

use crate::numbers::{dec_rep, is_digit, lemma_dec_rep_digits, push_dec};
use crate::text::ascii_to_string;
use vstd::prelude::*;
use vstd::utf8::{encode_utf8, encode_utf8_valid_utf8, valid_utf8};

verus! {

/// The failure kinds of splitting and merging.
#[derive(Clone, Copy, Debug, PartialEq, Eq, Structural)]
pub enum ChunkError {
    /// The source path does not exist.
    NotFound,
    /// A read, write or create failed.
    IoError,
    /// A manifest could not be read as one.
    FormatError,
    /// A fingerprint did not match at a verification point.
    IntegrityError,
    /// A chunk or manifest write did not complete.
    PartialWriteError,
}

/// The manifest of one split.  `list` maps the 1-based chunk index `i` to
/// the pair at position `i - 1`: the fingerprint of the stored artifact and
/// the artifact's base name.
#[derive(Clone, Debug)]
pub struct FileChunkSplitResult {
    /// Self-referential name of the manifest file, ignored when reading.
    pub info_file: String,
    /// Base name of the source file.
    pub file_name: String,
    /// Fingerprint of the whole source file.
    pub file_hash: String,
    /// Size of the source file in bytes.
    pub file_size: usize,
    /// Effective chunk size in bytes.
    pub chunk_size: usize,
    /// Number of chunks.
    pub chunk_count: usize,
    /// Whether chunk artifacts are archive-wrapped.
    pub compressed: bool,
    /// Fingerprint and artifact base name, per chunk, in index order.
    pub list: Vec<(String, String)>,
}

/// The mathematical content of a manifest: every textual field as the bytes
/// of its UTF-8 form.
#[verifier::ext_equal]
pub ghost struct ManifestView {
    pub info_file: Seq<u8>,
    pub file_name: Seq<u8>,
    pub file_hash: Seq<u8>,
    pub file_size: int,
    pub chunk_size: int,
    pub chunk_count: int,
    pub compressed: bool,
    pub list: Seq<(Seq<u8>, Seq<u8>)>,
}

impl View for FileChunkSplitResult {
    type V = ManifestView;

    open spec fn view(&self) -> ManifestView {
        ManifestView {
            info_file: encode_utf8(self.info_file@),
            file_name: encode_utf8(self.file_name@),
            file_hash: encode_utf8(self.file_hash@),
            file_size: self.file_size as int,
            chunk_size: self.chunk_size as int,
            chunk_count: self.chunk_count as int,
            compressed: self.compressed,
            list: self.list@.map_values(
                |p: (String, String)| (encode_utf8(p.0@), encode_utf8(p.1@)),
            ),
        }
    }
}

/// The sequence-formatted digits of a chunk index: 8-digit zero-padded.
pub open spec fn pad8(n: nat) -> Seq<u8> {
    if dec_rep(n).len() >= 8 {
        dec_rep(n)
    } else {
        Seq::new((8 - dec_rep(n).len()) as nat, |j: int| 48u8) + dec_rep(n)
    }
}

/// The base name of the chunk with 1-based index `n`: `chunk.` followed by
/// the zero-padded index.
pub open spec fn chunk_name_bytes(n: nat) -> Seq<u8> {
    seq![99u8, 104u8, 117u8, 110u8, 107u8, 46u8] + pad8(n)
}

pub proof fn lemma_pad8_digits(n: nat)
    ensures
        pad8(n).len() >= 8,
        forall|i: int| 0 <= i < pad8(n).len() ==> is_digit(#[trigger] pad8(n)[i]),
{
    lemma_dec_rep_digits(n);
    if dec_rep(n).len() < 8 {
        assert forall|i: int| 0 <= i < pad8(n).len() implies is_digit(#[trigger] pad8(n)[i]) by {
            if i >= 8 - dec_rep(n).len() {
                assert(pad8(n)[i] == dec_rep(n)[i - (8 - dec_rep(n).len())]);
            }
        }
    }
}

/// Chunk base names hold ASCII bytes only.
pub proof fn lemma_chunk_name_ascii(n: nat)
    ensures
        forall|i: int| 0 <= i < chunk_name_bytes(n).len() ==> #[trigger] chunk_name_bytes(n)[i]
            < 0x80,
{
    lemma_pad8_digits(n);
    assert forall|i: int| 0 <= i < chunk_name_bytes(n).len() implies #[trigger] chunk_name_bytes(n)[i]
        < 0x80 by {
        if i >= 6 {
            assert(chunk_name_bytes(n)[i] == pad8(n)[i - 6]);
            assert(is_digit(pad8(n)[i - 6]));
        }
    }
}

/// Appends the zero-padded digits of `n`.
pub fn push_pad8(out: &mut Vec<u8>, n: usize)
    ensures
        final(out)@ == old(out)@ + pad8(n as nat),
{
    let mut digits: Vec<u8> = Vec::new();
    push_dec(&mut digits, n);
    let mut j: usize = 0;
    let pad: usize = if digits.len() < 8 {
        8 - digits.len()
    } else {
        0
    };
    while j < pad
        invariant
            j <= pad,
            digits@ == dec_rep(n as nat),
            pad == if dec_rep(n as nat).len() < 8 {
                8 - dec_rep(n as nat).len()
            } else {
                0
            },
            out@ =~= old(out)@ + Seq::new(j as nat, |k: int| 48u8),
        decreases pad - j,
    {
        out.push(48);
        proof {
            assert(out@ =~= old(out)@ + Seq::new((j + 1) as nat, |k: int| 48u8));
        }
        j = j + 1;
    }
    let mut rest = digits;
    out.append(&mut rest);
    proof {
        if dec_rep(n as nat).len() < 8 {
            assert(out@ =~= old(out)@ + pad8(n as nat));
        } else {
            assert(Seq::new(0, |k: int| 48u8) =~= Seq::<u8>::empty());
            assert(out@ =~= old(out)@ + pad8(n as nat));
        }
    }
}

/// The base name of the chunk with 1-based index `n`, as a string.
pub fn chunk_name(n: usize) -> (r: String)
    ensures
        encode_utf8(r@) == chunk_name_bytes(n as nat),
{
    let mut b: Vec<u8> = Vec::new();
    b.push(99);
    b.push(104);
    b.push(117);
    b.push(110);
    b.push(107);
    b.push(46);
    push_pad8(&mut b, n);
    proof {
        assert(b@ =~= chunk_name_bytes(n as nat));
        lemma_chunk_name_ascii(n as nat);
    }
    ascii_to_string(b)
}

/// A structurally sound manifest: the chunk table has exactly `chunk_count`
/// entries, every textual field holds UTF-8, a manifest without chunks
/// counts as uncompressed, and without compression every artifact carries
/// its sequence-formatted name.
pub open spec fn manifest_wf(m: ManifestView) -> bool {
    &&& 0 <= m.file_size <= usize::MAX
    &&& 1 <= m.chunk_size <= usize::MAX
    &&& 0 <= m.chunk_count <= usize::MAX
    &&& m.list.len() == m.chunk_count
    &&& valid_utf8(m.info_file)
    &&& valid_utf8(m.file_name)
    &&& valid_utf8(m.file_hash)
    &&& forall|i: int|
        0 <= i < m.list.len() ==> valid_utf8((#[trigger] m.list[i]).0) && valid_utf8(m.list[i].1)
    &&& m.chunk_count == 0 ==> !m.compressed
    &&& !m.compressed ==> forall|i: int|
        0 <= i < m.list.len() ==> (#[trigger] m.list[i]).1 == chunk_name_bytes((i + 1) as nat)
}

/// The textual fields of a manifest's view hold UTF-8 by construction.
pub proof fn lemma_view_fields_utf8(m: FileChunkSplitResult)
    ensures
        valid_utf8(m@.info_file),
        valid_utf8(m@.file_name),
        valid_utf8(m@.file_hash),
        forall|i: int|
            0 <= i < m@.list.len() ==> valid_utf8((#[trigger] m@.list[i]).0) && valid_utf8(
                m@.list[i].1,
            ),
{
    encode_utf8_valid_utf8(m.info_file@);
    encode_utf8_valid_utf8(m.file_name@);
    encode_utf8_valid_utf8(m.file_hash@);
    assert forall|i: int| 0 <= i < m@.list.len() implies valid_utf8((#[trigger] m@.list[i]).0)
        && valid_utf8(m@.list[i].1) by {
        encode_utf8_valid_utf8(m.list@[i].0@);
        encode_utf8_valid_utf8(m.list@[i].1@);
    }
}
/// The content of a freshly reset manifest.
pub open spec fn empty_manifest_view() -> ManifestView {
    ManifestView {
        info_file: Seq::empty(),
        file_name: Seq::empty(),
        file_hash: Seq::empty(),
        file_size: 0,
        chunk_size: 0,
        chunk_count: 0,
        compressed: false,
        list: Seq::empty(),
    }
}

/// A manifest with no content.
pub fn empty_result() -> (r: FileChunkSplitResult)
    ensures
        r@ == empty_manifest_view(),
{
    let r = FileChunkSplitResult {
        info_file: String::new(),
        file_name: String::new(),
        file_hash: String::new(),
        file_size: 0,
        chunk_size: 0,
        chunk_count: 0,
        compressed: false,
        list: Vec::new(),
    };
    proof {
        assert(encode_utf8(Seq::<char>::empty()) =~= Seq::<u8>::empty());
        assert(r@.list =~= Seq::<(Seq<u8>, Seq<u8>)>::empty());
        assert(r@ =~= empty_manifest_view());
    }
    r
}

/// A copy of a manifest with the same content.
pub fn clone_manifest(m: &FileChunkSplitResult) -> (r: FileChunkSplitResult)
    ensures
        r@ == m@,
{
    let mut list: Vec<(String, String)> = Vec::new();
    let mut i: usize = 0;
    while i < m.list.len()
        invariant
            i <= m.list@.len(),
            list@.len() == i,
            forall|k: int|
                0 <= k < i ==> (#[trigger] list@[k]).0@ == m.list@[k].0@ && list@[k].1@
                    == m.list@[k].1@,
        decreases m.list@.len() - i,
    {
        list.push((m.list[i].0.clone(), m.list[i].1.clone()));
        i = i + 1;
    }
    let r = FileChunkSplitResult {
        info_file: m.info_file.clone(),
        file_name: m.file_name.clone(),
        file_hash: m.file_hash.clone(),
        file_size: m.file_size,
        chunk_size: m.chunk_size,
        chunk_count: m.chunk_count,
        compressed: m.compressed,
        list,
    };
    proof {
        assert(r@.list =~= m@.list);
        assert(r@ =~= m@);
    }
    r
}

} // verus!
