//! The splitter and its configuration: cutting an assigned source into
//! fingerprinted chunk artifacts and the manifest that describes them.

use crate::archive::zip_bytes;
use crate::chunks::{chunk_windows, lemma_windows_count, split_payloads, views_of};
use crate::digest::{digest_hex, digest_of};
use crate::json::render_manifest_bytes;
use crate::manifest::{
    chunk_name, chunk_name_bytes, clone_manifest, empty_manifest_view, empty_result,
    lemma_view_fields_utf8, manifest_wf, ChunkError, FileChunkSplitResult,
};
use crate::merge::{
    art_views, artifact_ok, check_output, lemma_round_trip, manifest_src, merge_result,
    reconstruct_payload, table_ok, verify_chunks,
};
use vstd::prelude::*;
use vstd::string::{StrSliceExecFns, StringExecFns};
use vstd::utf8::encode_utf8;

verus! {

/// The two named storage-root presets.  Resolving either to a concrete
/// directory is the caller's concern.
#[derive(Clone, Copy, Debug, PartialEq, Eq, Structural)]
pub enum DefaultStoragePath {
    /// A `storages` folder derived from the running program's location.
    ExePath,
    /// The platform's temporary directory.
    TempPath,
}

/// The unit in which a chunk size is given.
#[derive(Clone, Copy, Debug, PartialEq, Eq, Structural)]
pub enum FileChunkType {
    Byte,
    KiloByte,
    MegaByte,
}

/// Bytes per unit.
pub open spec fn scale_of(t: FileChunkType) -> nat {
    match t {
        FileChunkType::Byte => 1,
        FileChunkType::KiloByte => 1024,
        FileChunkType::MegaByte => 1048576,
    }
}

/// The effective chunk size that a configuration asks for.
pub open spec fn effective_of(chunk_size: u128, t: FileChunkType) -> nat {
    chunk_size as nat * scale_of(t)
}

/// The effective chunk size after the minimum-threshold clamp: a request
/// below 16 KiB is silently overridden to the 64 KiB default.
pub open spec fn clamp_size(chunk_size: u128, t: FileChunkType) -> nat {
    if effective_of(chunk_size, t) < 16384 {
        65536
    } else {
        effective_of(chunk_size, t)
    }
}

/// A split configuration bound to one assigned source file.
#[derive(Clone, Debug)]
pub struct FileChunk {
    /// Whether the assigned path named an existing file.
    pub is_exist: bool,
    /// The assigned path.
    pub file_name: String,
    /// Size of the assigned file in bytes.
    pub file_size: u128,
    /// Fingerprint of the assigned file's content.
    pub file_hash: String,
    /// Requested chunk size, in units of `chunk_type`.
    pub chunk_size: u128,
    /// The unit of `chunk_size`.
    pub chunk_type: FileChunkType,
    /// The storage root under which the chunk directory is created.
    pub storage_path: String,
    /// Whether artifacts are wrapped in single-entry archives.
    pub compress_active: bool,
    /// The manifest of the last successful split.
    pub result_obj: FileChunkSplitResult,
    /// The artifact file names of the last successful split.
    pub result_list: Vec<String>,
}

/// Everything a split produces, ready to be persisted: the chunk directory
/// name, the artifact bytes in index order, the manifest, and the manifest
/// artifact under its own name.
pub struct SplitOutput {
    /// Directory name under the storage root: the source fingerprint.
    pub chunk_dir: String,
    /// The stored form of each chunk, in index order.  The on-disk name of
    /// entry `i` is the recorded base name in the manifest's table, with a
    /// `.zip` extension added when compression is active.
    pub artifacts: Vec<Vec<u8>>,
    /// The manifest describing the artifacts.
    pub manifest: FileChunkSplitResult,
    /// The file name of the manifest artifact.
    pub manifest_name: String,
    /// The bytes of the manifest artifact: the canonical text, or the
    /// archive wrapping it when compression is active.
    pub manifest_bytes: Vec<u8>,
}

/// The part of a path after its last separator.
pub open spec fn base_name_of(s: Seq<char>) -> Seq<char>
    decreases s.len(),
{
    if s.len() == 0 {
        s
    } else if s.last() == '/' || s.last() == '\\' {
        Seq::empty()
    } else {
        base_name_of(s.drop_last()).push(s.last())
    }
}

proof fn lemma_base_name_subrange(s: Seq<char>, k: int)
    requires
        0 <= k <= s.len(),
        k == 0 || s[k - 1] == '/' || s[k - 1] == '\\',
        forall|j: int| k <= j < s.len() ==> s[j] != '/' && s[j] != '\\',
    ensures
        base_name_of(s) == s.subrange(k, s.len() as int),
    decreases s.len(),
{
    if s.len() == 0 {
        assert(s.subrange(0, 0) =~= s);
    } else if s.last() == '/' || s.last() == '\\' {
        assert(k == s.len());
        assert(s.subrange(k, s.len() as int) =~= Seq::<char>::empty());
    } else {
        assert(k < s.len());
        let d = s.drop_last();
        assert(k == 0 || d[k - 1] == '/' || d[k - 1] == '\\');
        lemma_base_name_subrange(d, k);
        assert(d.subrange(k, d.len() as int) =~= s.subrange(k, s.len() - 1));
        assert(s.subrange(k, s.len() - 1).push(s.last()) =~= s.subrange(k, s.len() as int));
    }
}

/// The base name of a path: what follows the last path separator.
pub fn base_name(s: &str) -> (r: String)
    ensures
        r@ == base_name_of(s@),
{
    let n = s.unicode_len();
    let mut k: usize = 0;
    let mut i: usize = 0;
    while i < n
        invariant
            i <= n,
            n == s@.len(),
            k <= i,
            k == 0 || s@[k - 1] == '/' || s@[k - 1] == '\\',
            forall|j: int| k <= j < i ==> s@[j] != '/' && s@[j] != '\\',
        decreases n - i,
    {
        let c = s.get_char(i);
        if c == '/' || c == '\\' {
            k = i + 1;
        }
        i = i + 1;
    }
    let tail = s.substring_char(k, n);
    proof {
        lemma_base_name_subrange(s@, k as int);
    }
    tail.to_owned()
}

impl FileChunk {
    /// A fresh configuration: no file assigned, 256 KiB chunks, no storage
    /// root, compression off.
    pub fn new() -> (r: Self)
        ensures
            !r.is_exist,
            r.file_name@ == Seq::<char>::empty(),
            r.file_size == 0,
            r.file_hash@ == Seq::<char>::empty(),
            r.chunk_size == 256,
            r.chunk_type == FileChunkType::KiloByte,
            r.storage_path@ == Seq::<char>::empty(),
            !r.compress_active,
            r.result_obj@ == empty_manifest_view(),
            r.result_list@.len() == 0,
    {
        FileChunk {
            is_exist: false,
            file_name: String::new(),
            file_size: 0,
            file_hash: String::new(),
            chunk_size: 256,
            chunk_type: FileChunkType::KiloByte,
            storage_path: String::new(),
            compress_active: false,
            result_obj: empty_result(),
            result_list: Vec::new(),
        }
    }

    /// Turns archive-wrapping of artifacts on or off.
    pub fn set_compress(&mut self, active: bool)
        ensures
            final(self).compress_active == active,
            *final(self) == (FileChunk { compress_active: active, ..*old(self) }),
    {
        self.compress_active = active;
    }

    /// Sets the requested chunk size and its unit.
    pub fn set_size(&mut self, chunk_size: u128, chunk_type: FileChunkType)
        ensures
            *final(self) == (FileChunk { chunk_size, chunk_type, ..*old(self) }),
    {
        self.chunk_size = chunk_size;
        self.chunk_type = chunk_type;
    }

    /// Sets the storage root to a caller-supplied path.  Creating the
    /// directory is the caller's concern.
    pub fn set_storage_path_with_string(&mut self, storage_path: &str)
        ensures
            final(self).storage_path@ == storage_path@,
            *final(self) == (FileChunk { storage_path: final(self).storage_path, ..*old(self) }),
    {
        self.storage_path = storage_path.to_owned();
    }

    /// Binds the configuration to a source file: its path, its size, and
    /// the fingerprint of its content, computed once here.  `None` stands
    /// for a path that named no file; the assignment then resets the
    /// source fields and the size configuration.
    pub fn assign_file(&mut self, file_path: &str, content: Option<&Vec<u8>>)
        ensures
            match content {
                Some(c) => {
                    &&& final(self).is_exist
                    &&& final(self).file_name@ == file_path@
                    &&& final(self).file_size == c@.len()
                    &&& encode_utf8(final(self).file_hash@) == digest_of(c@)
                    &&& final(self).chunk_size == old(self).chunk_size
                    &&& final(self).chunk_type == old(self).chunk_type
                },
                None => {
                    &&& !final(self).is_exist
                    &&& final(self).file_name@ == Seq::<char>::empty()
                    &&& final(self).file_size == 0
                    &&& final(self).file_hash@ == Seq::<char>::empty()
                    &&& final(self).chunk_size == 256
                    &&& final(self).chunk_type == FileChunkType::KiloByte
                },
            },
            final(self).storage_path == old(self).storage_path,
            final(self).compress_active == old(self).compress_active,
            final(self).result_obj == old(self).result_obj,
            final(self).result_list == old(self).result_list,
    {
        match content {
            Some(c) => {
                self.is_exist = true;
                self.file_name = file_path.to_owned();
                self.file_size = c.len() as u128;
                self.file_hash = digest_hex(c);
            },
            None => {
                self.is_exist = false;
                self.file_hash = String::new();
                self.file_size = 0;
                self.file_name = String::new();
                self.chunk_size = 256;
                self.chunk_type = FileChunkType::KiloByte;
            },
        }
    }

    /// The manifest of the last successful split.
    pub fn result(&self) -> (r: FileChunkSplitResult)
        ensures
            r@ == self.result_obj@,
    {
        clone_manifest(&self.result_obj)
    }

    /// The effective chunk size in bytes that the configuration asks for.
    fn chunk_size(&self) -> (r: u128)
        requires
            effective_of(self.chunk_size, self.chunk_type) <= u128::MAX,
        ensures
            r == effective_of(self.chunk_size, self.chunk_type),
    {
        match self.chunk_type {
            FileChunkType::Byte => self.chunk_size,
            FileChunkType::KiloByte => self.chunk_size * 1024,
            FileChunkType::MegaByte => self.chunk_size * 1024 * 1024,
        }
    }
}


impl FileChunk {
    /// Splits the given content — the bytes of the assigned file — into
    /// fingerprinted artifacts and the manifest describing them.  Nothing
    /// is persisted here: the caller owns writing the returned artifacts
    /// and the manifest, and deleting the chunk directory on a failure.
    ///
    /// A size request below the minimum threshold is silently clamped, and
    /// the configuration keeps the clamped value.  Without compression the
    /// split cannot fail; with it, a failing archive encoder surfaces as an
    /// I/O error, and the configuration's result fields stay reset.
    ///
    /// When the content is the assigned file's bytes — those whose
    /// fingerprint `assign_file` recorded — merging the returned manifest
    /// with the returned artifacts restores the content exactly.
    #[verifier::rlimit(100)]
    #[verifier::loop_isolation(false)]
    pub fn split(&mut self, content: &Vec<u8>) -> (r: Result<SplitOutput, ChunkError>)
        requires
            effective_of(old(self).chunk_size, old(self).chunk_type) <= usize::MAX,
            old(self).file_size <= usize::MAX,
        ensures
            final(self).is_exist == old(self).is_exist,
            final(self).file_name == old(self).file_name,
            final(self).file_size == old(self).file_size,
            final(self).file_hash == old(self).file_hash,
            final(self).storage_path == old(self).storage_path,
            final(self).compress_active == old(self).compress_active,
            if effective_of(old(self).chunk_size, old(self).chunk_type) < 16384 {
                final(self).chunk_size == 64 && final(self).chunk_type == FileChunkType::KiloByte
            } else {
                final(self).chunk_size == old(self).chunk_size && final(self).chunk_type == old(
                    self,
                ).chunk_type
            },
            !old(self).compress_active ==> r is Ok,
            match r {
                Ok(out) => {
                    let size = clamp_size(old(self).chunk_size, old(self).chunk_type);
                    let windows = chunk_windows(content@, size);
                    &&& manifest_wf(out.manifest@)
                    &&& out.manifest@.file_name == encode_utf8(base_name_of(old(self).file_name@))
                    &&& out.manifest@.file_hash == encode_utf8(old(self).file_hash@)
                    &&& out.manifest@.file_size == old(self).file_size as int
                    &&& out.manifest@.chunk_size == size as int
                    &&& out.manifest@.chunk_count == windows.len()
                    &&& out.manifest@.compressed == (old(self).compress_active && content@.len()
                        > 0)
                    &&& table_ok(
                        out.manifest@.compressed,
                        windows,
                        views_of(out.artifacts@),
                        out.manifest@.list,
                    )
                    &&& out.chunk_dir@ == old(self).file_hash@
                    &&& manifest_src(out.manifest_bytes@, old(self).compress_active) == Some(
                        out.manifest@,
                    )
                    &&& (old(self).compress_active ==> out.manifest_name@ == old(self).file_hash@
                        + ".zip"@)
                    &&& (!old(self).compress_active ==> out.manifest_name@ == "info.json"@)
                    &&& final(self).result_obj@ == out.manifest@
                    &&& final(self).result_list@.len() == out.artifacts@.len()
                    &&& (forall|i: int|
                        0 <= i < out.artifacts@.len() ==> encode_utf8(
                            (#[trigger] final(self).result_list@[i])@,
                        ) == chunk_name_bytes((i + 1) as nat) + (if out.manifest@.compressed {
                            encode_utf8(".zip"@)
                        } else {
                            Seq::<u8>::empty()
                        }))
                    &&& (encode_utf8(old(self).file_hash@) == digest_of(content@) ==> merge_result(
                        out.manifest@,
                        views_of(out.artifacts@).map_values(|b: Seq<u8>| Some(b)),
                    ) == Ok::<Seq<u8>, ChunkError>(content@))
                },
                Err(e) => {
                    &&& e == ChunkError::IoError
                    &&& old(self).compress_active
                    &&& final(self).result_list@.len() == 0
                    &&& final(self).result_obj@ == empty_manifest_view()
                },
            },
    {
        self.result_list.clear();
        self.result_obj = empty_result();
        let cur: u128 = self.chunk_size();
        if cur < 16384 {
            self.chunk_type = FileChunkType::KiloByte;
            self.chunk_size = 64;
        }
        let eff: u128 = if cur < 16384 {
            65536
        } else {
            cur
        };
        proof {
            assert(eff == clamp_size(old(self).chunk_size, old(self).chunk_type));
            assert(eff <= usize::MAX);
        }
        let size: usize = eff as usize;
        let ghost sz = size as nat;
        let ghost windows_s = chunk_windows(content@, sz);
        let windows = split_payloads(content, size);
        let compressed = self.compress_active && content.len() > 0;
        let mut artifacts: Vec<Vec<u8>> = Vec::new();
        let mut table: Vec<(String, String)> = Vec::new();
        let mut names: Vec<String> = Vec::new();
        let mut i: usize = 0;
        while i < windows.len()
            invariant
                i <= windows@.len(),
                artifacts@.len() == i,
                table@.len() == i,
                names@.len() == i,
                forall|k: int|
                    0 <= k < i ==> artifact_ok(
                        compressed,
                        windows_s[k],
                        views_of(artifacts@)[k],
                    ),
                forall|k: int|
                    0 <= k < i ==> encode_utf8((#[trigger] table@[k]).0@) == digest_of(
                        views_of(artifacts@)[k],
                    ) && encode_utf8(table@[k].1@) == chunk_name_bytes((k + 1) as nat),
                forall|k: int|
                    0 <= k < i ==> encode_utf8((#[trigger] names@[k])@) == chunk_name_bytes(
                        (k + 1) as nat,
                    ) + (if compressed {
                        encode_utf8(".zip"@)
                    } else {
                        Seq::<u8>::empty()
                    }),
            decreases windows@.len() - i,
        {
            let art: Vec<u8> = if compressed {
                match zip_bytes(&windows[i]) {
                    Some(z) => z,
                    None => {
                        return Err(ChunkError::IoError);
                    },
                }
            } else {
                let w = windows[i].clone();
                proof {
                    assert(w@ =~= windows@[i as int]@);
                }
                w
            };
            let h = digest_hex(&art);
            let nm = chunk_name(i + 1);
            let full = if compressed {
                let f = nm.clone().concat(".zip");
                proof {
                    crate::text::lemma_encode_utf8_concat(nm@, ".zip"@);
                }
                f
            } else {
                nm.clone()
            };
            proof {
                assert(views_of(artifacts@.push(art)) =~= views_of(artifacts@).push(art@));
                assert(windows_s[i as int] == windows@[i as int]@);
            }
            artifacts.push(art);
            table.push((h, nm));
            names.push(full);
            i = i + 1;
        }
        let fname = base_name(self.file_name.as_str());
        let info = if !self.storage_path.as_str().is_empty() {
            self.storage_path.clone().concat("/").concat(self.file_hash.as_str()).concat(
                "/info.json",
            )
        } else {
            self.file_hash.clone().concat("/info.json")
        };
        let fhash = self.file_hash.clone();
        let fsize: usize = self.file_size as usize;
        let manifest = FileChunkSplitResult {
            info_file: info,
            file_name: fname,
            file_hash: fhash,
            file_size: fsize,
            chunk_size: size,
            chunk_count: artifacts.len(),
            compressed,
            list: table,
        };
        proof {
            lemma_view_fields_utf8(manifest);
            lemma_windows_count(content@, sz);
            assert(manifest@.list =~= manifest.list@.map_values(
                |p: (String, String)| (encode_utf8(p.0@), encode_utf8(p.1@)),
            ));
            assert forall|k: int| 0 <= k < manifest@.list.len() implies (
            #[trigger] manifest@.list[k]).0 == digest_of(views_of(artifacts@)[k])
                && manifest@.list[k].1 == chunk_name_bytes((k + 1) as nat) by {
                assert(manifest@.list[k] == (
                    encode_utf8(manifest.list@[k].0@),
                    encode_utf8(manifest.list@[k].1@),
                ));
            }
            assert(manifest_wf(manifest@));
            assert(table_ok(compressed, windows_s, views_of(artifacts@), manifest@.list));
        }
        let mjson = render_manifest_bytes(&manifest);
        proof {
            crate::json::lemma_parse_render(manifest@);
        }
        let (manifest_name, manifest_bytes): (String, Vec<u8>) = if self.compress_active {
            let z = match zip_bytes(&mjson) {
                Some(z) => z,
                None => {
                    return Err(ChunkError::IoError);
                },
            };
            let mn = self.file_hash.clone().concat(".zip");
            (mn, z)
        } else {
            ("info.json".to_owned(), mjson)
        };
        self.result_obj = clone_manifest(&manifest);
        self.result_list = names;
        proof {
            if encode_utf8(old(self).file_hash@) == digest_of(content@) {
                lemma_round_trip(manifest@, content@, sz, views_of(artifacts@));
            }
        }
        Ok(
            SplitOutput {
                chunk_dir: self.file_hash.clone(),
                artifacts,
                manifest,
                manifest_name,
                manifest_bytes,
            },
        )
    }

    /// Merges chunk artifacts against a manifest: the verify-before-write
    /// pass, the reconstruction pass, and the final whole-file fingerprint
    /// check, yielding the reconstructed byte stream.  `arts` holds, per
    /// chunk table row, the stored artifact's bytes as found on disk, or
    /// `None` where the artifact is missing.
    pub fn merge(&self, m: &FileChunkSplitResult, arts: &Vec<Option<Vec<u8>>>) -> (r: Result<
        Vec<u8>,
        ChunkError,
    >)
        requires
            arts@.len() == m@.list.len(),
        ensures
            match r {
                Ok(out) => merge_result(m@, art_views(arts@)) == Ok::<Seq<u8>, ChunkError>(out@),
                Err(e) => merge_result(m@, art_views(arts@)) == Err::<Seq<u8>, ChunkError>(e),
            },
    {
        match verify_chunks(m, arts) {
            Err(e) => {
                return Err(e);
            },
            Ok(_) => {},
        }
        let out = match reconstruct_payload(m, arts) {
            Err(e) => {
                return Err(e);
            },
            Ok(o) => o,
        };
        if !check_output(m, &out) {
            return Err(ChunkError::IntegrityError);
        }
        Ok(out)
    }
}

} // verus!
