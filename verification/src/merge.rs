//! The merger: verify every chunk against its recorded fingerprint, then
//! reassemble the original byte stream and confirm its fingerprint.

use crate::archive::{unzip_bytes, unzip_of};
use crate::chunks::{chunk_windows, lemma_windows_flatten};
use crate::json::{parse_manifest_at, parse_manifest_bytes};
use crate::manifest::chunk_name_bytes;
use crate::digest::{digest_hex, digest_of, text_eq};
use crate::manifest::{ChunkError, FileChunkSplitResult, ManifestView};
use vstd::prelude::*;

verus! {

/// The artifact bytes handed to the merger, one entry per chunk table row,
/// `None` where the artifact is missing on disk.
pub open spec fn art_views(arts: Seq<Option<Vec<u8>>>) -> Seq<Option<Seq<u8>>> {
    arts.map_values(
        |o: Option<Vec<u8>>|
            match o {
                Some(v) => Some(v@),
                None => None,
            },
    )
}

/// The chunk with table row `i` is present and carries exactly its recorded
/// fingerprint.
pub open spec fn chunk_ok(m: ManifestView, i: int, a: Option<Seq<u8>>) -> bool {
    match a {
        Some(b) => m.list[i].0 == digest_of(b),
        None => false,
    }
}

/// The raw payload held by a stored artifact: the artifact itself, or what
/// its archive wraps.
pub open spec fn payload_of(compressed: bool, art: Seq<u8>) -> Option<Seq<u8>> {
    if compressed {
        unzip_of(art)
    } else {
        Some(art)
    }
}

/// The concatenation of the payloads of the given artifacts, in order.
pub open spec fn cat_payloads(compressed: bool, arts: Seq<Option<Seq<u8>>>) -> Seq<u8>
    decreases arts.len(),
{
    if arts.len() == 0 {
        Seq::empty()
    } else {
        payload_of(compressed, arts[0].unwrap()).unwrap() + cat_payloads(
            compressed,
            arts.drop_first(),
        )
    }
}

pub proof fn lemma_cat_payloads_snoc(compressed: bool, arts: Seq<Option<Seq<u8>>>, a: Option<
    Seq<u8>,
>)
    ensures
        cat_payloads(compressed, arts.push(a)) == cat_payloads(compressed, arts) + payload_of(
            compressed,
            a.unwrap(),
        ).unwrap(),
    decreases arts.len(),
{
    if arts.len() == 0 {
        assert(arts.push(a).drop_first() =~= Seq::<Option<Seq<u8>>>::empty());
        assert(arts.push(a)[0] == a);
        assert(cat_payloads(compressed, Seq::<Option<Seq<u8>>>::empty()) == Seq::<u8>::empty());
        assert(cat_payloads(compressed, arts.push(a)) =~= cat_payloads(compressed, arts)
            + payload_of(compressed, a.unwrap()).unwrap());
    } else {
        lemma_cat_payloads_snoc(compressed, arts.drop_first(), a);
        assert(arts.push(a).drop_first() =~= arts.drop_first().push(a));
        assert(arts.push(a)[0] == arts[0]);
        assert(cat_payloads(compressed, arts.push(a)) =~= cat_payloads(compressed, arts)
            + payload_of(compressed, a.unwrap()).unwrap());
    }
}

/// What merging yields, as a function of the manifest and the artifact
/// bytes: the verify-before-write pass rejects a missing artifact or a
/// fingerprint mismatch before any output exists; an artifact that cannot
/// yield its payload is malformed; and the reassembled stream is returned
/// only with its whole-file fingerprint confirmed.
pub open spec fn merge_result(m: ManifestView, arts: Seq<Option<Seq<u8>>>) -> Result<
    Seq<u8>,
    ChunkError,
> {
    if !(forall|i: int| 0 <= i < arts.len() ==> chunk_ok(m, i, #[trigger] arts[i])) {
        Err(ChunkError::IntegrityError)
    } else if !(forall|i: int|
        0 <= i < arts.len() ==> payload_of(m.compressed, (#[trigger] arts[i]).unwrap()) is Some) {
        Err(ChunkError::FormatError)
    } else if digest_of(cat_payloads(m.compressed, arts)) != m.file_hash {
        Err(ChunkError::IntegrityError)
    } else {
        Ok(cat_payloads(m.compressed, arts))
    }
}

/// The verify-before-write pass: every artifact present, every fingerprint
/// equal to the freshly computed one.
pub fn verify_chunks(m: &FileChunkSplitResult, arts: &Vec<Option<Vec<u8>>>) -> (r: Result<
    (),
    ChunkError,
>)
    requires
        arts@.len() == m@.list.len(),
    ensures
        match r {
            Ok(_) => forall|i: int|
                0 <= i < art_views(arts@).len() ==> chunk_ok(m@, i, #[trigger] art_views(arts@)[i]),
            Err(e) => e == ChunkError::IntegrityError && !(forall|i: int|
                0 <= i < art_views(arts@).len() ==> chunk_ok(
                    m@,
                    i,
                    #[trigger] art_views(arts@)[i],
                )),
        },
{
    let ghost av = art_views(arts@);
    let mut i: usize = 0;
    while i < arts.len()
        invariant
            i <= arts@.len(),
            arts@.len() == m@.list.len(),
            av == art_views(arts@),
            forall|k: int| 0 <= k < i ==> chunk_ok(m@, k, #[trigger] av[k]),
        decreases arts@.len() - i,
    {
        match &arts[i] {
            None => {
                proof {
                    assert(av[i as int] is None);
                    assert(!chunk_ok(m@, i as int, av[i as int]));
                }
                return Err(ChunkError::IntegrityError);
            },
            Some(bytes) => {
                let computed = digest_hex(bytes);
                let recorded = &m.list[i].0;
                if !text_eq(recorded, &computed) {
                    proof {
                        assert(av[i as int] == Some(bytes@));
                        assert(!chunk_ok(m@, i as int, av[i as int]));
                    }
                    return Err(ChunkError::IntegrityError);
                }
                proof {
                    assert(m@.list[i as int].0 == digest_of(bytes@));
                    assert(chunk_ok(m@, i as int, av[i as int]));
                }
            },
        }
        i = i + 1;
    }
    Ok(())
}

/// The reconstruction pass: obtain each chunk's raw payload, decompressing
/// first where the manifest says the artifacts are archives, and append the
/// payloads in index order.
pub fn reconstruct_payload(m: &FileChunkSplitResult, arts: &Vec<Option<Vec<u8>>>) -> (r: Result<
    Vec<u8>,
    ChunkError,
>)
    requires
        arts@.len() == m@.list.len(),
        forall|i: int|
            0 <= i < art_views(arts@).len() ==> chunk_ok(m@, i, #[trigger] art_views(arts@)[i]),
    ensures
        match r {
            Ok(out) => out@ == cat_payloads(m@.compressed, art_views(arts@)) && forall|i: int|
                0 <= i < art_views(arts@).len() ==> payload_of(
                    m@.compressed,
                    (#[trigger] art_views(arts@)[i]).unwrap(),
                ) is Some,
            Err(e) => e == ChunkError::FormatError && !(forall|i: int|
                0 <= i < art_views(arts@).len() ==> payload_of(
                    m@.compressed,
                    (#[trigger] art_views(arts@)[i]).unwrap(),
                ) is Some),
        },
{
    let ghost av = art_views(arts@);
    let mut out: Vec<u8> = Vec::new();
    let mut i: usize = 0;
    proof {
        assert(av.take(0) =~= Seq::<Option<Seq<u8>>>::empty());
    }
    while i < arts.len()
        invariant
            i <= arts@.len(),
            arts@.len() == m@.list.len(),
            av == art_views(arts@),
            forall|k: int| 0 <= k < av.len() ==> chunk_ok(m@, k, #[trigger] av[k]),
            forall|k: int|
                0 <= k < i ==> payload_of(m@.compressed, (#[trigger] av[k]).unwrap()) is Some,
            out@ == cat_payloads(m@.compressed, av.take(i as int)),
        decreases arts@.len() - i,
    {
        let bytes = match &arts[i] {
            Some(b) => b,
            None => {
                proof {
                    assert(chunk_ok(m@, i as int, av[i as int]));
                }
                return Err(ChunkError::FormatError);
            },
        };
        proof {
            assert(av[i as int] == Some(bytes@));
        }
        let payload: Vec<u8> = if m.compressed {
            match unzip_bytes(bytes) {
                Some(p) => p,
                None => {
                    proof {
                        assert(payload_of(m@.compressed, av[i as int].unwrap()) is None);
                    }
                    return Err(ChunkError::FormatError);
                },
            }
        } else {
            bytes.clone()
        };
        proof {
            assert(payload_of(m@.compressed, av[i as int].unwrap()) == Some(payload@));
            lemma_cat_payloads_snoc(m@.compressed, av.take(i as int), av[i as int]);
            assert(av.take(i + 1) =~= av.take(i as int).push(av[i as int]));
        }
        let mut tail = payload;
        out.append(&mut tail);
        i = i + 1;
    }
    proof {
        assert(av.take(av.len() as int) =~= av);
    }
    Ok(out)
}

/// The final whole-file check: the fingerprint of the reconstructed stream
/// against the manifest's recorded source fingerprint.
pub fn check_output(m: &FileChunkSplitResult, out: &Vec<u8>) -> (r: bool)
    ensures
        r == (digest_of(out@) == m@.file_hash),
{
    let computed = digest_hex(out);
    text_eq(&m.file_hash, &computed)
}

/// A missing artifact is caught by the verify-before-write pass: merging
/// reports the integrity failure and yields no output.
pub proof fn lemma_missing_chunk(m: ManifestView, arts: Seq<Option<Seq<u8>>>, i: int)
    requires
        0 <= i < arts.len(),
        arts[i] is None,
    ensures
        merge_result(m, arts) == Err::<Seq<u8>, ChunkError>(ChunkError::IntegrityError),
{
    assert(!chunk_ok(m, i, arts[i]));
}

/// A tampered artifact is caught by the verify-before-write pass: whenever
/// the stored bytes no longer carry the recorded fingerprint, merging
/// reports the integrity failure and yields no output.
pub proof fn lemma_tamper_detection(m: ManifestView, arts: Seq<Option<Seq<u8>>>, i: int)
    requires
        0 <= i < arts.len(),
    ensures
        (match arts[i] {
            Some(b) => m.list[i].0 != digest_of(b),
            None => true,
        }) ==> merge_result(m, arts) == Err::<Seq<u8>, ChunkError>(ChunkError::IntegrityError),
{
    if match arts[i] {
        Some(b) => m.list[i].0 != digest_of(b),
        None => true,
    } {
        assert(!chunk_ok(m, i, arts[i]));
    }
}


/// What a manifest handle denotes: the manifest read from the bytes
/// themselves, or from the single entry of the archive wrapping them.
pub open spec fn manifest_src(b: Seq<u8>, wrapped: bool) -> Option<ManifestView> {
    if wrapped {
        match unzip_of(b) {
            Some(j) => parse_manifest_at(j),
            None => None,
        }
    } else {
        parse_manifest_at(b)
    }
}

/// Reads a manifest from its handle: the manifest file's bytes, or the
/// archive wrapping them when `wrapped` is set.
pub fn read_manifest(handle: &Vec<u8>, wrapped: bool) -> (r: Result<FileChunkSplitResult, ChunkError>)
    ensures
        match r {
            Ok(m) => manifest_src(handle@, wrapped) == Some(m@),
            Err(e) => e == ChunkError::FormatError && manifest_src(handle@, wrapped) is None,
        },
{
    if wrapped {
        match unzip_bytes(handle) {
            None => Err(ChunkError::FormatError),
            Some(j) => match parse_manifest_bytes(&j) {
                Some(m) => Ok(m),
                None => Err(ChunkError::FormatError),
            },
        }
    } else {
        match parse_manifest_bytes(handle) {
            Some(m) => Ok(m),
            None => Err(ChunkError::FormatError),
        }
    }
}

/// A stored artifact carries the chunk window it was made from: the window
/// itself, or an archive wrapping it.
pub open spec fn artifact_ok(compressed: bool, window: Seq<u8>, art: Seq<u8>) -> bool {
    if compressed {
        unzip_of(art) == Some(window)
    } else {
        art == window
    }
}

/// The splitter's obligation on its chunk table: one artifact per window,
/// each holding its window, fingerprinted exactly as stored, and named by
/// its sequence-formatted index.
pub open spec fn table_ok(
    compressed: bool,
    windows: Seq<Seq<u8>>,
    arts: Seq<Seq<u8>>,
    table: Seq<(Seq<u8>, Seq<u8>)>,
) -> bool {
    &&& arts.len() == windows.len()
    &&& table.len() == windows.len()
    &&& forall|i: int|
        0 <= i < windows.len() ==> artifact_ok(compressed, windows[i], #[trigger] arts[i])
    &&& forall|i: int| 0 <= i < windows.len() ==> (#[trigger] table[i]).0 == digest_of(arts[i])
    &&& forall|i: int|
        0 <= i < windows.len() ==> (#[trigger] table[i]).1 == chunk_name_bytes((i + 1) as nat)
}

proof fn lemma_cat_is_flatten(compressed: bool, av: Seq<Option<Seq<u8>>>, windows: Seq<Seq<u8>>)
    requires
        av.len() == windows.len(),
        forall|i: int|
            0 <= i < av.len() ==> (#[trigger] av[i]) is Some && payload_of(
                compressed,
                av[i].unwrap(),
            ) == Some(windows[i]),
    ensures
        cat_payloads(compressed, av) == windows.flatten(),
    decreases av.len(),
{
    if av.len() == 0 {
        assert(windows.flatten() =~= Seq::<u8>::empty());
    } else {
        assert(av.drop_first().len() == windows.drop_first().len());
        assert forall|i: int| 0 <= i < av.drop_first().len() implies (#[trigger] av.drop_first()[i])
            is Some && payload_of(compressed, av.drop_first()[i].unwrap()) == Some(
            windows.drop_first()[i],
        ) by {
            assert(av.drop_first()[i] == av[i + 1]);
            assert(windows.drop_first()[i] == windows[i + 1]);
        }
        lemma_cat_is_flatten(compressed, av.drop_first(), windows.drop_first());
        assert(payload_of(compressed, av[0].unwrap()).unwrap() == windows[0]);
        assert(windows.flatten() == windows.first() + windows.drop_first().flatten());
    }
}

/// Round-trip identity: merging exactly what a split produced restores the
/// source content.  The manifest records the source fingerprint and one
/// table row per window; every artifact is present, holds its window, and
/// carries its recorded fingerprint; so the verify pass accepts, the
/// reconstruction concatenates the windows back into the content, and the
/// final whole-file check confirms it.
pub proof fn lemma_round_trip(
    m: ManifestView,
    content: Seq<u8>,
    size: nat,
    arts: Seq<Seq<u8>>,
)
    requires
        size >= 1,
        m.file_hash == digest_of(content),
        m.list.len() == chunk_windows(content, size).len(),
        table_ok(m.compressed, chunk_windows(content, size), arts, m.list),
    ensures
        merge_result(m, arts.map_values(|b: Seq<u8>| Some(b))) == Ok::<Seq<u8>, ChunkError>(
            content,
        ),
{
    let windows = chunk_windows(content, size);
    let av = arts.map_values(|b: Seq<u8>| Some(b));
    assert(av.len() == arts.len());
    assert forall|i: int| 0 <= i < av.len() implies chunk_ok(m, i, #[trigger] av[i]) by {
        assert(av[i] == Some(arts[i]));
        assert(m.list[i].0 == digest_of(arts[i]));
    }
    assert forall|i: int| 0 <= i < av.len() implies (#[trigger] av[i]) is Some && payload_of(
        m.compressed,
        av[i].unwrap(),
    ) == Some(windows[i]) by {
        assert(av[i] == Some(arts[i]));
        assert(artifact_ok(m.compressed, windows[i], arts[i]));
    }
    lemma_cat_is_flatten(m.compressed, av, windows);
    lemma_windows_flatten(content, size);
}


/// Empty source: zero-length content yields no windows at all, and merging
/// a manifest with an empty chunk table yields zero-length output exactly
/// when the recorded fingerprint is that of empty content.
pub proof fn lemma_empty_source(m: ManifestView, size: nat)
    ensures
        chunk_windows(Seq::<u8>::empty(), size).len() == 0,
        (m.list.len() == 0 && m.file_hash == digest_of(Seq::<u8>::empty()))
            ==> merge_result(m, Seq::<Option<Seq<u8>>>::empty()) == Ok::<Seq<u8>, ChunkError>(
            Seq::<u8>::empty(),
        ),
{
    assert(cat_payloads(m.compressed, Seq::<Option<Seq<u8>>>::empty()) == Seq::<u8>::empty());
}

} // verus!
