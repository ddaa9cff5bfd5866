use file_chunker::chunker::{FileChunk, FileChunkType};
use file_chunker::manifest::ChunkError;
use file_chunker::merge::read_manifest;

fn sample_content(len: usize) -> Vec<u8> {
    let mut v = Vec::with_capacity(len);
    let mut x: u32 = 0x12345678;
    for _ in 0..len {
        x = x.wrapping_mul(1664525).wrapping_add(1013904223);
        v.push((x >> 24) as u8);
    }
    v
}

fn present(artifacts: &[Vec<u8>]) -> Vec<Option<Vec<u8>>> {
    artifacts.iter().map(|a| Some(a.clone())).collect()
}

#[test]
fn roundtrip_uncompressed() {
    let content = sample_content(200_000);
    let mut fc = FileChunk::new();
    fc.set_storage_path_with_string("store");
    fc.assign_file("dir/sample.bin", Some(&content));
    assert!(fc.is_exist);
    fc.set_size(64, FileChunkType::KiloByte);
    let out = fc.split(&content).unwrap();
    assert_eq!(out.manifest.chunk_count, 4);
    assert_eq!(out.manifest.file_name, "sample.bin");
    assert!(!out.manifest.compressed);
    assert_eq!(out.manifest_name, "info.json");
    // artifacts are the raw windows in uncompressed mode
    assert_eq!(out.artifacts[0].len(), 65536);
    assert_eq!(out.artifacts[3].len(), 200_000 - 3 * 65536);
    assert_eq!(&out.artifacts[0][..], &content[..65536]);
    let merged = fc.merge(&out.manifest, &present(&out.artifacts)).unwrap();
    assert_eq!(merged, content);
}

#[test]
fn roundtrip_compressed() {
    let content = sample_content(100_000);
    let mut fc = FileChunk::new();
    fc.set_compress(true);
    fc.assign_file("sample.bin", Some(&content));
    fc.set_size(64, FileChunkType::KiloByte);
    let out = fc.split(&content).unwrap();
    assert_eq!(out.manifest.chunk_count, 2);
    assert!(out.manifest.compressed);
    assert_eq!(out.manifest_name, format!("{}.zip", fc.file_hash));
    // a stored artifact is an archive, not the raw window
    assert_ne!(&out.artifacts[0][..], &content[..65536]);
    let merged = fc.merge(&out.manifest, &present(&out.artifacts)).unwrap();
    assert_eq!(merged, content);
}

#[test]
fn compressed_artifact_is_single_entry_archive() {
    let content = sample_content(70_000);
    let mut fc = FileChunk::new();
    fc.set_compress(true);
    fc.assign_file("sample.bin", Some(&content));
    fc.set_size(64, FileChunkType::KiloByte);
    let out = fc.split(&content).unwrap();
    let mut archive =
        zip::ZipArchive::new(std::io::Cursor::new(out.artifacts[0].clone())).unwrap();
    let mut entry = archive.by_name("raw.data").unwrap();
    let mut payload = Vec::new();
    std::io::Read::read_to_end(&mut entry, &mut payload).unwrap();
    assert_eq!(&payload[..], &content[..65536]);
}

#[test]
fn manifest_hash_matches_blake3() {
    let content = sample_content(5_000);
    let mut fc = FileChunk::new();
    fc.assign_file("sample.bin", Some(&content));
    fc.set_size(64, FileChunkType::KiloByte);
    let out = fc.split(&content).unwrap();
    let expected = blake3::hash(&content).to_hex().as_str().to_string();
    assert_eq!(out.manifest.file_hash, expected);
    let art_hash = blake3::hash(&out.artifacts[0]).to_hex().as_str().to_string();
    assert_eq!(out.manifest.list[0].0, art_hash);
}

#[test]
fn empty_file_yields_no_chunks() {
    let content: Vec<u8> = Vec::new();
    let mut fc = FileChunk::new();
    fc.assign_file("empty.bin", Some(&content));
    fc.set_size(256, FileChunkType::KiloByte);
    let out = fc.split(&content).unwrap();
    assert_eq!(out.manifest.chunk_count, 0);
    assert_eq!(out.manifest.list.len(), 0);
    assert!(!out.manifest.compressed);
    assert_eq!(out.manifest.file_hash, blake3::hash(b"").to_hex().as_str().to_string());
    let merged = fc.merge(&out.manifest, &Vec::new()).unwrap();
    assert_eq!(merged.len(), 0);
    assert_eq!(
        blake3::hash(&merged).to_hex().as_str().to_string(),
        out.manifest.file_hash
    );
}

#[test]
fn size_below_threshold_is_clamped() {
    let content = sample_content(100_000);
    let mut fc = FileChunk::new();
    fc.assign_file("sample.bin", Some(&content));
    fc.set_size(1, FileChunkType::Byte);
    let out = fc.split(&content).unwrap();
    assert_eq!(out.manifest.chunk_size, 65536);
    assert_eq!(fc.chunk_size, 64);
    assert!(matches!(fc.chunk_type, FileChunkType::KiloByte));
    assert_eq!(out.manifest.chunk_count, 2);
}

#[test]
fn million_bytes_at_256_kib_gives_four_chunks() {
    let content = sample_content(1_000_000);
    let mut fc = FileChunk::new();
    fc.assign_file("big.bin", Some(&content));
    fc.set_size(256, FileChunkType::KiloByte);
    let out = fc.split(&content).unwrap();
    assert_eq!(out.manifest.chunk_size, 262144);
    assert_eq!(out.manifest.chunk_count, 4);
    assert_eq!(out.manifest.list.len(), 4);
    assert_eq!(out.manifest.list[0].1, "chunk.00000001");
    assert_eq!(out.manifest.list[3].1, "chunk.00000004");
    assert_eq!(out.manifest.file_size, 1_000_000);
    let merged = fc.merge(&out.manifest, &present(&out.artifacts)).unwrap();
    assert_eq!(merged, content);
}

#[test]
fn roundtrip_through_manifest_bytes() {
    let content = sample_content(80_000);
    let mut fc = FileChunk::new();
    fc.set_compress(true);
    fc.assign_file("sample.bin", Some(&content));
    fc.set_size(64, FileChunkType::KiloByte);
    let out = fc.split(&content).unwrap();
    // the manifest travels as an archive; read it back as the merger would
    let m = read_manifest(&out.manifest_bytes, true).unwrap();
    assert_eq!(m.file_hash, out.manifest.file_hash);
    assert_eq!(m.chunk_count, out.manifest.chunk_count);
    assert_eq!(m.list, out.manifest.list);
    let merged = fc.merge(&m, &present(&out.artifacts)).unwrap();
    assert_eq!(merged, content);
}

#[test]
fn result_returns_last_manifest() {
    let content = sample_content(10_000);
    let mut fc = FileChunk::new();
    fc.assign_file("sample.bin", Some(&content));
    fc.set_size(64, FileChunkType::KiloByte);
    let out = fc.split(&content).unwrap();
    let kept = fc.result();
    assert_eq!(kept.file_hash, out.manifest.file_hash);
    assert_eq!(kept.chunk_count, out.manifest.chunk_count);
    assert_eq!(fc.result_list, vec!["chunk.00000001".to_string()]);
}

#[test]
fn assign_missing_file_resets() {
    let mut fc = FileChunk::new();
    fc.set_size(512, FileChunkType::MegaByte);
    fc.assign_file("nowhere.bin", None);
    assert!(!fc.is_exist);
    assert_eq!(fc.file_name, "");
    assert_eq!(fc.file_hash, "");
    assert_eq!(fc.file_size, 0);
    assert_eq!(fc.chunk_size, 256);
    assert!(matches!(fc.chunk_type, FileChunkType::KiloByte));
}

#[test]
fn final_hash_mismatch_is_integrity_error() {
    let content = sample_content(40_000);
    let mut fc = FileChunk::new();
    fc.assign_file("sample.bin", Some(&content));
    fc.set_size(64, FileChunkType::KiloByte);
    let mut out = fc.split(&content).unwrap();
    out.manifest.file_hash = blake3::hash(b"something else").to_hex().as_str().to_string();
    let r = fc.merge(&out.manifest, &present(&out.artifacts));
    assert_eq!(r, Err(ChunkError::IntegrityError));
}

#[test]
fn empty_file_compressed_manifest_roundtrip() {
    let content: Vec<u8> = Vec::new();
    let mut fc = FileChunk::new();
    fc.set_compress(true);
    fc.assign_file("empty.bin", Some(&content));
    let out = fc.split(&content).unwrap();
    assert_eq!(out.manifest.chunk_count, 0);
    // no chunks exist, so the table reads back as uncompressed
    assert!(!out.manifest.compressed);
    assert_eq!(out.manifest_name, format!("{}.zip", fc.file_hash));
    let m = read_manifest(&out.manifest_bytes, true).unwrap();
    assert_eq!(m.chunk_count, 0);
    let merged = fc.merge(&m, &Vec::new()).unwrap();
    assert!(merged.is_empty());
}
