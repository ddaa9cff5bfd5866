use file_chunker::chunker::{FileChunk, FileChunkType};
use file_chunker::manifest::ChunkError;
use file_chunker::merge::read_manifest;

fn sample_content(len: usize) -> Vec<u8> {
    let mut v = Vec::with_capacity(len);
    for i in 0..len {
        v.push((i % 251) as u8);
    }
    v
}

fn present(artifacts: &[Vec<u8>]) -> Vec<Option<Vec<u8>>> {
    artifacts.iter().map(|a| Some(a.clone())).collect()
}

fn split_four(compress: bool) -> (FileChunk, file_chunker::chunker::SplitOutput, Vec<u8>) {
    let content = sample_content(200_000);
    let mut fc = FileChunk::new();
    fc.set_compress(compress);
    fc.assign_file("sample.bin", Some(&content));
    fc.set_size(64, FileChunkType::KiloByte);
    let out = fc.split(&content).unwrap();
    assert_eq!(out.manifest.chunk_count, 4);
    (fc, out, content)
}

#[test]
fn tampered_chunk_fails_verification() {
    let (fc, out, _content) = split_four(false);
    let mut arts = present(&out.artifacts);
    // flip one byte of the second on-disk artifact
    if let Some(bytes) = arts[1].as_mut() {
        bytes[17] ^= 0x01;
    }
    let r = fc.merge(&out.manifest, &arts);
    assert_eq!(r, Err(ChunkError::IntegrityError));
}

#[test]
fn tampered_compressed_chunk_fails_verification() {
    let (fc, out, _content) = split_four(true);
    let mut arts = present(&out.artifacts);
    if let Some(bytes) = arts[2].as_mut() {
        let last = bytes.len() - 1;
        bytes[last] ^= 0xff;
    }
    let r = fc.merge(&out.manifest, &arts);
    assert_eq!(r, Err(ChunkError::IntegrityError));
}

#[test]
fn missing_chunk_fails_verification() {
    let (fc, out, _content) = split_four(false);
    let mut arts = present(&out.artifacts);
    arts[2] = None;
    let r = fc.merge(&out.manifest, &arts);
    assert_eq!(r, Err(ChunkError::IntegrityError));
}

#[test]
fn garbage_manifest_is_format_error() {
    let garbage = vec![0x7bu8, 0x6e, 0x6f, 0x70, 0x65, 0x7d];
    let r = read_manifest(&garbage, false);
    assert_eq!(r.unwrap_err(), ChunkError::FormatError);
    let r2 = read_manifest(&garbage, true);
    assert_eq!(r2.unwrap_err(), ChunkError::FormatError);
}

#[test]
fn truncated_manifest_is_format_error() {
    let (_fc, out, _content) = split_four(false);
    let mut bytes = out.manifest_bytes.clone();
    bytes.truncate(bytes.len() / 2);
    let r = read_manifest(&bytes, false);
    assert_eq!(r.unwrap_err(), ChunkError::FormatError);
}
