use file_chunker::chunker::{FileChunk, FileChunkType};
use file_chunker::json::{parse_manifest_bytes, render_manifest_bytes};

fn sample_content(len: usize) -> Vec<u8> {
    let mut v = Vec::with_capacity(len);
    for i in 0..len {
        v.push((i % 7 + 65) as u8);
    }
    v
}

#[test]
fn rendered_manifest_is_compact_json() {
    let content = sample_content(70_000);
    let mut fc = FileChunk::new();
    fc.assign_file("sample.bin", Some(&content));
    fc.set_size(64, FileChunkType::KiloByte);
    let out = fc.split(&content).unwrap();
    let text = String::from_utf8(out.manifest_bytes.clone()).unwrap();
    assert!(text.starts_with("{\"info_file\":\""));
    assert!(text.contains("\"file_name\":\"sample.bin\""));
    assert!(text.contains("\"chunk_size\":65536"));
    assert!(text.contains("\"chunk_count\":2"));
    assert!(text.contains("\"1\":\""));
    assert!(text.ends_with("}}"));
}

#[test]
fn codec_roundtrip_plain_fields() {
    let content = sample_content(70_000);
    let mut fc = FileChunk::new();
    fc.assign_file("sample.bin", Some(&content));
    fc.set_size(64, FileChunkType::KiloByte);
    let out = fc.split(&content).unwrap();
    let bytes = render_manifest_bytes(&out.manifest);
    let back = parse_manifest_bytes(&bytes).unwrap();
    assert_eq!(back.file_name, out.manifest.file_name);
    assert_eq!(back.file_hash, out.manifest.file_hash);
    assert_eq!(back.file_size, out.manifest.file_size);
    assert_eq!(back.chunk_size, out.manifest.chunk_size);
    assert_eq!(back.chunk_count, out.manifest.chunk_count);
    assert_eq!(back.compressed, out.manifest.compressed);
    assert_eq!(back.list, out.manifest.list);
}

#[test]
fn codec_roundtrip_awkward_file_name() {
    let content = sample_content(1_000);
    let mut fc = FileChunk::new();
    // a base name holding a quote, a newline and some non-ASCII
    fc.assign_file("dir/we\"ird na\nme-\u{00e9}.txt", Some(&content));
    fc.set_size(64, FileChunkType::KiloByte);
    let out = fc.split(&content).unwrap();
    assert_eq!(out.manifest.file_name, "we\"ird na\nme-\u{00e9}.txt");
    let bytes = render_manifest_bytes(&out.manifest);
    let back = parse_manifest_bytes(&bytes).unwrap();
    assert_eq!(back.file_name, out.manifest.file_name);
    assert_eq!(back.list, out.manifest.list);
}

#[test]
fn codec_roundtrip_compressed_entries() {
    let content = sample_content(140_000);
    let mut fc = FileChunk::new();
    fc.set_compress(true);
    fc.assign_file("sample.bin", Some(&content));
    fc.set_size(64, FileChunkType::KiloByte);
    let out = fc.split(&content).unwrap();
    let bytes = render_manifest_bytes(&out.manifest);
    let text = String::from_utf8(bytes.clone()).unwrap();
    // compressed entries carry the artifact base name beside the digest
    assert!(text.contains("\"1\":[\""));
    assert!(text.contains("chunk.00000001"));
    let back = parse_manifest_bytes(&bytes).unwrap();
    assert!(back.compressed);
    assert_eq!(back.list, out.manifest.list);
}

#[test]
fn parser_rejects_trailing_bytes() {
    let content = sample_content(1_000);
    let mut fc = FileChunk::new();
    fc.assign_file("sample.bin", Some(&content));
    fc.set_size(64, FileChunkType::KiloByte);
    let out = fc.split(&content).unwrap();
    let mut bytes = render_manifest_bytes(&out.manifest);
    bytes.push(b' ');
    assert!(parse_manifest_bytes(&bytes).is_none());
}

#[test]
fn parser_rejects_gapped_indices() {
    // a table whose keys are 1 and 3 is not contiguous
    let mut text = String::from("{\"info_file\":\"i\",\"file_name\":\"f\",\"file_hash\":\"h\",");
    text.push_str("\"file_size\":10,\"chunk_size\":65536,\"chunk_count\":2,");
    text.push_str("\"list\":{\"1\":\"aa\",\"3\":\"bb\"}}");
    assert!(parse_manifest_bytes(&text.as_bytes().to_vec()).is_none());
}

#[test]
fn parser_accepts_handwritten_canonical_text() {
    let mut text = String::from("{\"info_file\":\"x/info.json\",\"file_name\":\"f\\\\v\\\"w\\u0009.bin\",\"file_hash\":\"00ff\",");
    text.push_str("\"file_size\":12,\"chunk_size\":65536,\"chunk_count\":1,");
    text.push_str("\"list\":{\"1\":\"00ff\"}}");
    let m = parse_manifest_bytes(&text.as_bytes().to_vec()).unwrap();
    assert_eq!(m.file_name, "f\\v\"w\t.bin");
    assert_eq!(m.file_size, 12);
    assert!(!m.compressed);
    // the bare-digest form carries the sequence-formatted artifact name
    assert_eq!(m.list, vec![("00ff".to_string(), "chunk.00000001".to_string())]);
}

#[test]
fn parser_accepts_manifest_without_info_field() {
    let mut text = String::from("{\"file_name\":\"f.bin\",\"file_hash\":\"00ff\",");
    text.push_str("\"file_size\":12,\"chunk_size\":65536,\"chunk_count\":1,");
    text.push_str("\"list\":{\"1\":\"00ff\"}}");
    let m = parse_manifest_bytes(&text.as_bytes().to_vec()).unwrap();
    assert_eq!(m.info_file, "");
    assert_eq!(m.file_name, "f.bin");
    assert_eq!(m.chunk_count, 1);
}
