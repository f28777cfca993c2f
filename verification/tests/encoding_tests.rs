use oxen::error::OxenError;
use oxen::version_encoding::{
    compression_is_worthwhile, decode_from_storage, encode_for_storage, identity,
    should_buffer_for_compression, should_try_compression, VersionEncoding,
    VersionEncodingMetadata, MAX_COMPRESS_BYTES, MIN_COMPRESS_BYTES, ZSTD_CODEC_VERSION,
};

fn content_hash(data: &[u8]) -> String {
    format!("{:x}", xxhash_rust::xxh3::xxh3_128(data))
}

fn compressible(len: usize) -> Vec<u8> {
    (0..len).map(|i| b"oxen data "[i % 10]).collect()
}

#[test]
fn compressible_content_under_its_hash_is_stored_as_a_frame_and_decodes_back() {
    let raw = compressible(32 * 1024);
    let hash = content_hash(&raw);
    let encoded = encode_for_storage(&hash, &raw).unwrap();
    let metadata = encoded.metadata.as_ref().expect("content should be compressed");
    assert_eq!(metadata.encoding, VersionEncoding::Zstd);
    assert!(metadata.is_compressed());
    assert_eq!(metadata.raw_hash, hash);
    assert_eq!(metadata.raw_size, raw.len() as u64);
    assert_eq!(metadata.stored_size, encoded.bytes.len() as u64);
    assert_eq!(metadata.codec_version, ZSTD_CODEC_VERSION);
    assert!(encoded.bytes.len() + 1024 <= raw.len());
    let decoded = decode_from_storage(Some(metadata), &encoded.bytes).unwrap();
    assert_eq!(decoded, raw);
}

#[test]
fn content_under_another_key_is_stored_as_is() {
    let raw = compressible(32 * 1024);
    let encoded = encode_for_storage("synthetic-hash", &raw).unwrap();
    assert!(encoded.metadata.is_none());
    assert_eq!(encoded.bytes, raw);
    assert_eq!(decode_from_storage(None, &encoded.bytes).unwrap(), raw);
}

#[test]
fn small_content_is_stored_as_is() {
    let raw = compressible(MIN_COMPRESS_BYTES - 1);
    let hash = content_hash(&raw);
    assert!(!should_try_compression(&hash, &raw));
    let encoded = encode_for_storage(&hash, &raw).unwrap();
    assert!(encoded.metadata.is_none());
    assert_eq!(encoded.bytes, raw);
}

#[test]
fn incompressible_content_is_stored_as_is() {
    let mut state: u64 = 0x9E37_79B9_7F4A_7C15;
    let raw: Vec<u8> = (0..MIN_COMPRESS_BYTES)
        .map(|_| {
            state ^= state << 13;
            state ^= state >> 7;
            state ^= state << 17;
            (state >> 24) as u8
        })
        .collect();
    let hash = content_hash(&raw);
    assert!(should_try_compression(&hash, &raw));
    let encoded = encode_for_storage(&hash, &raw).unwrap();
    assert!(encoded.metadata.is_none());
    assert_eq!(encoded.bytes, raw);
}

#[test]
fn decoding_checks_size_and_hash() {
    let raw = compressible(20 * 1024);
    let hash = content_hash(&raw);
    let encoded = encode_for_storage(&hash, &raw).unwrap();
    let metadata = encoded.metadata.unwrap();

    let wrong_size = VersionEncodingMetadata { raw_size: metadata.raw_size + 5, ..metadata.clone() };
    match decode_from_storage(Some(&wrong_size), &encoded.bytes) {
        Err(OxenError::DecodedSizeMismatch { expected_size, actual_size }) => {
            assert_eq!(expected_size, raw.len() as u64 + 5);
            assert_eq!(actual_size, raw.len() as u64);
        }
        _ => panic!("expected a size mismatch"),
    }

    let wrong_hash = VersionEncodingMetadata { raw_hash: "0000".to_string(), ..metadata.clone() };
    match decode_from_storage(Some(&wrong_hash), &encoded.bytes) {
        Err(OxenError::DecodedHashMismatch { expected_hash, actual_hash }) => {
            assert_eq!(expected_hash, "0000");
            assert_eq!(actual_hash, hash);
        }
        _ => panic!("expected a hash mismatch"),
    }
}

#[test]
fn decoding_garbage_fails_to_decompress() {
    let metadata = VersionEncodingMetadata {
        encoding: VersionEncoding::Zstd,
        raw_hash: "abc".to_string(),
        raw_size: 10,
        stored_size: 4,
        codec_version: ZSTD_CODEC_VERSION,
    };
    assert!(matches!(
        decode_from_storage(Some(&metadata), &[1, 2, 3, 4]),
        Err(OxenError::DecompressionFailed)
    ));
}

#[test]
fn compression_thresholds() {
    assert!(compression_is_worthwhile(5000, 3976));
    assert!(!compression_is_worthwhile(5000, 3977));
    assert!(!compression_is_worthwhile(100, 200));
    assert!(should_buffer_for_compression(MAX_COMPRESS_BYTES as u64));
    assert!(!should_buffer_for_compression(MAX_COMPRESS_BYTES as u64 + 1));
    let v = identity(&[1, 2, 3]);
    assert_eq!(v.bytes, vec![1, 2, 3]);
    assert!(v.metadata.is_none());
}
