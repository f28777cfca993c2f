//! How a file version is laid out in the version store: content between
//! 16 KiB and 128 MiB whose storage key is its own content hash is stored as a
//! zstd frame when that saves at least 1 KiB, and as-is otherwise.

use crate::error::OxenError;
use vstd::prelude::*;
use vstd::slice::slice_to_vec;

verus! {

/// File name under which the encoding metadata of a version is kept.
pub const VERSION_METADATA_FILE_NAME: &'static str = "meta.json";

/// Content shorter than this is never compressed.
pub const MIN_COMPRESS_BYTES: usize = 16 * 1024;

/// Content longer than this is never compressed (nor buffered for it).
pub const MAX_COMPRESS_BYTES: usize = 128 * 1024 * 1024;

/// A compressed frame is kept only when it saves at least this many bytes.
pub const MIN_SAVED_BYTES: usize = 1024;

/// zstd compression level used for stored versions.
pub const ZSTD_LEVEL: i32 = 3;

/// Version of the codec layout recorded in the metadata.
pub const ZSTD_CODEC_VERSION: u32 = 1;

/// How a stored version is encoded.
#[derive(Debug, Clone, Copy, PartialEq, Eq, Structural)]
pub enum VersionEncoding {
    Zstd,
}

/// What the store records next to an encoded version.
#[derive(Debug, Clone, PartialEq, Eq)]
pub struct VersionEncodingMetadata {
    pub encoding: VersionEncoding,
    pub raw_hash: String,
    pub raw_size: u64,
    pub stored_size: u64,
    pub codec_version: u32,
}

/// The mathematical content of [`VersionEncodingMetadata`].
pub struct MetadataView {
    pub encoding: VersionEncoding,
    pub raw_hash: Seq<char>,
    pub raw_size: u64,
    pub stored_size: u64,
    pub codec_version: u32,
}

impl View for VersionEncodingMetadata {
    type V = MetadataView;

    open spec fn view(&self) -> MetadataView {
        MetadataView {
            encoding: self.encoding,
            raw_hash: self.raw_hash@,
            raw_size: self.raw_size,
            stored_size: self.stored_size,
            codec_version: self.codec_version,
        }
    }
}

/// The bytes to store for a version, with the metadata that says how they
/// were encoded (`None`: stored as-is).
#[derive(Debug)]
pub struct EncodedVersion {
    pub bytes: Vec<u8>,
    pub metadata: Option<VersionEncodingMetadata>,
}

/// The mathematical content of [`EncodedVersion`].
pub struct EncodedView {
    pub bytes: Seq<u8>,
    pub metadata: Option<MetadataView>,
}

impl View for EncodedVersion {
    type V = EncodedView;

    open spec fn view(&self) -> EncodedView {
        EncodedView {
            bytes: self.bytes@,
            metadata: match self.metadata {
                Some(m) => Some(m@),
                None => None,
            },
        }
    }
}

impl VersionEncodingMetadata {
    /// Whether the stored bytes are a compressed frame.
    pub fn is_compressed(&self) -> (r: bool)
        ensures
            r == (self.encoding == VersionEncoding::Zstd),
    {
        match self.encoding {
            VersionEncoding::Zstd => true,
        }
    }
}

/// Names the content hash that the store uses as a version's key: the
/// lower-case hexadecimal form of the 128-bit XXH3 digest of the content.
pub uninterp spec fn content_hash(content: Seq<u8>) -> Seq<char>;

/// Names the zstd frame that `zstd::bulk::compress` produces for some content
/// at some level.
pub uninterp spec fn zstd_frame(content: Seq<u8>, level: i32) -> Seq<u8>;

/// Names the content that a zstd frame decompresses to.
pub uninterp spec fn zstd_content(frame: Seq<u8>) -> Seq<u8>;

/// Calls `xxhash_rust::xxh3::xxh3_128` and formats the digest in lower-case
/// hexadecimal. Trusted: the result is `content_hash` of the buffer.
#[verifier::external_body]
pub(crate) fn hash_buffer(buffer: &[u8]) -> (hash: String)
    ensures
        hash@ == content_hash(buffer@),
{
    format!("{:x}", xxhash_rust::xxh3::xxh3_128(buffer))
}

/// Calls `zstd::bulk::compress`. Trusted: it succeeds, and the frame is
/// `zstd_frame` of the content at that level, which decompresses to the content
/// (zstd is lossless). It compresses into a buffer of `compress_bound` bytes,
/// which always suffices, and the compression level is clamped by zstd; its
/// context is created with `CCtx::create`, which fails only when memory
/// allocation fails.
#[verifier::external_body]
fn zstd_compress(data: &[u8], level: i32) -> (frame: Option<Vec<u8>>)
    ensures
        frame is Some,
        frame matches Some(f) ==> f@ == zstd_frame(data@, level) && zstd_content(f@) == data@,
{
    zstd::bulk::compress(data, level).ok()
}

/// Whether `frame` is a frame that `zstd::bulk::compress` wrote, of content
/// at most `capacity` bytes long.
pub open spec fn frame_fits(frame: Seq<u8>, capacity: int) -> bool {
    exists|content: Seq<u8>, level: i32|
        frame == #[trigger] zstd_frame(content, level) && content.len() <= capacity
}

/// Calls `zstd::bulk::decompress`. Trusted: when it succeeds the result is
/// the frame's content, and it is at most `capacity` bytes long (a larger
/// content is refused); a frame that `zstd::bulk::compress` wrote, of content
/// that fits in `capacity`, is decompressed. It allocates `capacity` bytes
/// first, so a capacity beyond `isize::MAX` is left out. Which other input is
/// refused is left unsaid.
#[verifier::external_body]
fn zstd_decompress(frame: &[u8], capacity: usize) -> (content: Option<Vec<u8>>)
    requires
        capacity <= isize::MAX,
    ensures
        content matches Some(c) ==> c@ == zstd_content(frame@) && c@.len() <= capacity,
        frame_fits(frame@, capacity as int) ==> content is Some,
{
    zstd::bulk::decompress(frame, capacity).ok()
}

/// Whether content with this hash key is a candidate for compression.
pub open spec fn should_try_compression_spec(hash: Seq<char>, raw: Seq<u8>) -> bool {
    &&& MIN_COMPRESS_BYTES <= raw.len() <= MAX_COMPRESS_BYTES
    &&& content_hash(raw) == hash
}

/// Whether a frame of `compressed_len` bytes is worth storing in place of
/// `raw_len` bytes.
pub open spec fn compression_is_worthwhile_spec(raw_len: int, compressed_len: int) -> bool {
    compressed_len < raw_len && raw_len - compressed_len >= MIN_SAVED_BYTES
}

/// The content stored as-is.
pub open spec fn identity_view(raw: Seq<u8>) -> EncodedView {
    EncodedView { bytes: raw, metadata: None }
}

/// The metadata recorded for a zstd frame of `raw`.
pub open spec fn zstd_metadata(hash: Seq<char>, raw: Seq<u8>, frame: Seq<u8>) -> MetadataView {
    MetadataView {
        encoding: VersionEncoding::Zstd,
        raw_hash: hash,
        raw_size: raw.len() as u64,
        stored_size: frame.len() as u64,
        codec_version: ZSTD_CODEC_VERSION,
    }
}

/// What `encode_for_storage(hash, raw)` returns: the content as-is when it
/// is no candidate or its frame saves too little, the frame with its metadata
/// otherwise.
pub open spec fn encode_permits(
    hash: Seq<char>,
    raw: Seq<u8>,
    result: Result<EncodedView, OxenError>,
) -> bool {
    if !should_try_compression_spec(hash, raw) {
        result == Ok::<EncodedView, OxenError>(identity_view(raw))
    } else {
        let frame = zstd_frame(raw, ZSTD_LEVEL);
        &&& zstd_content(frame) == raw
        &&& result == Ok::<EncodedView, OxenError>(
            if compression_is_worthwhile_spec(raw.len() as int, frame.len() as int) {
                EncodedView { bytes: frame, metadata: Some(zstd_metadata(hash, raw, frame)) }
            } else {
                identity_view(raw)
            },
        )
    }
}

/// The checks made on decompressed content against its metadata.
pub open spec fn decoded_check(
    m: MetadataView,
    decoded: Seq<u8>,
    result: Result<Seq<u8>, OxenError>,
) -> bool {
    if decoded.len() != m.raw_size {
        result matches Err(OxenError::DecodedSizeMismatch { expected_size, actual_size })
            && expected_size == m.raw_size && actual_size == decoded.len()
    } else if content_hash(decoded) != m.raw_hash {
        result matches Err(OxenError::DecodedHashMismatch { expected_hash, actual_hash })
            && expected_hash@ == m.raw_hash && actual_hash@ == content_hash(decoded)
    } else {
        result == Ok::<Seq<u8>, OxenError>(decoded)
    }
}

/// What `decode_from_storage(metadata, stored)` returns: stored bytes
/// without metadata as they are; else the checked content of the frame, where
/// the decompressor fails only on what is no frame of content within the
/// recorded size.
pub open spec fn decode_permits(
    metadata: Option<MetadataView>,
    stored: Seq<u8>,
    result: Result<Seq<u8>, OxenError>,
) -> bool {
    match metadata {
        None => result == Ok::<Seq<u8>, OxenError>(stored),
        Some(m) => {
            ||| !frame_fits(stored, m.raw_size as int) && result is Err && result->Err_0 is DecompressionFailed
            ||| zstd_content(stored).len() <= m.raw_size && decoded_check(
                m,
                zstd_content(stored),
                result,
            )
        },
    }
}

pub open spec fn encoded_result_view(r: Result<EncodedVersion, OxenError>) -> Result<
    EncodedView,
    OxenError,
> {
    match r {
        Ok(v) => Ok(v@),
        Err(e) => Err(e),
    }
}

pub open spec fn bytes_result_view(r: Result<Vec<u8>, OxenError>) -> Result<Seq<u8>, OxenError> {
    match r {
        Ok(v) => Ok(v@),
        Err(e) => Err(e),
    }
}

pub open spec fn metadata_option_view(m: Option<&VersionEncodingMetadata>) -> Option<MetadataView> {
    match m {
        Some(m) => Some(m@),
        None => None,
    }
}

/// Whether content of `size` bytes should be read into memory so that it can
/// be compressed.
pub fn should_buffer_for_compression(size: u64) -> (r: bool)
    ensures
        r == (size <= MAX_COMPRESS_BYTES),
{
    size <= MAX_COMPRESS_BYTES as u64
}

/// Only content whose storage key is its own content hash is compressed:
/// callers that store content under another key keep it as-is.
pub fn should_try_compression(hash: &str, raw: &[u8]) -> (r: bool)
    ensures
        r == should_try_compression_spec(hash@, raw@),
{
    if raw.len() < MIN_COMPRESS_BYTES || raw.len() > MAX_COMPRESS_BYTES {
        return false;
    }
    let computed = hash_buffer(raw);
    let expected = hash.to_owned();
    computed == expected
}

pub fn compression_is_worthwhile(raw_len: usize, compressed_len: usize) -> (r: bool)
    ensures
        r == compression_is_worthwhile_spec(raw_len as int, compressed_len as int),
{
    compressed_len < raw_len && raw_len.saturating_sub(compressed_len) >= MIN_SAVED_BYTES
}

/// The content stored as-is, without metadata.
pub fn identity(raw: &[u8]) -> (v: EncodedVersion)
    ensures
        v@ == identity_view(raw@),
{
    EncodedVersion { bytes: slice_to_vec(raw), metadata: None }
}

/// Encodes content for the version store under the key `hash`.
pub fn encode_for_storage(hash: &str, raw: &[u8]) -> (result: Result<EncodedVersion, OxenError>)
    ensures
        encode_permits(hash@, raw@, encoded_result_view(result)),
{
    if !should_try_compression(hash, raw) {
        return Ok(identity(raw));
    }
    let compressed = match zstd_compress(raw, ZSTD_LEVEL) {
        Some(c) => c,
        None => return Err(OxenError::CompressionFailed),
    };
    if !compression_is_worthwhile(raw.len(), compressed.len()) {
        return Ok(identity(raw));
    }
    let raw_size = raw.len() as u64;
    let stored_size = compressed.len() as u64;
    let metadata = VersionEncodingMetadata {
        encoding: VersionEncoding::Zstd,
        raw_hash: hash.to_owned(),
        raw_size,
        stored_size,
        codec_version: ZSTD_CODEC_VERSION,
    };
    Ok(EncodedVersion { metadata: Some(metadata), bytes: compressed })
}

/// Checks decompressed content against the size and hash its metadata records.
pub fn check_decoded(metadata: &VersionEncodingMetadata, decoded: Vec<u8>) -> (result: Result<
    Vec<u8>,
    OxenError,
>)
    ensures
        decoded_check(metadata@, decoded@, bytes_result_view(result)),
{
    let actual_size = decoded.len() as u64;
    if actual_size != metadata.raw_size {
        return Err(
            OxenError::DecodedSizeMismatch { expected_size: metadata.raw_size, actual_size },
        );
    }
    let actual_hash = hash_buffer(&decoded);
    if !(actual_hash == metadata.raw_hash) {
        return Err(
            OxenError::DecodedHashMismatch { expected_hash: metadata.raw_hash.clone(), actual_hash },
        );
    }
    Ok(decoded)
}

/// Reads back the content of a stored version.
pub fn decode_from_storage(metadata: Option<&VersionEncodingMetadata>, stored: &[u8]) -> (result:
    Result<Vec<u8>, OxenError>)
    requires
        metadata matches Some(m) ==> m.raw_size <= isize::MAX,
    ensures
        decode_permits(metadata_option_view(metadata), stored@, bytes_result_view(result)),
{
    let metadata = match metadata {
        Some(m) => m,
        None => return Ok(slice_to_vec(stored)),
    };
    let raw = match metadata.encoding {
        VersionEncoding::Zstd => zstd_decompress(stored, metadata.raw_size as usize),
    };
    match raw {
        Some(raw) => check_decoded(metadata, raw),
        None => Err(OxenError::DecompressionFailed),
    }
}

/// Decoding what encoding produced gives the encoded content back: a stored
/// version never decodes to other content, nor fails to decompress or its
/// size or hash check; and its recorded size is within what decoding accepts.
pub proof fn lemma_decode_inverts_encode(
    hash: Seq<char>,
    raw: Seq<u8>,
    encoded: EncodedView,
    decoded: Result<Seq<u8>, OxenError>,
)
    requires
        encode_permits(hash, raw, Ok(encoded)),
        decode_permits(encoded.metadata, encoded.bytes, decoded),
    ensures
        decoded == Ok::<Seq<u8>, OxenError>(raw),
        encoded.metadata matches Some(m) ==> m.raw_size <= MAX_COMPRESS_BYTES,
{
    if let Some(m) = encoded.metadata {
        assert(frame_fits(encoded.bytes, m.raw_size as int)) by {
            assert(encoded.bytes == zstd_frame(raw, ZSTD_LEVEL));
        }
    }
}

} // verus!
