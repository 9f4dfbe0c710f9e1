//! Transparent compression of payloads with one of several codecs.

use crate::bytes::copy_range;
use crate::error::{TreeError, TreeResult};
use vstd::prelude::*;

verus! {

/// The codecs the engine knows.
#[derive(Debug, Clone, Copy, PartialEq, Eq, Structural)]
pub enum CompressionType {
    Uncompressed,
    Lz4,
    Zstd,
    Snappy,
}

/// Which codec to use, and how.
///
/// `level` is read by Zstd only (1 to 22; absent means 3). Payloads longer
/// than `buffer_size` go through the streaming Zstd encoder, which is the one
/// that honours `enable_checksum`.
#[derive(Debug, Clone, Copy, PartialEq, Eq, Structural)]
pub struct CompressionConfig {
    pub compression_type: CompressionType,
    pub level: Option<i32>,
    pub enable_checksum: bool,
    pub buffer_size: usize,
}

impl Default for CompressionConfig {
    fn default() -> (c: Self)
        ensures
            c == (CompressionConfig {
                compression_type: CompressionType::Uncompressed,
                level: None,
                enable_checksum: false,
                buffer_size: 4096,
            }),
    {
        CompressionConfig {
            compression_type: CompressionType::Uncompressed,
            level: None,
            enable_checksum: false,
            buffer_size: 4096,
        }
    }
}

impl CompressionConfig {
    /// The level a codec starts with: 3 for Zstd, 1 for LZ4, none otherwise.
    pub open spec fn default_level(compression_type: CompressionType) -> Option<i32> {
        match compression_type {
            CompressionType::Zstd => Some(3),
            CompressionType::Lz4 => Some(1),
            _ => None,
        }
    }

    /// The configuration of a codec with its defaults: checksums on and a
    /// buffer of 4096 bytes.
    pub open spec fn of(compression_type: CompressionType) -> CompressionConfig {
        CompressionConfig {
            compression_type,
            level: Self::default_level(compression_type),
            enable_checksum: true,
            buffer_size: 4096,
        }
    }

    pub fn new(compression_type: CompressionType) -> (c: Self)
        ensures
            c == Self::of(compression_type),
    {
        CompressionConfig {
            compression_type,
            level: match compression_type {
                CompressionType::Zstd => Some(3),
                CompressionType::Lz4 => Some(1),
                _ => None,
            },
            enable_checksum: true,
            buffer_size: 4096,
        }
    }

    /// No compression at all.
    pub fn none() -> (c: Self)
        ensures
            c == Self::of(CompressionType::Uncompressed),
    {
        Self::new(CompressionType::Uncompressed)
    }

    pub fn with_level(self, level: i32) -> (c: Self)
        ensures
            c == (CompressionConfig { level: Some(level), ..self }),
    {
        CompressionConfig { level: Some(level), ..self }
    }

    pub fn with_checksum(self, enable: bool) -> (c: Self)
        ensures
            c == (CompressionConfig { enable_checksum: enable, ..self }),
    {
        CompressionConfig { enable_checksum: enable, ..self }
    }

    pub fn with_buffer_size(self, size: usize) -> (c: Self)
        ensures
            c == (CompressionConfig { buffer_size: size, ..self }),
    {
        CompressionConfig { buffer_size: size, ..self }
    }

    /// The preset for speed: Snappy.
    pub fn fast() -> (c: Self)
        ensures
            c == Self::of(CompressionType::Snappy),
    {
        Self::new(CompressionType::Snappy)
    }

    /// The balanced preset: LZ4 at level 1, with checksums.
    pub fn balanced() -> (c: Self)
        ensures
            c == (CompressionConfig { level: Some(1), ..Self::of(CompressionType::Lz4) }),
            c.enable_checksum,
    {
        Self::new(CompressionType::Lz4).with_level(1)
    }

    /// The preset for a small output: Zstd at level 9.
    pub fn best() -> (c: Self)
        ensures
            c == (CompressionConfig { level: Some(9), ..Self::of(CompressionType::Zstd) }),
    {
        Self::new(CompressionType::Zstd).with_level(9)
    }

    /// The preset for the smallest output: Zstd at level 19.
    pub fn ultra() -> (c: Self)
        ensures
            c == (CompressionConfig { level: Some(19), ..Self::of(CompressionType::Zstd) }),
    {
        Self::new(CompressionType::Zstd).with_level(19)
    }
}

/// What `lz4::block::compress` makes of the input in its default mode,
/// with the length of the input in front; nothing where it refuses. The
/// encoder works on the input alone, without a dictionary or a thread.
pub uninterp spec fn lz4_encoded(data: Seq<u8>) -> Option<Seq<u8>>;

/// What `zstd::stream::encode_all` makes of the input at a level.
pub uninterp spec fn zstd_encoded(data: Seq<u8>, level: i32) -> Option<Seq<u8>>;

/// What a `zstd::stream::Encoder` makes of the input at a level, with or
/// without the frame checksum.
pub uninterp spec fn zstd_stream_encoded(data: Seq<u8>, level: i32, checksum: bool) -> Option<
    Seq<u8>,
>;

/// What `snap::raw::Encoder::compress_vec` makes of the input.
pub uninterp spec fn snappy_encoded(data: Seq<u8>) -> Option<Seq<u8>>;

/// What `lz4::block::decompress` makes of a block that starts with the
/// length of its content: the content, or nothing where it refuses.
pub uninterp spec fn lz4_decoded(block: Seq<u8>) -> Option<Seq<u8>>;

/// What `zstd::stream::decode_all` makes of a frame.
pub uninterp spec fn zstd_decoded(frame: Seq<u8>) -> Option<Seq<u8>>;

/// What `snap::raw::Decoder::decompress_vec` makes of a block.
pub uninterp spec fn snappy_decoded(block: Seq<u8>) -> Option<Seq<u8>>;

/// Calls `lz4::block::compress` in its default mode, with the length of the
/// input in front. The codec is lossless: what it returns is a block that
/// `lz4::block::decompress` turns back into the input. The block holds the
/// four bytes of the length and at least one byte more. It refuses inputs
/// beyond the size LZ4 can take.
#[verifier::external_body]
fn lz4_compress(data: &[u8]) -> (r: Result<Vec<u8>, String>)
    ensures
        match r {
            Ok(block) => lz4_encoded(data@) == Some(block@) && lz4_decoded(block@) == Some(data@)
                && block@.len() > 4,
            Err(_) => lz4_encoded(data@) is None,
        },
{
    match lz4::block::compress(data, Some(lz4::block::CompressionMode::DEFAULT), true) {
        Ok(block) => Ok(block),
        Err(e) => Err(e.to_string()),
    }
}

/// Calls `lz4::block::decompress`, which reads the length of the content
/// from the first four bytes and refuses malformed blocks.
#[verifier::external_body]
fn lz4_decompress(block: &[u8]) -> (r: Result<Vec<u8>, String>)
    ensures
        match r {
            Ok(data) => lz4_decoded(block@) == Some(data@),
            Err(_) => lz4_decoded(block@) is None,
        },
{
    match lz4::block::decompress(block, None) {
        Ok(data) => Ok(data),
        Err(e) => Err(e.to_string()),
    }
}

/// Calls `zstd::stream::encode_all`. What it returns is a frame that
/// `zstd::stream::decode_all` turns back into the input. A frame begins
/// with its header, also where the input is empty, so it is never empty.
#[verifier::external_body]
fn zstd_compress(data: &[u8], level: i32) -> (r: Result<Vec<u8>, String>)
    ensures
        match r {
            Ok(frame) => zstd_encoded(data@, level) == Some(frame@) && zstd_decoded(frame@)
                == Some(data@) && frame@.len() > 0,
            Err(_) => zstd_encoded(data@, level) is None,
        },
{
    match zstd::stream::encode_all(data, level) {
        Ok(frame) => Ok(frame),
        Err(e) => Err(e.to_string()),
    }
}

/// Drives a `zstd::stream::Encoder` over the whole input, with or without
/// the frame checksum. What it returns is a frame that
/// `zstd::stream::decode_all` turns back into the input. A frame begins
/// with its header, so it is never empty.
#[verifier::external_body]
fn zstd_compress_stream(data: &[u8], level: i32, checksum: bool) -> (r: Result<Vec<u8>, String>)
    ensures
        match r {
            Ok(frame) => zstd_stream_encoded(data@, level, checksum) == Some(frame@)
                && zstd_decoded(frame@) == Some(data@) && frame@.len() > 0,
            Err(_) => zstd_stream_encoded(data@, level, checksum) is None,
        },
{
    let mut encoder = match zstd::stream::Encoder::new(Vec::new(), level) {
        Ok(encoder) => encoder,
        Err(e) => return Err(e.to_string()),
    };
    if let Err(e) = encoder.include_checksum(checksum) {
        return Err(e.to_string());
    }
    if let Err(e) = std::io::Write::write_all(&mut encoder, data) {
        return Err(e.to_string());
    }
    match encoder.finish() {
        Ok(frame) => Ok(frame),
        Err(e) => Err(e.to_string()),
    }
}

/// Calls `zstd::stream::decode_all`, which refuses what is no Zstd frame.
#[verifier::external_body]
fn zstd_decompress(frame: &[u8]) -> (r: Result<Vec<u8>, String>)
    ensures
        match r {
            Ok(data) => zstd_decoded(frame@) == Some(data@),
            Err(_) => zstd_decoded(frame@) is None,
        },
{
    match zstd::stream::decode_all(frame) {
        Ok(data) => Ok(data),
        Err(e) => Err(e.to_string()),
    }
}

/// Calls `snap::raw::Encoder::compress_vec`. What it returns is a block that
/// `snap::raw::Decoder::decompress_vec` turns back into the input. The
/// block begins with the length of the input, so it is never empty.
#[verifier::external_body]
fn snappy_compress(data: &[u8]) -> (r: Result<Vec<u8>, String>)
    ensures
        match r {
            Ok(block) => snappy_encoded(data@) == Some(block@) && snappy_decoded(block@) == Some(
                data@,
            ) && block@.len() > 0,
            Err(_) => snappy_encoded(data@) is None,
        },
{
    match snap::raw::Encoder::new().compress_vec(data) {
        Ok(block) => Ok(block),
        Err(e) => Err(e.to_string()),
    }
}

/// Calls `snap::raw::Decoder::decompress_vec`, which refuses an empty or
/// malformed block.
#[verifier::external_body]
fn snappy_decompress(block: &[u8]) -> (r: Result<Vec<u8>, String>)
    ensures
        match r {
            Ok(data) => snappy_decoded(block@) == Some(data@),
            Err(_) => snappy_decoded(block@) is None,
        },
{
    match snap::raw::Decoder::new().decompress_vec(block) {
        Ok(data) => Ok(data),
        Err(e) => Err(e.to_string()),
    }
}

/// A codec with its configuration.
#[derive(Debug, Clone, Copy)]
pub struct Compressor {
    pub config: CompressionConfig,
}

impl Compressor {
    pub fn new(config: CompressionConfig) -> (c: Self)
        ensures
            c.config == config,
    {
        Compressor { config }
    }

    /// What decompression makes of `compressed`: the bytes that went in, or
    /// nothing where the codec refuses them. Without a codec, the bytes
    /// themselves.
    pub open spec fn decoded(self, compressed: Seq<u8>) -> Option<Seq<u8>> {
        match self.config.compression_type {
            CompressionType::Uncompressed => Some(compressed),
            CompressionType::Lz4 => lz4_decoded(compressed),
            CompressionType::Zstd => zstd_decoded(compressed),
            CompressionType::Snappy => snappy_decoded(compressed),
        }
    }

    /// What compression makes of `data`: the output of the configured
    /// codec, or nothing where the codec refuses. Without a codec, the
    /// bytes themselves. Zstd works at the configured level, or at level 3
    /// where none is set, and as a stream where the input is longer than
    /// the buffer.
    pub open spec fn encoded(self, data: Seq<u8>) -> Option<Seq<u8>> {
        match self.config.compression_type {
            CompressionType::Uncompressed => Some(data),
            CompressionType::Lz4 => lz4_encoded(data),
            CompressionType::Zstd => {
                let level = match self.config.level {
                    Some(level) => level,
                    None => 3,
                };
                if data.len() > self.config.buffer_size {
                    zstd_stream_encoded(data, level, self.config.enable_checksum)
                } else {
                    zstd_encoded(data, level)
                }
            },
            CompressionType::Snappy => snappy_encoded(data),
        }
    }

    /// What `compress` returns for what the codec gave: its output, or a
    /// `Compression` error that carries its complaint.
    pub fn compressed_from(outcome: Result<Vec<u8>, String>) -> (r: TreeResult<Vec<u8>>)
        ensures
            match outcome {
                Ok(bytes) => r == Ok::<Vec<u8>, TreeError>(bytes),
                Err(text) => r matches Err(e) && e is Compression && e.message_of() == text,
            },
    {
        match outcome {
            Ok(bytes) => Ok(bytes),
            Err(text) => Err(TreeError::Compression { message: text }),
        }
    }

    /// Compresses `data`. Whatever comes back decompresses to `data` again;
    /// without a codec the bytes come back unchanged and nothing can fail.
    pub fn compress(&self, data: &[u8]) -> (r: TreeResult<Vec<u8>>)
        ensures
            match r {
                Ok(compressed) => self.encoded(data@) == Some(compressed@) && self.decoded(
                    compressed@,
                ) == Some(data@) && (compressed@.len() > 0 || (self.config.compression_type
                    == CompressionType::Uncompressed && data@.len() == 0)),
                Err(e) => e is Compression && self.encoded(data@) is None,
            },
            self.config.compression_type == CompressionType::Uncompressed ==> r is Ok && r->Ok_0@
                == data@,
    {
        match self.config.compression_type {
            CompressionType::Uncompressed => {
                let out = copy_range(data, 0, data.len());
                assert(out@ =~= data@);
                Ok(out)
            },
            CompressionType::Lz4 => Self::compressed_from(lz4_compress(data)),
            CompressionType::Zstd => {
                let level = match self.config.level {
                    Some(level) => level,
                    None => 3,
                };
                if data.len() > self.config.buffer_size {
                    Self::compressed_from(
                        zstd_compress_stream(data, level, self.config.enable_checksum),
                    )
                } else {
                    Self::compressed_from(zstd_compress(data, level))
                }
            },
            CompressionType::Snappy => Self::compressed_from(snappy_compress(data)),
        }
    }

    /// Decompresses `compressed` with the configured codec, which must be the
    /// one that compressed it. Bytes the codec refuses give a `Compression`
    /// error.
    pub fn decompress(&self, compressed: &[u8]) -> (r: TreeResult<Vec<u8>>)
        ensures
            match r {
                Ok(data) => self.decoded(compressed@) == Some(data@),
                Err(e) => e is Compression && self.decoded(compressed@) is None,
            },
    {
        match self.config.compression_type {
            CompressionType::Uncompressed => {
                let out = copy_range(compressed, 0, compressed.len());
                assert(out@ =~= compressed@);
                Ok(out)
            },
            CompressionType::Lz4 => Self::compressed_from(lz4_decompress(compressed)),
            CompressionType::Zstd => Self::compressed_from(zstd_decompress(compressed)),
            CompressionType::Snappy => Self::compressed_from(snappy_decompress(compressed)),
        }
    }
}

} // verus!
