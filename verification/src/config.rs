//! Library-wide configuration options.
//!
//! A [`Config`] carries the defaults that codec and array operations fall
//! back to when a caller does not override them. A process typically keeps
//! one `Config` behind a shared/exclusive lock and hands each operation a
//! snapshot of it; holding that process-wide state is left to the embedding
//! program, since it needs a `static`.

use vstd::prelude::*;

verus! {

/// Version options for metadata writes: which metadata version to emit.
#[derive(Debug, Clone, Copy, PartialEq, Eq, Structural)]
pub enum MetadataConvertVersion {
    /// Write the same version as the input metadata.
    Default,
    /// Write V3 metadata. V2 metadata is not automatically removed if it exists.
    V3,
}

impl Default for MetadataConvertVersion {
    /// Keep the version of the input metadata.
    fn default() -> (r: Self)
        ensures
            r == MetadataConvertVersion::Default,
    {
        MetadataConvertVersion::Default
    }
}

/// Version options for metadata erasure: which metadata versions to remove.
#[derive(Debug, Clone, Copy, PartialEq, Eq, Structural)]
pub enum MetadataEraseVersion {
    /// Erase the same version as the input metadata.
    Default,
    /// Erase all metadata versions.
    All,
    /// Erase V3 metadata.
    V3,
    /// Erase V2 metadata.
    V2,
}

impl Default for MetadataEraseVersion {
    /// Erase the version of the input metadata.
    fn default() -> (r: Self)
        ensures
            r == MetadataEraseVersion::Default,
    {
        MetadataEraseVersion::Default
    }
}

/// Global configuration options.
///
/// ## Validate Checksums (default: `true`)
/// If enabled, checksum codecs validate that encoded data matches stored
/// checksums; otherwise validation is skipped. Checksum codecs may skip
/// validation when partial decoding regardless of this option.
///
/// ## Store Empty Chunks (default: `false`)
/// If `false`, chunks whose elements all equal the fill value are erased
/// rather than stored, at the cost of testing each element for equality to
/// the fill value before a chunk is encoded.
///
/// ## Codec Concurrent Target (default: the host parallelism)
/// The number of concurrent operations to target for codec encoding and
/// decoding. Zero means unconstrained. The host parallelism is only known to
/// the embedding program, which queries it when it creates its process-wide
/// `Config`; [`Config::default`] falls back to `1`.
///
/// ## Chunk Concurrent Minimum (default: `4`)
/// For operations involving multiple chunks, the preferred minimum number of
/// chunks processed concurrently.
///
/// ## Experimental Codec Store Metadata If Encode Only (default: `false`)
/// Some codecs perform potentially irreversible transformations during
/// encoding that decoders do not need to be aware of. If this option is
/// `false`, such codecs do not write their metadata, so the written data can
/// be consumed by implementations that do not know them.
///
/// ## Metadata Convert Version (default: keep the input version)
/// The metadata version emitted when metadata is written.
///
/// ## Metadata Erase Version (default: the input version)
/// Which metadata versions are removed when metadata is erased.
///
/// ## Include Provenance Metadata (default: `true`)
/// If `true`, generated array metadata embeds a small provenance object
/// naming this library.
#[derive(Debug, Clone, PartialEq, Eq, Structural)]
pub struct Config {
    /// Whether checksum codecs validate on decode.
    pub validate_checksums: bool,
    /// Whether fill-equal chunks are stored rather than erased.
    pub store_empty_chunks: bool,
    /// The per-codec parallelism budget; zero means unconstrained.
    pub codec_concurrent_target: usize,
    /// The preferred minimum number of chunks in flight in multi-chunk operations.
    pub chunk_concurrent_minimum: usize,
    /// Whether codecs with encode-only transformations emit their metadata.
    pub experimental_codec_store_metadata_if_encode_only: bool,
    /// Which metadata version to emit on write.
    pub metadata_convert_version: MetadataConvertVersion,
    /// Which metadata versions to remove on erase.
    pub metadata_erase_version: MetadataEraseVersion,
    /// Whether generated metadata embeds a provenance object.
    pub include_zarrs_metadata: bool,
}

impl Default for Config {
    /// The documented defaults, with a codec concurrent target of `1` in
    /// place of the host parallelism, which only the embedding program can
    /// query.
    fn default() -> (r: Self)
        ensures
            r == Config::spec_default(),
    {
        Config {
            validate_checksums: true,
            store_empty_chunks: false,
            codec_concurrent_target: 1,
            chunk_concurrent_minimum: 4,
            experimental_codec_store_metadata_if_encode_only: false,
            metadata_convert_version: MetadataConvertVersion::Default,
            metadata_erase_version: MetadataEraseVersion::Default,
            include_zarrs_metadata: true,
        }
    }
}

impl Config {
    /// The documented default configuration.
    pub open spec fn spec_default() -> Config {
        Config {
            validate_checksums: true,
            store_empty_chunks: false,
            codec_concurrent_target: 1,
            chunk_concurrent_minimum: 4,
            experimental_codec_store_metadata_if_encode_only: false,
            metadata_convert_version: MetadataConvertVersion::Default,
            metadata_erase_version: MetadataEraseVersion::Default,
            include_zarrs_metadata: true,
        }
    }

    /// Create a configuration with the documented defaults, taking the codec
    /// concurrent target (normally the host parallelism) from the caller.
    pub fn new(codec_concurrent_target: usize) -> (r: Self)
        ensures
            r == (Config {
                codec_concurrent_target,
                ..Config::spec_default()
            }),
    {
        Config {
            validate_checksums: true,
            store_empty_chunks: false,
            codec_concurrent_target,
            chunk_concurrent_minimum: 4,
            experimental_codec_store_metadata_if_encode_only: false,
            metadata_convert_version: MetadataConvertVersion::Default,
            metadata_erase_version: MetadataEraseVersion::Default,
            include_zarrs_metadata: true,
        }
    }

    /// Get the validate checksums configuration.
    pub fn validate_checksums(&self) -> (r: bool)
        ensures
            r == self.validate_checksums,
    {
        self.validate_checksums
    }

    /// Set the validate checksums configuration.
    pub fn set_validate_checksums(&mut self, validate_checksums: bool)
        ensures
            *final(self) == (Config { validate_checksums, ..*old(self) }),
    {
        self.validate_checksums = validate_checksums;
    }

    /// Get the store empty chunks configuration.
    pub fn store_empty_chunks(&self) -> (r: bool)
        ensures
            r == self.store_empty_chunks,
    {
        self.store_empty_chunks
    }

    /// Set the store empty chunks configuration.
    pub fn set_store_empty_chunks(&mut self, store_empty_chunks: bool)
        ensures
            *final(self) == (Config { store_empty_chunks, ..*old(self) }),
    {
        self.store_empty_chunks = store_empty_chunks;
    }

    /// Get the codec concurrent target configuration.
    pub fn codec_concurrent_target(&self) -> (r: usize)
        ensures
            r == self.codec_concurrent_target,
    {
        self.codec_concurrent_target
    }

    /// Set the codec concurrent target configuration.
    pub fn set_codec_concurrent_target(&mut self, concurrent_target: usize)
        ensures
            *final(self) == (Config {
                codec_concurrent_target: concurrent_target,
                ..*old(self)
            }),
    {
        self.codec_concurrent_target = concurrent_target;
    }

    /// Get the chunk concurrent minimum configuration.
    pub fn chunk_concurrent_minimum(&self) -> (r: usize)
        ensures
            r == self.chunk_concurrent_minimum,
    {
        self.chunk_concurrent_minimum
    }

    /// Set the chunk concurrent minimum configuration.
    pub fn set_chunk_concurrent_minimum(&mut self, concurrent_minimum: usize)
        ensures
            *final(self) == (Config {
                chunk_concurrent_minimum: concurrent_minimum,
                ..*old(self)
            }),
    {
        self.chunk_concurrent_minimum = concurrent_minimum;
    }

    /// Get the experimental codec store metadata if encode only configuration.
    pub fn experimental_codec_store_metadata_if_encode_only(&self) -> (r: bool)
        ensures
            r == self.experimental_codec_store_metadata_if_encode_only,
    {
        self.experimental_codec_store_metadata_if_encode_only
    }

    /// Set the experimental codec store metadata if encode only configuration.
    pub fn set_experimental_codec_store_metadata_if_encode_only(&mut self, enabled: bool)
        ensures
            *final(self) == (Config {
                experimental_codec_store_metadata_if_encode_only: enabled,
                ..*old(self)
            }),
    {
        self.experimental_codec_store_metadata_if_encode_only = enabled;
    }

    /// Get the metadata convert version configuration.
    pub fn metadata_convert_version(&self) -> (r: MetadataConvertVersion)
        ensures
            r == self.metadata_convert_version,
    {
        self.metadata_convert_version
    }

    /// Set the metadata convert version configuration.
    pub fn set_metadata_convert_version(&mut self, version: MetadataConvertVersion)
        ensures
            *final(self) == (Config { metadata_convert_version: version, ..*old(self) }),
    {
        self.metadata_convert_version = version;
    }

    /// Get the metadata erase version configuration.
    pub fn metadata_erase_version(&self) -> (r: MetadataEraseVersion)
        ensures
            r == self.metadata_erase_version,
    {
        self.metadata_erase_version
    }

    /// Set the metadata erase version configuration.
    pub fn set_metadata_erase_version(&mut self, version: MetadataEraseVersion)
        ensures
            *final(self) == (Config { metadata_erase_version: version, ..*old(self) }),
    {
        self.metadata_erase_version = version;
    }

    /// Get the include provenance metadata configuration.
    pub fn include_zarrs_metadata(&self) -> (r: bool)
        ensures
            r == self.include_zarrs_metadata,
    {
        self.include_zarrs_metadata
    }

    /// Set the include provenance metadata configuration.
    pub fn set_include_zarrs_metadata(&mut self, include_zarrs_metadata: bool)
        ensures
            *final(self) == (Config { include_zarrs_metadata, ..*old(self) }),
    {
        self.include_zarrs_metadata = include_zarrs_metadata;
    }
}

} // verus!
