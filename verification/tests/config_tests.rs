use zarrs::byte_range::ByteRange;
use zarrs::config::{Config, MetadataConvertVersion, MetadataEraseVersion};

#[test]
fn config_validate_checksums() {
    let mut config = Config::default();
    assert!(config.validate_checksums());
    config.set_validate_checksums(false);
    assert!(!config.validate_checksums());
    config.set_validate_checksums(true);
    assert!(config.validate_checksums());
}

#[test]
fn config_defaults() {
    let config = Config::default();
    assert!(!config.store_empty_chunks());
    assert_eq!(config.chunk_concurrent_minimum(), 4);
    assert!(!config.experimental_codec_store_metadata_if_encode_only());
    assert!(config.include_zarrs_metadata());
    assert!(matches!(
        config.metadata_convert_version(),
        MetadataConvertVersion::Default
    ));
    assert!(matches!(
        config.metadata_erase_version(),
        MetadataEraseVersion::Default
    ));
}

#[test]
fn config_setters() {
    let mut config = Config::new(8);
    assert_eq!(config.codec_concurrent_target(), 8);
    config.set_store_empty_chunks(true);
    assert!(config.store_empty_chunks());
    config.set_codec_concurrent_target(2);
    assert_eq!(config.codec_concurrent_target(), 2);
    config.set_chunk_concurrent_minimum(7);
    assert_eq!(config.chunk_concurrent_minimum(), 7);
    config.set_experimental_codec_store_metadata_if_encode_only(true);
    assert!(config.experimental_codec_store_metadata_if_encode_only());
    config.set_metadata_convert_version(MetadataConvertVersion::V3);
    assert!(matches!(
        config.metadata_convert_version(),
        MetadataConvertVersion::V3
    ));
    config.set_metadata_erase_version(MetadataEraseVersion::All);
    assert!(matches!(
        config.metadata_erase_version(),
        MetadataEraseVersion::All
    ));
    config.set_include_zarrs_metadata(false);
    assert!(!config.include_zarrs_metadata());
}

#[test]
fn byte_range_resolution() {
    let n: u64 = 100;
    let r1 = ByteRange::FromStart(10, Some(20));
    assert_eq!(r1.start(n), 10);
    assert_eq!(r1.end(n), 30);
    assert_eq!(r1.length(n), 20);
    assert_eq!(r1.length(n) + r1.start(n), r1.end(n));
    assert!(r1.end(n) <= n);

    let r2 = ByteRange::FromStart(10, None);
    assert_eq!(r2.start(n), 10);
    assert_eq!(r2.end(n), 100);
    assert_eq!(r2.length(n), 90);

    let r3 = ByteRange::FromEnd(25);
    assert_eq!(r3.start(n), 75);
    assert_eq!(r3.end(n), 100);
    assert_eq!(r3.length(n), 25);
    assert_eq!(r3.length(n) + r3.start(n), r3.end(n));

    // empty ranges are legal and resolve to zero-length reads
    let r4 = ByteRange::FromStart(100, Some(0));
    assert_eq!(r4.resolve(n).unwrap(), (100, 0));

    // out-of-bounds ranges are rejected
    assert!(ByteRange::FromStart(101, None).resolve(n).is_err());
    assert!(ByteRange::FromStart(90, Some(11)).resolve(n).is_err());
    assert!(ByteRange::FromEnd(101).resolve(n).is_err());
}
