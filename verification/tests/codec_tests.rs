use zarrs::array_subset::ArraySubset;
use zarrs::byte_range::ByteRange;
use zarrs::codec::{
    ArrayRepresentation, BitroundCodec, BitroundCodecConfiguration, BitroundCodecConfigurationV1,
    CodecError, DataType,
};
use zarrs::http::{
    build_range_header, extract_full_content, extract_partial_content, group_key_ranges,
    key_url_bytes, parse_content_length,
};
use zarrs::storage::{StoreKey, StoreKeyRange};
use zarrs::shard_index::{decode_shard_index, encode_shard_index, validate_shard_index};

fn f32_representation() -> ArrayRepresentation {
    ArrayRepresentation {
        shape: vec![2, 2],
        data_type: DataType::Float32,
        fill_value: 0.0f32.to_le_bytes().to_vec(),
    }
}

fn f32s_to_bytes(v: &[f32]) -> Vec<u8> {
    let mut out = Vec::new();
    for x in v {
        out.extend_from_slice(&x.to_le_bytes());
    }
    out
}

fn bytes_to_f32s(b: &[u8]) -> Vec<f32> {
    let mut out = Vec::new();
    let mut i = 0;
    while i + 4 <= b.len() {
        out.push(f32::from_le_bytes([b[i], b[i + 1], b[i + 2], b[i + 3]]));
        i += 4;
    }
    out
}

#[test]
fn bitround_lossy_within_rounding_error() {
    // a 4-bit-keep bitround on f32 does not round-trip exactly, but each
    // element stays within the rounding error of 4 mantissa bits
    let codec = BitroundCodec::new(4);
    let rep = f32_representation();
    let values = [1.2345678f32, -250.1303f32, 0.0f32, 3.0e-12f32];
    let encoded = codec.encode(f32s_to_bytes(&values), &rep).unwrap();
    let decoded_bytes = codec.decode(encoded, &rep).unwrap();
    let decoded = bytes_to_f32s(&decoded_bytes);
    assert_eq!(decoded.len(), values.len());
    let mut exact = true;
    for (orig, dec) in values.iter().zip(decoded.iter()) {
        assert!((orig - dec).abs() <= orig.abs() / 16.0);
        if orig != dec {
            exact = false;
        }
    }
    assert!(!exact);
}

#[test]
fn bitround_exact_on_representable_values() {
    // values with at most 4 mantissa bits are unchanged
    let codec = BitroundCodec::new(4);
    let rep = f32_representation();
    let values = [1.0f32, -2.5f32, 0.0f32, 24.0f32];
    let encoded = codec.encode(f32s_to_bytes(&values), &rep).unwrap();
    assert_eq!(bytes_to_f32s(&encoded), values);
}

#[test]
fn bitround_metadata_gated_by_experimental_flag() {
    let codec = BitroundCodec::new(4);
    assert!(codec.create_metadata(false).is_none());
    let metadata = codec.create_metadata(true).unwrap();
    assert_eq!(metadata.keepbits, 4);
    assert!(!codec.partial_decoder_should_cache_input());
    assert!(!codec.partial_decoder_decodes_all());
}

#[test]
fn bitround_rejects_non_float_types() {
    let codec = BitroundCodec::new(4);
    let rep = ArrayRepresentation {
        shape: vec![2],
        data_type: DataType::UInt16,
        fill_value: vec![0, 0],
    };
    match codec.encode(vec![0, 0, 0, 0], &rep) {
        Err(CodecError::UnsupportedDataType(dt, id)) => {
            assert_eq!(dt, DataType::UInt16);
            assert_eq!(id, b"bitround".to_vec());
        }
        other => panic!("expected an unsupported-data-type error, got {other:?}"),
    }
    assert!(codec.compute_encoded_size(&rep).is_err());
    let frep = f32_representation();
    let out = codec.compute_encoded_size(&frep).unwrap();
    assert_eq!(out.data_type, DataType::Float32);
}

#[test]
fn bitround_from_configuration() {
    let config = BitroundCodecConfiguration::V1(BitroundCodecConfigurationV1 { keepbits: 7 });
    let codec = BitroundCodec::new_with_configuration(&config);
    assert_eq!(codec.create_metadata(true).unwrap().keepbits, 7);
}

#[test]
fn shard_index_round_trip_and_validation() {
    let entries: Vec<u64> = vec![0, 10, u64::MAX, u64::MAX, 10, 6];
    let bytes = encode_shard_index(&entries);
    assert_eq!(bytes.len(), 8 * entries.len());
    let back = decode_shard_index(&bytes);
    assert_eq!(back, entries);
    // every non-empty entry lies within [0, 16) and none overlap
    assert!(validate_shard_index(&entries, 0, 16));
    // an entry reaching past the region is rejected
    assert!(!validate_shard_index(&entries, 0, 15));
    // overlapping entries are rejected
    let overlapping: Vec<u64> = vec![0, 10, 5, 6];
    assert!(!validate_shard_index(&overlapping, 0, 16));
}

#[test]
fn http_range_header() {
    let ranges = vec![ByteRange::FromStart(0, Some(5)), ByteRange::FromStart(10, Some(10))];
    let header = build_range_header(&ranges, 100).unwrap();
    assert_eq!(header, b"bytes=0-4, 10-19".to_vec());
    // an empty range cannot name its last byte
    assert!(build_range_header(&vec![ByteRange::FromStart(0, Some(0))], 100).is_err());
}

#[test]
fn http_partial_content_equals_local_slice() {
    // the full resource, and the 206 body a compliant server would send
    let full: Vec<u8> = (0u8..100u8).collect();
    let ranges = vec![
        ByteRange::FromStart(3, Some(4)),
        ByteRange::FromEnd(5),
        ByteRange::FromStart(90, None),
    ];
    let mut body206 = Vec::new();
    body206.extend_from_slice(&full[3..7]);
    body206.extend_from_slice(&full[95..100]);
    body206.extend_from_slice(&full[90..100]);

    let from_partial = extract_partial_content(&body206, &ranges, 100).unwrap();
    let from_full = extract_full_content(&full, &ranges, 100).unwrap();
    assert_eq!(from_partial, from_full);
    assert_eq!(from_partial[0], full[3..7].to_vec());
    assert_eq!(from_partial[1], full[95..100].to_vec());
    assert_eq!(from_partial[2], full[90..100].to_vec());

    // a truncated body is refused rather than mis-sliced
    let truncated = body206[..body206.len() - 1].to_vec();
    assert!(extract_partial_content(&truncated, &ranges, 100).is_err());
    // a body that is not the whole resource is refused by the local slicer
    assert!(extract_full_content(&body206, &ranges, 100).is_err());
}

#[test]
fn subset_construction() {
    let s = ArraySubset::new_with_ranges(&vec![(1, 3), (0, 4)]).unwrap();
    assert_eq!(s.rank(), 2);
    assert_eq!(s.num_elements().unwrap(), 8);
    assert!(ArraySubset::new_with_ranges(&vec![(3, 1)]).is_none());
    let t = ArraySubset::new_with_start_shape(vec![0, 0], vec![2, 2]).unwrap();
    assert_eq!(t.num_elements().unwrap(), 4);
    assert!(ArraySubset::new_with_start_shape(vec![0], vec![1, 1]).is_none());
}

#[test]
fn http_key_range_grouping() {
    let a = StoreKey::new(b"a".to_vec()).unwrap();
    let b = StoreKey::new(b"b".to_vec()).unwrap();
    let ranges = vec![
        StoreKeyRange { key: a.duplicate(), byte_range: ByteRange::FromStart(0, Some(1)) },
        StoreKeyRange { key: a.duplicate(), byte_range: ByteRange::FromStart(1, Some(1)) },
        StoreKeyRange { key: b.duplicate(), byte_range: ByteRange::FromEnd(2) },
        StoreKeyRange { key: a.duplicate(), byte_range: ByteRange::FromStart(5, None) },
    ];
    let groups = group_key_ranges(&ranges);
    assert_eq!(groups.len(), 3);
    assert_eq!(groups[0].key.as_bytes(), &b"a".to_vec());
    assert_eq!(groups[0].ranges.len(), 2);
    assert_eq!(groups[1].key.as_bytes(), &b"b".to_vec());
    assert_eq!(groups[1].ranges.len(), 1);
    assert_eq!(groups[2].key.as_bytes(), &b"a".to_vec());
    assert_eq!(groups[2].ranges.len(), 1);
    assert!(matches!(groups[2].ranges[0], ByteRange::FromStart(5, None)));
}

#[test]
fn http_helper_functions() {
    let key = StoreKey::new(b"group/array/c/0/0".to_vec()).unwrap();
    let url = key_url_bytes(&b"http://host/data".to_vec(), &key);
    assert_eq!(url, b"http://host/data/group/array/c/0/0".to_vec());

    assert_eq!(parse_content_length(&b"691".to_vec()), Some(691));
    assert_eq!(parse_content_length(&b"0".to_vec()), Some(0));
    assert_eq!(parse_content_length(&b"".to_vec()), None);
    assert_eq!(parse_content_length(&b"12a".to_vec()), None);
    assert_eq!(parse_content_length(&b"18446744073709551615".to_vec()), Some(u64::MAX));
    assert_eq!(parse_content_length(&b"18446744073709551616".to_vec()), None);
}
