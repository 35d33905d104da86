use zarrs::array::{
    Array, ArrayError, ArrayToBytesCodec, ChunkKeyEncoding, CodecOptions,
    ShardingCodecConfiguration,
};
use zarrs::array_subset::ArraySubset;
use zarrs::codec::DataType;
use zarrs::config::Config;
use zarrs::shard_index::ShardingIndexLocation;
use zarrs::byte_range::ByteRange;
use zarrs::storage::{MemoryStore, StoreKey, StoreKeyRange};
use zarrs::storage_handle::StorageHandle;

fn u16s_to_bytes(v: &[u16]) -> Vec<u8> {
    let mut out = Vec::new();
    for x in v {
        out.extend_from_slice(&x.to_le_bytes());
    }
    out
}

fn bytes_to_u16s(b: &[u8]) -> Vec<u16> {
    let mut out = Vec::new();
    let mut i = 0;
    while i + 2 <= b.len() {
        out.push(u16::from_le_bytes([b[i], b[i + 1]]));
        i += 2;
    }
    out
}

fn sharded_test_array(index_location: ShardingIndexLocation) -> Array {
    Array::new(
        vec![4, 4],
        vec![2, 2],
        DataType::UInt16,
        vec![0, 0],
        ArrayToBytesCodec::Sharding(ShardingCodecConfiguration {
            inner_chunk_shape: vec![1, 1],
            index_location,
        }),
        ChunkKeyEncoding::Default(b'/'),
    )
    .unwrap()
}

fn subset(ranges: &[(u64, u64)]) -> ArraySubset {
    ArraySubset::new_with_ranges(&ranges.to_vec()).unwrap()
}

fn array_partial_encode_sharding(index_location: ShardingIndexLocation) {
    let opt = CodecOptions::new(&Config::default()).with_experimental_partial_encoding(true);
    let mut store = MemoryStore::new();
    let array = sharded_test_array(index_location);
    let key = array.chunk_key(&vec![0, 0]).unwrap();

    let chunks_per_shard: u64 = 2 * 2;
    let shard_index_size: u64 = 8 * 2 * chunks_per_shard;
    assert!(store.size_key(&key).is_none());
    assert_eq!(store.reads(), 0);
    assert_eq!(store.bytes_read(), 0);

    // [1, 0]
    // [0, 0]
    array
        .store_array_subset(&mut store, &subset(&[(0, 1), (0, 1)]), &u16s_to_bytes(&[1]), &opt)
        .unwrap();
    assert_eq!(store.reads(), 1); // index
    assert_eq!(store.writes(), 2); // 1x inner chunk + index
    assert_eq!(store.bytes_read(), 0);
    assert_eq!(store.size_key(&key).unwrap(), shard_index_size + 2);
    store.reset();

    // [0, 0]
    // [0, 0]
    array
        .store_array_subset(&mut store, &subset(&[(0, 1), (0, 1)]), &u16s_to_bytes(&[0]), &opt)
        .unwrap();
    assert_eq!(store.reads(), 2); // index + the one populated inner chunk
    assert_eq!(store.writes(), 0);
    assert_eq!(store.bytes_read(), shard_index_size + 2);
    assert!(store.size_key(&key).is_none());
    store.reset();

    // [1, 2]
    // [0, 0]
    array
        .store_array_subset(&mut store, &subset(&[(0, 1), (0, 2)]), &u16s_to_bytes(&[1, 2]), &opt)
        .unwrap();
    assert_eq!(store.reads(), 1); // index
    assert_eq!(store.writes(), 3); // 2x inner chunk + index
    assert_eq!(store.size_key(&key).unwrap(), shard_index_size + 2 * 2);
    store.reset();

    let chunk = array.retrieve_chunk(&mut store, &vec![0, 0]).unwrap();
    assert_eq!(bytes_to_u16s(&chunk), vec![1, 2, 0, 0]);
    store.reset();

    // [99, 2]
    // [4, 0]
    array
        .store_array_subset(&mut store, &subset(&[(0, 2), (0, 1)]), &u16s_to_bytes(&[99, 4]), &opt)
        .unwrap();
    assert_eq!(store.reads(), 2); // index + 1x inner chunk
    assert_eq!(store.writes(), 3); // 2x inner chunk + index
    assert_eq!(store.size_key(&key).unwrap(), shard_index_size + 2 * 4); // 1 stale + 3 live
    store.reset();

    let chunk = array.retrieve_chunk(&mut store, &vec![0, 0]).unwrap();
    assert_eq!(bytes_to_u16s(&chunk), vec![99, 2, 4, 0]);
}

#[test]
fn array_partial_encode_sharding_index_start() {
    array_partial_encode_sharding(ShardingIndexLocation::Start);
}

#[test]
fn array_partial_encode_sharding_index_end() {
    array_partial_encode_sharding(ShardingIndexLocation::End);
}

#[test]
fn round_trip_whole_chunk_bytes_codec() {
    let mut store = MemoryStore::new();
    let opt = CodecOptions::new(&Config::default());
    let array = Array::new(
        vec![4, 4],
        vec![2, 2],
        DataType::UInt16,
        vec![0, 0],
        ArrayToBytesCodec::Bytes,
        ChunkKeyEncoding::Default(b'/'),
    )
    .unwrap();
    let data = u16s_to_bytes(&[5, 6, 7, 8]);
    array.store_chunk(&mut store, &vec![1, 1], data.clone(), &opt).unwrap();
    let back = array.retrieve_chunk(&mut store, &vec![1, 1]).unwrap();
    assert_eq!(back, data);
}

#[test]
fn round_trip_whole_chunk_sharding_codec() {
    let mut store = MemoryStore::new();
    let opt = CodecOptions::new(&Config::default());
    for loc in [ShardingIndexLocation::Start, ShardingIndexLocation::End] {
        let array = sharded_test_array(loc);
        let data = u16s_to_bytes(&[5, 0, 7, 8]);
        array.store_chunk(&mut store, &vec![0, 1], data.clone(), &opt).unwrap();
        let back = array.retrieve_chunk(&mut store, &vec![0, 1]).unwrap();
        assert_eq!(back, data);
    }
}

#[test]
fn round_trip_array_subset() {
    let mut store = MemoryStore::new();
    let opt = CodecOptions::new(&Config::default());
    let array = sharded_test_array(ShardingIndexLocation::End);
    // a subset crossing all four chunks
    let s = subset(&[(1, 3), (1, 3)]);
    let data = u16s_to_bytes(&[11, 12, 13, 14]);
    array.store_array_subset(&mut store, &s, &data, &opt).unwrap();
    let back = array.retrieve_array_subset(&mut store, &s).unwrap();
    assert_eq!(back, data);
}

#[test]
fn fill_value_for_never_written_regions() {
    let mut store = MemoryStore::new();
    let array = Array::new(
        vec![4, 4],
        vec![2, 2],
        DataType::UInt16,
        vec![7, 0], // fill value 7
        ArrayToBytesCodec::Bytes,
        ChunkKeyEncoding::Default(b'/'),
    )
    .unwrap();
    let back = array.retrieve_array_subset(&mut store, &subset(&[(0, 4), (0, 4)])).unwrap();
    assert_eq!(bytes_to_u16s(&back), vec![7; 16]);
    // and a single absent chunk decodes to the fill value
    let chunk = array.retrieve_chunk(&mut store, &vec![0, 0]).unwrap();
    assert_eq!(bytes_to_u16s(&chunk), vec![7; 4]);
}

#[test]
fn empty_chunk_policy_erases_fill_chunks() {
    let mut store = MemoryStore::new();
    let opt = CodecOptions::new(&Config::default());
    assert!(!opt.store_empty_chunks);
    let array = Array::new(
        vec![4, 4],
        vec![2, 2],
        DataType::UInt16,
        vec![0, 0],
        ArrayToBytesCodec::Bytes,
        ChunkKeyEncoding::Default(b'/'),
    )
    .unwrap();
    let key = array.chunk_key(&vec![0, 0]).unwrap();
    // store a non-fill chunk, then overwrite with the fill buffer
    array.store_chunk(&mut store, &vec![0, 0], u16s_to_bytes(&[1, 2, 3, 4]), &opt).unwrap();
    assert!(store.size_key(&key).is_some());
    array.store_chunk(&mut store, &vec![0, 0], u16s_to_bytes(&[0, 0, 0, 0]), &opt).unwrap();
    assert!(store.size_key(&key).is_none());
    // with the policy on, fill chunks are stored
    let opt_keep = opt.with_store_empty_chunks(true);
    array.store_chunk(&mut store, &vec![0, 0], u16s_to_bytes(&[0, 0, 0, 0]), &opt_keep).unwrap();
    assert!(store.size_key(&key).is_some());
}

#[test]
fn sharding_emptiness_erases_shard() {
    // if every element written to a shard equals fill, the shard key is erased
    let mut store = MemoryStore::new();
    let opt = CodecOptions::new(&Config::default()).with_experimental_partial_encoding(true);
    let array = sharded_test_array(ShardingIndexLocation::End);
    let key = array.chunk_key(&vec![0, 0]).unwrap();
    array
        .store_array_subset(&mut store, &subset(&[(0, 2), (0, 2)]), &u16s_to_bytes(&[1, 2, 3, 4]), &opt)
        .unwrap();
    assert!(store.size_key(&key).is_some());
    array
        .store_array_subset(&mut store, &subset(&[(0, 2), (0, 2)]), &u16s_to_bytes(&[0, 0, 0, 0]), &opt)
        .unwrap();
    assert!(store.size_key(&key).is_none());
}

#[test]
fn partial_decode_equals_decode_then_slice() {
    let mut store = MemoryStore::new();
    let opt = CodecOptions::new(&Config::default());
    let array = sharded_test_array(ShardingIndexLocation::Start);
    array.store_chunk(&mut store, &vec![0, 0], u16s_to_bytes(&[1, 2, 3, 4]), &opt).unwrap();
    let whole = array.retrieve_chunk(&mut store, &vec![0, 0]).unwrap();
    let whole_els = bytes_to_u16s(&whole);
    // column 0 of the chunk
    let part = array
        .retrieve_chunk_subset(&mut store, &vec![0, 0], &subset(&[(0, 2), (0, 1)]))
        .unwrap();
    assert_eq!(bytes_to_u16s(&part), vec![whole_els[0], whole_els[2]]);
}

#[test]
fn partial_encode_equivalence() {
    // enabling or disabling partial encoding must not change the decoded data
    let writes: [(&[(u64, u64)], &[u16]); 3] = [
        (&[(0, 1), (0, 2)], &[1, 2]),
        (&[(0, 2), (0, 1)], &[99, 4]),
        (&[(1, 3), (1, 3)], &[50, 51, 52, 53]),
    ];
    let mut decoded: Vec<Vec<u16>> = Vec::new();
    for enabled in [false, true] {
        let opt =
            CodecOptions::new(&Config::default()).with_experimental_partial_encoding(enabled);
        let mut store = MemoryStore::new();
        let array = sharded_test_array(ShardingIndexLocation::End);
        for (ranges, elements) in &writes {
            array
                .store_array_subset(&mut store, &subset(ranges), &u16s_to_bytes(elements), &opt)
                .unwrap();
        }
        let all = array
            .retrieve_array_subset(&mut store, &subset(&[(0, 4), (0, 4)]))
            .unwrap();
        decoded.push(bytes_to_u16s(&all));
    }
    assert_eq!(decoded[0], decoded[1]);
}

#[test]
fn chunk_key_encodings() {
    let default = ChunkKeyEncoding::Default(b'/');
    let k = default.encode(&vec![3, 10]).unwrap();
    assert_eq!(k.as_bytes(), &b"c/3/10".to_vec());
    let k0 = default.encode(&vec![]).unwrap();
    assert_eq!(k0.as_bytes(), &b"c".to_vec());
    let v2 = ChunkKeyEncoding::V2(b'.');
    let k2 = v2.encode(&vec![3, 10]).unwrap();
    assert_eq!(k2.as_bytes(), &b"3.10".to_vec());
    let k20 = v2.encode(&vec![]).unwrap();
    assert_eq!(k20.as_bytes(), &b"0".to_vec());
}

#[test]
fn store_key_validation() {
    assert!(StoreKey::new(b"a/b/c.json".to_vec()).is_ok());
    assert!(StoreKey::new(b"c".to_vec()).is_ok());
    assert!(StoreKey::new(b"".to_vec()).is_err());
    assert!(StoreKey::new(b"/a".to_vec()).is_err());
    assert!(StoreKey::new(b"a/".to_vec()).is_err());
    assert!(StoreKey::new(b"a//b".to_vec()).is_err());
    assert!(StoreKey::new(b"a/./b".to_vec()).is_err());
    assert!(StoreKey::new(b"a/../b".to_vec()).is_err());
    assert!(StoreKey::new(b".".to_vec()).is_err());
    assert!(StoreKey::new(b"..".to_vec()).is_err());
    assert!(StoreKey::new(b"a/.hidden".to_vec()).is_ok());
}

#[test]
fn memory_store_operations() {
    let mut store = MemoryStore::new();
    let key = StoreKey::new(b"data/x".to_vec()).unwrap();
    assert!(store.get(&key).is_none());
    store.set(&key, vec![1, 2, 3, 4, 5]);
    assert_eq!(store.get(&key).unwrap(), vec![1, 2, 3, 4, 5]);
    assert_eq!(store.size_key(&key).unwrap(), 5);
    // overlay a partial write extending the value
    store.set_partial_value(&key, 3, &vec![9, 9, 9]);
    assert_eq!(store.get(&key).unwrap(), vec![1, 2, 3, 9, 9, 9]);
    // overlay past the end zero-fills the gap
    store.set_partial_value(&key, 8, &vec![7]);
    assert_eq!(store.get(&key).unwrap(), vec![1, 2, 3, 9, 9, 9, 0, 0, 7]);
    store.erase(&key);
    assert!(store.get(&key).is_none());
    // erase is idempotent
    store.erase(&key);
    assert!(store.get(&key).is_none());
}

#[test]
fn memory_store_listing_and_batch_operations() {
    let mut store = MemoryStore::new();
    let a = StoreKey::new(b"data/a".to_vec()).unwrap();
    let b = StoreKey::new(b"data/b".to_vec()).unwrap();
    let c = StoreKey::new(b"meta/c".to_vec()).unwrap();
    store.set(&a, vec![1, 2, 3]);
    store.set(&b, vec![4, 5]);
    store.set(&c, vec![6]);
    // rewriting a key does not duplicate it in listings
    store.set(&a, vec![9, 9, 9]);

    let mut all: Vec<Vec<u8>> = store.list().iter().map(|k| k.as_bytes().clone()).collect();
    all.sort();
    assert_eq!(all, vec![b"data/a".to_vec(), b"data/b".to_vec(), b"meta/c".to_vec()]);

    let mut under_data: Vec<Vec<u8>> =
        store.list_prefix(&b"data/".to_vec()).iter().map(|k| k.as_bytes().clone()).collect();
    under_data.sort();
    assert_eq!(under_data, vec![b"data/a".to_vec(), b"data/b".to_vec()]);

    let reads = store
        .get_partial_values(&vec![
            StoreKeyRange { key: a.duplicate(), byte_range: ByteRange::FromStart(1, Some(2)) },
            StoreKeyRange {
                key: StoreKey::new(b"missing".to_vec()).unwrap(),
                byte_range: ByteRange::FromStart(0, None),
            },
        ])
        .unwrap();
    assert_eq!(reads[0], Some(vec![9, 9]));
    assert_eq!(reads[1], None);

    store.erase_values(&vec![a.duplicate(), b.duplicate()]);
    assert!(!store.contains(&a));
    assert!(!store.contains(&b));
    assert!(store.contains(&c));

    store.set(&a, vec![1]);
    store.erase_prefix(&b"data/".to_vec());
    assert!(!store.contains(&a));
    assert!(store.contains(&c));
}

#[test]
fn storage_handle_forwards_reads() {
    let mut store = MemoryStore::new();
    let key = StoreKey::new(b"x/y".to_vec()).unwrap();
    store.set(&key, vec![5, 6, 7]);
    let handle = StorageHandle::new(&store);
    let again = handle.clone();
    assert!(handle.contains(&key));
    assert_eq!(again.size_key(&key), Some(3));
    assert_eq!(handle.list().len(), 1);
    assert_eq!(handle.list_prefix(&b"x/".to_vec()).len(), 1);
    assert_eq!(again.list_prefix(&b"z/".to_vec()).len(), 0);
}

#[test]
fn array_descriptor_validation() {
    // rank mismatch
    assert!(matches!(
        Array::new(
            vec![4],
            vec![2, 2],
            DataType::UInt16,
            vec![0, 0],
            ArrayToBytesCodec::Bytes,
            ChunkKeyEncoding::Default(b'/'),
        ),
        Err(ArrayError::InvalidChunkGridIndices)
    ));
    // fill value must be one element
    assert!(matches!(
        Array::new(
            vec![4, 4],
            vec![2, 2],
            DataType::UInt16,
            vec![0],
            ArrayToBytesCodec::Bytes,
            ChunkKeyEncoding::Default(b'/'),
        ),
        Err(ArrayError::InvalidBytesLength(1, 2))
    ));
    // a zero chunk extent is rejected
    assert!(Array::new(
        vec![4, 4],
        vec![2, 0],
        DataType::UInt16,
        vec![0, 0],
        ArrayToBytesCodec::Bytes,
        ChunkKeyEncoding::Default(b'/'),
    )
    .is_err());
    // the inner chunk shape must divide the chunk shape
    assert!(Array::new(
        vec![4, 4],
        vec![2, 2],
        DataType::UInt16,
        vec![0, 0],
        ArrayToBytesCodec::Sharding(ShardingCodecConfiguration {
            inner_chunk_shape: vec![3, 1],
            index_location: ShardingIndexLocation::End,
        }),
        ChunkKeyEncoding::Default(b'/'),
    )
    .is_err());
}

#[test]
fn engine_rejects_invalid_subsets() {
    let mut store = MemoryStore::new();
    let opt = CodecOptions::new(&Config::default());
    let array = sharded_test_array(ShardingIndexLocation::End);
    // out of the array's bounds
    assert!(matches!(
        array.store_array_subset(&mut store, &subset(&[(0, 5), (0, 1)]), &u16s_to_bytes(&[0; 5]), &opt),
        Err(ArrayError::SubsetOutOfBounds)
    ));
    assert!(matches!(
        array.retrieve_array_subset(&mut store, &subset(&[(0, 1), (2, 5)])),
        Err(ArrayError::SubsetOutOfBounds)
    ));
    // wrong element count
    assert!(matches!(
        array.store_array_subset(&mut store, &subset(&[(0, 1), (0, 1)]), &u16s_to_bytes(&[1, 2]), &opt),
        Err(ArrayError::InvalidBytesLength(4, 2))
    ));
    // a failed operation leaves the store unchanged
    assert_eq!(store.list().len(), 0);
}
