use redish::bloom::BloomFilter;
use redish::bytes::{bytes_equal, compare_bytes, KeyOrder};
use redish::cache::{CacheKey, LRUIndexCache, LRUValueCache};
use redish::clock::{Span, Timestamp};
use redish::compression::{CompressionConfig, CompressionType, Compressor};
use redish::data_value::DataValue;
use redish::directory::{Directory, DiskAction};
use redish::error::TreeError;
use redish::merge::{merge_tables, merge_two, retain_visible};
use redish::names::{parse_sstable_name, parse_wal_name, sstable_file_name, wal_file_name};
use redish::settings::{TreeSettings, TreeSettingsBuilder};
use redish::sstable::{
    find_key_in_index, load_index, load_sstable, read_bloom_filter, read_data_entry, read_footer,
    read_key_from_sstable, validate_header, validate_sstable, write_sstable, RunIndex,
};
use redish::table::Table;
use redish::transaction::{TransactionManager, TransactionStatus, VersionStamp};
use redish::tree::Tree;
use redish::wal::{
    encode_frame, has_checkpoint_at_end, read_entries, scan_frames, write_checkpoint, write_entry,
    WalOperation,
};

fn value(data: &[u8]) -> DataValue {
    DataValue::new_at(data.to_vec(), None, Timestamp::new(100, 0))
}

fn table_of(pairs: &[(&str, &str)]) -> Table {
    let mut table = Table::new();
    for (k, v) in pairs {
        table.insert(k.as_bytes().to_vec(), value(v.as_bytes()));
    }
    table
}

#[test]
fn byte_strings_compare_lexicographically() {
    assert_eq!(compare_bytes(b"a", b"b"), KeyOrder::Before);
    assert_eq!(compare_bytes(b"b", b"a"), KeyOrder::After);
    assert_eq!(compare_bytes(b"ab", b"ab"), KeyOrder::Same);
    assert_eq!(compare_bytes(b"a", b"ab"), KeyOrder::Before);
    assert_eq!(compare_bytes(b"", b""), KeyOrder::Same);
    assert_eq!(compare_bytes(b"k10", b"k9"), KeyOrder::Before);
    assert_eq!(compare_bytes(&[0xff], &[0x00, 0x01]), KeyOrder::After);
    assert!(bytes_equal(b"abc", b"abc"));
    assert!(!bytes_equal(b"abc", b"abd"));
    assert!(!bytes_equal(b"abc", b"ab"));
}

#[test]
fn timestamps_add_and_subtract() {
    let t = Timestamp::new(10, 900_000_000);
    assert_eq!(t.plus(&Span::new(1, 200_000_000)), Timestamp::new(12, 100_000_000));
    assert_eq!(Span::from_millis(1500), Span::new(1, 500_000_000));
    assert_eq!(t.total_nanos(), 10_900_000_000);
    assert!(Timestamp::new(11, 0).is_after(&t));
    assert!(!t.is_after(&t));
    assert_eq!(Timestamp::new(12, 0).remaining(&t), Some(Span::new(1, 100_000_000)));
    assert_eq!(t.remaining(&Timestamp::new(12, 0)), None);
    assert_eq!(t.remaining(&t), Some(Span::new(0, 0)));
    let far = Timestamp::new(u64::MAX, 0).plus(&Span::new(u64::MAX, 0));
    assert_eq!(far, Timestamp::new(u64::MAX, u32::MAX));
    assert_eq!(Timestamp::epoch(), Timestamp::new(0, 0));
}

#[test]
fn value_record_basics() {
    let v = DataValue::new(b"data".to_vec(), None);
    assert!(!v.is_empty());
    assert!(!v.is_expired());
    assert!(!v.is_tombstone());
    assert_eq!(v.get_data(), b"data");
    assert_eq!(v.expires_at, None);
    let t = DataValue::tombstone();
    assert!(t.is_tombstone());
    assert!(t.is_empty());
    assert_eq!(t.expires_at, None);
    let c = DataValue::checkpoint();
    assert!(!c.is_tombstone());
    assert!(c.is_empty());
    let e = DataValue::new(b"x".to_vec(), Some(std::time::Duration::from_secs(60)));
    assert!(e.expires_at.unwrap().total_nanos() >= e.created_at.total_nanos());
    assert!(!e.is_expired());
    let old = DataValue::new_at(b"x".to_vec(), Some(Span::new(1, 0)), Timestamp::new(5, 0));
    assert!(old.is_expired());
    assert!(!old.is_expired_at(&Timestamp::new(6, 0)));
    assert!(old.is_expired_at(&Timestamp::new(6, 1)));
    assert_eq!(old.duplicate().encode(), old.encode());
}

#[test]
fn value_record_encoding_is_refused_when_ill_formed() {
    let mut bytes = value(b"abc").encode();
    assert_eq!(bytes.len(), 46);
    bytes[0] = 2;
    assert!(matches!(DataValue::decode(&bytes), Err(TreeError::Serialization { .. })));
    bytes[0] = 0;
    bytes[5] = 1; // an expiry without its flag
    assert!(matches!(DataValue::decode(&bytes), Err(TreeError::Serialization { .. })));
    bytes[5] = 0;
    bytes.push(0); // one byte too many
    assert!(matches!(DataValue::decode(&bytes), Err(TreeError::Serialization { .. })));
    let t = DataValue::tombstone_at(Timestamp::new(9, 9));
    let back = DataValue::decode(&t.encode()).unwrap();
    assert!(back.is_tombstone);
    assert_eq!(back.created_at, Timestamp::new(9, 9));
}

#[test]
fn error_constructors_keep_kind_and_message() {
    assert!(matches!(TreeError::io("m"), TreeError::IoExtended { message } if message == "m"));
    assert!(matches!(TreeError::serialization("m"), TreeError::Serialization { .. }));
    assert!(matches!(TreeError::compression("m"), TreeError::Compression { .. }));
    assert!(matches!(TreeError::wal("m"), TreeError::Wal { .. }));
    assert!(matches!(TreeError::corruption("m"), TreeError::Corruption { .. }));
    assert!(matches!(TreeError::invalid_key("m"), TreeError::InvalidKey { .. }));
    assert!(matches!(TreeError::invalid_value("m"), TreeError::InvalidValue { .. }));
    assert!(matches!(TreeError::configuration("m"), TreeError::Configuration { .. }));
    assert!(matches!(TreeError::cache("m"), TreeError::Cache { .. }));
    assert!(matches!(TreeError::bloom_filter("m"), TreeError::BloomFilter { .. }));
    assert!(matches!(TreeError::internal("m"), TreeError::Internal { .. }));
    assert!(matches!(TreeError::transaction("m"), TreeError::Transaction { .. }));
    assert!(matches!(TreeError::system_time_error("m"), TreeError::SystemTimeError { .. }));
    assert_eq!(TreeError::wal("disk full").message(), "disk full");
}

#[test]
fn compression_presets() {
    let d = CompressionConfig::default();
    assert_eq!(d.compression_type, CompressionType::Uncompressed);
    assert_eq!(d.level, None);
    assert!(!d.enable_checksum);
    assert_eq!(d.buffer_size, 4096);
    let b = CompressionConfig::balanced();
    assert_eq!((b.compression_type, b.level, b.enable_checksum), (CompressionType::Lz4, Some(1), true));
    assert_eq!(CompressionConfig::fast().compression_type, CompressionType::Snappy);
    assert_eq!(CompressionConfig::fast().level, None);
    assert_eq!(CompressionConfig::best().level, Some(9));
    assert_eq!(CompressionConfig::best().compression_type, CompressionType::Zstd);
    assert_eq!(CompressionConfig::ultra().level, Some(19));
    assert_eq!(CompressionConfig::new(CompressionType::Zstd).level, Some(3));
    assert_eq!(CompressionConfig::none().compression_type, CompressionType::Uncompressed);
    let c = CompressionConfig::new(CompressionType::Lz4)
        .with_level(7)
        .with_checksum(false)
        .with_buffer_size(8192);
    assert_eq!((c.level, c.enable_checksum, c.buffer_size), (Some(7), false, 8192));
}

#[test]
fn every_codec_gives_back_what_it_took() {
    let repetitive: Vec<u8> = b"abcdefghij".iter().cycle().take(10_240).cloned().collect();
    let inputs: Vec<Vec<u8>> = vec![Vec::new(), b"x".to_vec(), repetitive.clone(), (0..=255u8).collect()];
    for config in [
        CompressionConfig::none(),
        CompressionConfig::balanced(),
        CompressionConfig::fast(),
        CompressionConfig::best(),
        CompressionConfig::new(CompressionType::Zstd).with_buffer_size(16).with_checksum(true),
        CompressionConfig::new(CompressionType::Zstd).with_buffer_size(16).with_checksum(false),
    ] {
        let codec = Compressor::new(config);
        for input in inputs.iter() {
            let packed = codec.compress(input).unwrap();
            assert_eq!(&codec.decompress(&packed).unwrap(), input);
        }
        let packed = codec.compress(&repetitive).unwrap();
        if config.compression_type == CompressionType::Uncompressed {
            assert_eq!(packed, repetitive);
        } else {
            assert!(packed.len() < repetitive.len() / 4);
        }
    }
}

#[test]
fn codecs_refuse_what_they_did_not_write() {
    let garbage = b"this is no compressed block at all, not in any format".to_vec();
    for kind in [CompressionType::Lz4, CompressionType::Zstd, CompressionType::Snappy] {
        let codec = Compressor::new(CompressionConfig::new(kind));
        let r = codec.decompress(&garbage);
        assert!(matches!(r, Err(TreeError::Compression { .. })), "{:?}", kind);
    }
    let plain = Compressor::new(CompressionConfig::none());
    assert_eq!(plain.decompress(&garbage).unwrap(), garbage);
}

#[test]
fn log_frames_carry_a_real_checksum() {
    let frame = encode_frame(WalOperation::Put, b"key", b"value").unwrap();
    assert_eq!(frame.len(), 13 + 3 + 5);
    assert_eq!(frame[4], 2);
    assert_eq!(&frame[5..9], &3u32.to_le_bytes());
    assert_eq!(&frame[9..12], b"key");
    assert_eq!(&frame[12..16], &5u32.to_le_bytes());
    assert_eq!(&frame[16..], b"value");
    assert_eq!(&frame[0..4], &crc32fast::hash(&frame[4..]).to_le_bytes());
    assert_eq!(WalOperation::Checkpoint.to_u8(), 1);
    assert_eq!(WalOperation::Put.to_u8(), 2);
    assert_eq!(WalOperation::Delete.to_u8(), 3);
    assert_eq!(WalOperation::from_u8(3), Some(WalOperation::Delete));
    assert_eq!(WalOperation::from_u8(0), None);
    assert_eq!(WalOperation::from_u8(4), None);
    let marker = write_checkpoint();
    assert_eq!(marker.len(), 19);
    assert_eq!(marker[4], 1);
    assert_eq!(&marker[9..15], b"CHCKPT");
}

#[test]
fn log_segments_read_back_what_was_written() {
    let v1 = value(b"one");
    let mut segment = Vec::new();
    segment.extend(write_entry(WalOperation::Put, b"a", Some(&v1)).unwrap());
    segment.extend(write_entry(WalOperation::Delete, b"b", None).unwrap());
    assert!(!has_checkpoint_at_end(&segment).unwrap());
    let frames = scan_frames(&segment).unwrap();
    assert_eq!(frames.len(), 2);
    assert_eq!(frames[0].key, b"a");
    assert_eq!(frames[0].value, v1.encode());
    assert_eq!(redish::wal::frames_length(&frames), segment.len());
    let entries = read_entries(&segment).unwrap();
    assert_eq!(entries.len(), 2);
    assert_eq!(entries[0].op, WalOperation::Put);
    assert_eq!(entries[0].value.as_ref().unwrap().data, b"one");
    assert_eq!(entries[1].op, WalOperation::Delete);
    assert!(entries[1].value.is_none());

    // a write that was cut short is dropped
    let whole = segment.len();
    segment.extend(write_entry(WalOperation::Put, b"c", Some(&v1)).unwrap());
    for cut in [whole + 1, whole + 8, whole + 12, segment.len() - 1] {
        assert_eq!(read_entries(&segment[..cut]).unwrap().len(), 2);
    }
    assert_eq!(read_entries(&segment).unwrap().len(), 3);

    // a last frame with a wrong checksum is a torn write, an earlier one is fatal
    let mut torn = segment.clone();
    let last = torn.len() - 1;
    torn[last] ^= 1;
    assert_eq!(read_entries(&torn).unwrap().len(), 2);
    let mut bad = segment.clone();
    bad[10] ^= 1;
    assert!(matches!(read_entries(&bad), Err(TreeError::Corruption { .. })));

    segment.extend(write_checkpoint());
    assert!(has_checkpoint_at_end(&segment).unwrap());
    assert!(!has_checkpoint_at_end(&[]).unwrap());
}

#[test]
fn log_refuses_unknown_operations_and_empty_puts() {
    let mut body = vec![9u8];
    body.extend(1u32.to_le_bytes());
    body.push(b'k');
    body.extend(0u32.to_le_bytes());
    let mut frame = crc32fast::hash(&body).to_le_bytes().to_vec();
    frame.extend(body);
    assert!(matches!(scan_frames(&frame), Err(TreeError::Wal { .. })));
    let empty_put = encode_frame(WalOperation::Put, b"k", b"").unwrap();
    assert!(matches!(read_entries(&empty_put), Err(TreeError::Wal { .. })));
    let bad_value = encode_frame(WalOperation::Put, b"k", b"xyz").unwrap();
    assert!(matches!(read_entries(&bad_value), Err(TreeError::Serialization { .. })));
}

#[test]
fn sorted_run_has_the_documented_layout() {
    let table = table_of(&[("b", "2"), ("a", "1"), ("c", "3")]);
    let (bytes, index) = write_sstable(&table, b"BLOOM").unwrap();
    assert_eq!(&bytes[0..4], b"SSTB");
    assert_eq!(&bytes[4..8], &2u32.to_le_bytes());
    assert_eq!(&bytes[8..16], &[0u8; 8]);
    let n = bytes.len();
    assert_eq!(&bytes[n - 4..], b"FTTB");
    let (index_offset, bloom_offset) = read_footer(&bytes).unwrap();
    assert_eq!(index_offset, u64::from_le_bytes(bytes[n - 20..n - 12].try_into().unwrap()));
    assert_eq!(read_bloom_filter(&bytes, bloom_offset).unwrap(), b"BLOOM");
    assert_eq!(bloom_offset as usize + 4 + 5 + 20, n);
    // the first data block: key length, key, value length, value, checksum
    assert_eq!(&bytes[16..20], &1u32.to_le_bytes());
    assert_eq!(bytes[20], b'a');
    let encoded = value(b"1").encode();
    assert_eq!(&bytes[21..25], &(encoded.len() as u32).to_le_bytes());
    assert_eq!(&bytes[25..25 + encoded.len()], &encoded[..]);
    let mut covered = b"a".to_vec();
    covered.extend(&encoded);
    let at = 25 + encoded.len();
    assert_eq!(&bytes[at..at + 4], &crc32fast::hash(&covered).to_le_bytes());
    // the index: count, then key and offset
    let io = index_offset as usize;
    assert_eq!(&bytes[io..io + 4], &3u32.to_le_bytes());
    assert_eq!(index.len(), 3);
    assert_eq!(index.key_at(0), b"a");
    assert_eq!(index.offset_at(0), 16);
    assert_eq!(index.find(b"b"), Some(16 + 12 + 1 + encoded.len() as u64));
    assert_eq!(index.find(b"bb"), None);
    assert!(validate_header(&bytes).is_ok());
    assert!(validate_sstable(&bytes));
}

#[test]
fn sorted_run_reads_back_what_was_written() {
    let mut table = Table::new();
    for i in 0..300 {
        table.insert(format!("key{:04}", i).into_bytes(), value(format!("value{}", i).as_bytes()));
    }
    table.insert(b"gone".to_vec(), DataValue::tombstone_at(Timestamp::new(7, 0)));
    let (bytes, _) = write_sstable(&table, b"").unwrap();
    let back = load_sstable(&bytes).unwrap();
    assert_eq!(back.len(), 301);
    for i in 0..back.len() {
        assert_eq!(back.key_at(i), table.key_at(i));
        assert_eq!(back.value_at(i).encode(), table.value_at(i).encode());
    }
    for i in [0, 1, 150, 299] {
        let key = format!("key{:04}", i);
        let found = read_key_from_sstable(&bytes, key.as_bytes()).unwrap().unwrap();
        assert_eq!(found.data, format!("value{}", i).into_bytes());
    }
    assert!(read_key_from_sstable(&bytes, b"gone").unwrap().unwrap().is_tombstone);
    assert!(read_key_from_sstable(&bytes, b"key").unwrap().is_none());
    assert!(read_key_from_sstable(&bytes, b"zzz").unwrap().is_none());
    let (index_offset, _) = read_footer(&bytes).unwrap();
    let offset = find_key_in_index(&bytes, index_offset, b"key0001").unwrap().unwrap();
    assert_eq!(read_data_entry(&bytes, offset, b"key0001").unwrap().data, b"value1");
    assert!(matches!(
        read_data_entry(&bytes, offset, b"key0002"),
        Err(TreeError::Corruption { .. })
    ));
    let index: RunIndex = load_index(&bytes).unwrap();
    assert_eq!(index.duplicate().len(), 301);
}

#[test]
fn damaged_sorted_runs_are_refused() {
    let table = table_of(&[("a", "1"), ("b", "2")]);
    let (bytes, _) = write_sstable(&table, b"xx").unwrap();
    let mut bad_magic = bytes.clone();
    bad_magic[0] = b'X';
    assert!(matches!(validate_header(&bad_magic), Err(TreeError::Corruption { .. })));
    assert!(!validate_sstable(&bad_magic));
    let mut bad_version = bytes.clone();
    bad_version[4] = 1;
    assert!(!validate_sstable(&bad_version));
    let mut bad_footer = bytes.clone();
    let n = bad_footer.len();
    bad_footer[n - 1] = b'X';
    assert!(matches!(read_footer(&bad_footer), Err(TreeError::Corruption { .. })));
    let mut bad_block = bytes.clone();
    bad_block[30] ^= 0xff; // inside the value of the first data block
    assert!(validate_sstable(&bad_block));
    assert!(matches!(
        read_key_from_sstable(&bad_block, b"a"),
        Err(TreeError::Corruption { .. })
    ));
    assert_eq!(read_key_from_sstable(&bad_block, b"b").unwrap().unwrap().data, b"2");
    assert!(load_sstable(&bad_block).is_err());
    assert!(!validate_sstable(&bytes[..10]));
    assert!(load_index(&bytes[..bytes.len() - 25]).is_err());
}

#[test]
fn bloom_filter_never_says_no_to_a_key_it_holds() {
    let mut table = Table::new();
    for i in 0..5000 {
        table.insert(format!("key{}", i).into_bytes(), value(b"v"));
    }
    let filter = BloomFilter::from_table(&table).unwrap();
    for i in 0..5000 {
        assert!(filter.contains(format!("key{}", i).as_bytes()));
    }
    let misses = (0..5000).filter(|i| !filter.contains(format!("other{}", i).as_bytes())).count();
    assert!(misses > 4500);
    let bytes = filter.to_bytes().unwrap();
    assert_eq!(bytes[0], b'{');
    let (run, index) = write_sstable(&table, &bytes).unwrap();
    let (_, bloom_offset) = read_footer(&run).unwrap();
    assert_eq!(read_bloom_filter(&run, bloom_offset).unwrap(), bytes);
    let rebuilt = BloomFilter::from_index(&index).unwrap();
    for i in 0..5000 {
        assert!(rebuilt.contains(format!("key{}", i).as_bytes()));
    }
    let empty = BloomFilter::from_table(&Table::new()).unwrap();
    assert!(!empty.contains(b"anything"));
}

#[test]
fn ordered_table_keeps_one_record_per_key() {
    let mut table = Table::new();
    assert!(table.is_empty());
    table.insert(b"b".to_vec(), value(b"1"));
    table.insert(b"a".to_vec(), value(b"2"));
    table.insert(b"b".to_vec(), value(b"3"));
    assert_eq!(table.len(), 2);
    assert_eq!(table.key_at(0), b"a");
    assert_eq!(table.get(b"b").unwrap().data, b"3");
    assert!(table.contains_key(b"a"));
    assert!(table.get(b"c").is_none());
    assert_eq!(table.search(b"b"), (true, 1));
    assert_eq!(table.search(b"ab"), (false, 1));
    assert_eq!(table.remove(b"a").unwrap().data, b"2");
    assert!(table.remove(b"a").is_none());
    table.push(b"c".to_vec(), value(b"4"));
    assert_eq!(table.duplicate().len(), 2);
    let taken = table.take();
    assert_eq!(taken.len(), 2);
    assert_eq!(table.len(), 0);
    table.insert(b"x".to_vec(), value(b"5"));
    table.clear();
    assert!(table.is_empty());
}

#[test]
fn merge_keeps_the_newest_visible_record() {
    let now = Timestamp::new(1_000, 0);
    let mut oldest = table_of(&[("a", "a0"), ("b", "b0"), ("c", "c0"), ("e", "e0")]);
    oldest.insert(b"x".to_vec(), DataValue::new_at(b"x0".to_vec(), Some(Span::new(10, 0)), Timestamp::new(0, 0)));
    let mut middle = table_of(&[("b", "b1"), ("d", "d1")]);
    middle.insert(b"c".to_vec(), DataValue::tombstone_at(Timestamp::new(500, 0)));
    let mut newest = table_of(&[("a", "a2")]);
    newest.insert(b"e".to_vec(), value(b""));
    newest.insert(b"y".to_vec(), DataValue::new_at(b"y2".to_vec(), Some(Span::new(10, 0)), Timestamp::new(995, 0)));

    let pair = merge_two(&oldest, &middle);
    assert_eq!(pair.len(), 6);
    assert_eq!(pair.get(b"b").unwrap().data, b"b1");
    assert!(pair.get(b"c").unwrap().is_tombstone);

    let merged = merge_tables(&vec![oldest, middle, newest], &now);
    let keys: Vec<&[u8]> = (0..merged.len()).map(|i| merged.key_at(i)).collect();
    assert_eq!(keys, vec![&b"a"[..], b"b", b"d", b"y"]);
    assert_eq!(merged.get(b"a").unwrap().data, b"a2");
    assert_eq!(merged.get(b"b").unwrap().data, b"b1");
    assert_eq!(merged.get(b"d").unwrap().data, b"d1");
    // c was deleted, e was emptied, x is expired
    assert!(merged.get(b"c").is_none());
    assert!(merged.get(b"e").is_none());
    assert!(merged.get(b"x").is_none());
    let later = retain_visible(&merged, &Timestamp::new(2_000, 0));
    assert!(later.get(b"y").is_none());
    assert_eq!(later.len(), 3);
}

#[test]
fn value_cache_evicts_the_least_recently_used() {
    let mut cache = LRUValueCache::new(3, 1_000_000);
    let path = "sstable_0.sst".to_string();
    for key in ["a", "b", "c"] {
        cache.put(path.clone(), key.as_bytes().to_vec(), value(key.as_bytes()));
    }
    assert_eq!(cache.len(), 3);
    assert_eq!(cache.get(&path, b"a").unwrap().data, b"a");
    cache.put(path.clone(), b"d".to_vec(), value(b"d"));
    assert_eq!(cache.len(), 3);
    assert!(cache.get(&path, b"b").is_none());
    assert!(cache.get(&path, b"a").is_some());
    assert!(cache.get(&"sstable_1.sst".to_string(), b"a").is_none());
    let stats = cache.stats();
    assert_eq!((stats.size, stats.hit_count, stats.miss_count, stats.eviction_count), (3, 2, 2, 1));
    assert_eq!(stats.hit_rate_percent(), 50);
    assert_eq!(stats.memory_usage, 3 * 81);
    assert_eq!(stats.memory_limit, 1_000_000);
    assert_eq!(stats.memory_utilization_percent(), 0);
    cache.put(path.clone(), b"a".to_vec(), value(b"longer value"));
    assert_eq!(cache.len(), 3);
    assert_eq!(cache.get(&path, b"a").unwrap().data, b"longer value");
    cache.remove(&path, b"a");
    assert_eq!(cache.len(), 2);
    assert!(cache.evict_lru());
    cache.move_to_back(&CacheKey { sstable_path: path.clone(), key: b"d".to_vec() });
    cache.clear();
    assert_eq!(cache.len(), 0);
    assert!(!cache.evict_lru());
    assert_eq!(cache.stats().hit_count, 0);
}

#[test]
fn value_cache_respects_its_memory_limit() {
    let mut cache = LRUValueCache::new(100, 200);
    let path = "p".to_string();
    cache.put(path.clone(), b"a".to_vec(), value(&[0u8; 10])); // 90 bytes
    cache.put(path.clone(), b"b".to_vec(), value(&[0u8; 10])); // 180 bytes
    assert_eq!(cache.stats().memory_usage, 180);
    cache.put(path.clone(), b"c".to_vec(), value(&[0u8; 10]));
    assert_eq!(cache.len(), 2);
    assert!(cache.get(&path, b"a").is_none());
    assert_eq!(cache.stats().memory_usage, 180);
    // a value that is larger than the limit on its own is not cached,
    // and what was cached had to make room in vain
    cache.put(path.clone(), b"big".to_vec(), value(&[0u8; 500]));
    assert_eq!(cache.len(), 0);
    assert!(cache.get(&path, b"big").is_none());
    let mut none = LRUValueCache::new(0, 1000);
    none.put(path.clone(), b"a".to_vec(), value(b"1"));
    assert_eq!(none.len(), 0);
    let d = LRUValueCache::default();
    assert_eq!(d.stats().memory_limit, 200 * 1024 * 1024);
}

#[test]
fn value_cache_follows_renamed_and_merged_runs() {
    let mut cache = LRUValueCache::new(10, 1_000_000);
    let zero = "sstable_0.sst".to_string();
    let five = "sstable_5.sst".to_string();
    cache.put(five.clone(), b"a".to_vec(), value(b"new"));
    cache.put(zero.clone(), b"a".to_vec(), value(b"stale"));
    cache.put(five.clone(), b"b".to_vec(), value(b"b"));
    cache.rename_sstable(&five, &zero);
    assert_eq!(cache.len(), 2);
    assert_eq!(cache.get(&zero, b"a").unwrap().data, b"new");
    assert_eq!(cache.get(&zero, b"b").unwrap().data, b"b");
    assert!(cache.get(&five, b"a").is_none());
    cache.put(five.clone(), b"c".to_vec(), value(b"c"));
    cache.invalidate_sstable(&zero);
    assert_eq!(cache.len(), 1);
    assert!(cache.get(&five, b"c").is_some());
}

#[test]
fn index_cache_behaves_as_documented() {
    let table = table_of(&[("a", "1"), ("b", "2")]);
    let (_, index) = write_sstable(&table, b"").unwrap();
    let size = LRUIndexCache::estimate_index_size(&index);
    assert_eq!(size, 24 + 2 * (60 + 2));
    let mut cache = LRUIndexCache::new(2, 10_000);
    assert!(cache.is_empty());
    let first = "sstable_0.sst".to_string();
    let second = "sstable_1.sst".to_string();
    let third = "sstable_2.sst".to_string();
    cache.put(first.clone(), index.duplicate());
    cache.put(second.clone(), index.duplicate());
    assert_eq!(cache.cached_paths(), vec![first.clone(), second.clone()]);
    assert!(cache.contains_key(&first));
    assert_eq!(cache.cached_paths(), vec![second.clone(), first.clone()]);
    cache.put(third.clone(), index.duplicate());
    assert_eq!(cache.len(), 2);
    assert!(!cache.contains_key(&second));
    assert_eq!(cache.get(&third).unwrap().find(b"a"), Some(16));
    assert_eq!(cache.stats().memory_usage, 2 * size);
    cache.resize(1, 10_000);
    assert_eq!(cache.cached_paths(), vec![third.clone()]);
    cache.resize(5, 10);
    assert!(cache.is_empty());
    cache.resize(5, 10_000);
    for p in [&first, &second, &third] {
        cache.put(p.clone(), index.duplicate());
    }
    assert_eq!(cache.evict_n(2), 2);
    assert_eq!(cache.evict_n(5), 1);
    assert_eq!(cache.evict_n(1), 0);
    cache.put(first.clone(), index.duplicate());
    assert!(cache.remove(&first).is_some());
    assert!(cache.remove(&first).is_none());
    cache.put(first.clone(), index.duplicate());
    cache.move_to_back(&first);
    cache.invalidate(&first);
    assert!(cache.is_empty());
    assert!(!cache.evict_lru());
    cache.clear();
    assert_eq!(LRUIndexCache::default().stats().memory_limit, 100 * 1024 * 1024);
}

#[test]
fn file_names_are_written_and_read() {
    assert_eq!(sstable_file_name(0), "sstable_0.sst");
    assert_eq!(sstable_file_name(1234567890123), "sstable_1234567890123.sst");
    assert_eq!(sstable_file_name(u64::MAX), "sstable_18446744073709551615.sst");
    assert_eq!(wal_file_name(1), "wal_0001.log");
    assert_eq!(wal_file_name(0), "wal_0000.log");
    assert_eq!(wal_file_name(9999), "wal_9999.log");
    assert_eq!(wal_file_name(65535), "wal_65535.log");
    assert_eq!(parse_sstable_name("sstable_42.sst"), Some(42));
    assert_eq!(parse_sstable_name("sstable_007.sst"), Some(7));
    assert_eq!(parse_sstable_name("sstable_18446744073709551615.sst"), Some(u64::MAX));
    assert_eq!(parse_sstable_name("sstable_18446744073709551616.sst"), None);
    assert_eq!(parse_sstable_name("sstable_.sst"), None);
    assert_eq!(parse_sstable_name("sstable_4x.sst"), None);
    assert_eq!(parse_sstable_name("sstable_4.sstx"), None);
    assert_eq!(parse_sstable_name("table_4.sst"), None);
    assert_eq!(parse_sstable_name(".sst"), None);
    assert_eq!(parse_sstable_name("sstable_\u{663}.sst"), None);
    assert_eq!(parse_wal_name("wal_0001.log"), Some(1));
    assert_eq!(parse_wal_name("wal_65535.log"), Some(65535));
    assert_eq!(parse_wal_name("wal_65536.log"), None);
    assert_eq!(parse_wal_name("wal.log"), None);
    assert_eq!(parse_wal_name("wal_temp.log"), None);
}

#[test]
fn directory_lists_every_change() {
    let mut dir = Directory::new();
    let a = "a".to_string();
    let b = "b".to_string();
    dir.load(&a, b"12".to_vec());
    assert!(dir.take_pending().is_empty());
    dir.append(&a, b"34".to_vec());
    dir.append(&b, b"x".to_vec());
    dir.write(a.clone(), b"new".to_vec());
    dir.rename(&a, &b);
    dir.rename(&a, &b);
    dir.remove(&b);
    assert!(!dir.contains(&a));
    assert!(!dir.contains(&b));
    assert_eq!(dir.size_of(&a), 0);
    let actions = dir.take_pending();
    assert_eq!(actions.len(), 5);
    assert!(matches!(&actions[0], DiskAction::Append { name, bytes } if name == "a" && bytes == b"34"));
    assert!(matches!(&actions[1], DiskAction::Append { name, .. } if name == "b"));
    assert!(matches!(&actions[2], DiskAction::Write { name, bytes } if name == "a" && bytes == b"new"));
    assert!(matches!(&actions[3], DiskAction::Rename { from, to } if from == "a" && to == "b"));
    assert!(matches!(&actions[4], DiskAction::Remove { name } if name == "b"));
    dir.append(&a, b"12".to_vec());
    dir.append(&a, b"34".to_vec());
    assert_eq!(dir.read(&a).unwrap(), b"1234");
    assert_eq!(dir.size_of(&a), 4);
}

#[test]
fn settings_defaults_and_builder() {
    let d = TreeSettings::default();
    assert_eq!(d.db_path, "./db");
    assert_eq!(d.mem_table_max_size, 10000);
    assert!(d.enable_wal && d.enable_bloom_filter_cache && d.enable_index_cache && d.enable_value_cache);
    assert_eq!(d.wal_max_size, 10 * 1024 * 1024);
    assert_eq!((d.index_cache_max_capacity, d.index_cache_memory_limit), (100, 100 * 1024 * 1024));
    assert_eq!((d.value_cache_max_capacity, d.value_cache_memory_limit), (200_000, 200 * 1024 * 1024));
    assert_eq!(d.compressor.config, CompressionConfig::balanced());
    assert!(d.validate().is_ok());
    let s = TreeSettingsBuilder::new()
        .db_path("/tmp/x")
        .mem_table_max_size(5)
        .bloom_filter_cache(false)
        .index_cache(false)
        .value_cache(false)
        .wal(false)
        .wal_max_size(99)
        .index_cache_memory_limit(1)
        .index_cache_max_capacity(2)
        .value_cache_memory_limit(3)
        .value_cache_max_capacity(4)
        .compressor(CompressionConfig::fast())
        .build();
    assert_eq!(s.db_path, "/tmp/x");
    assert_eq!(s.mem_table_max_size, 5);
    assert!(!s.enable_wal && !s.enable_bloom_filter_cache && !s.enable_index_cache && !s.enable_value_cache);
    assert_eq!(s.wal_max_size, 99);
    assert_eq!((s.index_cache_memory_limit, s.index_cache_max_capacity), (1, 2));
    assert_eq!((s.value_cache_memory_limit, s.value_cache_max_capacity), (3, 4));
    assert_eq!(s.compressor.config.compression_type, CompressionType::Snappy);
    assert_eq!(s.duplicate().db_path, "/tmp/x");
    assert_eq!(TreeSettingsBuilder::new().build().db_path, "./db");
}

#[test]
fn transaction_manager_stamps_and_validates() {
    let now = Timestamp::new(50, 0);
    let mut m = TransactionManager::new();
    assert_eq!(m.global_version(), 1);
    let t1 = m.begin_transaction().unwrap();
    let t2 = m.begin_transaction().unwrap();
    assert_eq!((t1, t2), (1, 2));
    assert!(m.is_active(t1));
    m.write_transaction(t1, b"k".to_vec(), value(b"1")).unwrap();
    m.write_transaction(t1, b"j".to_vec(), value(b"1")).unwrap();
    m.record_read(t2, b"k").unwrap();
    assert!(m.validate_transaction(t1).unwrap());
    assert!(m.validate_transaction(t2).unwrap());
    assert_eq!(m.local_value(t1, b"k").unwrap().unwrap().data, b"1");
    assert!(m.local_value(t2, b"k").unwrap().is_none());
    assert_eq!(m.write_set_of(t1).unwrap().len(), 2);
    m.apply_transaction_changes(t1, now).unwrap();
    // the keys are stamped in ascending order
    assert_eq!(m.key_version(b"j"), Some(VersionStamp { version: 2, timestamp: now }));
    assert_eq!(m.key_version(b"k"), Some(VersionStamp { version: 3, timestamp: now }));
    assert_eq!(m.global_version(), 3);
    assert_eq!(m.key_version_count(), 2);
    m.finalize_transaction(t1).unwrap();
    assert!(!m.is_active(t1));
    // the other transaction saw k before and cannot commit any more
    assert!(!m.validate_transaction(t2).unwrap());
    m.rollback_transaction(t2).unwrap();
    assert!(matches!(m.validate_transaction(t2), Err(TreeError::Transaction { .. })));
    assert!(matches!(
        m.write_transaction(t2, b"k".to_vec(), value(b"2")),
        Err(TreeError::Transaction { .. })
    ));
    assert!(matches!(m.record_read(7, b"k"), Err(TreeError::Transaction { .. })));
    assert!(matches!(m.apply_transaction_changes(7, now), Err(TreeError::Transaction { .. })));
    // a transaction that starts now sees the stamp of today and may commit
    let t3 = m.begin_transaction().unwrap();
    m.record_read(t3, b"k").unwrap();
    assert!(m.validate_transaction(t3).unwrap());
    assert_eq!(TransactionStatus::Active, TransactionStatus::Active);
}

#[test]
fn settings_take_another_path_and_another_limit() {
    let settings = TreeSettings::default().with_db_path("./elsewhere").with_mem_table_max_size(17);
    assert_eq!(settings.db_path, "./elsewhere");
    assert_eq!(settings.mem_table_max_size, 17);
    assert_eq!(settings.enable_wal, TreeSettings::default().enable_wal);
    assert_eq!(settings.wal_max_size, TreeSettings::default().wal_max_size);
}

#[test]
fn cache_statistics_of_a_new_engine_are_empty() {
    let tree = Tree::new().unwrap();
    let stats = tree.get_cache_stats();
    assert_eq!(stats.size, 0);
    assert_eq!(stats.hit_count, 0);
    assert_eq!(stats.miss_count, 0);
    assert_eq!(stats.memory_usage, 0);
    assert_eq!(tree.get_index_cache_stats().size, 0);
    assert_eq!(tree.get_value_cache_stats().size, 0);
}

#[test]
fn a_merged_run_is_made_from_what_the_serializer_gave() {
    let mut table = Table::new();
    for i in 0..20 {
        table.insert(format!("key{:02}", i).into_bytes(), value(format!("v{}", i).as_bytes()));
    }
    let filter = BloomFilter::from_table(&table).unwrap();
    let json = filter.to_bytes().unwrap();
    assert_eq!(json.first(), Some(&b'{'));
    assert_eq!(filter.to_bytes().unwrap(), json);
    let run = redish::tree::merged_run(&table, filter, Ok(json.clone())).unwrap();
    assert!(validate_sstable(&run.bytes));
    assert_eq!(run.index.len(), 20);
    let (_, bloom_offset) = read_footer(&run.bytes).unwrap();
    assert_eq!(read_bloom_filter(&run.bytes, bloom_offset).unwrap(), json);
    assert!(run.filter.contains(b"key07"));
    let back = load_sstable(&run.bytes).unwrap();
    assert_eq!(back.len(), 20);

    let other = BloomFilter::from_table(&table).unwrap();
    let refused = redish::tree::merged_run(
        &table,
        other,
        Err(TreeError::bloom_filter("the serializer refused")),
    );
    match refused {
        Err(TreeError::BloomFilter { message }) => assert_eq!(message, "the serializer refused"),
        _ => panic!("the failure of the serializer must come back as it is"),
    }
}

#[test]
fn a_filter_answers_the_same_for_the_same_key() {
    let mut table = Table::new();
    for i in 0..50 {
        table.insert(format!("key{}", i).into_bytes(), value(b"v"));
    }
    let first = BloomFilter::from_table(&table).unwrap();
    let second = BloomFilter::from_table(&table).unwrap();
    for i in 0..200 {
        let key = format!("other{}", i).into_bytes();
        assert_eq!(first.contains(&key), second.contains(&key));
        assert_eq!(first.contains(&key), first.contains(&key));
    }
    for i in 0..50 {
        assert!(first.contains(format!("key{}", i).as_bytes()));
    }
}
