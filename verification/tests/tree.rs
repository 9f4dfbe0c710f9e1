use redish::clock::{Span, Timestamp};
use redish::compression::{CompressionConfig, CompressionType};
use redish::directory::{DiskAction, FileEntry};
use redish::error::{TreeError, TreeResult};
use redish::settings::{TreeSettings, TreeSettingsBuilder};
use redish::tree::Tree;
use std::time::{Duration, SystemTime, UNIX_EPOCH};

const DEFAULT_DB_PATH: &str = "./db";

/// A directory in memory that stands for the file system: the changes that
/// the engine lists are carried out on it.
struct Disk {
    files: Vec<(String, Vec<u8>)>,
}

impl Disk {
    fn new() -> Self {
        Disk { files: Vec::new() }
    }

    fn position(&self, name: &str) -> Option<usize> {
        self.files.iter().position(|(n, _)| n == name)
    }

    fn carry_out(&mut self, actions: Vec<DiskAction>) {
        for action in actions {
            match action {
                DiskAction::Write { name, bytes } => match self.position(&name) {
                    Some(i) => self.files[i].1 = bytes,
                    None => self.files.push((name, bytes)),
                },
                DiskAction::Append { name, bytes } => match self.position(&name) {
                    Some(i) => self.files[i].1.extend_from_slice(&bytes),
                    None => self.files.push((name, bytes)),
                },
                DiskAction::Remove { name } => {
                    if let Some(i) = self.position(&name) {
                        self.files.remove(i);
                    }
                }
                DiskAction::Rename { from, to } => {
                    if let Some(i) = self.position(&from) {
                        let bytes = self.files.remove(i).1;
                        match self.position(&to) {
                            Some(j) => self.files[j].1 = bytes,
                            None => self.files.push((to, bytes)),
                        }
                    }
                }
            }
        }
    }

    fn listing(&self) -> Vec<FileEntry> {
        self.files
            .iter()
            .map(|(name, bytes)| FileEntry { name: name.clone(), bytes: bytes.clone() })
            .collect()
    }

    fn names(&self) -> Vec<String> {
        let mut names: Vec<String> = self.files.iter().map(|(n, _)| n.clone()).collect();
        names.sort();
        names
    }
}

/// A small generator of repeatable pseudo-random numbers.
struct Dice {
    state: u64,
}

impl Dice {
    fn new(seed: u64) -> Self {
        Dice { state: seed }
    }

    fn roll(&mut self) -> u64 {
        self.state = self.state.wrapping_mul(6364136223846793005).wrapping_add(1442695040888963407);
        self.state >> 33
    }

    fn below(&mut self, n: u64) -> u64 {
        self.roll() % n
    }

    fn letters(&mut self, length: usize) -> String {
        (0..length).map(|_| (b'a' + self.below(26) as u8) as char).collect()
    }
}

fn generate_realistic_value(dice: &mut Dice, pattern: &str, size: usize) -> String {
    match pattern {
        "user_data" => format!(
            "{{\"id\":{},\"name\":\"{}\",\"email\":\"{}\",\"created_at\":\"{}\",\"active\":{}}}",
            1 + dice.below(999_999),
            dice.letters(10),
            dice.letters(15),
            "2024-01-01 00:00:00",
            dice.below(10) < 8
        ),
        _ => dice.letters(size),
    }
}

fn generate_compressible_data(base_length: usize) -> String {
    let patterns = vec!["AAAAAAAAAA", "BBBBBBBBBB", "CCCCCCCCCC", "1234567890", "abcdefghij"];
    let mut result = String::new();
    for i in 0..base_length / 10 {
        result.push_str(patterns[i % patterns.len()]);
    }
    result
}

fn encode_string(value: &str) -> Vec<u8> {
    bincode::encode_to_vec(value, bincode::config::standard()).unwrap()
}

fn decode_string(bytes: &[u8]) -> String {
    let (value, _): (String, usize) =
        bincode::decode_from_slice(bytes, bincode::config::standard()).unwrap();
    value
}

fn put_typed(tree: &mut Tree, key: &str, value: &str) -> TreeResult<()> {
    tree.put(key.as_bytes().to_vec(), encode_string(value))
}

fn get_typed(tree: &mut Tree, key: &str) -> TreeResult<Option<String>> {
    Ok(tree.get(key.as_bytes())?.map(|bytes| decode_string(&bytes)))
}

fn load(settings: TreeSettings) -> TreeResult<Tree> {
    Tree::load_with_settings(settings, Vec::new())
}

fn clock() -> Timestamp {
    let d = SystemTime::now().duration_since(UNIX_EPOCH).unwrap();
    Timestamp::new(d.as_secs(), d.subsec_nanos())
}

#[test]
fn test_commit_transaction_with_key_versions() {
    let mut tree = load(TreeSettingsBuilder::new().mem_table_max_size(1000).build()).unwrap();

    let tx_id1 = tree.begin_transaction().unwrap();
    tree.put_tx(tx_id1, b"key1".to_vec(), b"value1".to_vec(), None).unwrap();
    tree.put_tx(tx_id1, b"key2".to_vec(), b"value2".to_vec(), None).unwrap();

    let key_versions_before = tree.transaction_manager().key_versions();
    assert!(key_versions_before.is_empty(), "key_versions should be empty before commit");

    tree.commit_transaction(tx_id1).unwrap();

    let after_first = tree.transaction_manager().key_versions();
    assert_eq!(after_first.len(), 2, "Should have 2 key versions after first commit");
    let key1_version_1 = tree.transaction_manager().key_version(b"key1").unwrap().version;
    let key2_version_1 = tree.transaction_manager().key_version(b"key2").unwrap().version;
    assert!(key1_version_1 > 0, "key1 version should be greater than 0");
    assert!(key2_version_1 > 0, "key2 version should be greater than 0");

    let tx_id2 = tree.begin_transaction().unwrap();
    tree.put_tx(tx_id2, b"key1".to_vec(), b"updated_value1".to_vec(), None).unwrap();
    tree.put_tx(tx_id2, b"key3".to_vec(), b"value3".to_vec(), None).unwrap();
    tree.commit_transaction(tx_id2).unwrap();

    let key_versions_final = tree.transaction_manager().key_versions();
    assert_eq!(key_versions_final.len(), 3, "Should have 3 key versions after second commit");
    assert!(tree.transaction_manager().key_version(b"key1").is_some());
    assert!(tree.transaction_manager().key_version(b"key2").is_some());
    assert!(tree.transaction_manager().key_version(b"key3").is_some());

    let key1_version_2 = tree.transaction_manager().key_version(b"key1").unwrap().version;
    let key2_version_final = tree.transaction_manager().key_version(b"key2").unwrap().version;
    let key3_version_1 = tree.transaction_manager().key_version(b"key3").unwrap().version;

    assert!(key1_version_2 > key1_version_1, "key1 version should increase after update");
    assert_eq!(key2_version_final, key2_version_1, "key2 version should remain unchanged");
    assert!(key3_version_1 > 0, "key3 version should be greater than 0");

    let global_version = tree.transaction_manager().global_version();
    let max_key_version =
        *[key1_version_2, key2_version_final, key3_version_1].iter().max().unwrap();
    assert_eq!(global_version, max_key_version, "Global version should match maximum key version");

    let now = clock();
    for (key, version_stamp) in key_versions_final.iter() {
        assert!(
            version_stamp.timestamp.total_nanos() <= now.total_nanos(),
            "Timestamp for key {:?} should not be in the future",
            String::from_utf8_lossy(key)
        );
    }
}

#[test]
fn test_basic_transaction() {
    let mut tree = load(TreeSettingsBuilder::new().mem_table_max_size(1000).build()).unwrap();

    let tx_id = tree.begin_transaction().unwrap();
    tree.put_tx(tx_id, b"key1".to_vec(), b"value1".to_vec(), None).unwrap();
    tree.put_tx(tx_id, b"key2".to_vec(), b"value2".to_vec(), None).unwrap();
    let result1 = tree.get_tx(tx_id, b"key1").unwrap();
    assert_eq!(result1, Some(b"value1".to_vec()));
    let result2 = tree.get_tx(tx_id, b"key2").unwrap();
    assert_eq!(result2, Some(b"value2".to_vec()));

    let external_result = tree.get(b"key1").unwrap();
    assert_eq!(external_result, None);

    tree.commit_transaction(tx_id).unwrap();
    let committed_result1 = tree.get(b"key1").unwrap();
    assert_eq!(committed_result1, Some(b"value1".to_vec()));

    let committed_result2 = tree.get(b"key2").unwrap();
    assert_eq!(committed_result2, Some(b"value2".to_vec()));
}

#[test]
fn test_transaction_rollback() {
    let mut tree = load(TreeSettingsBuilder::new().mem_table_max_size(1000).build()).unwrap();

    tree.put(b"existing_key".to_vec(), b"existing_value".to_vec()).unwrap();

    let tx_id = tree.begin_transaction().unwrap();

    tree.put_tx(tx_id, b"new_key1".to_vec(), b"new_value1".to_vec(), None).unwrap();
    tree.put_tx(tx_id, b"new_key2".to_vec(), b"new_value2".to_vec(), None).unwrap();
    tree.put_tx(tx_id, b"existing_key".to_vec(), b"modified_value".to_vec(), None).unwrap();

    let tx_result = tree.get_tx(tx_id, b"existing_key").unwrap();
    assert_eq!(tx_result, Some(b"modified_value".to_vec()));

    tree.rollback_transaction(tx_id).unwrap();

    let result1 = tree.get(b"new_key1").unwrap();
    assert_eq!(result1, None);
    let result2 = tree.get(b"new_key2").unwrap();
    assert_eq!(result2, None);
    let existing_result = tree.get(b"existing_key").unwrap();
    assert_eq!(existing_result, Some(b"existing_value".to_vec()));
}

#[test]
fn test_transaction_isolation() {
    let mut tree = load(TreeSettingsBuilder::new().mem_table_max_size(1000).build()).unwrap();

    tree.put(b"shared_key".to_vec(), b"original_value".to_vec()).unwrap();

    let tx1_id = tree.begin_transaction().unwrap();
    let tx2_id = tree.begin_transaction().unwrap();

    tree.put_tx(tx1_id, b"shared_key".to_vec(), b"tx1_value".to_vec(), None).unwrap();
    tree.put_tx(tx1_id, b"tx1_only".to_vec(), b"tx1_data".to_vec(), None).unwrap();

    tree.put_tx(tx2_id, b"shared_key".to_vec(), b"tx2_value".to_vec(), None).unwrap();
    tree.put_tx(tx2_id, b"tx2_only".to_vec(), b"tx2_data".to_vec(), None).unwrap();

    let tx1_shared = tree.get_tx(tx1_id, b"shared_key").unwrap();
    assert_eq!(tx1_shared, Some(b"tx1_value".to_vec()));

    let tx2_shared = tree.get_tx(tx2_id, b"shared_key").unwrap();
    assert_eq!(tx2_shared, Some(b"tx2_value".to_vec()));

    let tx1_sees_tx2 = tree.get_tx(tx1_id, b"tx2_only").unwrap();
    assert_eq!(tx1_sees_tx2, None);

    let tx2_sees_tx1 = tree.get_tx(tx2_id, b"tx1_only").unwrap();
    assert_eq!(tx2_sees_tx1, None);

    tree.commit_transaction(tx1_id).unwrap();

    let global_shared = tree.get(b"shared_key").unwrap();
    assert_eq!(global_shared, Some(b"tx1_value".to_vec()));

    let global_tx1_only = tree.get(b"tx1_only").unwrap();
    assert_eq!(global_tx1_only, Some(b"tx1_data".to_vec()));

    let tx2_still_sees = tree.get_tx(tx2_id, b"shared_key").unwrap();
    assert_eq!(tx2_still_sees, Some(b"tx2_value".to_vec()));

    tree.rollback_transaction(tx2_id).unwrap();

    let final_shared = tree.get(b"shared_key").unwrap();
    assert_eq!(final_shared, Some(b"tx1_value".to_vec()));

    let final_tx2_only = tree.get(b"tx2_only").unwrap();
    assert_eq!(final_tx2_only, None);
}

#[test]
fn test_transaction_update_existing() {
    let mut tree = load(TreeSettingsBuilder::new().mem_table_max_size(1000).build()).unwrap();

    tree.put(b"update_key".to_vec(), b"original".to_vec()).unwrap();

    let tx_id = tree.begin_transaction().unwrap();

    let original = tree.get_tx(tx_id, b"update_key").unwrap();
    assert_eq!(original, Some(b"original".to_vec()));

    tree.put_tx(tx_id, b"update_key".to_vec(), b"updated".to_vec(), None).unwrap();

    let updated = tree.get_tx(tx_id, b"update_key").unwrap();
    assert_eq!(updated, Some(b"updated".to_vec()));

    let global = tree.get(b"update_key").unwrap();
    assert_eq!(global, Some(b"original".to_vec()));

    tree.commit_transaction(tx_id).unwrap();

    let final_global = tree.get(b"update_key").unwrap();
    assert_eq!(final_global, Some(b"updated".to_vec()));
}

#[test]
fn test_invalid_transaction_operations() {
    let mut tree = load(TreeSettingsBuilder::new().mem_table_max_size(1000).build()).unwrap();

    let invalid_tx_id = 999;

    let read_result = tree.get_tx(invalid_tx_id, b"key");
    assert!(read_result.is_err());

    let write_result = tree.put_tx(invalid_tx_id, b"key".to_vec(), b"value".to_vec(), None);
    assert!(write_result.is_err());

    let commit_result = tree.commit_transaction(invalid_tx_id);
    assert!(commit_result.is_err());
}

#[test]
fn test_transaction_with_ttl() {
    let mut tree = load(TreeSettingsBuilder::new().mem_table_max_size(10).build()).unwrap();
    let start = clock();

    let tx_id = tree.begin_transaction().unwrap();

    for i in 0..12 {
        tree.put_tx_at(
            tx_id,
            format!("key_{}", i).as_bytes().to_vec(),
            format!("value_{}", i).as_bytes().to_vec(),
            None,
            &start,
        )
        .unwrap();
    }
    let ttl = Span::from_millis(100);
    tree.put_tx_at(tx_id, b"ttl_key".to_vec(), b"ttl_value".to_vec(), Some(ttl), &start).unwrap();

    let in_tx = tree.get_tx_at(tx_id, b"ttl_key", &start).unwrap();
    assert_eq!(in_tx, Some(b"ttl_value".to_vec()));

    tree.commit_transaction_at(tx_id, &start).unwrap();

    let after_commit = tree.get_at(b"ttl_key", &start).unwrap();
    assert_eq!(after_commit, Some(b"ttl_value".to_vec()));

    // 150 milliseconds later
    let later = start.plus(&Span::from_millis(150));

    let after_ttl = tree.get_at(b"ttl_key", &later).unwrap();
    assert_eq!(after_ttl, None);
}

#[test]
fn test_create_trees() {
    let tree1 = load(
        TreeSettingsBuilder::new()
            .mem_table_max_size(1000)
            .index_cache(false)
            .value_cache(false)
            .compressor(CompressionConfig::default())
            .build(),
    )
    .unwrap();
    let tree2 = load(TreeSettings::default()).unwrap();
    let tree3 = load(
        TreeSettingsBuilder::new().db_path(&format!("{}/custom_db", DEFAULT_DB_PATH)).build(),
    )
    .unwrap();
    let tree4 = load(
        TreeSettingsBuilder::new()
            .db_path(&format!("{}/my_db", DEFAULT_DB_PATH))
            .mem_table_max_size(50000)
            .build(),
    )
    .unwrap();
    let tree5 = load(
        TreeSettingsBuilder::new()
            .db_path(&format!("{}/my_db", DEFAULT_DB_PATH))
            .mem_table_max_size(20000)
            .build(),
    )
    .unwrap();
    assert_eq!(tree1.len().unwrap(), 0);
    assert_eq!(tree2.len().unwrap(), 0);
    assert_eq!(tree3.len().unwrap(), 0);
    assert_eq!(tree4.len().unwrap(), 0);
    assert_eq!(tree5.len().unwrap(), 0);
}

#[test]
fn test_crash_recovery_with_wal() {
    let mut disk = Disk::new();
    let mut dice = Dice::new(7);
    let mut keys = Vec::new();
    {
        const ENTRIES: usize = 4555;
        const KEY_LENGTH: usize = 16;
        const VALUE_LENGTH: usize = 100;

        let mut tree = Tree::load_with_settings(
            TreeSettingsBuilder::new()
                .mem_table_max_size(2000)
                .compressor(CompressionConfig::balanced())
                .build(),
            disk.listing(),
        )
        .unwrap();
        disk.carry_out(tree.take_pending());

        for i in 0..ENTRIES {
            let key = format!("key_{:08}_{}", i, dice.letters(KEY_LENGTH - 12));
            let value = generate_realistic_value(&mut dice, "user_data", VALUE_LENGTH);
            put_typed(&mut tree, &key, &value).unwrap();
            disk.carry_out(tree.take_pending());
            keys.push((key, value));
        }
        tree.put(b"key1".to_vec(), b"value1".to_vec()).unwrap();
        tree.put(b"key2".to_vec(), b"value2".to_vec()).unwrap();
        disk.carry_out(tree.take_pending());
        // the engine is dropped here without a flush: a crash
    }

    {
        let mut recovered_tree = Tree::load_with_settings(
            TreeSettingsBuilder::new()
                .mem_table_max_size(2000)
                .compressor(CompressionConfig::balanced())
                .build(),
            disk.listing(),
        )
        .unwrap();
        let value1 = recovered_tree.get(b"key1").unwrap();
        let value2 = recovered_tree.get(b"key2").unwrap();
        assert_eq!(value1, Some(b"value1".to_vec()));
        assert_eq!(value2, Some(b"value2".to_vec()));
        for (key, value) in keys.iter() {
            assert_eq!(get_typed(&mut recovered_tree, key).unwrap().as_deref(), Some(value.as_str()));
        }
    }
}

#[test]
fn test_rw_100k_from_memtable() {
    let mut tree = load(
        TreeSettingsBuilder::new()
            .compressor(CompressionConfig::none())
            .index_cache(false)
            .value_cache(false)
            .mem_table_max_size(100000)
            .build(),
    )
    .unwrap();
    let max_entries: u64 = 99999;

    for i in 0..=max_entries {
        let key = format!("test_key_{}", i);
        tree.put(key.as_bytes().to_vec(), key.as_bytes().to_vec()).unwrap();
    }

    for i in 0..=max_entries {
        let key = format!("test_key_{}", i);
        let value = tree.get(key.as_bytes()).unwrap();
        assert_eq!(value, Some(key.as_bytes().to_vec()));
    }
    println!("{:?}", tree.get_index_cache_stats());
    println!("{:?}", tree.get_value_cache_stats());
}

#[test]
fn test_compression_performance() {
    let test_data = generate_compressible_data(10000);
    let compression_configs =
        vec![CompressionConfig::fast(), CompressionConfig::balanced(), CompressionConfig::best()];

    for config in compression_configs {
        let mut tree = load(
            TreeSettingsBuilder::new()
                .db_path(&format!("{}/perf_test_{:?}", DEFAULT_DB_PATH, config.compression_type))
                .mem_table_max_size(1000)
                .index_cache(false)
                .value_cache(false)
                .compressor(config)
                .build(),
        )
        .unwrap();

        for i in 0..100 {
            put_typed(&mut tree, &format!("perf_test_{}", i), &test_data).unwrap();
        }

        for i in 0..100 {
            let retrieved = get_typed(&mut tree, &format!("perf_test_{}", i)).unwrap();
            assert!(retrieved.is_some(), "Failed to retrieve data for key: perf_test_{}", i);
            assert_eq!(retrieved.unwrap(), test_data, "Data mismatch for key: perf_test_{}", i);
        }
    }
}

#[test]
fn test_compression_with_large_objects() {
    let data: Vec<String> = (0..1000).map(|i| format!("Item number {}", i)).collect();
    let mut metadata: Vec<(String, String)> = Vec::new();
    for i in 0..50 {
        metadata.push((format!("key_{}", i), format!("value_{}", i).repeat(10)));
    }
    let large_object = (12345u64, data, metadata);
    let encoded = bincode::encode_to_vec(&large_object, bincode::config::standard()).unwrap();

    let mut tree = load(
        TreeSettingsBuilder::new()
            .index_cache(false)
            .value_cache(false)
            .compressor(CompressionConfig::balanced())
            .build(),
    )
    .unwrap();

    tree.put(b"large_object".to_vec(), encoded).unwrap();

    let retrieved = tree.get(b"large_object").unwrap();
    assert!(retrieved.is_some(), "Failed to retrieve large object");

    let (retrieved_object, _): ((u64, Vec<String>, Vec<(String, String)>), usize) =
        bincode::decode_from_slice(&retrieved.unwrap(), bincode::config::standard()).unwrap();
    assert_eq!(retrieved_object, large_object, "Large object data mismatch");
}

#[test]
fn test_basic_string_loadtest() {
    let mut tree =
        load(TreeSettingsBuilder::new().compressor(CompressionConfig::balanced()).build()).unwrap();
    let mut dice = Dice::new(11);

    const ENTRIES: usize = 50000;
    const KEY_LENGTH: usize = 16;
    const VALUE_LENGTH: usize = 100;

    let mut keys = Vec::with_capacity(ENTRIES);

    for i in 0..ENTRIES {
        let key = format!("key_{:08}_{}", i, dice.letters(KEY_LENGTH - 12));
        let value = generate_realistic_value(&mut dice, "user_data", VALUE_LENGTH);
        put_typed(&mut tree, &key, &value).unwrap();
        let _ = tree.take_pending();
        keys.push(key);
    }

    tree.flush().unwrap();

    let mut found_count = 0;
    for key in &keys {
        if let Some(_value) = get_typed(&mut tree, key).unwrap() {
            found_count += 1;
        }
    }
    assert_eq!(found_count, ENTRIES);

    let mut random_found = 0;
    for _ in 0..5000 {
        let key = &keys[dice.below(ENTRIES as u64) as usize];
        if let Some(_value) = get_typed(&mut tree, key).unwrap() {
            random_found += 1;
        }
    }
    assert_eq!(random_found, 5000);

    println!("Index cache: {:?}", tree.get_index_cache_stats());
    println!("Value cache: {:?}", tree.get_value_cache_stats());
}

#[test]
fn put_get_delete_and_len() {
    let mut tree =
        load(TreeSettingsBuilder::new().db_path("./t1").build()).unwrap();
    tree.put(b"a".to_vec(), b"1".to_vec()).unwrap();
    tree.put(b"b".to_vec(), b"2".to_vec()).unwrap();
    assert_eq!(tree.get(b"a").unwrap(), Some(b"1".to_vec()));
    assert_eq!(tree.get(b"b").unwrap(), Some(b"2".to_vec()));
    assert_eq!(tree.len().unwrap(), 2);
    assert!(tree.delete(b"a").unwrap());
    assert_eq!(tree.get(b"a").unwrap(), None);
    assert_eq!(tree.len().unwrap(), 1);
    assert!(!tree.delete(b"a").unwrap());
    assert!(!tree.delete(b"never").unwrap());
}

#[test]
fn empty_database_has_nothing() {
    let mut tree = load(TreeSettings::default()).unwrap();
    assert_eq!(tree.get(b"any").unwrap(), None);
    assert_eq!(tree.len().unwrap(), 0);
    assert_eq!(tree.run_count(), 0);
    assert_eq!(tree.mem_table_len(), 0);
}

#[test]
fn record_expires_after_its_time_to_live() {
    let mut tree = load(TreeSettings::default()).unwrap();
    let start = Timestamp::new(1_000, 0);
    tree.put_at(b"k".to_vec(), b"v".to_vec(), Some(Span::from_millis(100)), &start).unwrap();
    assert_eq!(tree.get_at(b"k", &start).unwrap(), Some(b"v".to_vec()));
    let at_expiry = start.plus(&Span::from_millis(100));
    assert_eq!(tree.get_at(b"k", &at_expiry).unwrap(), Some(b"v".to_vec()));
    let later = start.plus(&Span::from_millis(200));
    assert_eq!(tree.get_at(b"k", &later).unwrap(), None);
    assert_eq!(tree.get_ttl_at(b"k", &start), Some(Span::new(0, 100_000_000)));
    assert_eq!(tree.get_ttl_at(b"k", &later), None);
}

#[test]
fn put_with_ttl_by_the_clock() {
    let mut tree = load(TreeSettings::default()).unwrap();
    tree.put_with_ttl(b"k".to_vec(), b"v".to_vec(), Some(Duration::from_secs(3600))).unwrap();
    assert_eq!(tree.get(b"k").unwrap(), Some(b"v".to_vec()));
    let left = tree.get_ttl(b"k").unwrap();
    assert!(left.secs <= 3600 && left.secs >= 3590);
    assert!(tree.update_ttl(b"k", None).unwrap());
    assert_eq!(tree.get_ttl(b"k"), None);
    assert!(!tree.update_ttl(b"missing", None).unwrap());
}

#[test]
fn two_flushes_and_one_merge_for_2001_keys() {
    let mut disk = Disk::new();
    let mut tree = Tree::load_with_settings(
        TreeSettingsBuilder::new().mem_table_max_size(1000).build(),
        disk.listing(),
    )
    .unwrap();
    let mut runs_seen = Vec::new();
    for i in 0..=2000 {
        let key = format!("k{}", i);
        tree.put(key.as_bytes().to_vec(), format!("v{}", i).into_bytes()).unwrap();
        runs_seen.push(tree.run_count());
        disk.carry_out(tree.take_pending());
    }
    // the memtable overflows at the 1001st and at the 2002nd entry only
    assert_eq!(runs_seen[999], 0);
    assert_eq!(runs_seen[1000], 1);
    assert_eq!(runs_seen[2000], 1);
    assert_eq!(tree.mem_table_len(), 1000);
    tree.flush().unwrap();
    assert_eq!(tree.run_count(), 2);
    tree.put(b"one more".to_vec(), b"x".to_vec()).unwrap();
    tree.flush().unwrap();
    disk.carry_out(tree.take_pending());
    // the third run triggered a merge of all three
    assert_eq!(tree.run_count(), 1);
    assert_eq!(tree.run_names(), vec!["sstable_0.sst".to_string()]);
    assert_eq!(tree.len().unwrap(), 2002);
    for i in 0..=2000 {
        let key = format!("k{}", i);
        assert_eq!(tree.get(key.as_bytes()).unwrap(), Some(format!("v{}", i).into_bytes()));
    }
    assert!(disk.names().contains(&"sstable_0.sst".to_string()));
    assert_eq!(disk.names().iter().filter(|n| n.ends_with(".sst")).count(), 1);
}

#[test]
fn flush_twice_is_flush_once() {
    let mut tree = load(TreeSettings::default()).unwrap();
    tree.put(b"a".to_vec(), b"1".to_vec()).unwrap();
    tree.flush().unwrap();
    let _ = tree.take_pending();
    let runs = tree.run_names();
    tree.flush().unwrap();
    assert_eq!(tree.run_names(), runs);
    assert!(tree.take_pending().is_empty());
    assert_eq!(tree.get(b"a").unwrap(), Some(b"1".to_vec()));
}

#[test]
fn reopening_after_a_flush_finds_the_same() {
    let mut disk = Disk::new();
    let settings = TreeSettingsBuilder::new().mem_table_max_size(50).build();
    let mut tree = Tree::load_with_settings(settings.clone(), disk.listing()).unwrap();
    for i in 0..120 {
        tree.put(format!("key{}", i).into_bytes(), format!("value{}", i).into_bytes()).unwrap();
    }
    assert!(tree.delete(b"key7").unwrap());
    tree.flush().unwrap();
    disk.carry_out(tree.take_pending());
    let mut again = Tree::load_with_settings(settings.clone(), disk.listing()).unwrap();
    disk.carry_out(again.take_pending());
    let mut third = Tree::load_with_settings(settings, disk.listing()).unwrap();
    for i in 0..120 {
        let expected = if i == 7 { None } else { Some(format!("value{}", i).into_bytes()) };
        assert_eq!(again.get(format!("key{}", i).as_bytes()).unwrap(), expected);
        assert_eq!(third.get(format!("key{}", i).as_bytes()).unwrap(), expected);
    }
    assert_eq!(again.len().unwrap(), 119);
    assert_eq!(again.run_names(), tree.run_names());
}

#[test]
fn a_torn_write_at_the_end_of_the_log_is_dropped() {
    let mut disk = Disk::new();
    let settings = TreeSettings::default();
    let mut tree = Tree::load_with_settings(settings.clone(), disk.listing()).unwrap();
    tree.put(b"a".to_vec(), b"1".to_vec()).unwrap();
    tree.put(b"b".to_vec(), b"2".to_vec()).unwrap();
    disk.carry_out(tree.take_pending());
    // the frame of the second put is cut short
    let i = disk.position("wal_0001.log").unwrap();
    let len = disk.files[i].1.len();
    disk.files[i].1.truncate(len - 5);
    let mut recovered = Tree::load_with_settings(settings.clone(), disk.listing()).unwrap();
    assert_eq!(recovered.get(b"a").unwrap(), Some(b"1".to_vec()));
    assert_eq!(recovered.get(b"b").unwrap(), None);
    // a flipped byte in the first frame is fatal
    disk.files[i].1[20] ^= 0xff;
    let r = Tree::load_with_settings(settings, disk.listing());
    assert!(matches!(r, Err(TreeError::Corruption { .. })));
}

#[test]
fn second_committer_of_one_key_aborts() {
    let mut tree = load(TreeSettings::default()).unwrap();
    tree.put(b"shared".to_vec(), b"orig".to_vec()).unwrap();
    let t1 = tree.begin_transaction().unwrap();
    let t2 = tree.begin_transaction().unwrap();
    tree.put_tx(t1, b"shared".to_vec(), b"t1".to_vec(), None).unwrap();
    tree.put_tx(t2, b"shared".to_vec(), b"t2".to_vec(), None).unwrap();
    assert_eq!(tree.get_tx(t1, b"shared").unwrap(), Some(b"t1".to_vec()));
    assert_eq!(tree.get_tx(t2, b"shared").unwrap(), Some(b"t2".to_vec()));
    tree.commit_transaction(t1).unwrap();
    assert_eq!(tree.get(b"shared").unwrap(), Some(b"t1".to_vec()));
    let r = tree.commit_transaction(t2);
    assert!(matches!(r, Err(TreeError::Transaction { .. })));
    assert_eq!(tree.get(b"shared").unwrap(), Some(b"t1".to_vec()));
    // the transaction is gone
    assert!(tree.put_tx(t2, b"x".to_vec(), b"y".to_vec(), None).is_err());
}

#[test]
fn compression_round_trip_through_the_engine() {
    let payload: Vec<u8> = generate_compressible_data(10240).into_bytes();
    for kind in [
        CompressionType::Uncompressed,
        CompressionType::Lz4,
        CompressionType::Zstd,
        CompressionType::Snappy,
    ] {
        let mut tree = load(
            TreeSettingsBuilder::new()
                .mem_table_max_size(20)
                .compressor(CompressionConfig::new(kind))
                .build(),
        )
        .unwrap();
        for i in 0..70 {
            tree.put(format!("key{:03}", i).into_bytes(), payload.clone()).unwrap();
        }
        for i in 0..70 {
            assert_eq!(tree.get(format!("key{:03}", i).as_bytes()).unwrap(), Some(payload.clone()));
        }
    }
}

#[test]
fn invalid_keys_and_settings_are_refused() {
    let mut tree = load(TreeSettings::default()).unwrap();
    assert!(matches!(tree.put(Vec::new(), b"v".to_vec()), Err(TreeError::InvalidKey { .. })));
    assert_eq!(tree.mem_table_len(), 0);
    let r = load(TreeSettingsBuilder::new().mem_table_max_size(0).build());
    assert!(matches!(r, Err(TreeError::Configuration { .. })));
    let r = load(TreeSettingsBuilder::new().index_cache_max_capacity(0).build());
    assert!(matches!(r, Err(TreeError::Configuration { .. })));
    let r = load(
        TreeSettingsBuilder::new().compressor(CompressionConfig::best().with_level(40)).build(),
    );
    assert!(matches!(r, Err(TreeError::Configuration { .. })));
}

#[test]
fn damaged_runs_are_left_out() {
    let mut disk = Disk::new();
    let settings = TreeSettingsBuilder::new().wal(false).build();
    let mut tree = Tree::load_with_settings(settings.clone(), disk.listing()).unwrap();
    tree.put(b"a".to_vec(), b"1".to_vec()).unwrap();
    tree.flush().unwrap();
    tree.put(b"b".to_vec(), b"2".to_vec()).unwrap();
    tree.flush().unwrap();
    disk.carry_out(tree.take_pending());
    assert_eq!(disk.names(), vec!["sstable_0.sst".to_string(), "sstable_1.sst".to_string()]);
    let i = disk.position("sstable_1.sst").unwrap();
    disk.files[i].1[0] = b'X';
    disk.files.push(("notes.txt".to_string(), b"hello".to_vec()));
    let mut reopened = Tree::load_with_settings(settings, disk.listing()).unwrap();
    assert_eq!(reopened.run_names(), vec!["sstable_0.sst".to_string()]);
    assert_eq!(reopened.get(b"a").unwrap(), Some(b"1".to_vec()));
    assert_eq!(reopened.get(b"b").unwrap(), None);
    // the next run does not take the name of the damaged file
    reopened.put(b"c".to_vec(), b"3".to_vec()).unwrap();
    reopened.flush().unwrap();
    assert_eq!(
        reopened.run_names(),
        vec!["sstable_0.sst".to_string(), "sstable_2.sst".to_string()]
    );
}

#[test]
fn many_flushes_renumber_the_log_and_nothing_is_lost() {
    let mut disk = Disk::new();
    let settings = TreeSettingsBuilder::new().mem_table_max_size(10).build();
    let mut tree = Tree::load_with_settings(settings.clone(), disk.listing()).unwrap();
    for i in 0..405 {
        tree.put(format!("key{}", i).into_bytes(), format!("value{}", i).into_bytes()).unwrap();
    }
    assert!(tree.delete(b"key400").unwrap());
    let segments = tree.wal_segment_numbers();
    assert!(segments.len() <= 3);
    assert!(*segments.last().unwrap() <= 11);
    disk.carry_out(tree.take_pending());
    let logs: Vec<String> =
        disk.listing().iter().map(|f| f.name.clone()).filter(|n| n.starts_with("wal_")).collect();
    assert_eq!(logs.len(), segments.len());
    let mut again = Tree::load_with_settings(settings, disk.listing()).unwrap();
    assert_eq!(again.wal_segment_numbers(), segments);
    assert_eq!(again.mem_table_len(), tree.mem_table_len());
    assert_eq!(again.run_names(), tree.run_names());
    for i in 0..405 {
        let expected = if i == 400 { None } else { Some(format!("value{}", i).into_bytes()) };
        assert_eq!(again.get(format!("key{}", i).as_bytes()).unwrap(), expected);
    }
}

#[test]
fn a_dropped_engine_is_found_again_after_every_step() {
    let mut disk = Disk::new();
    let settings = TreeSettingsBuilder::new().mem_table_max_size(7).build();
    let mut tree = Tree::load_with_settings(settings.clone(), disk.listing()).unwrap();
    for i in 0..40 {
        let key = format!("k{}", i % 13).into_bytes();
        if i % 5 == 4 {
            let _ = tree.delete(&key).unwrap();
        } else {
            tree.put(key, format!("v{}", i).into_bytes()).unwrap();
        }
        disk.carry_out(tree.take_pending());
        let mut again = Tree::load_with_settings(settings.clone(), disk.listing()).unwrap();
        for j in 0..13 {
            let probe = format!("k{}", j).into_bytes();
            assert_eq!(again.get(&probe).unwrap(), tree.get(&probe).unwrap());
        }
        assert_eq!(again.len().unwrap(), tree.len().unwrap());
    }
}

#[test]
fn a_delete_makes_the_engine_one_key_shorter() {
    let mut tree = Tree::new_with_settings(TreeSettingsBuilder::new().mem_table_max_size(4).build())
        .unwrap();
    let now = Timestamp::new(100, 0);
    for i in 0..10 {
        tree.put_at(format!("k{}", i).into_bytes(), vec![7u8; 3], None, &now).unwrap();
    }
    assert_eq!(tree.len_at(&now).unwrap(), 10);
    assert!(tree.delete_at(b"k2", &now).unwrap());
    assert_eq!(tree.len_at(&now).unwrap(), 9);
    assert_eq!(tree.get_at(b"k2", &now).unwrap(), None);
    assert!(!tree.delete_at(b"k2", &now).unwrap());
    assert_eq!(tree.len_at(&now).unwrap(), 9);
}

#[test]
fn one_entry_too_many_makes_one_flush_and_one_run() {
    let mut tree = Tree::new_with_settings(TreeSettingsBuilder::new().mem_table_max_size(5).build())
        .unwrap();
    let now = Timestamp::new(100, 0);
    for i in 0..5 {
        tree.put_at(format!("k{}", i).into_bytes(), vec![1u8], None, &now).unwrap();
        assert_eq!(tree.run_count(), 0);
    }
    assert_eq!(tree.mem_table_len(), 5);
    tree.put_at(b"k5".to_vec(), vec![1u8], None, &now).unwrap();
    assert_eq!(tree.run_count(), 1);
    assert_eq!(tree.mem_table_len(), 0);
    assert_eq!(tree.run_names(), vec!["sstable_0.sst".to_string()]);
}

#[test]
fn the_third_run_is_merged_with_the_two_before_it() {
    let mut tree = Tree::new_with_settings(TreeSettingsBuilder::new().mem_table_max_size(2).build())
        .unwrap();
    let now = Timestamp::new(100, 0);
    for i in 0..6 {
        tree.put_at(format!("a{}", i).into_bytes(), vec![2u8], None, &now).unwrap();
    }
    assert_eq!(tree.run_count(), 2);
    for i in 6..9 {
        tree.put_at(format!("a{}", i).into_bytes(), vec![2u8], None, &now).unwrap();
    }
    assert_eq!(tree.run_count(), 1);
    assert_eq!(tree.len_at(&now).unwrap(), 9);
}

#[test]
fn clearing_a_cache_empties_its_counters() {
    let mut disk = Disk::new();
    let settings = TreeSettingsBuilder::new().mem_table_max_size(3).build();
    let mut tree = Tree::load_with_settings(settings, disk.listing()).unwrap();
    let now = Timestamp::new(50, 0);
    for i in 0..4 {
        tree.put_at(format!("k{}", i).into_bytes(), vec![9u8; 4], None, &now).unwrap();
    }
    disk.carry_out(tree.take_pending());
    assert_eq!(tree.get_at(b"k1", &now).unwrap(), Some(vec![9u8; 4]));
    assert_eq!(tree.get_at(b"k1", &now).unwrap(), Some(vec![9u8; 4]));
    let limit = tree.get_index_cache_stats().memory_limit;
    assert!(tree.get_index_cache_stats().size > 0);
    assert!(tree.get_value_cache_stats().size > 0);
    tree.clear_index_cache();
    let index = tree.get_index_cache_stats();
    assert_eq!((index.size, index.hit_count, index.miss_count, index.memory_usage), (0, 0, 0, 0));
    assert_eq!(index.memory_limit, limit);
    assert!(tree.get_value_cache_stats().size > 0);
    tree.clear_value_cache();
    let values = tree.get_value_cache_stats();
    assert_eq!((values.size, values.hit_count, values.miss_count, values.memory_usage), (0, 0, 0, 0));
    assert_eq!(tree.get_at(b"k1", &now).unwrap(), Some(vec![9u8; 4]));
}

#[test]
fn the_clock_variants_answer_as_the_timed_ones() {
    let mut tree = Tree::new().unwrap();
    tree.put(b"a".to_vec(), b"1".to_vec()).unwrap();
    tree.put_with_ttl(b"b".to_vec(), b"2".to_vec(), Some(Duration::from_secs(3600))).unwrap();
    assert!(tree.contains_key(b"a").unwrap());
    assert!(!tree.contains_key(b"zz").unwrap());
    assert_eq!(
        tree.multi_get(&vec![b"a".to_vec(), b"zz".to_vec(), b"b".to_vec()]).unwrap(),
        vec![Some(b"1".to_vec()), None, Some(b"2".to_vec())]
    );
    assert_eq!(tree.get_ttl(b"a"), None);
    let left = tree.get_ttl(b"b").unwrap();
    assert!(left.secs <= 3600 && left.secs >= 3590);
    assert_eq!(tree.len().unwrap(), 2);
    assert!(tree.update_ttl(b"a", Some(Duration::from_secs(60))).unwrap());
    assert!(tree.get_ttl(b"a").unwrap().secs <= 60);
    assert!(!tree.update_ttl(b"zz", None).unwrap());
    assert!(tree.delete(b"a").unwrap());
    assert!(!tree.delete(b"a").unwrap());
    assert_eq!(tree.len().unwrap(), 1);
}

#[test]
fn a_payload_is_stored_as_the_codec_gave_it() {
    let mut tree = Tree::new_with_settings(
        TreeSettingsBuilder::new().compressor(CompressionConfig::none()).build(),
    )
    .unwrap();
    let now = Timestamp::new(10, 0);
    tree.put_payload_at(b"k".to_vec(), Ok(b"payload".to_vec()), None, &now).unwrap();
    assert_eq!(tree.get_at(b"k", &now).unwrap(), Some(b"payload".to_vec()));
    let refused =
        tree.put_payload_at(b"other".to_vec(), Err(TreeError::compression("refused")), None, &now);
    match refused {
        Err(TreeError::Compression { message }) => assert_eq!(message, "refused"),
        _ => panic!("the error of the codec must come back as it is"),
    }
    assert_eq!(tree.get_at(b"other", &now).unwrap(), None);
    assert_eq!(tree.mem_table_len(), 1);
    assert!(matches!(
        tree.put_payload_at(Vec::new(), Ok(b"x".to_vec()), None, &now),
        Err(TreeError::InvalidKey { .. })
    ));
    assert_eq!(tree.mem_table_len(), 1);
}

#[test]
fn a_commit_without_writes_succeeds_and_changes_nothing() {
    let mut tree = Tree::new().unwrap();
    tree.put(b"a".to_vec(), b"1".to_vec()).unwrap();
    let before = tree.mem_table_len();
    let id = tree.begin_transaction().unwrap();
    assert_eq!(tree.get_tx(id, b"a").unwrap(), Some(b"1".to_vec()));
    tree.commit_transaction(id).unwrap();
    assert_eq!(tree.mem_table_len(), before);
    assert_eq!(tree.run_count(), 0);
    assert!(matches!(tree.commit_transaction(id), Err(TreeError::Transaction { .. })));
}

#[test]
fn what_was_put_is_got_with_every_codec() {
    let configs = [
        CompressionConfig::none(),
        CompressionConfig::new(CompressionType::Lz4),
        CompressionConfig::new(CompressionType::Zstd),
        CompressionConfig::new(CompressionType::Snappy),
    ];
    for config in configs {
        let settings = TreeSettingsBuilder::new().mem_table_max_size(3).compressor(config).build();
        let mut tree = Tree::new_with_settings(settings).unwrap();
        let now = Timestamp::new(5, 0);
        for i in 0..10 {
            tree.put_at(format!("k{}", i).into_bytes(), vec![i as u8; 1], None, &now).unwrap();
        }
        for i in 0..10 {
            assert_eq!(
                tree.get_at(format!("k{}", i).as_bytes(), &now).unwrap(),
                Some(vec![i as u8; 1])
            );
        }
        assert_eq!(tree.len_at(&now).unwrap(), 10);
    }
}

#[test]
fn expired_records_are_cleaned_out_of_the_memtables() {
    let mut tree = Tree::new().unwrap();
    let start = Timestamp::new(100, 0);
    tree.put_at(b"short".to_vec(), b"1".to_vec(), Some(Span::new(10, 0)), &start).unwrap();
    tree.put_at(b"long".to_vec(), b"2".to_vec(), Some(Span::new(1000, 0)), &start).unwrap();
    tree.put_at(b"ever".to_vec(), b"3".to_vec(), None, &start).unwrap();
    assert_eq!(tree.mem_table_len(), 3);
    tree.cleanup_expired_at(&Timestamp::new(105, 0));
    assert_eq!(tree.mem_table_len(), 3);
    let later = Timestamp::new(200, 0);
    tree.cleanup_expired_at(&later);
    assert_eq!(tree.mem_table_len(), 2);
    assert_eq!(tree.get_at(b"short", &later).unwrap(), None);
    assert_eq!(tree.get_at(b"long", &later).unwrap(), Some(b"2".to_vec()));
    assert_eq!(tree.get_at(b"ever", &later).unwrap(), Some(b"3".to_vec()));
    tree.cleanup_expired().unwrap();
    assert_eq!(tree.mem_table_len(), 1);
    tree.clear_mem_table();
    assert_eq!(tree.mem_table_len(), 0);
    assert_eq!(tree.get_at(b"ever", &later).unwrap(), None);
}

#[test]
fn three_runs_of_one_key_merge_to_its_newest_value() {
    let mut tree = Tree::new_with_settings(TreeSettingsBuilder::new().build()).unwrap();
    let now = Timestamp::new(9, 0);
    tree.put_at(b"k".to_vec(), b"v0".to_vec(), None, &now).unwrap();
    tree.flush_at(&now).unwrap();
    tree.put_at(b"k".to_vec(), b"v1".to_vec(), None, &now).unwrap();
    tree.flush_at(&now).unwrap();
    assert_eq!(tree.run_count(), 2);
    assert_eq!(tree.get_at(b"k", &now).unwrap(), Some(b"v1".to_vec()));
    tree.put_at(b"k".to_vec(), b"v2".to_vec(), None, &now).unwrap();
    tree.flush_at(&now).unwrap();
    assert_eq!(tree.run_count(), 1);
    assert_eq!(tree.run_names(), vec!["sstable_0.sst".to_string()]);
    assert_eq!(tree.get_at(b"k", &now).unwrap(), Some(b"v2".to_vec()));
    assert_eq!(tree.len_at(&now).unwrap(), 1);
    let changes = tree.take_pending();
    let first_removal = changes.iter().position(|c| matches!(c, DiskAction::Remove { name } if name.starts_with("sstable_"))).unwrap();
    let merged_write = changes
        .iter()
        .rposition(|c| matches!(c, DiskAction::Write { name, .. } if name == "sstable_3.sst"))
        .unwrap();
    assert!(merged_write < first_removal);
}
