use ledger_storage::block::{BlockStateWrite, MerkleTreeStoresWrite};
use ledger_storage::codec::Epochs;
use ledger_storage::db::{open, DbColFam, RocksDB, RocksDBWriteBatch};
use ledger_storage::error::Error;
use ledger_storage::key::{old_and_new_diff_key, Key};
use ledger_storage::replay::{all_key, buffer_key, last_key};
use sha2::{Digest, Sha256};

fn sha256(data: &[u8]) -> ledger_storage::replay::Hash {
    ledger_storage::replay::Hash(Sha256::digest(data).into())
}

fn default_epochs() -> Epochs {
    Epochs { first_known_epoch: 0, first_block_heights: vec![0] }
}

/// A test helper to write a block
fn add_block_to_batch(
    db: &RocksDB,
    batch: &mut RocksDBWriteBatch,
    height: u64,
    epoch: u64,
    pred_epochs: Epochs,
    conversion_state: &[u8],
) -> Result<(), Error> {
    let merkle_tree_stores = MerkleTreeStoresWrite {
        roots: vec![vec![0u8; 32]; 6],
        stores: vec![vec![]; 6],
    };
    let block = BlockStateWrite {
        merkle_tree_stores,
        header: None,
        hash: vec![0u8; 32],
        height,
        time: vec![1, 2, 3],
        epoch,
        pred_epochs,
        next_epoch_min_start_height: 0,
        next_epoch_min_start_time: vec![1, 2, 3],
        update_epoch_blocks_delay: None,
        address_gen: b"whatever".to_vec(),
        results: vec![],
        conversion_state: conversion_state.to_vec(),
        tx_queue: vec![0, 0, 0, 0],
        ethereum_height: vec![0],
        eth_events_queue: vec![0, 0, 0, 0],
    };
    db.add_block_to_batch(block, batch, true)
}

fn has_diff(db: &RocksDB, key: &str) -> bool {
    db.get_cf(DbColFam::DIFFS, key).is_some()
}

/// Test that a block written can be loaded back from DB.
#[test]
fn test_load_state() {
    let mut db = open();

    let mut batch = RocksDB::batch();
    let last_height = 0;
    db.batch_write_subspace_val(&mut batch, last_height, &Key::parse("test").unwrap(), &[1_u8, 1, 1, 1], true)
        .unwrap();

    add_block_to_batch(&db, &mut batch, 0, 0, default_epochs(), &[]).unwrap();
    db.exec_batch(batch).unwrap();

    let _state = db
        .read_last_block()
        .expect("Should be able to read last block")
        .expect("Block should have been written");
}

#[test]
fn test_read() {
    let mut db = open();

    let key = Key::parse("test").unwrap();
    let batch_key = Key::parse("batch").unwrap();

    let mut batch = RocksDB::batch();
    let last_height = 100;
    db.batch_write_subspace_val(&mut batch, last_height, &batch_key, &[1_u8, 1, 1, 1], true).unwrap();
    db.exec_batch(batch).unwrap();

    db.write_subspace_val(last_height, &key, &[1_u8, 1, 1, 0], true).unwrap();

    let mut batch = RocksDB::batch();
    let last_height = 111;
    db.batch_write_subspace_val(&mut batch, last_height, &batch_key, &[2_u8, 2, 2, 2], true).unwrap();
    db.exec_batch(batch).unwrap();

    db.write_subspace_val(last_height, &key, &[2_u8, 2, 2, 0], true).unwrap();

    let prev_value = db.read_subspace_val_with_height(&batch_key, 100, last_height).expect("read should succeed");
    assert_eq!(prev_value, Some(vec![1_u8, 1, 1, 1]));
    let prev_value = db.read_subspace_val_with_height(&key, 100, last_height).expect("read should succeed");
    assert_eq!(prev_value, Some(vec![1_u8, 1, 1, 0]));

    let updated_value = db.read_subspace_val_with_height(&batch_key, 111, last_height).expect("read should succeed");
    assert_eq!(updated_value, Some(vec![2_u8, 2, 2, 2]));
    let updated_value = db.read_subspace_val_with_height(&key, 111, last_height).expect("read should succeed");
    assert_eq!(updated_value, Some(vec![2_u8, 2, 2, 0]));

    let latest_value = db.read_subspace_val(&batch_key).expect("read should succeed");
    assert_eq!(latest_value, Some(vec![2_u8, 2, 2, 2]));
    let latest_value = db.read_subspace_val(&key).expect("read should succeed");
    assert_eq!(latest_value, Some(vec![2_u8, 2, 2, 0]));

    let mut batch = RocksDB::batch();
    let last_height = 222;
    db.batch_delete_subspace_val(&mut batch, last_height, &batch_key, true).unwrap();
    db.exec_batch(batch).unwrap();

    db.delete_subspace_val(last_height, &key, true).unwrap();

    let deleted_value = db.read_subspace_val_with_height(&batch_key, 222, last_height).expect("read should succeed");
    assert_eq!(deleted_value, None);
    let deleted_value = db.read_subspace_val_with_height(&key, 222, last_height).expect("read should succeed");
    assert_eq!(deleted_value, None);

    let latest_value = db.read_subspace_val(&batch_key).expect("read should succeed");
    assert_eq!(latest_value, None);
    let latest_value = db.read_subspace_val(&key).expect("read should succeed");
    assert_eq!(latest_value, None);
}

#[test]
fn test_prefix_iter() {
    let mut db = open();

    let prefix_0 = Key::parse("0").unwrap();
    let key_0_a = prefix_0.push(&"a".to_string()).unwrap();
    let key_0_b = prefix_0.push(&"b".to_string()).unwrap();
    let key_0_c = prefix_0.push(&"c".to_string()).unwrap();
    let prefix_1 = Key::parse("1").unwrap();
    let key_1_a = prefix_1.push(&"a".to_string()).unwrap();
    let key_1_b = prefix_1.push(&"b".to_string()).unwrap();
    let key_1_c = prefix_1.push(&"c".to_string()).unwrap();
    let prefix_01 = Key::parse("01").unwrap();
    let key_01_a = prefix_01.push(&"a".to_string()).unwrap();

    let keys_0 = vec![key_0_a, key_0_b, key_0_c];
    let keys_1 = vec![key_1_a, key_1_b, key_1_c];
    let keys_01 = vec![key_01_a];
    let all_keys = [keys_0.clone(), keys_01, keys_1.clone()].concat();

    // Write the keys
    let mut batch = RocksDB::batch();
    let height = 1;
    for key in &all_keys {
        db.batch_write_subspace_val(&mut batch, height, key, &[0_u8], true).unwrap();
    }
    db.exec_batch(batch).unwrap();

    // Prefix "0" shouldn't match prefix "01"
    let itered_keys: Vec<Key> = db.iter_prefix(Some(&prefix_0)).into_iter().map(|(key, _val)| Key::parse(&key).unwrap()).collect();
    assert_eq!(keys_0, itered_keys);

    let itered_keys: Vec<Key> = db.iter_prefix(Some(&prefix_1)).into_iter().map(|(key, _val)| Key::parse(&key).unwrap()).collect();
    assert_eq!(keys_1, itered_keys);

    let itered_keys: Vec<Key> = db.iter_prefix(None).into_iter().map(|(key, _val)| Key::parse(&key).unwrap()).collect();
    assert_eq!(all_keys, itered_keys);
}

#[test]
fn test_rollback() {
    let mut db = open();

    // A key that's gonna be added on a second block
    let add_key = Key::parse("add").unwrap();
    // A key that's gonna be deleted on a second block
    let delete_key = Key::parse("delete").unwrap();
    // A key that's gonna be overwritten on a second block
    let overwrite_key = Key::parse("overwrite").unwrap();

    // Write first block
    let mut batch = RocksDB::batch();
    let height_0 = 100;
    let mut pred_epochs = default_epochs();
    pred_epochs.new_epoch(height_0);
    let conversion_state_0: Vec<u8> = vec![];
    let to_delete_val = vec![1_u8, 1, 0, 0];
    let to_overwrite_val = vec![1_u8, 1, 1, 0];
    db.batch_write_subspace_val(&mut batch, height_0, &delete_key, &to_delete_val, true).unwrap();
    db.batch_write_subspace_val(&mut batch, height_0, &overwrite_key, &to_overwrite_val, true).unwrap();
    for tx in [b"tx1", b"tx2"] {
        db.write_replay_protection_entry(&mut batch, &all_key(&sha256(tx))).unwrap();
        db.write_replay_protection_entry(&mut batch, &buffer_key(&sha256(tx))).unwrap();
    }

    for tx in [b"tx3", b"tx4"] {
        db.write_replay_protection_entry(&mut batch, &last_key(&sha256(tx))).unwrap();
    }

    add_block_to_batch(&db, &mut batch, height_0, 1, pred_epochs.clone(), &conversion_state_0).unwrap();
    db.exec_batch(batch).unwrap();

    // Write second block
    let mut batch = RocksDB::batch();
    let height_1 = 101;
    pred_epochs.new_epoch(height_1);
    let conversion_state_1: Vec<u8> = vec![];
    let add_val = vec![1_u8, 0, 0, 0];
    let overwrite_val = vec![1_u8, 1, 1, 1];
    db.batch_write_subspace_val(&mut batch, height_1, &add_key, &add_val, true).unwrap();
    db.batch_write_subspace_val(&mut batch, height_1, &overwrite_key, &overwrite_val, true).unwrap();
    db.batch_delete_subspace_val(&mut batch, height_1, &delete_key, true).unwrap();

    db.prune_replay_protection_buffer(&mut batch).unwrap();
    db.write_replay_protection_entry(&mut batch, &all_key(&sha256(b"tx3"))).unwrap();

    for tx in [b"tx3", b"tx4"] {
        db.delete_replay_protection_entry(&mut batch, &last_key(&sha256(tx))).unwrap();
        db.write_replay_protection_entry(&mut batch, &buffer_key(&sha256(tx))).unwrap();
    }

    for tx in [b"tx5", b"tx6"] {
        db.write_replay_protection_entry(&mut batch, &last_key(&sha256(tx))).unwrap();
    }

    add_block_to_batch(&db, &mut batch, height_1, 2, pred_epochs, &conversion_state_1).unwrap();
    db.exec_batch(batch).unwrap();

    // Check that the values are as expected from second block
    let added = db.read_subspace_val(&add_key).unwrap();
    assert_eq!(added, Some(add_val));
    let overwritten = db.read_subspace_val(&overwrite_key).unwrap();
    assert_eq!(overwritten, Some(overwrite_val));
    let deleted = db.read_subspace_val(&delete_key).unwrap();
    assert_eq!(deleted, None);

    for tx in [b"tx1", b"tx2", b"tx3", b"tx5", b"tx6"] {
        assert!(db.has_replay_protection_entry(&sha256(tx)).unwrap());
    }
    assert!(!db.has_replay_protection_entry(&sha256(b"tx4")).unwrap());

    // Rollback to the first block height
    db.rollback(height_0).unwrap();

    // Check that the values are back to the state at the first block
    let added = db.read_subspace_val(&add_key).unwrap();
    assert_eq!(added, None);
    let overwritten = db.read_subspace_val(&overwrite_key).unwrap();
    assert_eq!(overwritten, Some(to_overwrite_val));
    let deleted = db.read_subspace_val(&delete_key).unwrap();
    assert_eq!(deleted, Some(to_delete_val));
    // Check the conversion state
    let conversion_state = db.get_cf(DbColFam::STATE, "conversion_state").unwrap();
    assert_eq!(conversion_state, conversion_state_0);
    for tx in [b"tx1", b"tx2", b"tx3", b"tx4"] {
        assert!(db.has_replay_protection_entry(&sha256(tx)).unwrap());
    }

    for tx in [b"tx5", b"tx6"] {
        assert!(!db.has_replay_protection_entry(&sha256(tx)).unwrap());
    }
}

#[test]
fn test_diffs() {
    let mut db = open();

    let key_with_diffs = Key::parse("with_diffs").unwrap();
    let key_without_diffs = Key::parse("without_diffs").unwrap();

    let initial_val = vec![1_u8, 1, 0, 0];
    let overwrite_val = vec![1_u8, 1, 1, 0];

    // Write first block
    let mut batch = RocksDB::batch();
    let height_0 = 1;
    db.batch_write_subspace_val(&mut batch, height_0, &key_with_diffs, &initial_val, true).unwrap();
    db.batch_write_subspace_val(&mut batch, height_0, &key_without_diffs, &initial_val, false).unwrap();
    db.exec_batch(batch).unwrap();

    {
        // Diffs new key for `key_with_diffs` at height_0 must be present
        let (old_with_h0, new_with_h0) = old_and_new_diff_key(&key_with_diffs.to_string(), height_0);
        assert!(!has_diff(&db, &old_with_h0));
        assert!(has_diff(&db, &new_with_h0));

        // Diffs new key for `key_without_diffs` at height_0 must be present
        let (old_wo_h0, new_wo_h0) = old_and_new_diff_key(&key_without_diffs.to_string(), height_0);
        assert!(!has_diff(&db, &old_wo_h0));
        assert!(has_diff(&db, &new_wo_h0));
    }

    // Write second block
    let mut batch = RocksDB::batch();
    let height_1 = height_0 + 10;
    db.batch_write_subspace_val(&mut batch, height_1, &key_with_diffs, &overwrite_val, true).unwrap();
    db.batch_write_subspace_val(&mut batch, height_1, &key_without_diffs, &overwrite_val, false).unwrap();
    db.exec_batch(batch).unwrap();

    {
        // Diffs keys for `key_with_diffs` at height_0 must be present
        let (old_with_h0, new_with_h0) = old_and_new_diff_key(&key_with_diffs.to_string(), height_0);
        assert!(!has_diff(&db, &old_with_h0));
        assert!(has_diff(&db, &new_with_h0));

        // Diffs keys for `key_without_diffs` at height_0 must be gone
        let (old_wo_h0, new_wo_h0) = old_and_new_diff_key(&key_without_diffs.to_string(), height_0);
        assert!(!has_diff(&db, &old_wo_h0));
        assert!(!has_diff(&db, &new_wo_h0));

        // Diffs keys for `key_with_diffs` at height_1 must be present
        let (old_with_h1, new_with_h1) = old_and_new_diff_key(&key_with_diffs.to_string(), height_1);
        assert!(has_diff(&db, &old_with_h1));
        assert!(has_diff(&db, &new_with_h1));

        // Diffs keys for `key_without_diffs` at height_1 must be present
        let (old_wo_h1, new_wo_h1) = old_and_new_diff_key(&key_without_diffs.to_string(), height_1);
        assert!(has_diff(&db, &old_wo_h1));
        assert!(has_diff(&db, &new_wo_h1));
    }

    // Write third block
    let mut batch = RocksDB::batch();
    let height_2 = height_1 + 10;
    db.batch_write_subspace_val(&mut batch, height_2, &key_with_diffs, &initial_val, true).unwrap();
    db.batch_write_subspace_val(&mut batch, height_2, &key_without_diffs, &initial_val, false).unwrap();
    db.exec_batch(batch).unwrap();

    {
        // Diffs keys for `key_with_diffs` at height_1 must be present
        let (old_with_h1, new_with_h1) = old_and_new_diff_key(&key_with_diffs.to_string(), height_1);
        assert!(has_diff(&db, &old_with_h1));
        assert!(has_diff(&db, &new_with_h1));

        // Diffs keys for `key_without_diffs` at height_1 must be gone
        let (old_wo_h1, new_wo_h1) = old_and_new_diff_key(&key_without_diffs.to_string(), height_1);
        assert!(!has_diff(&db, &old_wo_h1));
        assert!(!has_diff(&db, &new_wo_h1));

        // Diffs keys for `key_with_diffs` at height_2 must be present
        let (old_with_h2, new_with_h2) = old_and_new_diff_key(&key_with_diffs.to_string(), height_2);
        assert!(has_diff(&db, &old_with_h2));
        assert!(has_diff(&db, &new_with_h2));

        // Diffs keys for `key_without_diffs` at height_2 must be present
        let (old_wo_h2, new_wo_h2) = old_and_new_diff_key(&key_without_diffs.to_string(), height_2);
        assert!(has_diff(&db, &old_wo_h2));
        assert!(has_diff(&db, &new_wo_h2));
    }
}
