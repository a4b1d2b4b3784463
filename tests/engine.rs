use ledger_storage::block::{BlockStateWrite, MerkleTreeStoresWrite, StoreType};
use ledger_storage::codec::{decode_opt_u32, decode_u64, encode_opt_u32, encode_u64, Epochs};
use ledger_storage::config::{compaction_threads, max_open_files, nofile_limit_to_set};
use ledger_storage::db::{open, DbColFam, RocksDB};
use ledger_storage::error::Error;
use ledger_storage::key::{decimal_string, old_and_new_diff_key, Key};
use ledger_storage::pattern::Pattern;
use ledger_storage::replay::{all_key, buffer_key, last_key};
use ledger_storage::visitor::RocksDBUpdateVisitor;

fn block(height: u64, epoch: u64, pred_epochs: Epochs) -> BlockStateWrite {
    BlockStateWrite {
        merkle_tree_stores: MerkleTreeStoresWrite {
            roots: (0..6u8).map(|i| vec![i; 2]).collect(),
            stores: (0..6u8).map(|i| vec![i + 10]).collect(),
        },
        header: Some(vec![9, 9]),
        hash: vec![7u8; 32],
        height,
        time: vec![1, 2, 3],
        epoch,
        pred_epochs,
        next_epoch_min_start_height: height + 5,
        next_epoch_min_start_time: vec![4, 5],
        update_epoch_blocks_delay: Some(3),
        address_gen: vec![6],
        results: vec![height as u8],
        conversion_state: vec![epoch as u8],
        tx_queue: vec![height as u8, 1],
        ethereum_height: vec![0],
        eth_events_queue: vec![1],
    }
}

fn commit(db: &mut RocksDB, height: u64, epoch: u64, pred_epochs: Epochs) {
    let mut batch = RocksDB::batch();
    db.add_block_to_batch(block(height, epoch, pred_epochs), &mut batch, true).unwrap();
    db.exec_batch(batch).unwrap();
}

#[test]
fn key_codec_formats() {
    assert_eq!(decimal_string(0), "0");
    assert_eq!(decimal_string(1234567890), "1234567890");
    let key = Key::parse("a/b/c").unwrap();
    assert_eq!(key.segments, vec!["a".to_string(), "b".to_string(), "c".to_string()]);
    assert_eq!(key.to_string(), "a/b/c");
    let (old, new) = old_and_new_diff_key("a/b", 42);
    assert_eq!(old, "42/old/a/b");
    assert_eq!(new, "42/new/a/b");
    let joined = Key::parse("x").unwrap().join(&key);
    assert_eq!(joined.to_string(), "x/a/b/c");
    assert_eq!(key.with_segment("d".to_string()).to_string(), "a/b/c/d");
}

#[test]
fn key_errors() {
    assert!(matches!(Key::parse(""), Err(Error::KeyError(_))));
    let key = Key::parse("a").unwrap();
    assert!(matches!(key.push(&"b/c".to_string()), Err(Error::KeyError(_))));
    assert_eq!(key.push(&"b".to_string()).unwrap().to_string(), "a/b");
}

#[test]
fn codec_values() {
    assert_eq!(encode_u64(0x0102), vec![2, 1, 0, 0, 0, 0, 0, 0]);
    assert_eq!(decode_u64(&[2, 1, 0, 0, 0, 0, 0, 0]).unwrap(), 0x0102);
    assert!(matches!(decode_u64(&[1, 2, 3]), Err(Error::CodingError(_))));
    assert_eq!(encode_opt_u32(None), vec![0]);
    assert_eq!(encode_opt_u32(Some(5)), vec![1, 5, 0, 0, 0]);
    assert_eq!(decode_opt_u32(&[1, 5, 0, 0, 0]).unwrap(), Some(5));
    assert_eq!(decode_opt_u32(&[0]).unwrap(), None);
    assert!(decode_opt_u32(&[2]).is_err());
    let epochs = Epochs { first_known_epoch: 3, first_block_heights: vec![1, 10] };
    let bytes = epochs.encode();
    assert_eq!(bytes, vec![3, 0, 0, 0, 0, 0, 0, 0, 2, 0, 0, 0, 1, 0, 0, 0, 0, 0, 0, 0, 10, 0, 0, 0, 0, 0, 0, 0]);
    assert_eq!(Epochs::decode(&bytes).unwrap(), epochs);
    assert!(Epochs::decode(&bytes[..27]).is_err());
}

#[test]
fn epoch_lookup() {
    let mut epochs = Epochs { first_known_epoch: 0, first_block_heights: vec![0] };
    epochs.new_epoch(100);
    epochs.new_epoch(101);
    assert_eq!(epochs.get_epoch(5), Some(0));
    assert_eq!(epochs.get_epoch(100), Some(1));
    assert_eq!(epochs.get_epoch(101), Some(2));
    assert_eq!(epochs.get_epoch(1000), Some(2));
    let empty = Epochs { first_known_epoch: 0, first_block_heights: vec![] };
    assert_eq!(empty.get_epoch(1), None);
}

#[test]
fn write_then_read_at_same_height() {
    let mut db = open();
    let key = Key::parse("k").unwrap();
    let mut batch = RocksDB::batch();
    db.batch_write_subspace_val(&mut batch, 7, &key, &[3, 4], false).unwrap();
    db.exec_batch(batch).unwrap();
    assert_eq!(db.read_subspace_val(&key).unwrap(), Some(vec![3, 4]));
    assert_eq!(db.read_subspace_val_with_height(&key, 7, 7).unwrap(), Some(vec![3, 4]));
}

#[test]
fn historical_round_trip() {
    let mut db = open();
    let key = Key::parse("acc/balance").unwrap();
    let writes: [(u64, u8); 3] = [(5, 1), (8, 2), (12, 3)];
    for (h, v) in writes {
        db.write_subspace_val(h, &key, &[v], true).unwrap();
    }
    for p in 5..=12u64 {
        let expected = writes.iter().filter(|(h, _)| *h <= p).last().unwrap().1;
        assert_eq!(db.read_subspace_val_with_height(&key, p, 12).unwrap(), Some(vec![expected]));
    }
    // Before the first write the key had no value.
    assert_eq!(db.read_subspace_val_with_height(&key, 4, 12).unwrap(), None);
}

#[test]
fn size_accounting() {
    let mut db = open();
    let key = Key::parse("k").unwrap();
    assert_eq!(db.write_subspace_val(1, &key, &[1, 2, 3, 4], true).unwrap(), 4);
    assert_eq!(db.write_subspace_val(2, &key, &[1, 2], true).unwrap(), -2);
    assert_eq!(db.write_subspace_val(3, &key, &[1, 2, 3], true).unwrap(), 1);
    assert_eq!(db.delete_subspace_val(4, &key, true).unwrap(), 3);
    assert_eq!(db.delete_subspace_val(5, &key, true).unwrap(), 0);
}

#[test]
fn unpersisted_diffs_keep_one_height() {
    let mut db = open();
    let key = Key::parse("volatile").unwrap();
    for h in [1u64, 10, 20] {
        db.write_subspace_val(h, &key, &[h as u8], false).unwrap();
    }
    let diffs = db.iter_new_diffs(20, None);
    assert_eq!(diffs, vec![("volatile".to_string(), vec![20])]);
    for h in [1u64, 10] {
        let (old, new) = old_and_new_diff_key("volatile", h);
        assert!(db.get_cf(DbColFam::DIFFS, &old).is_none());
        assert!(db.get_cf(DbColFam::DIFFS, &new).is_none());
    }
    assert_eq!(db.iter_old_diffs(20, None), vec![("volatile".to_string(), vec![10])]);
}

#[test]
fn same_height_writes_last_wins() {
    let mut db = open();
    let key = Key::parse("k").unwrap();
    db.write_subspace_val(1, &key, &[0], true).unwrap();
    let mut batch = RocksDB::batch();
    db.batch_write_subspace_val(&mut batch, 2, &key, &[1], true).unwrap();
    db.batch_write_subspace_val(&mut batch, 2, &key, &[2], true).unwrap();
    db.exec_batch(batch).unwrap();
    assert_eq!(db.read_subspace_val(&key).unwrap(), Some(vec![2]));
    assert_eq!(db.iter_new_diffs(2, None), vec![("k".to_string(), vec![2])]);
    assert_eq!(db.iter_old_diffs(2, None), vec![("k".to_string(), vec![0])]);
}

#[test]
fn prefix_iteration_respects_segments() {
    let mut db = open();
    for k in ["a/c", "ab", "a/d/e", "b"] {
        db.write_subspace_val(1, &Key::parse(k).unwrap(), &[1], true).unwrap();
    }
    let keys: Vec<String> = db.iter_prefix(Some(&Key::parse("a").unwrap())).into_iter().map(|(k, _)| k).collect();
    assert_eq!(keys, vec!["a/c".to_string(), "a/d/e".to_string()]);
}

#[test]
fn pattern_iteration() {
    let mut db = open();
    for k in ["acc/1/balance", "acc/2/balance", "acc/2/nonce", "other"] {
        db.write_subspace_val(1, &Key::parse(k).unwrap(), &[1], true).unwrap();
    }
    let pattern = Pattern::new("balance$").unwrap();
    let keys: Vec<String> = db.iter_pattern(None, &pattern).into_iter().map(|(k, _)| k).collect();
    assert_eq!(keys, vec!["acc/1/balance".to_string(), "acc/2/balance".to_string()]);
    let keys: Vec<String> = db.iter_pattern(Some(&Key::parse("acc/2").unwrap()), &pattern).into_iter().map(|(k, _)| k).collect();
    assert_eq!(keys, vec!["acc/2/balance".to_string()]);
    assert!(matches!(Pattern::new("("), Err(Error::CodingError(_))));
}

#[test]
fn replay_keys_are_lowercase_hex() {
    let hash = ledger_storage::replay::Hash([0xab; 32]);
    assert_eq!(last_key(&hash).to_string(), format!("last/{}", "ab".repeat(32)));
    assert_eq!(buffer_key(&hash).to_string(), format!("buffer/{}", "ab".repeat(32)));
    assert_eq!(all_key(&hash).to_string(), format!("all/{}", "ab".repeat(32)));
}

#[test]
fn replay_entries_and_pruning() {
    let mut db = open();
    let h1 = ledger_storage::replay::Hash([1; 32]);
    let h2 = ledger_storage::replay::Hash([2; 32]);
    let mut batch = RocksDB::batch();
    db.write_replay_protection_entry(&mut batch, &buffer_key(&h1)).unwrap();
    db.write_replay_protection_entry(&mut batch, &last_key(&h2)).unwrap();
    db.exec_batch(batch).unwrap();
    assert!(!db.has_replay_protection_entry(&h1).unwrap());
    assert!(db.has_replay_protection_entry(&h2).unwrap());
    assert_eq!(db.iter_replay_protection_buffer(), vec![("01".repeat(32), vec![])]);
    assert_eq!(db.iter_replay_protection(), vec![("02".repeat(32), vec![])]);
    let mut batch = RocksDB::batch();
    db.prune_replay_protection_buffer(&mut batch).unwrap();
    db.exec_batch(batch).unwrap();
    assert!(db.iter_replay_protection_buffer().is_empty());
}

#[test]
fn block_round_trip() {
    let mut db = open();
    let pred = Epochs { first_known_epoch: 0, first_block_heights: vec![0, 3] };
    commit(&mut db, 3, 1, pred.clone());
    let b = db.read_last_block().unwrap().unwrap();
    assert_eq!(b.height, 3);
    assert_eq!(b.epoch, 1);
    assert_eq!(b.pred_epochs, pred);
    assert_eq!(b.hash, vec![7u8; 32]);
    assert_eq!(b.results, vec![3]);
    assert_eq!(b.next_epoch_min_start_height, 8);
    assert_eq!(b.update_epoch_blocks_delay, Some(3));
    assert_eq!(b.merkle_tree_stores.roots[0], Some(vec![0, 0]));
    assert_eq!(b.merkle_tree_stores.roots[1], Some(vec![1, 1]));
    assert_eq!(b.merkle_tree_stores.stores[5], Some(vec![15]));
    assert_eq!(db.read_block_header(3).unwrap(), Some(vec![9, 9]));
    assert_eq!(db.read_block_header(4).unwrap(), None);
    let results: Vec<(String, Vec<u8>)> = db.iter_results();
    assert_eq!(results, vec![("3".to_string(), vec![3])]);
}

#[test]
fn merkle_stores_by_epoch() {
    let mut db = open();
    commit(&mut db, 3, 1, Epochs { first_known_epoch: 0, first_block_heights: vec![0, 3] });
    let all = db.read_merkle_tree_stores(1, 3, None).unwrap().unwrap();
    assert_eq!(all.roots[2], Some(vec![2, 2]));
    let one = db.read_merkle_tree_stores(1, 3, Some(StoreType::Ibc)).unwrap().unwrap();
    assert_eq!(one.roots[2], Some(vec![2, 2]));
    assert_eq!(one.roots[1], None);
    assert!(db.read_merkle_tree_stores(2, 3, None).unwrap().is_none());
    let mut batch = RocksDB::batch();
    db.prune_merkle_tree_store(&mut batch, &StoreType::Ibc, 1).unwrap();
    db.exec_batch(batch).unwrap();
    assert!(db.read_merkle_tree_stores(1, 3, Some(StoreType::Ibc)).unwrap().is_none());
    assert!(db.read_merkle_tree_stores(1, 3, Some(StoreType::PoS)).unwrap().is_some());
}

#[test]
fn read_last_block_errors() {
    let mut db = open();
    assert!(db.read_last_block().unwrap().is_none());
    assert!(matches!(db.rollback(1), Err(Error::DBError(_))));

    commit(&mut db, 2, 0, Epochs { first_known_epoch: 0, first_block_heights: vec![0] });
    db.put_cf(DbColFam::BLOCK, "2/bogus", vec![1]);
    assert!(matches!(db.read_last_block(), Err(Error::UnknownKey { .. })));
    db.delete_cf(DbColFam::BLOCK, "2/bogus");

    db.put_cf(DbColFam::BLOCK, "2/epoch", vec![1, 2]);
    assert!(matches!(db.read_last_block(), Err(Error::CodingError(_))));
    db.delete_cf(DbColFam::BLOCK, "2/epoch");
    assert!(matches!(db.read_last_block(), Err(Error::Temporary { .. })));

    db.put_cf(DbColFam::STATE, "height", vec![1, 2, 3]);
    assert!(matches!(db.read_last_block(), Err(Error::CodingError(_))));
}

#[test]
fn rollback_rules() {
    let mut db = open();
    let mut epochs = Epochs { first_known_epoch: 0, first_block_heights: vec![0] };
    commit(&mut db, 1, 0, epochs.clone());
    epochs.new_epoch(2);
    commit(&mut db, 2, 1, epochs.clone());
    // Already at the consensus height: nothing to do.
    db.rollback(2).unwrap();
    assert_eq!(db.read_last_block().unwrap().unwrap().height, 2);
    // More than one step back is refused.
    assert!(matches!(db.rollback(0), Err(Error::DBError(_))));
    db.rollback(1).unwrap();
    let b = db.read_last_block().unwrap().unwrap();
    assert_eq!(b.height, 1);
    assert_eq!(b.tx_queue, vec![1, 1]);
    assert_eq!(db.get_cf(DbColFam::STATE, "conversion_state"), Some(vec![0]));
    assert_eq!(db.read_block_header(2).unwrap(), None);
}

#[test]
fn rollback_never_leaves_hash_in_three_buckets() {
    let mut db = open();
    let h = ledger_storage::replay::Hash([5; 32]);
    let mut epochs = Epochs { first_known_epoch: 0, first_block_heights: vec![0] };
    commit(&mut db, 1, 0, epochs.clone());
    let mut batch = RocksDB::batch();
    for key in [last_key(&h), buffer_key(&h), all_key(&h)] {
        db.write_replay_protection_entry(&mut batch, &key).unwrap();
    }
    epochs.new_epoch(2);
    db.add_block_to_batch(block(2, 1, epochs), &mut batch, true).unwrap();
    db.exec_batch(batch).unwrap();
    db.rollback(1).unwrap();
    let present: Vec<bool> = [last_key(&h), buffer_key(&h), all_key(&h)]
        .iter()
        .map(|k| db.get_cf(DbColFam::REPLAYPROT, &k.to_string()).is_some())
        .collect();
    assert_eq!(present, vec![true, true, false]);
}

#[test]
fn overwrite_and_visitor() {
    let mut db = open();
    commit(&mut db, 4, 0, Epochs { first_known_epoch: 0, first_block_heights: vec![0] });
    let key = Key::parse("k").unwrap();
    db.write_subspace_val(4, &key, &[1], true).unwrap();
    let mut batch = RocksDB::batch();
    assert!(matches!(db.overwrite_entry(&mut batch, Some(3), &DbColFam::SUBSPACE, &key, &[2]), Err(Error::DBError(_))));
    db.overwrite_entry(&mut batch, Some(4), &DbColFam::SUBSPACE, &key, &[2]).unwrap();
    db.exec_batch(batch).unwrap();
    assert_eq!(db.read_subspace_val(&key).unwrap(), Some(vec![2]));
    assert_eq!(db.iter_new_diffs(4, None), vec![("k".to_string(), vec![2])]);

    let batch = {
        let mut visitor = RocksDBUpdateVisitor::new(&db);
        assert_eq!(visitor.read(&key, &DbColFam::SUBSPACE), Some(vec![2]));
        visitor.write(&Key::parse("other").unwrap(), &DbColFam::STATE, &[5]).unwrap();
        visitor.delete(&key, &DbColFam::SUBSPACE).unwrap();
        assert_eq!(visitor.get_pattern(&Pattern::new("^k$").unwrap()), vec![("k".to_string(), vec![2])]);
        visitor.take_batch()
    };
    db.exec_batch(batch).unwrap();
    assert_eq!(db.read_subspace_val(&key).unwrap(), None);
    assert_eq!(db.get_cf(DbColFam::STATE, "other"), Some(vec![5]));
    assert_eq!(db.iter_old_diffs(4, None), vec![("k".to_string(), vec![2])]);
}

#[test]
fn dump_text() {
    let mut db = open();
    commit(&mut db, 2, 0, Epochs { first_known_epoch: 0, first_block_heights: vec![0] });
    db.write_subspace_val(1, &Key::parse("a").unwrap(), &[0x0f], true).unwrap();
    db.write_subspace_val(2, &Key::parse("a").unwrap(), &[0xa0, 0x01], true).unwrap();
    let now = db.dump_block(false, None).unwrap();
    assert_eq!(now.height, 2);
    assert_eq!(now.text, "\"a\" = \"a001\"\n");
    let before = db.dump_block(false, Some(1)).unwrap();
    assert_eq!(before.height, 1);
    assert_eq!(before.text, "\"a\" = \"0f\"\n");
    let historic = db.dump_block(true, Some(1)).unwrap();
    assert_eq!(historic.text, "\"1/new/a\" = \"0f\"\n\"a\" = \"0f\"\n");
}

#[test]
fn machine_settings() {
    assert_eq!(compaction_threads(None, 16), 4);
    assert_eq!(compaction_threads(Some(3), 16), 3);
    assert_eq!(nofile_limit_to_set(1024, 1_000_000), Some(16384));
    assert_eq!(nofile_limit_to_set(1024, 4096), Some(4096));
    assert_eq!(nofile_limit_to_set(20000, 1_000_000), None);
    assert_eq!(max_open_files(16384), Some(16384));
    assert_eq!(max_open_files(u64::MAX), None);
}
