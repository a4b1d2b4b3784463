//! Single-step rollback of the last committed block.
//!
//! Only one level of `pred/` shadow copies exists, so one rollback can undo
//! one block: the consensus layer rolls back one height at a time.

use vstd::prelude::*;

use crate::block::{pred_key, pred_key_string, results_key, results_key_string};
use crate::block_read::{block_entries_bad, block_read_matches, BlockStateRead};
use crate::codec::{encode_u64, epoch_at, u64_bytes};
use crate::db::{apply_ops, DbColFam, DbState, OpView, RocksDB, RocksDBWriteBatch};
use crate::error::Error;
use crate::iter::stripped;
use crate::key::{height_prefix, height_prefix_string, old_and_new_diff_key};
use crate::kv::{entries_with_prefix, pairs_view};
use crate::replay::{all_bucket, buffer_bucket, last_bucket, replay_deletes, replay_key};
use crate::subspace::{diff_place, read_at};

verus! {

/// The state values that rollback restores from their shadow copies.
pub open spec fn shadowed_names() -> Seq<Seq<char>> {
    seq!["next_epoch_min_start_height"@, "next_epoch_min_start_time"@, "update_epoch_blocks_delay"@, "tx_queue"@]
}

/// Whether the conversion state changed with the last block: the epoch of
/// the height before it differs from the block's epoch.
pub open spec fn conversion_changed(b: &BlockStateRead) -> bool {
    epoch_at(b.pred_epochs.first_known_epoch, b.pred_epochs.first_block_heights@, (b.height - 1) as u64)
        != Some(b.epoch as int)
}

/// A state value set back to its shadow copy.
pub open spec fn restore_op(m: DbState, name: Seq<char>) -> OpView {
    (DbColFam::STATE, name, Some(m[(DbColFam::STATE, pred_key(name))]))
}

/// The writes that set the ledger-wide values back.
pub open spec fn metadata_ops(m: DbState, b: &BlockStateRead) -> Seq<OpView> {
    seq![
        (DbColFam::STATE, "height"@, Some(u64_bytes((b.height - 1) as u64))),
        restore_op(m, shadowed_names()[0]),
        restore_op(m, shadowed_names()[1]),
        restore_op(m, shadowed_names()[2]),
        restore_op(m, shadowed_names()[3]),
    ] + if conversion_changed(b) {
        seq![restore_op(m, "conversion_state"@)]
    } else {
        Seq::empty()
    }
}

/// Each buffered hash (as hex text) goes back to the current block's
/// bucket and leaves the bucket of all hashes.
pub open spec fn buffer_restore_ops(es: Seq<(Seq<char>, Seq<u8>)>) -> Seq<OpView>
    decreases es.len(),
{
    if es.len() == 0 {
        Seq::empty()
    } else {
        buffer_restore_ops(es.drop_last()) + seq![
            (DbColFam::REPLAYPROT, replay_key(last_bucket(), es.last().0), Some(Seq::<u8>::empty())),
            (DbColFam::REPLAYPROT, replay_key(all_bucket(), es.last().0), None),
        ]
    }
}

/// Each subspace key set to its value at the height before `l`, or deleted
/// when it had none.
pub open spec fn subspace_restore_ops(m: DbState, es: Seq<(Seq<char>, Seq<u8>)>, l: nat) -> Seq<OpView> {
    es.map_values(|e: (Seq<char>, Seq<u8>)| (DbColFam::SUBSPACE, e.0, read_at(m, e.0, (l - 1) as nat, l)))
}

/// Each key deleted at height `l` (an old diff and no new one) put back
/// with its old value.
pub open spec fn deleted_restore_ops(m: DbState, olds: Seq<(Seq<char>, Seq<u8>)>, l: nat) -> Seq<OpView>
    decreases olds.len(),
{
    if olds.len() == 0 {
        Seq::empty()
    } else {
        let rest = deleted_restore_ops(m, olds.drop_last(), l);
        if m.contains_key(diff_place(l, false, olds.last().0)) {
            rest
        } else {
            rest.push((DbColFam::SUBSPACE, olds.last().0, Some(olds.last().1)))
        }
    }
}

/// Deletes of the given entries of a column family.
pub open spec fn cf_deletes(cf: DbColFam, es: Seq<(Seq<char>, Seq<u8>)>) -> Seq<OpView> {
    es.map_values(|e: (Seq<char>, Seq<u8>)| (cf, e.0, None::<Seq<u8>>))
}

/// All the writes of a rollback of the last block `b` of `db`.
pub open spec fn rollback_ops(db: &RocksDB, b: &BlockStateRead) -> Seq<OpView> {
    let m = db@;
    let l = b.height as nat;
    let hp = height_prefix(l);
    metadata_ops(m, b)
        + seq![(DbColFam::BLOCK, results_key(l), None)]
        + replay_deletes(entries_with_prefix(db.entries(DbColFam::REPLAYPROT), last_bucket() + seq!['/']))
        + buffer_restore_ops(stripped(entries_with_prefix(db.entries(DbColFam::REPLAYPROT), buffer_bucket() + seq!['/']), buffer_bucket().len() + 1))
        + subspace_restore_ops(m, db.entries(DbColFam::SUBSPACE), l)
        + deleted_restore_ops(m, stripped(entries_with_prefix(db.entries(DbColFam::DIFFS), hp + "old/"@), (hp + "old/"@).len()), l)
        + cf_deletes(DbColFam::DIFFS, entries_with_prefix(db.entries(DbColFam::DIFFS), hp))
        + cf_deletes(DbColFam::BLOCK, entries_with_prefix(db.entries(DbColFam::BLOCK), hp))
}

/// The shadow copies that a rollback of `b` needs are there.
pub open spec fn shadows_present(m: DbState, b: &BlockStateRead) -> bool {
    &&& forall|i: int| 0 <= i < 4 ==> m.contains_key((DbColFam::STATE, pred_key(#[trigger] shadowed_names()[i])))
    &&& conversion_changed(b) ==> m.contains_key((DbColFam::STATE, pred_key("conversion_state"@)))
}

impl RocksDB {
    /// Stages the ledger-wide values of the height before block `b`.
    fn stage_metadata_restore(&self, batch: &mut RocksDBWriteBatch, b: &BlockStateRead) -> (r: Result<(), Error>)
        requires
            self.wf(),
            b.height >= 1,
            b.pred_epochs.first_known_epoch + b.pred_epochs.first_block_heights@.len() <= u64::MAX,
        ensures
            r is Ok <==> shadows_present(self@, b),
            r is Ok ==> final(batch)@ == old(batch)@ + metadata_ops(self@, b),
    {
        let ghost start = batch@;
        let previous = b.height - 1;
        batch.put_cf(DbColFam::STATE, "height".to_owned(), encode_u64(previous));
        let names = ["next_epoch_min_start_height", "next_epoch_min_start_time", "update_epoch_blocks_delay", "tx_queue"];
        let mut i: usize = 0;
        while i < 4
            invariant
                self.wf(),
                i <= 4,
                forall|j: int| 0 <= j < 4 ==> (#[trigger] names@[j])@ == shadowed_names()[j],
                forall|j: int| 0 <= j < i ==> self@.contains_key((DbColFam::STATE, pred_key(#[trigger] shadowed_names()[j]))),
                batch@ == start + seq![(DbColFam::STATE, "height"@, Some(u64_bytes(previous)))] + seq![
                    restore_op(self@, shadowed_names()[0]),
                    restore_op(self@, shadowed_names()[1]),
                    restore_op(self@, shadowed_names()[2]),
                    restore_op(self@, shadowed_names()[3]),
                ].take(i as int),
            decreases 4 - i,
        {
            let name = names[i];
            let pred = pred_key_string(name);
            match self.get_cf(DbColFam::STATE, pred.as_str()) {
                Some(v) => {
                    batch.put_cf(DbColFam::STATE, name.to_owned(), v);
                },
                None => {
                    return Err(Error::UnknownKey { key: pred });
                },
            }
            i = i + 1;
            proof {
                assert(batch@ =~= start + seq![(DbColFam::STATE, "height"@, Some(u64_bytes(previous)))] + seq![
                    restore_op(self@, shadowed_names()[0]),
                    restore_op(self@, shadowed_names()[1]),
                    restore_op(self@, shadowed_names()[2]),
                    restore_op(self@, shadowed_names()[3]),
                ].take(i as int));
            }
        }
        let ghost mid = batch@;
        let changed = match b.pred_epochs.get_epoch(previous) {
            Some(e) => e != b.epoch,
            None => true,
        };
        if changed {
            let pred = pred_key_string("conversion_state");
            match self.get_cf(DbColFam::STATE, pred.as_str()) {
                Some(v) => {
                    batch.put_cf(DbColFam::STATE, "conversion_state".to_owned(), v);
                },
                None => {
                    return Err(Error::UnknownKey { key: pred });
                },
            }
        }
        proof {
            assert(batch@ =~= start + metadata_ops(self@, b));
        }
        Ok(())
    }

    /// Stages the replay protection state of the height before the last
    /// block: the current bucket emptied, then refilled from the buffer,
    /// whose hashes leave the bucket of all hashes.
    fn stage_replay_restore(&self, batch: &mut RocksDBWriteBatch)
        requires
            self.wf(),
        ensures
            final(batch)@ == old(batch)@
                + replay_deletes(entries_with_prefix(self.entries(DbColFam::REPLAYPROT), last_bucket() + seq!['/']))
                + buffer_restore_ops(stripped(entries_with_prefix(self.entries(DbColFam::REPLAYPROT), buffer_bucket() + seq!['/']), buffer_bucket().len() + 1)),
    {
        let ghost start = batch@;
        proof {
            reveal_strlit("last/");
            reveal_strlit("last");
        }
        let lasts = self.scan_cf(DbColFam::REPLAYPROT, "last/");
        let ghost ls = pairs_view(lasts@);
        proof {
            assert("last/"@ =~= last_bucket() + seq!['/']);
        }
        let mut i: usize = 0;
        while i < lasts.len()
            invariant
                ls == pairs_view(lasts@),
                i <= lasts.len(),
                batch@ == start + replay_deletes(ls.take(i as int)),
            decreases lasts.len() - i,
        {
            batch.delete_cf(DbColFam::REPLAYPROT, lasts[i].0.clone());
            i = i + 1;
            proof {
                assert(replay_deletes(ls.take(i as int)) =~= replay_deletes(ls.take(i - 1)).push((DbColFam::REPLAYPROT, ls[i - 1].0, None)));
            }
        }
        proof {
            assert(ls.take(i as int) =~= ls);
        }
        let ghost mid = batch@;
        let buffered = self.iter_replay_protection_buffer();
        let ghost bs = pairs_view(buffered@);
        let mut j: usize = 0;
        while j < buffered.len()
            invariant
                bs == pairs_view(buffered@),
                j <= buffered.len(),
                batch@ == mid + buffer_restore_ops(bs.take(j as int)),
            decreases buffered.len() - j,
        {
            let hex = buffered[j].0.as_str();
            let mut last = "last/".to_owned();
            last.append(hex);
            let mut all = "all/".to_owned();
            all.append(hex);
            proof {
                reveal_strlit("last/");
                reveal_strlit("last");
                reveal_strlit("all/");
                reveal_strlit("all");
                assert(last@ =~= replay_key(last_bucket(), bs[j as int].0));
                assert(all@ =~= replay_key(all_bucket(), bs[j as int].0));
            }
            let empty: Vec<u8> = Vec::new();
            proof {
                assert(empty@ =~= Seq::<u8>::empty());
            }
            batch.put_cf(DbColFam::REPLAYPROT, last, empty);
            batch.delete_cf(DbColFam::REPLAYPROT, all);
            j = j + 1;
            proof {
                assert(bs.take(j as int).drop_last() =~= bs.take(j - 1));
                assert(batch@ =~= mid + buffer_restore_ops(bs.take(j as int)));
            }
        }
        proof {
            assert(bs.take(j as int) =~= bs);
        }
    }

    /// Stages the subspace of the height before block `l`: each key set to
    /// its value there, then the keys deleted at `l` put back.
    fn stage_subspace_restore(&self, batch: &mut RocksDBWriteBatch, l: u64)
        requires
            self.wf(),
            l >= 1,
        ensures
            final(batch)@ == old(batch)@
                + subspace_restore_ops(self@, self.entries(DbColFam::SUBSPACE), l as nat)
                + deleted_restore_ops(self@, stripped(
                    entries_with_prefix(self.entries(DbColFam::DIFFS), height_prefix(l as nat) + "old/"@),
                    (height_prefix(l as nat) + "old/"@).len(),
                ), l as nat),
    {
        let ghost start = batch@;
        let ghost m = self@;
        let keys = self.iter_prefix(None);
        let ghost ks = pairs_view(keys@);
        proof {
            assert(crate::iter::key_scan_prefix(None) =~= Seq::<char>::empty());
            assert(entries_with_prefix(self.entries(DbColFam::SUBSPACE), Seq::empty()) =~= self.entries(DbColFam::SUBSPACE)) by {
                lemma_prefix_empty(self.entries(DbColFam::SUBSPACE));
            }
        }
        let mut i: usize = 0;
        while i < keys.len()
            invariant
                self.wf(),
                l >= 1,
                ks == pairs_view(keys@),
                ks == self.entries(DbColFam::SUBSPACE),
                i <= keys.len(),
                batch@ == start + subspace_restore_ops(self@, ks.take(i as int), l as nat),
            decreases keys.len() - i,
        {
            let key = keys[i].0.as_str();
            match self.read_at_height(key, l - 1, l) {
                Some(v) => batch.put_cf(DbColFam::SUBSPACE, key.to_owned(), v),
                None => batch.delete_cf(DbColFam::SUBSPACE, key.to_owned()),
            }
            i = i + 1;
            proof {
                assert(batch@ =~= start + subspace_restore_ops(self@, ks.take(i as int), l as nat));
            }
        }
        proof {
            assert(ks.take(i as int) =~= ks);
        }
        let ghost mid = batch@;
        let olds = self.iter_old_diffs(l, None);
        let ghost os = pairs_view(olds@);
        proof {
            reveal_strlit("old/");
            assert(height_prefix(l as nat) + crate::key::diff_kind(true) + seq!['/'] + crate::iter::key_scan_prefix(None) =~= height_prefix(l as nat) + "old/"@);
            assert(height_prefix(l as nat) + crate::key::diff_kind(true) + seq!['/'] =~= height_prefix(l as nat) + "old/"@);
        }
        let mut j: usize = 0;
        while j < olds.len()
            invariant
                self.wf(),
                m == self@,
                os == pairs_view(olds@),
                j <= olds.len(),
                batch@ == mid + deleted_restore_ops(m, os.take(j as int), l as nat),
            decreases olds.len() - j,
        {
            let key = olds[j].0.as_str();
            let (_, new_key) = old_and_new_diff_key(key, l);
            proof {
                assert(os.take(j + 1).drop_last() =~= os.take(j as int));
            }
            if self.get_cf(DbColFam::DIFFS, new_key.as_str()).is_none() {
                batch.put_cf(DbColFam::SUBSPACE, key.to_owned(), crate::kv::copy_bytes(&olds[j].1));
            }
            j = j + 1;
            proof {
                assert(batch@ =~= mid + deleted_restore_ops(m, os.take(j as int), l as nat));
            }
        }
        proof {
            assert(os.take(j as int) =~= os);
        }
    }

    /// Stages deletes of every key of `cf` under the height prefix of `l`.
    fn stage_height_deletes(&self, batch: &mut RocksDBWriteBatch, cf: DbColFam, l: u64)
        requires
            self.wf(),
        ensures
            final(batch)@ == old(batch)@ + cf_deletes(cf, entries_with_prefix(self.entries(cf), height_prefix(l as nat))),
    {
        let ghost start = batch@;
        let prefix = height_prefix_string(l);
        let entries = self.scan_cf(cf, prefix.as_str());
        let ghost es = pairs_view(entries@);
        let mut i: usize = 0;
        while i < entries.len()
            invariant
                es == pairs_view(entries@),
                i <= entries.len(),
                batch@ == start + cf_deletes(cf, es.take(i as int)),
            decreases entries.len() - i,
        {
            batch.delete_cf(cf, entries[i].0.clone());
            i = i + 1;
            proof {
                assert(cf_deletes(cf, es.take(i as int)) =~= cf_deletes(cf, es.take(i - 1)).push((cf, es[i - 1].0, None)));
            }
        }
        proof {
            assert(es.take(i as int) =~= es);
        }
    }

    /// Rolls the store back to the height before its last block, when the
    /// consensus layer's height `tendermint_block_height` is that height; a
    /// no-op when it is the last height already.
    pub fn rollback(&mut self, tendermint_block_height: u64) -> (r: Result<(), Error>)
        requires
            old(self).wf(),
        ensures
            final(self).wf(),
            r is Err ==> final(self)@ == old(self)@,
            r is Ok ==> exists|b: BlockStateRead| {
                &&& #[trigger] block_read_matches(old(self)@, &b)
                &&& if b.height == tendermint_block_height {
                    final(self)@ == old(self)@
                } else {
                    &&& b.height >= 1
                    &&& tendermint_block_height == b.height - 1
                    &&& final(self)@ == apply_ops(old(self)@, rollback_ops(old(self), &b))
                }
            },
            forall|b: BlockStateRead| #[trigger] block_read_matches(old(self)@, &b) && !block_entries_bad(old(self)@, b.height as nat) ==> {
                &&& b.height == tendermint_block_height ==> r is Ok
                &&& b.height >= 1 && tendermint_block_height == b.height - 1 && shadows_present(old(self)@, &b)
                    && b.pred_epochs.first_known_epoch + b.pred_epochs.first_block_heights@.len() <= u64::MAX ==> r is Ok
            },
    {
        let last = match self.read_last_block() {
            Ok(Some(b)) => b,
            Ok(None) => {
                return Err(Error::DBError("Missing last block in storage".to_owned()));
            },
            Err(e) => return Err(e),
        };
        proof {
            assert forall|b: BlockStateRead| #[trigger] block_read_matches(self@, &b) implies b.height == last.height
                && b.epoch == last.epoch && b.pred_epochs.first_known_epoch == last.pred_epochs.first_known_epoch
                && b.pred_epochs.first_block_heights@ == last.pred_epochs.first_block_heights@ by {
                lemma_block_read_unique(self@, &b, &last);
            }
        }
        if tendermint_block_height == last.height {
            return Ok(());
        }
        if last.height == 0 || tendermint_block_height != last.height - 1 {
            return Err(Error::DBError("Only the last block can be rolled back".to_owned()));
        }
        if !last.pred_epochs.is_countable() {
            return Err(Error::CodingError("Epoch table too long".to_owned()));
        }
        let l = last.height;
        let mut batch = RocksDB::batch();
        match self.stage_metadata_restore(&mut batch, &last) {
            Ok(()) => {},
            Err(e) => return Err(e),
        }
        let ghost a = batch@;
        batch.delete_cf(DbColFam::BLOCK, results_key_string(l));
        self.stage_replay_restore(&mut batch);
        let ghost c = batch@;
        self.stage_subspace_restore(&mut batch, l);
        let ghost d = batch@;
        self.stage_height_deletes(&mut batch, DbColFam::DIFFS, l);
        self.stage_height_deletes(&mut batch, DbColFam::BLOCK, l);
        proof {
            reveal_strlit("old/");
            assert(batch@ =~= rollback_ops(old(self), &last));
        }
        let _ = self.exec_batch(batch);
        Ok(())
    }
}

/// Two readings of the last block agree on its height, epoch and epoch
/// table.
pub proof fn lemma_block_read_unique(m: DbState, b1: &BlockStateRead, b2: &BlockStateRead)
    requires
        block_read_matches(m, b1),
        block_read_matches(m, b2),
    ensures
        b1.height == b2.height,
        b1.epoch == b2.epoch,
        b1.pred_epochs.first_known_epoch == b2.pred_epochs.first_known_epoch,
        b1.pred_epochs.first_block_heights@ == b2.pred_epochs.first_block_heights@,
{
    crate::codec::lemma_epochs_bytes_injective(
        b1.pred_epochs.first_known_epoch,
        b1.pred_epochs.first_block_heights@,
        b2.pred_epochs.first_known_epoch,
        b2.pred_epochs.first_block_heights@,
    );
}

/// A prefix filter with the empty prefix keeps everything.
pub proof fn lemma_prefix_empty(s: Seq<(Seq<char>, Seq<u8>)>)
    ensures
        entries_with_prefix(s, Seq::empty()) == s,
    decreases s.len(),
{
    if s.len() > 0 {
        lemma_prefix_empty(s.drop_last());
        assert(s.last().0.subrange(0, 0) =~= Seq::<char>::empty());
        assert(s.drop_last().push(s.last()) =~= s);
    }
}

} // verus!
