//! Overwriting entries of the latest committed height, for offline state
//! surgery.

use vstd::prelude::*;
use vstd::slice::slice_to_vec;

use crate::block_read::state_val;
use crate::codec::{decode_u64, u64_of};
use crate::db::{DbColFam, DbState, OpView, RocksDB, RocksDBWriteBatch};
use crate::error::Error;
use crate::iter::{key_scan_prefix, matching};
use crate::key::{diff_key, old_and_new_diff_key, Key};
use crate::kv::{entries_with_prefix, pairs_view};
use crate::pattern::Pattern;
use crate::subspace::{delete_ops, lookup};

verus! {

/// The last committed height, when it is stored and decodes.
pub open spec fn last_height(m: DbState) -> Option<u64> {
    match state_val(m, "height"@) {
        Some(b) => u64_of(b),
        None => None,
    }
}

/// The writes of an overwrite of `key` in `cf` at the last height `h`: the
/// value, and for the subspace a new diff at `h` too.
pub open spec fn overwrite_ops(cf: DbColFam, h: u64, key: Seq<char>, v: Seq<u8>) -> Seq<OpView> {
    if cf == DbColFam::SUBSPACE {
        seq![(cf, key, Some(v)), (DbColFam::DIFFS, diff_key(h as nat, false, key), Some(v))]
    } else {
        seq![(cf, key, Some(v))]
    }
}

impl RocksDB {
    /// The last committed height.
    fn read_last_height(&self) -> (r: Result<u64, Error>)
        requires
            self.wf(),
        ensures
            match r {
                Ok(h) => last_height(self@) == Some(h),
                Err(e) => last_height(self@) is None && e is DBError,
            },
    {
        match self.get_cf(DbColFam::STATE, "height") {
            Some(b) => match decode_u64(b.as_slice()) {
                Ok(h) => Ok(h),
                Err(_) => Err(Error::DBError("Unable to decode block height".to_owned())),
            },
            None => Err(Error::DBError("No block height found".to_owned())),
        }
    }

    /// Stages an overwrite of `key` in `cf` at the last committed height;
    /// `height`, when given, must be that height.
    pub fn overwrite_entry(
        &self,
        batch: &mut RocksDBWriteBatch,
        height: Option<u64>,
        cf: &DbColFam,
        key: &Key,
        new_value: &[u8],
    ) -> (r: Result<(), Error>)
        requires
            self.wf(),
        ensures
            r is Ok <==> (last_height(self@) matches Some(h) && (height is None || height == Some(h))),
            r is Ok ==> final(batch)@ == old(batch)@ + overwrite_ops(*cf, last_height(self@)->0, key@, new_value@),
            r is Err ==> final(batch)@ == old(batch)@,
    {
        let last = match self.read_last_height() {
            Ok(h) => h,
            Err(e) => return Err(e),
        };
        if let Some(h) = height {
            if h != last {
                return Err(Error::DBError("Only the last committed height can be overwritten".to_owned()));
            }
        }
        let ghost start = batch@;
        let k = key.to_string();
        batch.put_cf(*cf, k.clone(), slice_to_vec(new_value));
        if *cf == DbColFam::SUBSPACE {
            let (_, diff) = old_and_new_diff_key(k.as_str(), last);
            batch.put_cf(DbColFam::DIFFS, diff, slice_to_vec(new_value));
        }
        proof {
            assert(batch@ =~= start + overwrite_ops(*cf, last, key@, new_value@));
        }
        Ok(())
    }
}

/// Visits a set of updates of the latest committed state, staging them all
/// in one batch.
pub struct RocksDBUpdateVisitor<'db> {
    db: &'db RocksDB,
    batch: RocksDBWriteBatch,
}

impl<'db> RocksDBUpdateVisitor<'db> {
    /// The store that the visitor reads.
    pub closed spec fn store(&self) -> &'db RocksDB {
        self.db
    }

    /// The writes staged so far.
    pub closed spec fn staged(&self) -> Seq<OpView> {
        self.batch@
    }

    /// A visitor of `db` with nothing staged.
    pub fn new(db: &'db RocksDB) -> (r: Self)
        ensures
            r.store() == db,
            r.staged() == Seq::<OpView>::empty(),
    {
        RocksDBUpdateVisitor { db, batch: RocksDB::batch() }
    }

    /// The batch of the staged writes.
    pub fn take_batch(self) -> (r: RocksDBWriteBatch)
        ensures
            r@ == self.staged(),
    {
        self.batch
    }

    /// The value of `key` in `cf`.
    pub fn read(&self, key: &Key, cf: &DbColFam) -> (r: Option<Vec<u8>>)
        requires
            self.store().wf(),
        ensures
            match r {
                Some(v) => lookup(self.store()@, (*cf, key@)) == Some(v@),
                None => lookup(self.store()@, (*cf, key@)) is None,
            },
    {
        let k = key.to_string();
        self.db.get_cf(*cf, k.as_str())
    }

    /// Stages an overwrite of `key` in `cf` at the last committed height.
    pub fn write(&mut self, key: &Key, cf: &DbColFam, value: &[u8]) -> (r: Result<(), Error>)
        requires
            old(self).store().wf(),
        ensures
            final(self).store() == old(self).store(),
            r is Ok <==> last_height(old(self).store()@) is Some,
            r is Ok ==> final(self).staged() == old(self).staged() + overwrite_ops(*cf, last_height(old(self).store()@)->0, key@, value@),
            r is Err ==> final(self).staged() == old(self).staged(),
    {
        self.db.overwrite_entry(&mut self.batch, None, cf, key, value)
    }

    /// Stages a delete of `key` in `cf` at the last committed height; in the
    /// subspace, with its persisted diff.
    pub fn delete(&mut self, key: &Key, cf: &DbColFam) -> (r: Result<(), Error>)
        requires
            old(self).store().wf(),
        ensures
            final(self).store() == old(self).store(),
            r is Ok <==> last_height(old(self).store()@) is Some,
            r is Ok ==> final(self).staged() == old(self).staged() + if *cf == DbColFam::SUBSPACE {
                delete_ops(old(self).store()@, last_height(old(self).store()@)->0 as nat, key@, true)
            } else {
                seq![(*cf, key@, None::<Seq<u8>>)]
            },
            r is Err ==> final(self).staged() == old(self).staged(),
    {
        let last = match self.db.read_last_height() {
            Ok(h) => h,
            Err(e) => return Err(e),
        };
        if *cf == DbColFam::SUBSPACE {
            let _ = self.db.batch_delete_subspace_val(&mut self.batch, last, key, true);
        } else {
            let ghost start = self.batch@;
            self.batch.delete_cf(*cf, key.to_string());
            proof {
                assert(self.batch@ =~= start + seq![(*cf, key@, None::<Seq<u8>>)]);
            }
        }
        Ok(())
    }

    /// The subspace entries whose key matches `pattern`, in key order.
    pub fn get_pattern(&self, pattern: &Pattern) -> (r: Vec<(String, Vec<u8>)>)
        requires
            self.store().wf(),
        ensures
            pairs_view(r@) == matching(entries_with_prefix(self.store().entries(DbColFam::SUBSPACE), key_scan_prefix(None)), pattern.source()),
    {
        self.db.iter_pattern(None, pattern)
    }
}

} // verus!
