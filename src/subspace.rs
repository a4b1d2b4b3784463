//! Subspace values, their per-height diffs, and historical reads.
//!
//! A write at height `h` records the previous value under `"{h}/old/{key}"`
//! and the new one under `"{h}/new/{key}"` in the diffs column family. For
//! keys whose diffs are not persisted, the most recent earlier pair of diffs
//! is dropped, so that at most one height keeps diffs for such a key.

use vstd::prelude::*;
use vstd::slice::slice_to_vec;

use crate::db::{apply_ops, DbColFam, DbState, OpView, RocksDB, RocksDBWriteBatch};
use crate::error::Error;
use crate::key::{diff_key, old_and_new_diff_key, Key};
use crate::kv::copy_bytes;

verus! {

/// The value at place `p`, if any.
pub open spec fn lookup(m: DbState, p: (DbColFam, Seq<char>)) -> Option<Seq<u8>> {
    if m.contains_key(p) {
        Some(m[p])
    } else {
        None
    }
}

/// The place of a diff of `key` at height `h`.
pub open spec fn diff_place(h: nat, is_old: bool, key: Seq<char>) -> (DbColFam, Seq<char>) {
    (DbColFam::DIFFS, diff_key(h, is_old, key))
}

/// Whether `key` has an old or a new diff at height `h`.
pub open spec fn has_diff(m: DbState, key: Seq<char>, h: nat) -> bool {
    m.contains_key(diff_place(h, true, key)) || m.contains_key(diff_place(h, false, key))
}

/// The greatest height in `1..=i` at which `key` has a diff.
pub open spec fn prior_diff_height(m: DbState, key: Seq<char>, i: nat) -> Option<nat>
    decreases i,
{
    if i == 0 {
        None
    } else if has_diff(m, key, i) {
        Some(i)
    } else {
        prior_diff_height(m, key, (i - 1) as nat)
    }
}

/// A put of `v` at `p` when there is a value.
pub open spec fn opt_put(p: (DbColFam, Seq<char>), v: Option<Seq<u8>>) -> Seq<OpView> {
    match v {
        Some(x) => seq![(p.0, p.1, Some(x))],
        None => Seq::empty(),
    }
}

/// A delete of `p` when `m` holds it.
pub open spec fn opt_delete(m: DbState, p: (DbColFam, Seq<char>)) -> Seq<OpView> {
    if m.contains_key(p) {
        seq![(p.0, p.1, None)]
    } else {
        Seq::empty()
    }
}

/// The deletes that drop the most recent diffs of `key` below height `h`
/// when its diffs are not persisted.
pub open spec fn compaction_ops(m: DbState, key: Seq<char>, h: nat, persist_diffs: bool) -> Seq<OpView> {
    if persist_diffs || h <= 1 {
        Seq::empty()
    } else {
        match prior_diff_height(m, key, (h - 1) as nat) {
            Some(i) => opt_delete(m, diff_place(i, true, key)) + opt_delete(m, diff_place(i, false, key)),
            None => Seq::empty(),
        }
    }
}

/// The writes that record a change of `key` at height `h`.
pub open spec fn diff_ops(
    m: DbState,
    key: Seq<char>,
    h: nat,
    old_value: Option<Seq<u8>>,
    new_value: Option<Seq<u8>>,
    persist_diffs: bool,
) -> Seq<OpView> {
    opt_put(diff_place(h, true, key), old_value) + opt_put(diff_place(h, false, key), new_value)
        + compaction_ops(m, key, h, persist_diffs)
}

/// The writes that set `key` to `v` at height `h`.
pub open spec fn write_ops(m: DbState, h: nat, key: Seq<char>, v: Seq<u8>, persist_diffs: bool) -> Seq<OpView> {
    diff_ops(m, key, h, lookup(m, (DbColFam::SUBSPACE, key)), Some(v), persist_diffs).push(
        (DbColFam::SUBSPACE, key, Some(v)),
    )
}

/// The writes that delete `key` at height `h`.
pub open spec fn delete_ops(m: DbState, h: nat, key: Seq<char>, persist_diffs: bool) -> Seq<OpView> {
    let prior = lookup(m, (DbColFam::SUBSPACE, key));
    let diffs = if prior is Some {
        diff_ops(m, key, h, prior, None, persist_diffs)
    } else {
        Seq::empty()
    };
    diffs.push((DbColFam::SUBSPACE, key, None))
}

/// `x` clamped to the range of `i64`.
pub open spec fn clamp_i64(x: int) -> int {
    if x > i64::MAX {
        i64::MAX as int
    } else if x < i64::MIN {
        i64::MIN as int
    } else {
        x
    }
}

/// The change in stored size when `key` is set to a value of length
/// `new_len`.
pub open spec fn write_size_diff(m: DbState, key: Seq<char>, new_len: nat) -> int {
    match lookup(m, (DbColFam::SUBSPACE, key)) {
        Some(prior) => clamp_i64(new_len - prior.len()),
        None => clamp_i64(new_len as int),
    }
}

/// The length of the value that deleting `key` removes.
pub open spec fn delete_size(m: DbState, key: Seq<char>) -> int {
    match lookup(m, (DbColFam::SUBSPACE, key)) {
        Some(prior) => clamp_i64(prior.len() as int),
        None => 0,
    }
}

/// The value of `key` at height `h`, reconstructed from the diffs when the
/// last committed height is `last`.
pub open spec fn read_at(m: DbState, key: Seq<char>, h: nat, last: nat) -> Option<Seq<u8>> {
    if m.contains_key(diff_place(h, false, key)) {
        Some(m[diff_place(h, false, key)])
    } else if m.contains_key(diff_place(h, true, key)) {
        None
    } else {
        read_after(m, key, h + 1, last)
    }
}

/// The value of `key` before the first diff at or after height `i`; the
/// latest value when no diff is found up to `last`.
pub open spec fn read_after(m: DbState, key: Seq<char>, i: nat, last: nat) -> Option<Seq<u8>>
    decreases last - i,
{
    if m.contains_key(diff_place(i, true, key)) {
        Some(m[diff_place(i, true, key)])
    } else if m.contains_key(diff_place(i, false, key)) {
        None
    } else if i >= last {
        lookup(m, (DbColFam::SUBSPACE, key))
    } else {
        read_after(m, key, i + 1, last)
    }
}

fn clamp_len(n: usize) -> (r: i64)
    ensures
        r as int == clamp_i64(n as int),
{
    let n = n as u64;
    if n > 0x7fff_ffff_ffff_ffff {
        i64::MAX
    } else {
        n as i64
    }
}

fn size_diff(new_len: usize, old_len: usize) -> (r: i64)
    ensures
        r as int == clamp_i64(new_len - old_len),
{
    if new_len >= old_len {
        clamp_len(new_len - old_len)
    } else {
        let d = (old_len - new_len) as u64;
        if d > 0x7fff_ffff_ffff_ffff {
            i64::MIN
        } else {
            -(d as i64)
        }
    }
}

impl RocksDB {
    /// Whether `key` has an old or a new diff at height `h`.
    fn has_diff_at(&self, key: &str, h: u64) -> (r: bool)
        requires
            self.wf(),
        ensures
            r == has_diff(self@, key@, h as nat),
    {
        let (old_key, new_key) = old_and_new_diff_key(key, h);
        self.get_cf(DbColFam::DIFFS, old_key.as_str()).is_some() || self.get_cf(DbColFam::DIFFS, new_key.as_str()).is_some()
    }

    /// The greatest height in `1..=from` at which `key` has a diff.
    fn find_prior_diff(&self, key: &str, from: u64) -> (r: Option<u64>)
        requires
            self.wf(),
        ensures
            match r {
                Some(i) => prior_diff_height(self@, key@, from as nat) == Some(i as nat),
                None => prior_diff_height(self@, key@, from as nat) is None,
            },
    {
        let mut i = from;
        while i >= 1
            invariant
                self.wf(),
                i <= from,
                prior_diff_height(self@, key@, from as nat) == prior_diff_height(self@, key@, i as nat),
            decreases i,
        {
            if self.has_diff_at(key, i) {
                return Some(i);
            }
            i = i - 1;
        }
        None
    }

    /// Stages the diffs of a change of `key` at `height`.
    fn batch_write_subspace_diff(
        &self,
        batch: &mut RocksDBWriteBatch,
        height: u64,
        key: &str,
        old_value: Option<&Vec<u8>>,
        new_value: Option<&Vec<u8>>,
        persist_diffs: bool,
    )
        requires
            self.wf(),
        ensures
            final(batch)@ == old(batch)@ + diff_ops(
                self@,
                key@,
                height as nat,
                match old_value { Some(v) => Some(v@), None => None },
                match new_value { Some(v) => Some(v@), None => None },
                persist_diffs,
            ),
    {
        let ghost start = batch@;
        let ghost m = self@;
        let ghost k = key@;
        let ghost h = height as nat;
        let (old_key, new_key) = old_and_new_diff_key(key, height);
        if let Some(v) = old_value {
            batch.put_cf(DbColFam::DIFFS, old_key, copy_bytes(v));
        }
        if let Some(v) = new_value {
            batch.put_cf(DbColFam::DIFFS, new_key, copy_bytes(v));
        }
        let ghost puts = batch@;
        proof {
            assert(puts =~= start + opt_put(diff_place(h, true, k), match old_value { Some(v) => Some(v@), None => None })
                + opt_put(diff_place(h, false, k), match new_value { Some(v) => Some(v@), None => None }));
        }
        if !persist_diffs && height > 1 {
            if let Some(i) = self.find_prior_diff(key, height - 1) {
                let (prior_old, prior_new) = old_and_new_diff_key(key, i);
                if self.get_cf(DbColFam::DIFFS, prior_old.as_str()).is_some() {
                    batch.delete_cf(DbColFam::DIFFS, prior_old);
                }
                if self.get_cf(DbColFam::DIFFS, prior_new.as_str()).is_some() {
                    batch.delete_cf(DbColFam::DIFFS, prior_new);
                }
            }
        }
        proof {
            assert(batch@ =~= puts + compaction_ops(m, k, h, persist_diffs));
        }
    }

    /// The latest value of `key`.
    pub fn read_subspace_val(&self, key: &Key) -> (r: Result<Option<Vec<u8>>, Error>)
        requires
            self.wf(),
        ensures
            r is Ok,
            match r {
                Ok(Some(v)) => lookup(self@, (DbColFam::SUBSPACE, key@)) == Some(v@),
                _ => lookup(self@, (DbColFam::SUBSPACE, key@)) is None,
            },
    {
        let k = key.to_string();
        Ok(self.get_cf(DbColFam::SUBSPACE, k.as_str()))
    }

    /// The old (`is_old`) or new diff of `key` at `height`.
    pub fn read_diffs_val(&self, key: &Key, height: u64, is_old: bool) -> (r: Result<Option<Vec<u8>>, Error>)
        requires
            self.wf(),
        ensures
            r is Ok,
            match r {
                Ok(Some(v)) => lookup(self@, diff_place(height as nat, is_old, key@)) == Some(v@),
                _ => lookup(self@, diff_place(height as nat, is_old, key@)) is None,
            },
    {
        let k = key.to_string();
        let (old_key, new_key) = old_and_new_diff_key(k.as_str(), height);
        if is_old {
            Ok(self.get_cf(DbColFam::DIFFS, old_key.as_str()))
        } else {
            Ok(self.get_cf(DbColFam::DIFFS, new_key.as_str()))
        }
    }

    /// The value of `key` at `height`, reconstructed from the diffs; the
    /// last committed height is `last_height`.
    pub fn read_subspace_val_with_height(&self, key: &Key, height: u64, last_height: u64) -> (r: Result<Option<Vec<u8>>, Error>)
        requires
            self.wf(),
            height < u64::MAX,
        ensures
            r is Ok,
            match r {
                Ok(Some(v)) => read_at(self@, key@, height as nat, last_height as nat) == Some(v@),
                _ => read_at(self@, key@, height as nat, last_height as nat) is None,
            },
    {
        let k = key.to_string();
        Ok(self.read_at_height(k.as_str(), height, last_height))
    }

    /// The value of `key` at `height`, reconstructed from the diffs.
    pub fn read_at_height(&self, key: &str, height: u64, last_height: u64) -> (r: Option<Vec<u8>>)
        requires
            self.wf(),
            height < u64::MAX,
        ensures
            match r {
                Some(v) => read_at(self@, key@, height as nat, last_height as nat) == Some(v@),
                None => read_at(self@, key@, height as nat, last_height as nat) is None,
            },
    {
        let (old_key, new_key) = old_and_new_diff_key(key, height);
        match self.get_cf(DbColFam::DIFFS, new_key.as_str()) {
            Some(v) => {
                return Some(v);
            },
            None => {
                if self.get_cf(DbColFam::DIFFS, old_key.as_str()).is_some() {
                    return None;
                }
            },
        }
        let mut raw_height = height + 1;
        loop
            invariant
                self.wf(),
                height < raw_height,
                raw_height <= last_height || raw_height == height + 1,
                read_at(self@, key@, height as nat, last_height as nat) == read_after(self@, key@, raw_height as nat, last_height as nat),
            decreases last_height - raw_height,
        {
            let (old_key, new_key) = old_and_new_diff_key(key, raw_height);
            match self.get_cf(DbColFam::DIFFS, old_key.as_str()) {
                Some(v) => {
                    return Some(v);
                },
                None => {
                    if self.get_cf(DbColFam::DIFFS, new_key.as_str()).is_some() {
                        return None;
                    }
                    if raw_height >= last_height {
                        return self.get_cf(DbColFam::SUBSPACE, key);
                    } else {
                        raw_height = raw_height + 1;
                    }
                },
            }
        }
    }

    /// Stages setting `key` to `value` at `height`, with its diffs, and
    /// returns the change in stored size.
    pub fn batch_write_subspace_val(
        &self,
        batch: &mut RocksDBWriteBatch,
        height: u64,
        key: &Key,
        value: &[u8],
        persist_diffs: bool,
    ) -> (r: Result<i64, Error>)
        requires
            self.wf(),
        ensures
            final(batch)@ == old(batch)@ + write_ops(self@, height as nat, key@, value@, persist_diffs),
            r is Ok,
            r matches Ok(d) && d as int == write_size_diff(self@, key@, value@.len()),
    {
        let k = key.to_string();
        let value = slice_to_vec(value);
        let ghost start = batch@;
        let prior = self.get_cf(DbColFam::SUBSPACE, k.as_str());
        let size = match &prior {
            Some(prior_value) => {
                self.batch_write_subspace_diff(batch, height, k.as_str(), Some(prior_value), Some(&value), persist_diffs);
                size_diff(value.len(), prior_value.len())
            },
            None => {
                self.batch_write_subspace_diff(batch, height, k.as_str(), None, Some(&value), persist_diffs);
                clamp_len(value.len())
            },
        };
        batch.put_cf(DbColFam::SUBSPACE, k, value);
        proof {
            assert(batch@ =~= start + write_ops(self@, height as nat, key@, value@, persist_diffs));
        }
        Ok(size)
    }

    /// Stages deleting `key` at `height`, with its diff, and returns the
    /// length of the removed value.
    pub fn batch_delete_subspace_val(
        &self,
        batch: &mut RocksDBWriteBatch,
        height: u64,
        key: &Key,
        persist_diffs: bool,
    ) -> (r: Result<i64, Error>)
        requires
            self.wf(),
        ensures
            final(batch)@ == old(batch)@ + delete_ops(self@, height as nat, key@, persist_diffs),
            r is Ok,
            r matches Ok(d) && d as int == delete_size(self@, key@),
    {
        let k = key.to_string();
        let ghost start = batch@;
        let prior = self.get_cf(DbColFam::SUBSPACE, k.as_str());
        let size = match &prior {
            Some(prior_value) => {
                self.batch_write_subspace_diff(batch, height, k.as_str(), Some(prior_value), None, persist_diffs);
                clamp_len(prior_value.len())
            },
            None => 0,
        };
        batch.delete_cf(DbColFam::SUBSPACE, k);
        proof {
            assert(batch@ =~= start + delete_ops(self@, height as nat, key@, persist_diffs));
        }
        Ok(size)
    }

    /// Sets `key` to `value` at `height`, with its diffs, and returns the
    /// change in stored size.
    pub fn write_subspace_val(&mut self, height: u64, key: &Key, value: &[u8], persist_diffs: bool) -> (r: Result<i64, Error>)
        requires
            old(self).wf(),
        ensures
            final(self).wf(),
            final(self)@ == apply_ops(old(self)@, write_ops(old(self)@, height as nat, key@, value@, persist_diffs)),
            r is Ok,
            r matches Ok(d) && d as int == write_size_diff(old(self)@, key@, value@.len()),
    {
        let mut batch = RocksDB::batch();
        let size = self.batch_write_subspace_val(&mut batch, height, key, value, persist_diffs);
        proof {
            assert(batch@ =~= write_ops(old(self)@, height as nat, key@, value@, persist_diffs));
        }
        let _ = self.exec_batch(batch);
        size
    }

    /// Deletes `key` at `height`, with its diff, and returns the length of
    /// the removed value.
    pub fn delete_subspace_val(&mut self, height: u64, key: &Key, persist_diffs: bool) -> (r: Result<i64, Error>)
        requires
            old(self).wf(),
        ensures
            final(self).wf(),
            final(self)@ == apply_ops(old(self)@, delete_ops(old(self)@, height as nat, key@, persist_diffs)),
            r is Ok,
            r matches Ok(d) && d as int == delete_size(old(self)@, key@),
    {
        let mut batch = RocksDB::batch();
        let size = self.batch_delete_subspace_val(&mut batch, height, key, persist_diffs);
        proof {
            assert(batch@ =~= delete_ops(old(self)@, height as nat, key@, persist_diffs));
        }
        let _ = self.exec_batch(batch);
        size
    }
}

} // verus!
