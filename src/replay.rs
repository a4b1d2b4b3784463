//! Replay protection: transaction hashes in three buckets, `last/{hash}`,
//! `buffer/{hash}` and `all/{hash}`, with the hash in lowercase hex.

use vstd::prelude::*;

use crate::db::{DbColFam, OpView, RocksDB, RocksDBWriteBatch};
use crate::error::Error;
use crate::hex::{hex_lower, hex_of};
use crate::key::Key;
use crate::kv::{entries_with_prefix, pairs_view};

verus! {

/// A transaction hash.
#[derive(Debug, Clone, Copy, PartialEq, Eq)]
pub struct Hash(pub [u8; 32]);

/// The bucket of hashes of the current block.
pub open spec fn last_bucket() -> Seq<char> {
    "last"@
}

/// The bucket of hashes of the previous block.
pub open spec fn buffer_bucket() -> Seq<char> {
    "buffer"@
}

/// The bucket of all older hashes.
pub open spec fn all_bucket() -> Seq<char> {
    "all"@
}

/// The key of a hash, given as hex text, in a bucket.
pub open spec fn replay_key(bucket: Seq<char>, hex: Seq<char>) -> Seq<char> {
    bucket + seq!['/'] + hex
}

/// The hex text of a hash.
pub open spec fn hash_hex(h: Hash) -> Seq<char> {
    hex_of(h.0@)
}

fn bucket_key(bucket: &str, hash: &Hash) -> (r: Key)
    ensures
        r@ == replay_key(bucket@, hash_hex(*hash)),
{
    let hex = hex_lower(hash.0.as_slice());
    let mut segments: Vec<String> = Vec::new();
    segments.push(bucket.to_owned());
    segments.push(hex);
    let r = Key { segments };
    proof {
        assert(r.segs().drop_last() =~= seq![bucket@]);
        assert(crate::key::joined(r.segs().drop_last()) == bucket@);
        assert(r.segs().last() == hex_of(hash.0@));
    }
    r
}

/// The key of `hash` in the bucket of the current block.
pub fn last_key(hash: &Hash) -> (r: Key)
    ensures
        r@ == replay_key(last_bucket(), hash_hex(*hash)),
{
    bucket_key("last", hash)
}

/// The key of `hash` in the bucket of the previous block.
pub fn buffer_key(hash: &Hash) -> (r: Key)
    ensures
        r@ == replay_key(buffer_bucket(), hash_hex(*hash)),
{
    bucket_key("buffer", hash)
}

/// The key of `hash` in the bucket of all older hashes.
pub fn all_key(hash: &Hash) -> (r: Key)
    ensures
        r@ == replay_key(all_bucket(), hash_hex(*hash)),
{
    bucket_key("all", hash)
}

/// Deletes of each of the given entries of the replay protection column
/// family.
pub open spec fn replay_deletes(s: Seq<(Seq<char>, Seq<u8>)>) -> Seq<OpView> {
    s.map_values(|e: (Seq<char>, Seq<u8>)| (DbColFam::REPLAYPROT, e.0, None::<Seq<u8>>))
}

impl RocksDB {
    /// Whether `hash` is in the bucket of the current block or in that of
    /// all older hashes. The buffer of the previous block is not probed.
    pub fn has_replay_protection_entry(&self, hash: &Hash) -> (r: Result<bool, Error>)
        requires
            self.wf(),
        ensures
            r == Ok::<bool, Error>(self@.contains_key((DbColFam::REPLAYPROT, replay_key(last_bucket(), hash_hex(*hash))))
                || self@.contains_key((DbColFam::REPLAYPROT, replay_key(all_bucket(), hash_hex(*hash))))),
    {
        let last = last_key(hash).to_string();
        if self.get_cf(DbColFam::REPLAYPROT, last.as_str()).is_some() {
            return Ok(true);
        }
        let all = all_key(hash).to_string();
        Ok(self.get_cf(DbColFam::REPLAYPROT, all.as_str()).is_some())
    }

    /// Stages an entry, with an empty value, under `key`.
    pub fn write_replay_protection_entry(&self, batch: &mut RocksDBWriteBatch, key: &Key) -> (r: Result<(), Error>)
        ensures
            r is Ok,
            final(batch)@ == old(batch)@.push((DbColFam::REPLAYPROT, key@, Some(Seq::<u8>::empty()))),
    {
        let v: Vec<u8> = Vec::new();
        proof {
            assert(v@ =~= Seq::<u8>::empty());
        }
        batch.put_cf(DbColFam::REPLAYPROT, key.to_string(), v);
        Ok(())
    }

    /// Stages the removal of the entry under `key`.
    pub fn delete_replay_protection_entry(&self, batch: &mut RocksDBWriteBatch, key: &Key) -> (r: Result<(), Error>)
        ensures
            r is Ok,
            final(batch)@ == old(batch)@.push((DbColFam::REPLAYPROT, key@, None)),
    {
        batch.delete_cf(DbColFam::REPLAYPROT, key.to_string());
        Ok(())
    }

    /// Stages the removal of every entry of the buffer bucket.
    pub fn prune_replay_protection_buffer(&self, batch: &mut RocksDBWriteBatch) -> (r: Result<(), Error>)
        requires
            self.wf(),
        ensures
            r is Ok,
            final(batch)@ == old(batch)@ + replay_deletes(
                entries_with_prefix(self.entries(DbColFam::REPLAYPROT), replay_key(buffer_bucket(), Seq::empty())),
            ),
    {
        let ghost start = batch@;
        let prefix = "buffer/";
        proof {
            reveal_strlit("buffer/");
            reveal_strlit("buffer");
            assert(prefix@ =~= replay_key(buffer_bucket(), Seq::empty()));
        }
        let entries = self.scan_cf(DbColFam::REPLAYPROT, prefix);
        let ghost es = pairs_view(entries@);
        let mut i: usize = 0;
        while i < entries.len()
            invariant
                es == pairs_view(entries@),
                i <= entries.len(),
                batch@ == start + replay_deletes(es.take(i as int)),
            decreases entries.len() - i,
        {
            batch.delete_cf(DbColFam::REPLAYPROT, entries[i].0.clone());
            i = i + 1;
            proof {
                assert(replay_deletes(es.take(i as int)) =~= replay_deletes(es.take(i - 1)).push((DbColFam::REPLAYPROT, es[i - 1].0, None)));
                assert(batch@ =~= start + replay_deletes(es.take(i as int)));
            }
        }
        proof {
            assert(es.take(i as int) =~= es);
        }
        Ok(())
    }
}

} // verus!
