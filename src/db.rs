//! The store: five column families and atomic write batches over them.

use vstd::prelude::*;

use crate::error::Error;
use crate::kv::{
    entries_with_prefix, find_in, lemma_entries_with_prefix_complete, lemma_entries_with_prefix_sorted,
    lemma_entries_with_prefix_sound, lemma_find_in, lemma_find_in_sorted, pairs_view, sorted_entries,
    starts_with, KvMap,
};

verus! {

/// The column families of the store.
#[allow(non_camel_case_types)]
#[derive(Debug, Clone, Copy, PartialEq, Eq, Structural)]
pub enum DbColFam {
    /// Account key-space.
    SUBSPACE,
    /// Per-height block artifacts and Merkle stores.
    BLOCK,
    /// Ledger-wide singleton keys and their predecessor copies.
    STATE,
    /// Per-height old and new values of subspace keys.
    DIFFS,
    /// Replay protection hashes.
    REPLAYPROT,
}

/// What the whole store holds: a value for each column family and key.
pub type DbState = Map<(DbColFam, Seq<char>), Seq<u8>>;

/// One write of a batch: a put when it carries a value, else a delete.
pub type OpView = (DbColFam, Seq<char>, Option<Seq<u8>>);

/// The effect of one write.
pub open spec fn apply_op(m: DbState, op: OpView) -> DbState {
    match op.2 {
        Some(v) => m.insert((op.0, op.1), v),
        None => m.remove((op.0, op.1)),
    }
}

/// The effect of a sequence of writes, applied in order.
pub open spec fn apply_ops(m: DbState, ops: Seq<OpView>) -> DbState
    decreases ops.len(),
{
    if ops.len() == 0 {
        m
    } else {
        apply_op(apply_ops(m, ops.drop_last()), ops.last())
    }
}

/// Applying two sequences of writes one after the other.
pub proof fn lemma_apply_ops_append(m: DbState, a: Seq<OpView>, b: Seq<OpView>)
    ensures
        apply_ops(m, a + b) == apply_ops(apply_ops(m, a), b),
    decreases b.len(),
{
    if b.len() == 0 {
        assert(a + b =~= a);
    } else {
        assert((a + b).drop_last() =~= a + b.drop_last());
        lemma_apply_ops_append(m, a, b.drop_last());
    }
}

/// A write that is not followed by a write to the same place stands.
pub proof fn lemma_apply_ops_last_write(m: DbState, ops: Seq<OpView>, i: int)
    requires
        0 <= i < ops.len(),
        forall|j: int| i < j < ops.len() ==> (#[trigger] ops[j].0, ops[j].1) != (ops[i].0, ops[i].1),
    ensures
        match ops[i].2 {
            Some(v) => apply_ops(m, ops).contains_key((ops[i].0, ops[i].1)) && apply_ops(m, ops)[(ops[i].0, ops[i].1)] == v,
            None => !apply_ops(m, ops).contains_key((ops[i].0, ops[i].1)),
        },
    decreases ops.len(),
{
    if i < ops.len() - 1 {
        lemma_apply_ops_last_write(m, ops.drop_last(), i);
    }
}

/// Places that no write touches keep their value.
pub proof fn lemma_apply_ops_untouched(m: DbState, ops: Seq<OpView>, p: (DbColFam, Seq<char>))
    requires
        forall|j: int| 0 <= j < ops.len() ==> (#[trigger] ops[j].0, ops[j].1) != p,
    ensures
        apply_ops(m, ops).contains_key(p) == m.contains_key(p),
        m.contains_key(p) ==> apply_ops(m, ops)[p] == m[p],
    decreases ops.len(),
{
    if ops.len() > 0 {
        lemma_apply_ops_untouched(m, ops.drop_last(), p);
    }
}

/// One write of a batch.
pub struct BatchOp {
    pub cf: DbColFam,
    pub key: String,
    pub value: Option<Vec<u8>>,
}

impl View for BatchOp {
    type V = OpView;

    open spec fn view(&self) -> OpView {
        (self.cf, self.key@, match self.value {
            Some(v) => Some(v@),
            None => None,
        })
    }
}

/// A write batch: writes staged by the caller and applied at once by
/// `exec_batch`.
pub struct RocksDBWriteBatch(pub Vec<BatchOp>);

impl View for RocksDBWriteBatch {
    type V = Seq<OpView>;

    open spec fn view(&self) -> Seq<OpView> {
        self.0@.map_values(|op: BatchOp| op@)
    }
}

impl RocksDBWriteBatch {
    /// An empty batch.
    pub fn new() -> (r: RocksDBWriteBatch)
        ensures
            r@ == Seq::<OpView>::empty(),
    {
        let r = RocksDBWriteBatch(Vec::new());
        proof {
            assert(r@ =~= Seq::<OpView>::empty());
        }
        r
    }

    /// Stages a put.
    pub fn put_cf(&mut self, cf: DbColFam, key: String, value: Vec<u8>)
        ensures
            final(self)@ == old(self)@.push((cf, key@, Some(value@))),
    {
        self.0.push(BatchOp { cf, key, value: Some(value) });
        proof {
            assert(final(self)@ =~= old(self)@.push((cf, key@, Some(value@))));
        }
    }

    /// Stages a delete.
    pub fn delete_cf(&mut self, cf: DbColFam, key: String)
        ensures
            final(self)@ == old(self)@.push((cf, key@, None)),
    {
        self.0.push(BatchOp { cf, key, value: None });
        proof {
            assert(final(self)@ =~= old(self)@.push((cf, key@, None)));
        }
    }
}

/// The store: five ordered column families.
pub struct RocksDB {
    state: KvMap,
    subspace: KvMap,
    diffs: KvMap,
    block: KvMap,
    replay: KvMap,
}

/// A new, empty store.
pub fn open() -> (r: RocksDB)
    ensures
        r.wf(),
        r@ == DbState::empty(),
{
    let r = RocksDB {
        state: KvMap::new(),
        subspace: KvMap::new(),
        diffs: KvMap::new(),
        block: KvMap::new(),
        replay: KvMap::new(),
    };
    proof {
        assert(r@ =~= DbState::empty());
    }
    r
}

impl RocksDB {
    pub closed spec fn cf_map(&self, cf: DbColFam) -> &KvMap {
        match cf {
            DbColFam::SUBSPACE => &self.subspace,
            DbColFam::BLOCK => &self.block,
            DbColFam::STATE => &self.state,
            DbColFam::DIFFS => &self.diffs,
            DbColFam::REPLAYPROT => &self.replay,
        }
    }

    /// The entries of a column family in key order.
    pub closed spec fn entries(&self, cf: DbColFam) -> Seq<(Seq<char>, Seq<u8>)> {
        self.cf_map(cf).entry_seq()
    }

    /// Each column family is a well-formed ordered map.
    pub closed spec fn wf(&self) -> bool {
        &&& self.state.wf()
        &&& self.subspace.wf()
        &&& self.diffs.wf()
        &&& self.block.wf()
        &&& self.replay.wf()
    }

    /// The entries of each column family are sorted and are exactly its
    /// contents.
    pub proof fn lemma_entries(&self, cf: DbColFam)
        requires
            self.wf(),
        ensures
            sorted_entries(self.entries(cf)),
            forall|i: int| 0 <= i < self.entries(cf).len() ==> self@.contains_key((cf, #[trigger] self.entries(cf)[i].0))
                && self@[(cf, self.entries(cf)[i].0)] == self.entries(cf)[i].1,
            forall|k: Seq<char>| #[trigger] self@.contains_key((cf, k)) ==> exists|i: int| 0 <= i < self.entries(cf).len() && self.entries(cf)[i].0 == k,
    {
        self.cf_map(cf).lemma_entry_seq();
    }

    /// Among the entries of a prefix scan, the one under a key with that
    /// prefix holds what the store holds there.
    pub proof fn lemma_scan_find(&self, cf: DbColFam, p: Seq<char>, k: Seq<char>)
        requires
            self.wf(),
            starts_with(k, p),
        ensures
            find_in(entries_with_prefix(self.entries(cf), p), k) == if self@.contains_key((cf, k)) {
                Some(self@[(cf, k)])
            } else {
                None
            },
    {
        self.lemma_entries(cf);
        let s = self.entries(cf);
        let r = entries_with_prefix(s, p);
        lemma_find_in(r, k);
        if self@.contains_key((cf, k)) {
            let j = choose|j: int| 0 <= j < s.len() && s[j].0 == k;
            lemma_entries_with_prefix_complete(s, p, j);
            lemma_entries_with_prefix_sorted(s, p);
            let i = choose|i: int| 0 <= i < r.len() && r[i] == s[j];
            lemma_find_in_sorted(r, i);
        } else {
            if let Some(v) = find_in(r, k) {
                let i = choose|i: int| 0 <= i < r.len() && r[i] == (k, v);
                lemma_entries_with_prefix_sound(s, p, i);
                let j = choose|j: int| 0 <= j < s.len() && s[j] == r[i];
                assert(self@.contains_key((cf, s[j].0)));
            }
        }
    }

    /// The value under `key` in column family `cf`.
    pub fn get_cf(&self, cf: DbColFam, key: &str) -> (r: Option<Vec<u8>>)
        requires
            self.wf(),
        ensures
            r is Some <==> self@.contains_key((cf, key@)),
            r is Some ==> r->0@ == self@[(cf, key@)],
    {
        match cf {
            DbColFam::SUBSPACE => self.subspace.get(key),
            DbColFam::BLOCK => self.block.get(key),
            DbColFam::STATE => self.state.get(key),
            DbColFam::DIFFS => self.diffs.get(key),
            DbColFam::REPLAYPROT => self.replay.get(key),
        }
    }

    /// Puts `value` under `key` in column family `cf`.
    pub fn put_cf(&mut self, cf: DbColFam, key: &str, value: Vec<u8>)
        requires
            old(self).wf(),
        ensures
            final(self).wf(),
            final(self)@ == old(self)@.insert((cf, key@), value@),
    {
        match cf {
            DbColFam::SUBSPACE => self.subspace.put(key, value),
            DbColFam::BLOCK => self.block.put(key, value),
            DbColFam::STATE => self.state.put(key, value),
            DbColFam::DIFFS => self.diffs.put(key, value),
            DbColFam::REPLAYPROT => self.replay.put(key, value),
        }
        proof {
            assert(final(self)@ =~= old(self)@.insert((cf, key@), value@));
        }
    }

    /// Deletes `key` from column family `cf`.
    pub fn delete_cf(&mut self, cf: DbColFam, key: &str)
        requires
            old(self).wf(),
        ensures
            final(self).wf(),
            final(self)@ == old(self)@.remove((cf, key@)),
    {
        match cf {
            DbColFam::SUBSPACE => self.subspace.delete(key),
            DbColFam::BLOCK => self.block.delete(key),
            DbColFam::STATE => self.state.delete(key),
            DbColFam::DIFFS => self.diffs.delete(key),
            DbColFam::REPLAYPROT => self.replay.delete(key),
        }
        proof {
            assert(final(self)@ =~= old(self)@.remove((cf, key@)));
        }
    }

    /// The entries of column family `cf` whose key starts with `prefix`, in
    /// key order.
    pub fn scan_cf(&self, cf: DbColFam, prefix: &str) -> (r: Vec<(String, Vec<u8>)>)
        requires
            self.wf(),
        ensures
            pairs_view(r@) == entries_with_prefix(self.entries(cf), prefix@),
    {
        match cf {
            DbColFam::SUBSPACE => self.subspace.scan_prefix(prefix),
            DbColFam::BLOCK => self.block.scan_prefix(prefix),
            DbColFam::STATE => self.state.scan_prefix(prefix),
            DbColFam::DIFFS => self.diffs.scan_prefix(prefix),
            DbColFam::REPLAYPROT => self.replay.scan_prefix(prefix),
        }
    }

    /// A new, empty write batch.
    pub fn batch() -> (r: RocksDBWriteBatch)
        ensures
            r@ == Seq::<OpView>::empty(),
    {
        RocksDBWriteBatch::new()
    }

    /// Applies every write of `batch`, in order, at once.
    pub fn exec_batch(&mut self, batch: RocksDBWriteBatch) -> (r: Result<(), Error>)
        requires
            old(self).wf(),
        ensures
            final(self).wf(),
            r is Ok,
            final(self)@ == apply_ops(old(self)@, batch@),
    {
        let ghost start = self@;
        let ops = batch.0;
        let n = ops.len();
        let ghost all = batch@;
        let mut i: usize = 0;
        for op in it: ops
            invariant
                self.wf(),
                i == it.index(),
                it.seq() == ops@,
                i <= ops@.len(),
                n == ops@.len(),
                all == ops@.map_values(|op: BatchOp| op@),
                self@ == apply_ops(start, all.take(i as int)),
        {
            proof {
                assert(all.take(i + 1).drop_last() =~= all.take(i as int));
                assert(op == ops@[i as int]);
            }
            assert(i < n);
            match op.value {
                Some(v) => self.put_cf(op.cf, op.key.as_str(), v),
                None => self.delete_cf(op.cf, op.key.as_str()),
            }
            i = i + 1;
        }
        proof {
            assert(all.take(i as int) =~= all);
        }
        Ok(())
    }
}

impl View for RocksDB {
    type V = DbState;

    closed spec fn view(&self) -> DbState {
        Map::new(
            |p: (DbColFam, Seq<char>)| self.cf_map(p.0).view().contains_key(p.1),
            |p: (DbColFam, Seq<char>)| self.cf_map(p.0).view()[p.1],
        )
    }
}

} // verus!
