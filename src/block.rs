//! Block metadata, Merkle stores and block results: staging a committed
//! block into a batch and reading it back.
//!
//! Layout of the block column family:
//! - `results/{h}`: the results of block `h`
//! - `{h}/hash`, `{h}/time`, `{h}/epoch`, `{h}/pred_epochs`,
//!   `{h}/address_gen`, `{h}/header`: the block's own values
//! - `{h}/tree/base/root`, `{h}/tree/base/store`: the base Merkle tree
//! - `subtree/{type}/{epoch}/root`, `subtree/{type}/{epoch}/store`: the
//!   Merkle subtrees of an epoch

use vstd::prelude::*;

use crate::codec::{encode_opt_u32, encode_u64, epochs_bytes, opt_u32_bytes, u64_bytes, Epochs};
use crate::db::{DbColFam, DbState, OpView, RocksDB, RocksDBWriteBatch};
use crate::error::Error;
use crate::key::{decimal, decimal_string, height_prefix, height_prefix_string};
use crate::kv::copy_bytes;
use crate::subspace::{lookup, opt_put};

verus! {

/// The kinds of Merkle store: the base tree, rewritten at every height, and
/// the subtrees, rewritten at full commits only.
#[derive(Debug, Clone, Copy, PartialEq, Eq, Structural)]
pub enum StoreType {
    Base,
    Account,
    Ibc,
    PoS,
    BridgePool,
    CommitData,
}

/// The name of a store type, as it stands in keys.
pub open spec fn store_type_name(st: StoreType) -> Seq<char> {
    match st {
        StoreType::Base => "base"@,
        StoreType::Account => "account"@,
        StoreType::Ibc => "ibc"@,
        StoreType::PoS => "pos"@,
        StoreType::BridgePool => "eth_bridge_pool"@,
        StoreType::CommitData => "commit_data"@,
    }
}

/// The position of a store type in the order in which stores are written.
pub open spec fn store_index(st: StoreType) -> int {
    match st {
        StoreType::Base => 0,
        StoreType::Account => 1,
        StoreType::Ibc => 2,
        StoreType::PoS => 3,
        StoreType::BridgePool => 4,
        StoreType::CommitData => 5,
    }
}

/// Every store type, in order.
pub open spec fn store_types() -> Seq<StoreType> {
    seq![
        StoreType::Base,
        StoreType::Account,
        StoreType::Ibc,
        StoreType::PoS,
        StoreType::BridgePool,
        StoreType::CommitData,
    ]
}

impl StoreType {
    /// The name of the store type.
    pub fn as_str(&self) -> (r: &'static str)
        ensures
            r@ == store_type_name(*self),
    {
        match self {
            StoreType::Base => "base",
            StoreType::Account => "account",
            StoreType::Ibc => "ibc",
            StoreType::PoS => "pos",
            StoreType::BridgePool => "eth_bridge_pool",
            StoreType::CommitData => "commit_data",
        }
    }

    /// The position of the store type.
    pub fn index(&self) -> (r: usize)
        ensures
            r as int == store_index(*self),
    {
        match self {
            StoreType::Base => 0,
            StoreType::Account => 1,
            StoreType::Ibc => 2,
            StoreType::PoS => 3,
            StoreType::BridgePool => 4,
            StoreType::CommitData => 5,
        }
    }

    /// Every store type, in order.
    pub fn iter() -> (r: Vec<StoreType>)
        ensures
            r@ == store_types(),
    {
        let r = vec![
            StoreType::Base,
            StoreType::Account,
            StoreType::Ibc,
            StoreType::PoS,
            StoreType::BridgePool,
            StoreType::CommitData,
        ];
        proof {
            assert(r@ =~= store_types());
        }
        r
    }

    /// The store type of a name.
    pub fn from_str(s: &str) -> (r: Option<StoreType>)
        ensures
            match r {
                Some(st) => store_type_name(st) == s@,
                None => forall|st: StoreType| store_type_name(st) != s@,
            },
    {
        let all = StoreType::iter();
        let mut i: usize = 0;
        while i < all.len()
            invariant
                all@ == store_types(),
                i <= all.len(),
                forall|j: int| 0 <= j < i ==> store_type_name(#[trigger] all@[j]) != s@,
            decreases all.len() - i,
        {
            let name = all[i].as_str();
            if str_eq(name, s) {
                return Some(all[i]);
            }
            i = i + 1;
        }
        proof {
            assert forall|st: StoreType| store_type_name(st) != s@ by {
                assert(all@[store_index(st)] == st);
            }
        }
        None
    }
}

/// Whether two strings are equal.
pub fn str_eq(a: &str, b: &str) -> (r: bool)
    ensures
        r == (a@ == b@),
{
    let x = crate::kv::chars_of(a);
    let y = crate::kv::chars_of(b);
    crate::kv::chars_eq(&x, &y)
}

/// The Merkle roots and stores of a block, one of each per store type, in
/// the order of `store_types`.
pub struct MerkleTreeStoresWrite {
    pub roots: Vec<Vec<u8>>,
    pub stores: Vec<Vec<u8>>,
}

impl MerkleTreeStoresWrite {
    /// One root and one store for each store type.
    pub open spec fn wf(&self) -> bool {
        self.roots@.len() == 6 && self.stores@.len() == 6
    }
}

/// Merkle roots and stores read back, each slot present or not.
pub struct MerkleTreeStoresRead {
    pub roots: Vec<Option<Vec<u8>>>,
    pub stores: Vec<Option<Vec<u8>>>,
}

/// The view of an optional byte vector.
pub open spec fn opt_view(v: Option<Vec<u8>>) -> Option<Seq<u8>> {
    match v {
        Some(x) => Some(x@),
        None => None,
    }
}

impl MerkleTreeStoresRead {
    /// Slots for each store type, all empty.
    pub fn new() -> (r: MerkleTreeStoresRead)
        ensures
            r.roots@.len() == 6,
            r.stores@.len() == 6,
            forall|i: int| 0 <= i < 6 ==> r.roots@[i] is None && r.stores@[i] is None,
    {
        MerkleTreeStoresRead { roots: vec![None, None, None, None, None, None], stores: vec![None, None, None, None, None, None] }
    }

    /// The root of a store type.
    pub open spec fn root(&self, st: StoreType) -> Option<Seq<u8>> {
        opt_view(self.roots@[store_index(st)])
    }

    /// The store of a store type.
    pub open spec fn store(&self, st: StoreType) -> Option<Seq<u8>> {
        opt_view(self.stores@[store_index(st)])
    }
}

/// A leaf of a Merkle tree's data: its root or its store.
pub open spec fn tree_leaf(is_root: bool) -> Seq<char> {
    if is_root { "root"@ } else { "store"@ }
}

/// The path of a tree's root or store below a height: `tree/{type}/{leaf}`.
pub open spec fn tree_path(st: StoreType, is_root: bool) -> Seq<char> {
    "tree/"@ + store_type_name(st) + seq!['/'] + tree_leaf(is_root)
}

/// The key of the base tree's root or store at height `h`.
pub open spec fn base_tree_key(h: nat, is_root: bool) -> Seq<char> {
    height_prefix(h) + tree_path(StoreType::Base, is_root)
}

/// The key of a subtree's root or store at epoch `e`.
pub open spec fn subtree_key(st: StoreType, e: nat, is_root: bool) -> Seq<char> {
    "subtree/"@ + store_type_name(st) + seq!['/'] + decimal(e) + seq!['/'] + tree_leaf(is_root)
}

/// Where the root or store of a store type is kept for height `h` and epoch
/// `e`.
pub open spec fn merkle_key(st: StoreType, h: nat, e: nat, is_root: bool) -> Seq<char> {
    if st == StoreType::Base {
        base_tree_key(h, is_root)
    } else {
        subtree_key(st, e, is_root)
    }
}

/// The key of a block-scoped value of height `h`.
pub open spec fn block_key(h: nat, name: Seq<char>) -> Seq<char> {
    height_prefix(h) + name
}

/// The key of the results of block `h`.
pub open spec fn results_key(h: nat) -> Seq<char> {
    "results/"@ + decimal(h)
}

/// The key of the shadow copy of a state value.
pub open spec fn pred_key(name: Seq<char>) -> Seq<char> {
    "pred/"@ + name
}

fn tree_leaf_str(is_root: bool) -> (r: &'static str)
    ensures
        r@ == tree_leaf(is_root),
{
    if is_root { "root" } else { "store" }
}

fn sep() -> (r: &'static str)
    ensures
        r@ == seq!['/'],
{
    proof {
        reveal_strlit("/");
    }
    "/"
}

/// The key of the root or store of a store type.
pub fn merkle_key_string(st: StoreType, h: u64, e: u64, is_root: bool) -> (r: String)
    ensures
        r@ == merkle_key(st, h as nat, e as nat, is_root),
{
    match st {
        StoreType::Base => {
            let mut k = height_prefix_string(h);
            k.append(tree_path_string(st, is_root).as_str());
            k
        },
        _ => {
            let mut k = "subtree/".to_owned();
            k.append(st.as_str());
            k.append(sep());
            k.append(decimal_string(e).as_str());
            k.append(sep());
            k.append(tree_leaf_str(is_root));
            k
        },
    }
}

/// The path of a tree's root or store below a height.
pub fn tree_path_string(st: StoreType, is_root: bool) -> (r: String)
    ensures
        r@ == tree_path(st, is_root),
{
    let mut k = "tree/".to_owned();
    k.append(st.as_str());
    k.append(sep());
    k.append(tree_leaf_str(is_root));
    k
}

/// The key of a block-scoped value.
pub fn block_key_string(h: u64, name: &str) -> (r: String)
    ensures
        r@ == block_key(h as nat, name@),
{
    let mut k = height_prefix_string(h);
    k.append(name);
    k
}

/// The key of the results of a block.
pub fn results_key_string(h: u64) -> (r: String)
    ensures
        r@ == results_key(h as nat),
{
    let mut k = "results/".to_owned();
    k.append(decimal_string(h).as_str());
    k
}

/// The key of the shadow copy of a state value.
pub fn pred_key_string(name: &str) -> (r: String)
    ensures
        r@ == pred_key(name@),
{
    let mut k = "pred/".to_owned();
    k.append(name);
    k
}

/// A state value written with a shadow copy of its current value.
pub open spec fn shadow_ops(m: DbState, name: Seq<char>, new: Seq<u8>) -> Seq<OpView> {
    opt_put((DbColFam::STATE, pred_key(name)), lookup(m, (DbColFam::STATE, name))) + seq![(DbColFam::STATE, name, Some(new))]
}

/// The writes of the Merkle data of the first `n` store types.
pub open spec fn merkle_ops(s: &BlockStateWrite, full: bool, n: int) -> Seq<OpView>
    decreases n,
{
    if n <= 0 {
        Seq::empty()
    } else {
        let st = store_types()[n - 1];
        let rest = merkle_ops(s, full, n - 1);
        if st == StoreType::Base || full {
            rest + seq![
                (DbColFam::BLOCK, merkle_key(st, s.height as nat, s.epoch as nat, true), Some(s.merkle_tree_stores.roots@[n - 1]@)),
                (DbColFam::BLOCK, merkle_key(st, s.height as nat, s.epoch as nat, false), Some(s.merkle_tree_stores.stores@[n - 1]@)),
            ]
        } else {
            rest
        }
    }
}

/// A put into the block column family.
pub open spec fn block_put(key: Seq<char>, v: Seq<u8>) -> OpView {
    (DbColFam::BLOCK, key, Some(v))
}

/// The writes of the state values of block `s`.
pub open spec fn state_ops(m: DbState, s: &BlockStateWrite, full: bool) -> Seq<OpView> {
    shadow_ops(m, "next_epoch_min_start_height"@, u64_bytes(s.next_epoch_min_start_height))
        + shadow_ops(m, "next_epoch_min_start_time"@, s.next_epoch_min_start_time@)
        + shadow_ops(m, "update_epoch_blocks_delay"@, opt_u32_bytes(s.update_epoch_blocks_delay))
        + (if full { shadow_ops(m, "conversion_state"@, s.conversion_state@) } else { Seq::empty() })
        + shadow_ops(m, "tx_queue"@, s.tx_queue@)
        + seq![
            (DbColFam::STATE, "ethereum_height"@, Some(s.ethereum_height@)),
            (DbColFam::STATE, "eth_events_queue"@, Some(s.eth_events_queue@)),
        ]
}

/// The writes of the block-scoped values and results of block `s`.
pub open spec fn block_value_ops(s: &BlockStateWrite) -> Seq<OpView> {
    let h = s.height as nat;
    opt_put((DbColFam::BLOCK, block_key(h, "header"@)), opt_view(s.header)) + seq![
        block_put(block_key(h, "hash"@), s.hash@),
        block_put(block_key(h, "time"@), s.time@),
        block_put(block_key(h, "epoch"@), u64_bytes(s.epoch)),
        block_put(results_key(h), s.results@),
        block_put(block_key(h, "pred_epochs"@), epochs_bytes(s.pred_epochs.first_known_epoch, s.pred_epochs.first_block_heights@)),
        block_put(block_key(h, "address_gen"@), s.address_gen@),
    ]
}

/// All the writes that commit the block `s`, given the store `m` before it:
/// the state values, the Merkle data, the block-scoped values and finally
/// the height.
pub open spec fn block_ops(m: DbState, s: &BlockStateWrite, full: bool) -> Seq<OpView> {
    state_ops(m, s, full) + merkle_ops(s, full, 6) + block_value_ops(s) + seq![
        (DbColFam::STATE, "height"@, Some(u64_bytes(s.height))),
    ]
}

/// The state of a block to commit. Values of the ledger's own types come
/// encoded; the engine encodes the heights, epochs and the epoch delay.
pub struct BlockStateWrite {
    pub merkle_tree_stores: MerkleTreeStoresWrite,
    pub header: Option<Vec<u8>>,
    pub hash: Vec<u8>,
    pub height: u64,
    pub time: Vec<u8>,
    pub epoch: u64,
    pub pred_epochs: Epochs,
    pub next_epoch_min_start_height: u64,
    pub next_epoch_min_start_time: Vec<u8>,
    pub update_epoch_blocks_delay: Option<u32>,
    pub address_gen: Vec<u8>,
    pub results: Vec<u8>,
    pub conversion_state: Vec<u8>,
    pub tx_queue: Vec<u8>,
    pub ethereum_height: Vec<u8>,
    pub eth_events_queue: Vec<u8>,
}

impl RocksDB {
    /// Stages a state value with a shadow copy of its current value.
    fn stage_with_shadow(&self, batch: &mut RocksDBWriteBatch, name: &str, new: Vec<u8>)
        requires
            self.wf(),
        ensures
            final(batch)@ == old(batch)@ + shadow_ops(self@, name@, new@),
    {
        let ghost start = batch@;
        if let Some(current) = self.get_cf(DbColFam::STATE, name) {
            batch.put_cf(DbColFam::STATE, pred_key_string(name), current);
        }
        batch.put_cf(DbColFam::STATE, name.to_owned(), new);
        proof {
            assert(batch@ =~= start + shadow_ops(self@, name@, new@));
        }
    }

    /// Stages the Merkle data of a block: the base tree always, the
    /// subtrees on a full commit.
    fn stage_merkle_stores(&self, batch: &mut RocksDBWriteBatch, s: &BlockStateWrite, is_full_commit: bool)
        requires
            s.merkle_tree_stores.wf(),
        ensures
            final(batch)@ == old(batch)@ + merkle_ops(s, is_full_commit, 6),
    {
        let ghost start = batch@;
        let all = StoreType::iter();
        let mut i: usize = 0;
        while i < all.len()
            invariant
                all@ == store_types(),
                s.merkle_tree_stores.wf(),
                i <= 6,
                batch@ == start + merkle_ops(s, is_full_commit, i as int),
            decreases 6 - i,
        {
            let st = all[i];
            if st == StoreType::Base || is_full_commit {
                let root_key = merkle_key_string(st, s.height, s.epoch, true);
                batch.put_cf(DbColFam::BLOCK, root_key, copy_bytes(&s.merkle_tree_stores.roots[i]));
                let store_key = merkle_key_string(st, s.height, s.epoch, false);
                batch.put_cf(DbColFam::BLOCK, store_key, copy_bytes(&s.merkle_tree_stores.stores[i]));
            }
            i = i + 1;
            proof {
                assert(batch@ =~= start + merkle_ops(s, is_full_commit, i as int));
            }
        }
    }

    /// Stages the state values of a block.
    fn stage_state_values(&self, batch: &mut RocksDBWriteBatch, state: &BlockStateWrite, is_full_commit: bool)
        requires
            self.wf(),
        ensures
            final(batch)@ == old(batch)@ + state_ops(self@, state, is_full_commit),
    {
        let ghost start = batch@;
        self.stage_with_shadow(batch, "next_epoch_min_start_height", encode_u64(state.next_epoch_min_start_height));
        self.stage_with_shadow(batch, "next_epoch_min_start_time", copy_bytes(&state.next_epoch_min_start_time));
        self.stage_with_shadow(batch, "update_epoch_blocks_delay", encode_opt_u32(state.update_epoch_blocks_delay));
        let ghost a = batch@;
        if is_full_commit {
            self.stage_with_shadow(batch, "conversion_state", copy_bytes(&state.conversion_state));
        }
        let ghost b = batch@;
        proof {
            assert(b =~= a + (if is_full_commit { shadow_ops(self@, "conversion_state"@, state.conversion_state@) } else { Seq::empty() }));
        }
        self.stage_with_shadow(batch, "tx_queue", copy_bytes(&state.tx_queue));
        batch.put_cf(DbColFam::STATE, "ethereum_height".to_owned(), copy_bytes(&state.ethereum_height));
        batch.put_cf(DbColFam::STATE, "eth_events_queue".to_owned(), copy_bytes(&state.eth_events_queue));
        proof {
            assert(batch@ =~= start + state_ops(self@, state, is_full_commit));
        }
    }

    /// Stages the block-scoped values and results of a block.
    fn stage_block_values(&self, batch: &mut RocksDBWriteBatch, state: &BlockStateWrite)
        requires
            state.pred_epochs.first_block_heights@.len() <= u32::MAX,
        ensures
            final(batch)@ == old(batch)@ + block_value_ops(state),
    {
        let ghost start = batch@;
        let h = state.height;
        if let Some(header) = &state.header {
            batch.put_cf(DbColFam::BLOCK, block_key_string(h, "header"), copy_bytes(header));
        }
        let ghost e = batch@;
        proof {
            assert(e =~= start + opt_put((DbColFam::BLOCK, block_key(h as nat, "header"@)), opt_view(state.header)));
        }
        batch.put_cf(DbColFam::BLOCK, block_key_string(h, "hash"), copy_bytes(&state.hash));
        batch.put_cf(DbColFam::BLOCK, block_key_string(h, "time"), copy_bytes(&state.time));
        batch.put_cf(DbColFam::BLOCK, block_key_string(h, "epoch"), encode_u64(state.epoch));
        batch.put_cf(DbColFam::BLOCK, results_key_string(h), copy_bytes(&state.results));
        batch.put_cf(DbColFam::BLOCK, block_key_string(h, "pred_epochs"), state.pred_epochs.encode());
        batch.put_cf(DbColFam::BLOCK, block_key_string(h, "address_gen"), copy_bytes(&state.address_gen));
        proof {
            assert(batch@ =~= start + block_value_ops(state));
        }
    }

    /// Stages the commit of block `state`: the state values with their
    /// shadow copies, the Merkle data, the block-scoped values, the results
    /// and finally the height.
    pub fn add_block_to_batch(&self, state: BlockStateWrite, batch: &mut RocksDBWriteBatch, is_full_commit: bool) -> (r: Result<(), Error>)
        requires
            self.wf(),
            state.merkle_tree_stores.wf(),
            state.pred_epochs.first_block_heights@.len() <= u32::MAX,
        ensures
            r is Ok,
            final(batch)@ == old(batch)@ + block_ops(self@, &state, is_full_commit),
    {
        let ghost start = batch@;
        self.stage_state_values(batch, &state, is_full_commit);
        self.stage_merkle_stores(batch, &state, is_full_commit);
        self.stage_block_values(batch, &state);
        batch.put_cf(DbColFam::STATE, "height".to_owned(), encode_u64(state.height));
        proof {
            assert(batch@ =~= start + block_ops(self@, &state, is_full_commit));
        }
        Ok(())
    }

    /// Stages the removal of the subtree of `store_type` at `epoch`.
    pub fn prune_merkle_tree_store(&self, batch: &mut RocksDBWriteBatch, store_type: &StoreType, epoch: u64) -> (r: Result<(), Error>)
        requires
            *store_type != StoreType::Base,
        ensures
            r is Ok,
            final(batch)@ == old(batch)@ + seq![
                (DbColFam::BLOCK, subtree_key(*store_type, epoch as nat, true), None::<Seq<u8>>),
                (DbColFam::BLOCK, subtree_key(*store_type, epoch as nat, false), None::<Seq<u8>>),
            ],
    {
        let ghost start = batch@;
        batch.delete_cf(DbColFam::BLOCK, merkle_key_string(*store_type, 0, epoch, true));
        batch.delete_cf(DbColFam::BLOCK, merkle_key_string(*store_type, 0, epoch, false));
        proof {
            assert(batch@ =~= start + seq![
                (DbColFam::BLOCK, subtree_key(*store_type, epoch as nat, true), None::<Seq<u8>>),
                (DbColFam::BLOCK, subtree_key(*store_type, epoch as nat, false), None::<Seq<u8>>),
            ]);
        }
        Ok(())
    }

    /// The raw header of block `height`, if stored.
    pub fn read_block_header(&self, height: u64) -> (r: Result<Option<Vec<u8>>, Error>)
        requires
            self.wf(),
        ensures
            r is Ok,
            r matches Ok(v) && opt_view(v) == lookup(self@, (DbColFam::BLOCK, block_key(height as nat, "header"@))),
    {
        Ok(self.get_cf(DbColFam::BLOCK, block_key_string(height, "header").as_str()))
    }
}

} // verus!
