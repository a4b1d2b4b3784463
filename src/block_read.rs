//! Reading committed blocks back: the last block, its Merkle stores and
//! those of a given epoch.

use vstd::prelude::*;

use crate::block::{
    block_key, merkle_key, merkle_key_string, opt_view, results_key, results_key_string, store_index,
    store_type_name, store_types, str_eq, subtree_key, tree_leaf, tree_path, tree_path_string, MerkleTreeStoresRead,
    StoreType,
};
use crate::codec::{decode_opt_u32, decode_u64, epochs_bytes, opt_u32_of, u64_of, Epochs};
use crate::db::{DbColFam, DbState, RocksDB};
use crate::error::Error;
use crate::key::{height_prefix, height_prefix_string};
use crate::kv::{entries_with_prefix, find_in, lemma_entries_with_prefix_complete, lemma_entries_with_prefix_sound, pairs_view, starts_with};
use crate::subspace::lookup;

verus! {

/// What a key below a block's height prefix names.
#[derive(PartialEq, Eq, Structural)]
pub enum RestKind {
    Header,
    Hash,
    Time,
    Epoch,
    PredEpochs,
    AddressGen,
    Root(StoreType),
    Store(StoreType),
    Unknown,
}

/// The first of the first `n` store types whose root or store path is `s`.
pub open spec fn tree_kind(s: Seq<char>, n: int) -> RestKind
    decreases n,
{
    if n <= 0 {
        RestKind::Unknown
    } else {
        let prev = tree_kind(s, n - 1);
        let st = store_types()[n - 1];
        if !(prev is Unknown) {
            prev
        } else if s == tree_path(st, true) {
            RestKind::Root(st)
        } else if s == tree_path(st, false) {
            RestKind::Store(st)
        } else {
            RestKind::Unknown
        }
    }
}

/// What the rest of a key below a block's height prefix names.
pub open spec fn rest_kind(s: Seq<char>) -> RestKind {
    if s == "header"@ {
        RestKind::Header
    } else if s == "hash"@ {
        RestKind::Hash
    } else if s == "time"@ {
        RestKind::Time
    } else if s == "epoch"@ {
        RestKind::Epoch
    } else if s == "pred_epochs"@ {
        RestKind::PredEpochs
    } else if s == "address_gen"@ {
        RestKind::AddressGen
    } else {
        tree_kind(s, 6)
    }
}

proof fn lemma_tree_kind(s: Seq<char>, n: int)
    requires
        0 <= n <= 6,
    ensures
        tree_kind(s, n) matches RestKind::Root(st) ==> s == tree_path(st, true),
        tree_kind(s, n) matches RestKind::Store(st) ==> s == tree_path(st, false),
        tree_kind(s, n) is Unknown || tree_kind(s, n) is Root || tree_kind(s, n) is Store,
    decreases n,
{
    if n > 0 {
        lemma_tree_kind(s, n - 1);
    }
}

/// Each name below a height prefix is classified as what it names.
pub proof fn lemma_rest_kind_names()
    ensures
        rest_kind("hash"@) == RestKind::Hash,
        rest_kind("time"@) == RestKind::Time,
        rest_kind("epoch"@) == RestKind::Epoch,
        rest_kind("pred_epochs"@) == RestKind::PredEpochs,
        rest_kind("address_gen"@) == RestKind::AddressGen,
        forall|st: StoreType| #[trigger] rest_kind(tree_path(st, true)) == RestKind::Root(st),
        forall|st: StoreType| #[trigger] rest_kind(tree_path(st, false)) == RestKind::Store(st),
{
    reveal_strlit("header");
    reveal_strlit("hash");
    reveal_strlit("time");
    reveal_strlit("epoch");
    reveal_strlit("pred_epochs");
    reveal_strlit("address_gen");
    reveal_strlit("tree/");
    reveal_strlit("root");
    reveal_strlit("store");
    reveal_strlit("base");
    reveal_strlit("account");
    reveal_strlit("ibc");
    reveal_strlit("pos");
    reveal_strlit("eth_bridge_pool");
    reveal_strlit("commit_data");
    assert("hash"@[1] != "header"@[1]);
    assert("time"@ != "hash"@ && "time"@ != "header"@);
    assert("epoch"@[0] == 'e');
    assert("pred_epochs"@[0] == 'p');
    assert("address_gen"@[0] == 'a');
    assert forall|st: StoreType, is_root: bool| #[trigger] rest_kind(tree_path(st, is_root)) == if is_root {
        RestKind::Root(st)
    } else {
        RestKind::Store(st)
    } by {
        let t = tree_path(st, is_root);
        assert(t[0] == 't' && t[1] == 'r');
        assert(t != "header"@ && t != "hash"@ && t != "time"@ && t != "epoch"@ && t != "pred_epochs"@ && t != "address_gen"@) by {
            assert("header"@[0] == 'h' && "hash"@[0] == 'h' && "time"@[1] == 'i');
        }
        assert forall|o: StoreType, o_root: bool| (o != st || o_root != is_root) implies tree_path(o, o_root) != t by {
            let u = tree_path(o, o_root);
            if o != st {
                let a = store_type_name(o);
                let b = store_type_name(st);
                if u == t {
                    assert(u.subrange(5, u.len() as int) == t.subrange(5, t.len() as int));
                    assert(u.subrange(5, u.len() as int) =~= a + seq!['/'] + tree_leaf(o_root));
                    assert(t.subrange(5, t.len() as int) =~= b + seq!['/'] + tree_leaf(is_root));
                    lemma_store_type_name_facts(o);
                    lemma_store_type_name_facts(st);
                    assert(false) by {
                        let x = a + seq!['/'] + tree_leaf(o_root);
                        let y = b + seq!['/'] + tree_leaf(is_root);
                        if a.len() < b.len() {
                            assert(x[a.len() as int] == '/');
                            assert(y[a.len() as int] == b[a.len() as int]);
                        } else if b.len() < a.len() {
                            assert(y[b.len() as int] == '/');
                            assert(x[b.len() as int] == a[b.len() as int]);
                        } else {
                            assert(x.subrange(0, a.len() as int) =~= a);
                            assert(y.subrange(0, b.len() as int) =~= b);
                            lemma_store_type_name_injective(o, st);
                        }
                    }
                }
            } else {
                assert(u.len() != t.len() || u[u.len() - 1] != t[t.len() - 1]);
            }
        }
        let n = store_index(st) + 1;
        assert(store_types()[store_index(st)] == st);
        lemma_tree_kind_unknown(t, st, is_root, store_index(st));
        lemma_tree_kind_settled(t, n, 6);
    }
}

proof fn lemma_store_type_name_facts(st: StoreType)
    ensures
        forall|i: int| 0 <= i < store_type_name(st).len() ==> store_type_name(st)[i] != '/',
{
    reveal_strlit("base");
    reveal_strlit("account");
    reveal_strlit("ibc");
    reveal_strlit("pos");
    reveal_strlit("eth_bridge_pool");
    reveal_strlit("commit_data");
}

proof fn lemma_store_type_name_injective(a: StoreType, b: StoreType)
    requires
        store_type_name(a) == store_type_name(b),
    ensures
        a == b,
{
    reveal_strlit("base");
    reveal_strlit("account");
    reveal_strlit("ibc");
    reveal_strlit("pos");
    reveal_strlit("eth_bridge_pool");
    reveal_strlit("commit_data");
    if a != b {
        let x = store_type_name(a);
        let y = store_type_name(b);
        assert(x.len() != y.len() || x[0] != y[0] || x[1] != y[1]);
    }
}

proof fn lemma_tree_kind_unknown(t: Seq<char>, st: StoreType, is_root: bool, n: int)
    requires
        t == tree_path(st, is_root),
        0 <= n <= store_index(st),
        forall|o: StoreType, o_root: bool| (o != st || o_root != is_root) ==> tree_path(o, o_root) != t,
    ensures
        tree_kind(t, n) is Unknown,
    decreases n,
{
    if n > 0 {
        lemma_tree_kind_unknown(t, st, is_root, n - 1);
        let o = store_types()[n - 1];
        assert(o != st) by {
            assert(store_index(o) == n - 1);
        }
    }
}

proof fn lemma_tree_kind_settled(t: Seq<char>, n: int, m: int)
    requires
        1 <= n <= m <= 6,
        !(tree_kind(t, n) is Unknown),
    ensures
        tree_kind(t, m) == tree_kind(t, n),
    decreases m - n,
{
    if m > n {
        lemma_tree_kind_settled(t, n, m - 1);
    }
}

/// Whether bytes are the encoding of an epoch table.
pub open spec fn epochs_decodable(b: Seq<u8>) -> bool {
    exists|f: u64, hs: Seq<u64>| hs.len() <= u32::MAX && b == #[trigger] epochs_bytes(f, hs)
}

/// A key below a block's height prefix, with value `v`, that the block
/// reader refuses: an unknown name, or an epoch or epoch table that does not
/// decode.
pub open spec fn entry_bad(rest: Seq<char>, v: Seq<u8>) -> bool {
    match rest_kind(rest) {
        RestKind::Unknown => true,
        RestKind::Epoch => u64_of(v) is None,
        RestKind::PredEpochs => !epochs_decodable(v),
        _ => false,
    }
}

/// The part of key `k` after the height prefix of `h`.
pub open spec fn rest_of(k: Seq<char>, h: nat) -> Seq<char> {
    k.subrange(height_prefix(h).len() as int, k.len() as int)
}

/// Some key below the height prefix of `h` in the block column family is
/// refused by the block reader.
pub open spec fn block_entries_bad(m: DbState, h: nat) -> bool {
    exists|k: Seq<char>|
        #![trigger m.contains_key((DbColFam::BLOCK, k))]
        m.contains_key((DbColFam::BLOCK, k)) && starts_with(k, height_prefix(h)) && entry_bad(rest_of(k, h), m[(DbColFam::BLOCK, k)])
}

/// The value of a block-scoped name at height `h`.
pub open spec fn block_val(m: DbState, h: nat, name: Seq<char>) -> Option<Seq<u8>> {
    lookup(m, (DbColFam::BLOCK, block_key(h, name)))
}

/// Whether an optional decoded epoch agrees with the stored bytes.
pub open spec fn epoch_found(stored: Option<Seq<u8>>, e: Option<u64>) -> bool {
    match stored {
        Some(b) => e is Some && u64_of(b) == e,
        None => e is None,
    }
}

/// Whether an optional decoded epoch table agrees with the stored bytes.
pub open spec fn epochs_found(stored: Option<Seq<u8>>, e: Option<Epochs>) -> bool {
    match stored {
        Some(b) => e matches Some(t) && b == epochs_bytes(t.first_known_epoch, t.first_block_heights@)
            && t.first_block_heights@.len() <= u32::MAX,
        None => e is None,
    }
}

/// The values found below the height prefix of a block.
pub struct BlockEntries {
    pub hash: Option<Vec<u8>>,
    pub time: Option<Vec<u8>>,
    pub epoch: Option<u64>,
    pub pred_epochs: Option<Epochs>,
    pub address_gen: Option<Vec<u8>>,
    pub stores: MerkleTreeStoresRead,
}

/// What a block reader found agrees with the store below the prefix of `h`.
pub open spec fn entries_found(m: DbState, h: nat, e: &BlockEntries) -> bool {
    &&& opt_view(e.hash) == block_val(m, h, "hash"@)
    &&& opt_view(e.time) == block_val(m, h, "time"@)
    &&& opt_view(e.address_gen) == block_val(m, h, "address_gen"@)
    &&& epoch_found(block_val(m, h, "epoch"@), e.epoch)
    &&& epochs_found(block_val(m, h, "pred_epochs"@), e.pred_epochs)
    &&& e.stores.roots@.len() == 6
    &&& e.stores.stores@.len() == 6
    &&& forall|st: StoreType| #[trigger] e.stores.root(st) == lookup(m, (DbColFam::BLOCK, height_prefix(h) + tree_path(st, true)))
    &&& forall|st: StoreType| #[trigger] e.stores.store(st) == lookup(m, (DbColFam::BLOCK, height_prefix(h) + tree_path(st, false)))
}

/// What the entries among `s` say under the prefix `p`, as far as they go.
pub open spec fn scan_state(s: Seq<(Seq<char>, Seq<u8>)>, p: Seq<char>, e: &BlockEntries) -> bool {
    &&& opt_view(e.hash) == find_in(s, p + "hash"@)
    &&& opt_view(e.time) == find_in(s, p + "time"@)
    &&& opt_view(e.address_gen) == find_in(s, p + "address_gen"@)
    &&& epoch_found(find_in(s, p + "epoch"@), e.epoch)
    &&& epochs_found(find_in(s, p + "pred_epochs"@), e.pred_epochs)
    &&& e.stores.roots@.len() == 6
    &&& e.stores.stores@.len() == 6
    &&& forall|st: StoreType| #[trigger] e.stores.root(st) == find_in(s, p + tree_path(st, true))
    &&& forall|st: StoreType| #[trigger] e.stores.store(st) == find_in(s, p + tree_path(st, false))
}

proof fn lemma_find_in_take(s: Seq<(Seq<char>, Seq<u8>)>, i: int, k: Seq<char>)
    requires
        0 <= i < s.len(),
    ensures
        find_in(s.take(i + 1), k) == if s[i].0 == k {
            Some(s[i].1)
        } else {
            find_in(s.take(i), k)
        },
{
    assert(s.take(i + 1).drop_last() =~= s.take(i));
    assert(s.take(i + 1).last() == s[i]);
}

proof fn lemma_concat_cancel(p: Seq<char>, a: Seq<char>, b: Seq<char>)
    ensures
        (p + a == p + b) <==> (a == b),
{
    if p + a == p + b {
        assert(a =~= (p + a).subrange(p.len() as int, (p + a).len() as int));
        assert(b =~= (p + b).subrange(p.len() as int, (p + b).len() as int));
    }
}

/// What a name below a block's height prefix names.
pub fn classify_rest(rest: &str) -> (r: RestKind)
    ensures
        r == rest_kind(rest@),
{
    if str_eq(rest, "header") {
        return RestKind::Header;
    }
    if str_eq(rest, "hash") {
        return RestKind::Hash;
    }
    if str_eq(rest, "time") {
        return RestKind::Time;
    }
    if str_eq(rest, "epoch") {
        return RestKind::Epoch;
    }
    if str_eq(rest, "pred_epochs") {
        return RestKind::PredEpochs;
    }
    if str_eq(rest, "address_gen") {
        return RestKind::AddressGen;
    }
    let all = StoreType::iter();
    let mut i: usize = 0;
    while i < 6
        invariant
            all@ == store_types(),
            i <= 6,
            tree_kind(rest@, i as int) is Unknown,
            rest@ != "header"@ && rest@ != "hash"@ && rest@ != "time"@ && rest@ != "epoch"@,
            rest@ != "pred_epochs"@ && rest@ != "address_gen"@,
        decreases 6 - i,
    {
        let st = all[i];
        if str_eq(rest, tree_path_string(st, true).as_str()) {
            proof {
                lemma_tree_kind_settled(rest@, i + 1, 6);
            }
            return RestKind::Root(st);
        }
        if str_eq(rest, tree_path_string(st, false).as_str()) {
            proof {
                lemma_tree_kind_settled(rest@, i + 1, 6);
            }
            return RestKind::Store(st);
        }
        i = i + 1;
    }
    RestKind::Unknown
}

impl RocksDB {
    /// The values found below the height prefix of block `h`; an error for a
    /// refused key.
    pub fn collect_block_entries(&self, h: u64) -> (r: Result<BlockEntries, Error>)
        requires
            self.wf(),
        ensures
            r is Err <==> block_entries_bad(self@, h as nat),
            r matches Ok(e) ==> entries_found(self@, h as nat, &e),
    {
        let prefix = height_prefix_string(h);
        let plen = prefix.as_str().unicode_len();
        let entries = self.scan_cf(DbColFam::BLOCK, prefix.as_str());
        let ghost p = height_prefix(h as nat);
        let ghost es = pairs_view(entries@);
        let mut found = BlockEntries {
            hash: None,
            time: None,
            epoch: None,
            pred_epochs: None,
            address_gen: None,
            stores: MerkleTreeStoresRead::new(),
        };
        proof {
            assert(es.take(0) =~= Seq::<(Seq<char>, Seq<u8>)>::empty());
            assert forall|st: StoreType| #[trigger] found.stores.root(st) == find_in(es.take(0), p + tree_path(st, true)) by {
                assert(0 <= store_index(st) < 6);
            }
            assert forall|st: StoreType| #[trigger] found.stores.store(st) == find_in(es.take(0), p + tree_path(st, false)) by {
                assert(0 <= store_index(st) < 6);
            }
            lemma_rest_kind_names();
        }
        let mut i: usize = 0;
        while i < entries.len()
            invariant
                self.wf(),
                p == height_prefix(h as nat),
                prefix@ == p,
                plen == p.len(),
                es == pairs_view(entries@),
                es == entries_with_prefix(self.entries(DbColFam::BLOCK), p),
                i <= entries.len(),
                scan_state(es.take(i as int), p, &found),
                forall|j: int| 0 <= j < i ==> !entry_bad(rest_of(#[trigger] es[j].0, h as nat), es[j].1),
                rest_kind("hash"@) == RestKind::Hash,
                rest_kind("time"@) == RestKind::Time,
                rest_kind("epoch"@) == RestKind::Epoch,
                rest_kind("pred_epochs"@) == RestKind::PredEpochs,
                rest_kind("address_gen"@) == RestKind::AddressGen,
                forall|st: StoreType| #[trigger] rest_kind(tree_path(st, true)) == RestKind::Root(st),
                forall|st: StoreType| #[trigger] rest_kind(tree_path(st, false)) == RestKind::Store(st),
            decreases entries.len() - i,
        {
            let key = &entries[i].0;
            let value = &entries[i].1;
            let ghost k = es[i as int].0;
            let ghost v = es[i as int].1;
            proof {
                lemma_entries_with_prefix_sound(self.entries(DbColFam::BLOCK), p, i as int);
                assert(key@ == k && value@ == v);
            }
            let klen = key.as_str().unicode_len();
            let rest = key.as_str().substring_char(plen, klen);
            let ghost rs = rest@;
            proof {
                assert(rs == rest_of(k, h as nat));
                assert(k =~= p + rs);
                assert forall|n: Seq<char>| #[trigger] (p + n) == k <==> n == rs by {
                    lemma_concat_cancel(p, n, rs);
                }
            }
            let kind = classify_rest(rest);
            proof {
                lemma_tree_kind(rs, 6);
            }
            let ghost before = found.stores;
            match kind {
                RestKind::Unknown => {
                    proof {
                        self.lemma_entries(DbColFam::BLOCK);
                        let j = choose|j: int| 0 <= j < self.entries(DbColFam::BLOCK).len() && self.entries(DbColFam::BLOCK)[j] == es[i as int];
                        assert(self@.contains_key((DbColFam::BLOCK, k)));
                    }
                    return Err(Error::UnknownKey { key: key.clone() });
                },
                RestKind::Header => {},
                RestKind::Hash => {
                    found.hash = Some(crate::kv::copy_bytes(value));
                },
                RestKind::Time => {
                    found.time = Some(crate::kv::copy_bytes(value));
                },
                RestKind::AddressGen => {
                    found.address_gen = Some(crate::kv::copy_bytes(value));
                },
                RestKind::Epoch => {
                    match decode_u64(value.as_slice()) {
                        Ok(e) => {
                            found.epoch = Some(e);
                        },
                        Err(err) => {
                            proof {
                                self.lemma_entries(DbColFam::BLOCK);
                                let j = choose|j: int| 0 <= j < self.entries(DbColFam::BLOCK).len() && self.entries(DbColFam::BLOCK)[j] == es[i as int];
                                assert(self@.contains_key((DbColFam::BLOCK, k)));
                            }
                            return Err(err);
                        },
                    }
                },
                RestKind::PredEpochs => {
                    match Epochs::decode(value.as_slice()) {
                        Ok(e) => {
                            found.pred_epochs = Some(e);
                        },
                        Err(err) => {
                            proof {
                                self.lemma_entries(DbColFam::BLOCK);
                                let j = choose|j: int| 0 <= j < self.entries(DbColFam::BLOCK).len() && self.entries(DbColFam::BLOCK)[j] == es[i as int];
                                assert(self@.contains_key((DbColFam::BLOCK, k)));
                            }
                            return Err(err);
                        },
                    }
                },
                RestKind::Root(st0) => {
                    found.stores.roots.set(st0.index(), Some(crate::kv::copy_bytes(value)));
                    proof {
                        assert forall|st: StoreType| #[trigger] found.stores.root(st) == if st == st0 { Some(v) } else { before.root(st) } by {
                            if st != st0 {
                                assert(store_index(st) != store_index(st0));
                            }
                        }
                        lemma_tree_kind(rs, 6);
                    }
                },
                RestKind::Store(st0) => {
                    found.stores.stores.set(st0.index(), Some(crate::kv::copy_bytes(value)));
                    proof {
                        assert forall|st: StoreType| #[trigger] found.stores.store(st) == if st == st0 { Some(v) } else { before.store(st) } by {
                            if st != st0 {
                                assert(store_index(st) != store_index(st0));
                            }
                        }
                        lemma_tree_kind(rs, 6);
                    }
                },
            }
            proof {
                let t = es.take(i + 1);
                assert forall|n: Seq<char>| #[trigger] find_in(t, p + n) == if n == rs { Some(v) } else { find_in(es.take(i as int), p + n) } by {
                    lemma_find_in_take(es, i as int, p + n);
                }
                assert forall|st: StoreType| #[trigger] found.stores.root(st) == find_in(t, p + tree_path(st, true)) by {
                    assert(find_in(t, p + tree_path(st, true)) == if tree_path(st, true) == rs { Some(v) } else { find_in(es.take(i as int), p + tree_path(st, true)) });
                    assert(before.root(st) == find_in(es.take(i as int), p + tree_path(st, true)));
                    if tree_path(st, true) == rs {
                        assert(kind == RestKind::Root(st));
                    } else if let RestKind::Root(o) = kind {
                        assert(rest_kind(rs) == RestKind::Root(o));
                        if o == st {
                            assert(rs == tree_path(o, true));
                        }
                    }
                }
                assert forall|st: StoreType| #[trigger] found.stores.store(st) == find_in(t, p + tree_path(st, false)) by {
                    assert(find_in(t, p + tree_path(st, false)) == if tree_path(st, false) == rs { Some(v) } else { find_in(es.take(i as int), p + tree_path(st, false)) });
                    assert(before.store(st) == find_in(es.take(i as int), p + tree_path(st, false)));
                    if tree_path(st, false) == rs {
                        assert(kind == RestKind::Store(st));
                    } else if let RestKind::Store(o) = kind {
                        assert(rest_kind(rs) == RestKind::Store(o));
                        if o == st {
                            assert(rs == tree_path(o, false));
                        }
                    }
                }
                assert(find_in(t, p + "hash"@) == if "hash"@ == rs { Some(v) } else { find_in(es.take(i as int), p + "hash"@) });
                assert(find_in(t, p + "time"@) == if "time"@ == rs { Some(v) } else { find_in(es.take(i as int), p + "time"@) });
                assert(find_in(t, p + "address_gen"@) == if "address_gen"@ == rs { Some(v) } else { find_in(es.take(i as int), p + "address_gen"@) });
                assert(find_in(t, p + "epoch"@) == if "epoch"@ == rs { Some(v) } else { find_in(es.take(i as int), p + "epoch"@) });
                assert(find_in(t, p + "pred_epochs"@) == if "pred_epochs"@ == rs { Some(v) } else { find_in(es.take(i as int), p + "pred_epochs"@) });
                assert(opt_view(found.hash) == find_in(t, p + "hash"@));
                assert(opt_view(found.time) == find_in(t, p + "time"@));
                assert(opt_view(found.address_gen) == find_in(t, p + "address_gen"@));
                assert(epoch_found(find_in(t, p + "epoch"@), found.epoch));
                assert(epochs_found(find_in(t, p + "pred_epochs"@), found.pred_epochs));
                assert(!entry_bad(rest_of(es[i as int].0, h as nat), es[i as int].1)) by {
                    if kind is PredEpochs {
                        let e = found.pred_epochs->0;
                        assert(v == epochs_bytes(e.first_known_epoch, e.first_block_heights@));
                    }
                }
            }
            i = i + 1;
        }
        proof {
            assert(es.take(i as int) =~= es);
            let m = self@;
            let hn = h as nat;
            assert forall|n: Seq<char>| find_in(es, p + n) == lookup(m, (DbColFam::BLOCK, p + n)) by {
                assert((p + n).subrange(0, p.len() as int) =~= p);
                self.lemma_scan_find(DbColFam::BLOCK, p, p + n);
            }
            assert(find_in(es, p + "hash"@) == lookup(m, (DbColFam::BLOCK, p + "hash"@)));
            assert(find_in(es, p + "time"@) == lookup(m, (DbColFam::BLOCK, p + "time"@)));
            assert(find_in(es, p + "address_gen"@) == lookup(m, (DbColFam::BLOCK, p + "address_gen"@)));
            assert(find_in(es, p + "epoch"@) == lookup(m, (DbColFam::BLOCK, p + "epoch"@)));
            assert(find_in(es, p + "pred_epochs"@) == lookup(m, (DbColFam::BLOCK, p + "pred_epochs"@)));
            assert forall|st: StoreType| #[trigger] found.stores.root(st) == lookup(m, (DbColFam::BLOCK, p + tree_path(st, true))) by {
                assert(find_in(es, p + tree_path(st, true)) == lookup(m, (DbColFam::BLOCK, p + tree_path(st, true))));
            }
            assert forall|st: StoreType| #[trigger] found.stores.store(st) == lookup(m, (DbColFam::BLOCK, p + tree_path(st, false))) by {
                assert(find_in(es, p + tree_path(st, false)) == lookup(m, (DbColFam::BLOCK, p + tree_path(st, false))));
            }
            assert(!block_entries_bad(m, hn)) by {
                if block_entries_bad(m, hn) {
                    let k = choose|k: Seq<char>|
                        #![trigger m.contains_key((DbColFam::BLOCK, k))]
                        m.contains_key((DbColFam::BLOCK, k)) && starts_with(k, p) && entry_bad(rest_of(k, hn), m[(DbColFam::BLOCK, k)]);
                    self.lemma_entries(DbColFam::BLOCK);
                    let j = choose|j: int| 0 <= j < self.entries(DbColFam::BLOCK).len() && self.entries(DbColFam::BLOCK)[j].0 == k;
                    lemma_entries_with_prefix_complete(self.entries(DbColFam::BLOCK), p, j);
                    let x = choose|x: int| 0 <= x < es.len() && es[x] == self.entries(DbColFam::BLOCK)[j];
                    assert(!entry_bad(rest_of(es[x].0, hn), es[x].1));
                }
            }
        }
        Ok(found)
    }
}

/// The store types among the first `i` requested ones: `Some(st)` asks
/// for `st` alone, `None` for all in order.
pub open spec fn seen(store_type: Option<StoreType>, i: int, st: StoreType) -> bool {
    match store_type {
        Some(s) => i >= 1 && st == s,
        None => store_index(st) < i,
    }
}

/// How far the ledger-wide values of the last block can be read.
pub enum MetaOutcome {
    /// A value is missing: there is no block to read.
    Missing,
    /// A value does not decode.
    Malformed,
    /// All values are there; the last height is given.
    Ready(u64),
}

/// A value of the state column family.
pub open spec fn state_val(m: DbState, name: Seq<char>) -> Option<Seq<u8>> {
    lookup(m, (DbColFam::STATE, name))
}

/// The ledger-wide values are read in this order: the height, the block
/// results, the epoch start height and time, the epoch update delay, the
/// conversion state, the transaction queue and the Ethereum values.
pub open spec fn meta_outcome(m: DbState) -> MetaOutcome {
    match state_val(m, "height"@) {
        None => MetaOutcome::Missing,
        Some(hb) => match u64_of(hb) {
            None => MetaOutcome::Malformed,
            Some(h) => if lookup(m, (DbColFam::BLOCK, results_key(h as nat))) is None {
                MetaOutcome::Missing
            } else {
                match state_val(m, "next_epoch_min_start_height"@) {
                    None => MetaOutcome::Missing,
                    Some(b) => if u64_of(b) is None {
                        MetaOutcome::Malformed
                    } else if state_val(m, "next_epoch_min_start_time"@) is None {
                        MetaOutcome::Missing
                    } else {
                        match state_val(m, "update_epoch_blocks_delay"@) {
                            None => MetaOutcome::Missing,
                            Some(d) => if opt_u32_of(d) is None {
                                MetaOutcome::Malformed
                            } else if state_val(m, "conversion_state"@) is None || state_val(m, "tx_queue"@) is None
                                || state_val(m, "ethereum_height"@) is None || state_val(m, "eth_events_queue"@) is None {
                                MetaOutcome::Missing
                            } else {
                                MetaOutcome::Ready(h)
                            }
                        }
                    },
                }
            },
        },
    }
}

/// The block-scoped values that a block must have.
pub open spec fn block_values_present(m: DbState, h: nat) -> bool {
    &&& block_val(m, h, "hash"@) is Some
    &&& block_val(m, h, "time"@) is Some
    &&& block_val(m, h, "epoch"@) is Some
    &&& block_val(m, h, "pred_epochs"@) is Some
    &&& block_val(m, h, "address_gen"@) is Some
}

/// The root or store of a store type as read for block `h` of epoch `e`: a
/// subtree of the epoch where there is one, else what stands below the
/// block's height.
pub open spec fn merkle_read(m: DbState, h: nat, e: nat, st: StoreType, is_root: bool) -> Option<Seq<u8>> {
    if st != StoreType::Base && m.contains_key((DbColFam::BLOCK, subtree_key(st, e, is_root))) {
        Some(m[(DbColFam::BLOCK, subtree_key(st, e, is_root))])
    } else {
        lookup(m, (DbColFam::BLOCK, height_prefix(h) + tree_path(st, is_root)))
    }
}

/// The state of the last committed block, as read back.
pub struct BlockStateRead {
    pub merkle_tree_stores: MerkleTreeStoresRead,
    pub hash: Vec<u8>,
    pub height: u64,
    pub time: Vec<u8>,
    pub epoch: u64,
    pub pred_epochs: Epochs,
    pub results: Vec<u8>,
    pub conversion_state: Vec<u8>,
    pub next_epoch_min_start_height: u64,
    pub next_epoch_min_start_time: Vec<u8>,
    pub update_epoch_blocks_delay: Option<u32>,
    pub address_gen: Vec<u8>,
    pub tx_queue: Vec<u8>,
    pub ethereum_height: Vec<u8>,
    pub eth_events_queue: Vec<u8>,
}

/// `b` holds what the store holds for its last block.
pub open spec fn block_read_matches(m: DbState, b: &BlockStateRead) -> bool {
    let h = b.height as nat;
    &&& meta_outcome(m) == MetaOutcome::Ready(b.height)
    &&& lookup(m, (DbColFam::BLOCK, results_key(h))) == Some(b.results@)
    &&& state_val(m, "next_epoch_min_start_height"@) matches Some(x) && u64_of(x) == Some(b.next_epoch_min_start_height)
    &&& state_val(m, "next_epoch_min_start_time"@) == Some(b.next_epoch_min_start_time@)
    &&& state_val(m, "update_epoch_blocks_delay"@) matches Some(x) && opt_u32_of(x) == Some(b.update_epoch_blocks_delay)
    &&& state_val(m, "conversion_state"@) == Some(b.conversion_state@)
    &&& state_val(m, "tx_queue"@) == Some(b.tx_queue@)
    &&& state_val(m, "ethereum_height"@) == Some(b.ethereum_height@)
    &&& state_val(m, "eth_events_queue"@) == Some(b.eth_events_queue@)
    &&& block_val(m, h, "hash"@) == Some(b.hash@)
    &&& block_val(m, h, "time"@) == Some(b.time@)
    &&& block_val(m, h, "address_gen"@) == Some(b.address_gen@)
    &&& block_val(m, h, "epoch"@) matches Some(x) && u64_of(x) == Some(b.epoch)
    &&& block_val(m, h, "pred_epochs"@) == Some(epochs_bytes(b.pred_epochs.first_known_epoch, b.pred_epochs.first_block_heights@))
    &&& b.pred_epochs.first_block_heights@.len() <= u32::MAX
    &&& b.merkle_tree_stores.roots@.len() == 6
    &&& b.merkle_tree_stores.stores@.len() == 6
    &&& forall|st: StoreType| #[trigger] b.merkle_tree_stores.root(st) == merkle_read(m, h, b.epoch as nat, st, true)
    &&& forall|st: StoreType| #[trigger] b.merkle_tree_stores.store(st) == merkle_read(m, h, b.epoch as nat, st, false)
}

impl RocksDB {
    /// Replaces the subtree slots by the subtrees stored for epoch `e`,
    /// where there are some.
    fn restore_subtrees(&self, stores: &mut MerkleTreeStoresRead, h: u64, e: u64)
        requires
            self.wf(),
            old(stores).roots@.len() == 6,
            old(stores).stores@.len() == 6,
            forall|st: StoreType| #[trigger] old(stores).root(st) == lookup(self@, (DbColFam::BLOCK, height_prefix(h as nat) + tree_path(st, true))),
            forall|st: StoreType| #[trigger] old(stores).store(st) == lookup(self@, (DbColFam::BLOCK, height_prefix(h as nat) + tree_path(st, false))),
        ensures
            final(stores).roots@.len() == 6,
            final(stores).stores@.len() == 6,
            forall|st: StoreType| #[trigger] final(stores).root(st) == merkle_read(self@, h as nat, e as nat, st, true),
            forall|st: StoreType| #[trigger] final(stores).store(st) == merkle_read(self@, h as nat, e as nat, st, false),
    {
        let all = StoreType::iter();
        let mut i: usize = 1;
        while i < 6
            invariant
                self.wf(),
                all@ == store_types(),
                1 <= i <= 6,
                stores.roots@.len() == 6,
                stores.stores@.len() == 6,
                forall|st: StoreType| #[trigger] stores.root(st) == if store_index(st) < i {
                    merkle_read(self@, h as nat, e as nat, st, true)
                } else {
                    lookup(self@, (DbColFam::BLOCK, height_prefix(h as nat) + tree_path(st, true)))
                },
                forall|st: StoreType| #[trigger] stores.store(st) == if store_index(st) < i {
                    merkle_read(self@, h as nat, e as nat, st, false)
                } else {
                    lookup(self@, (DbColFam::BLOCK, height_prefix(h as nat) + tree_path(st, false)))
                },
            decreases 6 - i,
        {
            let st0 = all[i];
            let ghost before = *stores;
            proof {
                assert(store_index(st0) == i);
            }
            if let Some(root) = self.get_cf(DbColFam::BLOCK, merkle_key_string(st0, h, e, true).as_str()) {
                stores.roots.set(i, Some(root));
            }
            if let Some(store) = self.get_cf(DbColFam::BLOCK, merkle_key_string(st0, h, e, false).as_str()) {
                stores.stores.set(i, Some(store));
            }
            proof {
                assert forall|st: StoreType| #[trigger] stores.root(st) == if store_index(st) < i + 1 {
                    merkle_read(self@, h as nat, e as nat, st, true)
                } else {
                    lookup(self@, (DbColFam::BLOCK, height_prefix(h as nat) + tree_path(st, true)))
                } by {
                    if st != st0 {
                        assert(store_index(st) != store_index(st0));
                        assert(stores.root(st) == before.root(st));
                    }
                }
                assert forall|st: StoreType| #[trigger] stores.store(st) == if store_index(st) < i + 1 {
                    merkle_read(self@, h as nat, e as nat, st, false)
                } else {
                    lookup(self@, (DbColFam::BLOCK, height_prefix(h as nat) + tree_path(st, false)))
                } by {
                    if st != st0 {
                        assert(store_index(st) != store_index(st0));
                        assert(stores.store(st) == before.store(st));
                    }
                }
            }
            i = i + 1;
        }
        proof {
            assert forall|st: StoreType| #[trigger] stores.root(st) == merkle_read(self@, h as nat, e as nat, st, true) by {
                if store_index(st) == 0 {
                    assert(st == StoreType::Base);
                }
            }
            assert forall|st: StoreType| #[trigger] stores.store(st) == merkle_read(self@, h as nat, e as nat, st, false) by {
                if store_index(st) == 0 {
                    assert(st == StoreType::Base);
                }
            }
        }
    }

    /// Reads the last committed block: `None` when one of its ledger-wide
    /// values is missing, an error when a value does not decode, a key below
    /// its height is unknown, or one of its block-scoped values is missing.
    pub fn read_last_block(&self) -> (r: Result<Option<BlockStateRead>, Error>)
        requires
            self.wf(),
        ensures
            meta_outcome(self@) is Missing <==> r matches Ok(None),
            meta_outcome(self@) is Malformed ==> r is Err,
            meta_outcome(self@) matches MetaOutcome::Ready(h) ==> {
                if block_entries_bad(self@, h as nat) {
                    r is Err
                } else if !block_values_present(self@, h as nat) {
                    r matches Err(Error::Temporary { .. })
                } else {
                    r matches Ok(Some(b)) && block_read_matches(self@, &b)
                }
            },
    {
        let height = match self.get_cf(DbColFam::STATE, "height") {
            Some(b) => match decode_u64(b.as_slice()) {
                Ok(h) => h,
                Err(e) => return Err(e),
            },
            None => return Ok(None),
        };
        let results = match self.get_cf(DbColFam::BLOCK, results_key_string(height).as_str()) {
            Some(b) => b,
            None => return Ok(None),
        };
        let next_epoch_min_start_height = match self.get_cf(DbColFam::STATE, "next_epoch_min_start_height") {
            Some(b) => match decode_u64(b.as_slice()) {
                Ok(h) => h,
                Err(e) => return Err(e),
            },
            None => return Ok(None),
        };
        let next_epoch_min_start_time = match self.get_cf(DbColFam::STATE, "next_epoch_min_start_time") {
            Some(b) => b,
            None => return Ok(None),
        };
        let update_epoch_blocks_delay = match self.get_cf(DbColFam::STATE, "update_epoch_blocks_delay") {
            Some(b) => match decode_opt_u32(b.as_slice()) {
                Ok(d) => d,
                Err(e) => return Err(e),
            },
            None => return Ok(None),
        };
        let conversion_state = match self.get_cf(DbColFam::STATE, "conversion_state") {
            Some(b) => b,
            None => return Ok(None),
        };
        let tx_queue = match self.get_cf(DbColFam::STATE, "tx_queue") {
            Some(b) => b,
            None => return Ok(None),
        };
        let ethereum_height = match self.get_cf(DbColFam::STATE, "ethereum_height") {
            Some(b) => b,
            None => return Ok(None),
        };
        let eth_events_queue = match self.get_cf(DbColFam::STATE, "eth_events_queue") {
            Some(b) => b,
            None => return Ok(None),
        };
        let found = match self.collect_block_entries(height) {
            Ok(f) => f,
            Err(e) => return Err(e),
        };
        match (found.hash, found.time, found.epoch, found.pred_epochs, found.address_gen) {
            (Some(hash), Some(time), Some(epoch), Some(pred_epochs), Some(address_gen)) => {
                let mut stores = found.stores;
                self.restore_subtrees(&mut stores, height, epoch);
                Ok(Some(BlockStateRead {
                    merkle_tree_stores: stores,
                    hash,
                    height,
                    time,
                    epoch,
                    pred_epochs,
                    results,
                    conversion_state,
                    next_epoch_min_start_height,
                    next_epoch_min_start_time,
                    update_epoch_blocks_delay,
                    address_gen,
                    tx_queue,
                    ethereum_height,
                    eth_events_queue,
                }))
            },
            _ => Err(Error::Temporary { error: "Essential data couldn't be read from the DB".to_owned() }),
        }
    }

    /// The Merkle stores of epoch `epoch` with the base tree of
    /// `base_height`: of one store type, or of all. `None` when a requested
    /// root or store is missing.
    pub fn read_merkle_tree_stores(&self, epoch: u64, base_height: u64, store_type: Option<StoreType>) -> (r: Result<Option<MerkleTreeStoresRead>, Error>)
        requires
            self.wf(),
        ensures
            r is Ok,
            r matches Ok(None) <==> exists|st: StoreType| (store_type is None || store_type == Some(st)) && (
                !self@.contains_key((DbColFam::BLOCK, merkle_key(st, base_height as nat, epoch as nat, true)))
                || !self@.contains_key((DbColFam::BLOCK, merkle_key(st, base_height as nat, epoch as nat, false)))),
            r matches Ok(Some(s)) ==> s.roots@.len() == 6 && s.stores@.len() == 6 && forall|st: StoreType| #[trigger] s.root(st) == if store_type is None || store_type == Some(st) {
                lookup(self@, (DbColFam::BLOCK, merkle_key(st, base_height as nat, epoch as nat, true)))
            } else {
                None
            } && s.store(st) == if store_type is None || store_type == Some(st) {
                lookup(self@, (DbColFam::BLOCK, merkle_key(st, base_height as nat, epoch as nat, false)))
            } else {
                None
            },
    {
        let types = match store_type {
            Some(st) => vec![st],
            None => StoreType::iter(),
        };
        proof {
            if store_type is None {
                assert(types@ == store_types());
            } else {
                assert(types@ =~= seq![store_type->0]);
            }
        }
        let mut stores = MerkleTreeStoresRead::new();
        let mut i: usize = 0;
        while i < types.len()
            invariant
                self.wf(),
                store_type is None ==> types@ == store_types(),
                store_type matches Some(s) ==> types@ == seq![s],
                i <= types.len(),
                stores.roots@.len() == 6,
                stores.stores@.len() == 6,
                forall|st: StoreType| seen(store_type, i as int, st) ==> {
                    &&& self@.contains_key((DbColFam::BLOCK, merkle_key(st, base_height as nat, epoch as nat, true)))
                    &&& self@.contains_key((DbColFam::BLOCK, merkle_key(st, base_height as nat, epoch as nat, false)))
                },
                forall|st: StoreType| #[trigger] stores.root(st) == if seen(store_type, i as int, st) {
                    lookup(self@, (DbColFam::BLOCK, merkle_key(st, base_height as nat, epoch as nat, true)))
                } else {
                    None
                },
                forall|st: StoreType| #[trigger] stores.store(st) == if seen(store_type, i as int, st) {
                    lookup(self@, (DbColFam::BLOCK, merkle_key(st, base_height as nat, epoch as nat, false)))
                } else {
                    None
                },
            decreases types.len() - i,
        {
            let st0 = types[i];
            let ghost before = stores;
            proof {
                assert forall|st: StoreType| seen(store_type, i + 1, st) <==> (seen(store_type, i as int, st) || st == st0) by {
                    if store_type is None {
                        assert(store_index(st0) == i);
                        if st != st0 {
                            assert(store_index(st) != store_index(st0));
                        }
                    }
                }
            }
            let root = match self.get_cf(DbColFam::BLOCK, merkle_key_string(st0, base_height, epoch, true).as_str()) {
                Some(b) => b,
                None => {
                    proof {
                        assert(seen(store_type, i + 1, st0));
                    }
                    return Ok(None);
                },
            };
            let store = match self.get_cf(DbColFam::BLOCK, merkle_key_string(st0, base_height, epoch, false).as_str()) {
                Some(b) => b,
                None => {
                    proof {
                        assert(seen(store_type, i + 1, st0));
                    }
                    return Ok(None);
                },
            };
            stores.roots.set(st0.index(), Some(root));
            stores.stores.set(st0.index(), Some(store));
            proof {
                assert forall|st: StoreType| seen(store_type, i + 1, st) implies {
                    &&& self@.contains_key((DbColFam::BLOCK, merkle_key(st, base_height as nat, epoch as nat, true)))
                    &&& self@.contains_key((DbColFam::BLOCK, merkle_key(st, base_height as nat, epoch as nat, false)))
                } by {
                    if st != st0 {
                        assert(seen(store_type, i as int, st));
                    }
                }
                assert forall|st: StoreType| #[trigger] stores.root(st) == if seen(store_type, i + 1, st) {
                    lookup(self@, (DbColFam::BLOCK, merkle_key(st, base_height as nat, epoch as nat, true)))
                } else {
                    None
                } by {
                    if st != st0 {
                        assert(store_index(st) != store_index(st0));
                        assert(stores.root(st) == before.root(st));
                    }
                }
                assert forall|st: StoreType| #[trigger] stores.store(st) == if seen(store_type, i + 1, st) {
                    lookup(self@, (DbColFam::BLOCK, merkle_key(st, base_height as nat, epoch as nat, false)))
                } else {
                    None
                } by {
                    if st != st0 {
                        assert(store_index(st) != store_index(st0));
                        assert(stores.store(st) == before.store(st));
                    }
                }
            }
            i = i + 1;
        }
        proof {
            assert forall|st: StoreType| seen(store_type, i as int, st) == (store_type is None || store_type == Some(st)) by {
                if store_type is None {
                    assert(store_index(st) < 6);
                }
            }
            assert forall|st: StoreType| (store_type is None || store_type == Some(st)) implies
                self@.contains_key((DbColFam::BLOCK, merkle_key(st, base_height as nat, epoch as nat, true)))
                && self@.contains_key((DbColFam::BLOCK, merkle_key(st, base_height as nat, epoch as nat, false))) by {
                assert(seen(store_type, i as int, st));
            }
        }
        Ok(Some(stores))
    }
}

} // verus!
