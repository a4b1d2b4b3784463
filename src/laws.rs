//! Laws of the storage engine, stated over the model of the store and proved
//! from the contracts of its operations.

use vstd::prelude::*;

use crate::db::{
    apply_ops, lemma_apply_ops_append, lemma_apply_ops_last_write, lemma_apply_ops_untouched, DbColFam, DbState, OpView, RocksDB,
};
use crate::block_read::BlockStateRead;
use crate::iter::{key_scan_prefix, stripped};
use crate::replay::{all_bucket, buffer_bucket, last_bucket, replay_deletes, replay_key};
use crate::rollback::{buffer_restore_ops, cf_deletes, deleted_restore_ops, metadata_ops, rollback_ops, subspace_restore_ops};
use crate::key::Key;
use crate::kv::{entries_with_prefix, lemma_entries_with_prefix_complete, lemma_entries_with_prefix_sorted, lemma_entries_with_prefix_sound, sorted_entries, starts_with};
use crate::key::{diff_key, lemma_diff_key_injective};
use crate::subspace::{
    compaction_ops, diff_place, has_diff, lookup, opt_delete, opt_put, prior_diff_height, read_after, read_at, write_ops,
};

verus! {

/// The search for earlier diffs finds a height with diffs, at or below where
/// it starts.
pub proof fn lemma_prior_diff_height_found(m: DbState, key: Seq<char>, j: nat)
    ensures
        match prior_diff_height(m, key, j) {
            Some(i) => 1 <= i <= j && has_diff(m, key, i) && forall|x: nat| i < x <= j ==> !has_diff(m, key, x),
            None => forall|x: nat| 1 <= x <= j ==> !has_diff(m, key, x),
        },
    decreases j,
{
    if j > 0 && !has_diff(m, key, j) {
        lemma_prior_diff_height_found(m, key, (j - 1) as nat);
    }
}

/// The places that the compaction of the diffs of `key` below `h` touches
/// are diffs of `key` below `h`.
pub proof fn lemma_compaction_places(m: DbState, key: Seq<char>, h: nat, persist_diffs: bool)
    ensures
        forall|j: int| 0 <= j < compaction_ops(m, key, h, persist_diffs).len() ==> {
            let op = #[trigger] compaction_ops(m, key, h, persist_diffs)[j];
            &&& op.2 is None
            &&& prior_diff_height(m, key, (h - 1) as nat) matches Some(i)
            &&& h > 1
            &&& (op.0, op.1) == diff_place(i, true, key) || (op.0, op.1) == diff_place(i, false, key)
        },
{
    lemma_prior_diff_height_found(m, key, (h - 1) as nat);
}

/// Write-then-read: once a write of `v` under `key` at height `h` is staged
/// (after any other writes) and the batch applied, the latest value of `key`
/// is `v`, and so is its value at `h` read with `h` as the last height.
pub proof fn law_write_then_read(m: DbState, staged: Seq<OpView>, h: nat, key: Seq<char>, v: Seq<u8>, persist_diffs: bool)
    ensures
        lookup(apply_ops(m, staged + write_ops(m, h, key, v, persist_diffs)), (DbColFam::SUBSPACE, key)) == Some(v),
        read_at(apply_ops(m, staged + write_ops(m, h, key, v, persist_diffs)), key, h, h) == Some(v),
{
    let w = write_ops(m, h, key, v, persist_diffs);
    let mid = apply_ops(m, staged);
    lemma_apply_ops_append(m, staged, w);
    let after = apply_ops(mid, w);
    lemma_apply_ops_last_write(mid, w, w.len() - 1);
    let old_puts = opt_put(diff_place(h, true, key), lookup(m, (DbColFam::SUBSPACE, key)));
    let idx = old_puts.len() as int;
    let comp = compaction_ops(m, key, h, persist_diffs);
    lemma_compaction_places(m, key, h, persist_diffs);
    lemma_prior_diff_height_found(m, key, (h - 1) as nat);
    let new_puts = opt_put(diff_place(h, false, key), Some(v));
    assert(w == old_puts + new_puts + comp + seq![(DbColFam::SUBSPACE, key, Some(v))]);
    assert(w[idx] == (DbColFam::DIFFS, diff_place(h, false, key).1, Some(v)));
    assert forall|j: int| idx < j < w.len() implies (#[trigger] w[j].0, w[j].1) != (w[idx].0, w[idx].1) by {
        if j < w.len() - 1 {
            let op = comp[j - idx - 1];
            assert(w[j] == op);
            let i = prior_diff_height(m, key, (h - 1) as nat)->0;
            if (op.0, op.1) == diff_place(i, true, key) {
                if diff_place(i, true, key) == diff_place(h, false, key) {
                    lemma_diff_key_injective(i, true, key, h, false, key);
                }
            } else {
                if diff_place(i, false, key) == diff_place(h, false, key) {
                    lemma_diff_key_injective(i, false, key, h, false, key);
                }
            }
        }
    }
    lemma_apply_ops_last_write(mid, w, idx);
}

/// Compaction of unpersisted diffs: when diffs of `key` stand at one height
/// `h0 >= 1` at most (`prev`), a write of `key` without persisted diffs at a
/// greater height `h` leaves diffs of `key` at `h` alone.
pub proof fn law_unpersisted_diffs_stay_single(m: DbState, key: Seq<char>, h: nat, v: Seq<u8>, prev: Option<nat>)
    requires
        match prev {
            Some(h0) => 1 <= h0 < h && forall|i: nat| i != h0 ==> !#[trigger] has_diff(m, key, i),
            None => forall|i: nat| !#[trigger] has_diff(m, key, i),
        },
    ensures
        forall|i: nat| i != h ==> !#[trigger] has_diff(apply_ops(m, write_ops(m, h, key, v, false)), key, i),
{
    let w = write_ops(m, h, key, v, false);
    let after = apply_ops(m, w);
    lemma_compaction_places(m, key, h, false);
    lemma_prior_diff_height_found(m, key, (h - 1) as nat);
    let comp = compaction_ops(m, key, h, false);
    let old_puts = opt_put(diff_place(h, true, key), lookup(m, (DbColFam::SUBSPACE, key)));
    let new_puts = opt_put(diff_place(h, false, key), Some(v));
    assert(w == old_puts + new_puts + comp + seq![(DbColFam::SUBSPACE, key, Some(v))]);
    assert forall|i: nat| i != h implies !#[trigger] has_diff(after, key, i) by {
        let found = prior_diff_height(m, key, (h - 1) as nat);
        if found == Some(i) && h > 1 {
            // The compaction deletes what stands at `i`.
            let po = diff_place(i, true, key);
            let pn = diff_place(i, false, key);
            assert(comp == opt_delete(m, po) + opt_delete(m, pn));
            assert forall|is_old: bool| !#[trigger] after.contains_key(diff_place(i, is_old, key)) by {
                let p = diff_place(i, is_old, key);
                if m.contains_key(p) {
                    let idx = if is_old { (old_puts.len() + new_puts.len()) as int } else { (w.len() - 2) as int };
                    assert(w[idx].2 is None && (w[idx].0, w[idx].1) == p);
                    assert forall|j: int| idx < j < w.len() implies (#[trigger] w[j].0, w[j].1) != (w[idx].0, w[idx].1) by {
                        if j < w.len() - 1 && is_old {
                            assert((w[j].0, w[j].1) == pn);
                            if pn == po {
                                lemma_diff_key_injective(i, false, key, i, true, key);
                            }
                        }
                    }
                    lemma_apply_ops_last_write(m, w, idx);
                } else {
                    assert forall|j: int| 0 <= j < w.len() implies (#[trigger] w[j].0, w[j].1) != p by {
                        if j < old_puts.len() + new_puts.len() {
                            if (w[j].0, w[j].1) == p {
                                if j < old_puts.len() {
                                    lemma_diff_key_injective(h, true, key, i, is_old, key);
                                } else {
                                    lemma_diff_key_injective(h, false, key, i, is_old, key);
                                }
                            }
                        } else if j < w.len() - 1 {
                            assert(m.contains_key((w[j].0, w[j].1)));
                        }
                    }
                    lemma_apply_ops_untouched(m, w, p);
                }
            }
            assert(!after.contains_key(po));
            assert(!after.contains_key(pn));
        } else {
            // Nothing touches the diffs of `key` at `i`, and none stood there.
            assert(!has_diff(m, key, i)) by {
                match prev {
                    Some(h0) => {
                        if i == h0 {
                            assert(has_diff(m, key, h0) ==> found == Some(h0));
                        }
                    },
                    None => {},
                }
            }
            assert forall|is_old: bool| !#[trigger] after.contains_key(diff_place(i, is_old, key)) by {
                let p = diff_place(i, is_old, key);
                assert forall|j: int| 0 <= j < w.len() implies (#[trigger] w[j].0, w[j].1) != p by {
                    if (w[j].0, w[j].1) == p {
                        if j < old_puts.len() {
                            lemma_diff_key_injective(h, true, key, i, is_old, key);
                        } else if j < old_puts.len() + new_puts.len() {
                            lemma_diff_key_injective(h, false, key, i, is_old, key);
                        } else if j < w.len() - 1 {
                            let k = found->0;
                            if (w[j].0, w[j].1) == diff_place(k, true, key) {
                                lemma_diff_key_injective(k, true, key, i, is_old, key);
                            } else {
                                lemma_diff_key_injective(k, false, key, i, is_old, key);
                            }
                        }
                    }
                }
                lemma_apply_ops_untouched(m, w, p);
            }
            assert(!after.contains_key(diff_place(i, true, key)));
            assert(!after.contains_key(diff_place(i, false, key)));
        }
    }
}

/// Prefix iteration keeps to whole segments: iterating the subspace under a
/// key yields exactly the keys that start with that key followed by the
/// separator, with their values, in key order. So under `a`, a key `ab`
/// never comes out, whatever else (such as `a/c`) is stored.
pub proof fn law_prefix_iteration_bounded(db: &RocksDB, prefix: Key)
    requires
        db.wf(),
        prefix.segs().len() > 0,
    ensures
        sorted_entries(entries_with_prefix(db.entries(DbColFam::SUBSPACE), key_scan_prefix(Some(&prefix)))),
        forall|i: int| 0 <= i < entries_with_prefix(db.entries(DbColFam::SUBSPACE), key_scan_prefix(Some(&prefix))).len() ==> {
            let e = #[trigger] entries_with_prefix(db.entries(DbColFam::SUBSPACE), key_scan_prefix(Some(&prefix)))[i];
            &&& starts_with(e.0, prefix@ + seq!['/'])
            &&& db@.contains_key((DbColFam::SUBSPACE, e.0))
            &&& db@[(DbColFam::SUBSPACE, e.0)] == e.1
        },
        forall|k: Seq<char>| #[trigger] db@.contains_key((DbColFam::SUBSPACE, k)) && starts_with(k, prefix@ + seq!['/']) ==>
            exists|i: int| 0 <= i < entries_with_prefix(db.entries(DbColFam::SUBSPACE), key_scan_prefix(Some(&prefix))).len()
                && entries_with_prefix(db.entries(DbColFam::SUBSPACE), key_scan_prefix(Some(&prefix)))[i] == (k, db@[(DbColFam::SUBSPACE, k)]),
{
    let s = db.entries(DbColFam::SUBSPACE);
    let p = prefix@ + seq!['/'];
    assert(key_scan_prefix(Some(&prefix)) == p);
    db.lemma_entries(DbColFam::SUBSPACE);
    lemma_entries_with_prefix_sorted(s, p);
    let es = entries_with_prefix(s, p);
    assert forall|i: int| 0 <= i < es.len() implies {
        let e = #[trigger] es[i];
        &&& starts_with(e.0, p)
        &&& db@.contains_key((DbColFam::SUBSPACE, e.0))
        &&& db@[(DbColFam::SUBSPACE, e.0)] == e.1
    } by {
        lemma_entries_with_prefix_sound(s, p, i);
        let j = choose|j: int| 0 <= j < s.len() && s[j] == es[i];
        assert(db@.contains_key((DbColFam::SUBSPACE, s[j].0)));
    }
    assert forall|k: Seq<char>| #[trigger] db@.contains_key((DbColFam::SUBSPACE, k)) && starts_with(k, p) implies
        exists|i: int| 0 <= i < es.len() && es[i] == (k, db@[(DbColFam::SUBSPACE, k)]) by {
        let j = choose|j: int| 0 <= j < s.len() && s[j].0 == k;
        lemma_entries_with_prefix_complete(s, p, j);
        let i = choose|i: int| 0 <= i < es.len() && es[i] == s[j];
        assert(es[i] == (k, db@[(DbColFam::SUBSPACE, k)]));
    }
}

/// A place deleted by a write, and only deleted by later ones, is empty.
pub proof fn lemma_apply_ops_deleted(m: DbState, ops: Seq<OpView>, p: (DbColFam, Seq<char>), j: int)
    requires
        0 <= j < ops.len(),
        (ops[j].0, ops[j].1) == p,
        ops[j].2 is None,
        forall|k: int| j < k < ops.len() && (#[trigger] ops[k].0, ops[k].1) == p ==> ops[k].2 is None,
    ensures
        !apply_ops(m, ops).contains_key(p),
    decreases ops.len(),
{
    if j < ops.len() - 1 {
        lemma_apply_ops_deleted(m, ops.drop_last(), p, j);
    }
}

proof fn lemma_buffer_restore_ops(es: Seq<(Seq<char>, Seq<u8>)>)
    ensures
        buffer_restore_ops(es).len() == 2 * es.len(),
        forall|j: int| 0 <= j < es.len() ==> buffer_restore_ops(es)[2 * j] == (DbColFam::REPLAYPROT, replay_key(last_bucket(), #[trigger] es[j].0), Some(Seq::<u8>::empty()))
            && buffer_restore_ops(es)[2 * j + 1] == (DbColFam::REPLAYPROT, replay_key(all_bucket(), es[j].0), None::<Seq<u8>>),
    decreases es.len(),
{
    if es.len() > 0 {
        lemma_buffer_restore_ops(es.drop_last());
        assert forall|j: int| 0 <= j < es.len() implies buffer_restore_ops(es)[2 * j] == (DbColFam::REPLAYPROT, replay_key(last_bucket(), #[trigger] es[j].0), Some(Seq::<u8>::empty()))
            && buffer_restore_ops(es)[2 * j + 1] == (DbColFam::REPLAYPROT, replay_key(all_bucket(), es[j].0), None::<Seq<u8>>) by {
            if j < es.len() - 1 {
                assert(es.drop_last()[j] == es[j]);
            }
        }
    }
}

proof fn lemma_deleted_restore_cf(m: DbState, olds: Seq<(Seq<char>, Seq<u8>)>, l: nat)
    ensures
        forall|k: int| 0 <= k < deleted_restore_ops(m, olds, l).len() ==> (#[trigger] deleted_restore_ops(m, olds, l)[k]).0 == DbColFam::SUBSPACE,
    decreases olds.len(),
{
    if olds.len() > 0 {
        lemma_deleted_restore_cf(m, olds.drop_last(), l);
    }
}

/// Replay protection after a rollback: no hash stands in all three buckets
/// at once. Every buffered hash is moved back to the current block's bucket
/// and taken out of the bucket of all hashes.
pub proof fn law_rollback_replay_buckets(db: &RocksDB, b: &BlockStateRead, hex: Seq<char>)
    requires
        db.wf(),
    ensures
        !({
            let after = apply_ops(db@, rollback_ops(db, b));
            &&& after.contains_key((DbColFam::REPLAYPROT, replay_key(last_bucket(), hex)))
            &&& after.contains_key((DbColFam::REPLAYPROT, replay_key(buffer_bucket(), hex)))
            &&& after.contains_key((DbColFam::REPLAYPROT, replay_key(all_bucket(), hex)))
        }),
{
    reveal_strlit("last");
    reveal_strlit("buffer");
    reveal_strlit("all");
    let m = db@;
    let l = b.height as nat;
    let hp = crate::key::height_prefix(l);
    let lasts = entries_with_prefix(db.entries(DbColFam::REPLAYPROT), last_bucket() + seq!['/']);
    let bufs = stripped(entries_with_prefix(db.entries(DbColFam::REPLAYPROT), buffer_bucket() + seq!['/']), buffer_bucket().len() + 1);
    let pre = metadata_ops(m, b) + seq![(DbColFam::BLOCK, crate::block::results_key(l), None)];
    let ld = replay_deletes(lasts);
    let br = buffer_restore_ops(bufs);
    let sr = subspace_restore_ops(m, db.entries(DbColFam::SUBSPACE), l);
    let dr = deleted_restore_ops(m, stripped(entries_with_prefix(db.entries(DbColFam::DIFFS), hp + "old/"@), (hp + "old/"@).len()), l);
    let cd1 = cf_deletes(DbColFam::DIFFS, entries_with_prefix(db.entries(DbColFam::DIFFS), hp));
    let cd2 = cf_deletes(DbColFam::BLOCK, entries_with_prefix(db.entries(DbColFam::BLOCK), hp));
    let r = ld + br;
    let post = sr + dr + cd1 + cd2;
    assert(rollback_ops(db, b) =~= pre + r + post);
    lemma_apply_ops_append(m, pre + r, post);
    lemma_apply_ops_append(m, pre, r);
    let m1 = apply_ops(m, pre);
    let m2 = apply_ops(m1, r);
    let after = apply_ops(m2, post);
    lemma_deleted_restore_cf(m, stripped(entries_with_prefix(db.entries(DbColFam::DIFFS), hp + "old/"@), (hp + "old/"@).len()), l);
    assert forall|k: int| 0 <= k < post.len() implies (#[trigger] post[k]).0 != DbColFam::REPLAYPROT by {
        if k < sr.len() {
            assert(post[k] == sr[k]);
        } else if k < sr.len() + dr.len() {
            assert(post[k] == dr[k - sr.len()]);
        } else if k < sr.len() + dr.len() + cd1.len() {
            assert(post[k] == cd1[k - sr.len() - dr.len()]);
        } else {
            assert(post[k] == cd2[k - sr.len() - dr.len() - cd1.len()]);
        }
    }
    assert forall|k: int| 0 <= k < pre.len() implies (#[trigger] pre[k]).0 != DbColFam::REPLAYPROT by {
        if k < metadata_ops(m, b).len() {
            assert(pre[k] == metadata_ops(m, b)[k]);
        }
    }
    let bk = (DbColFam::REPLAYPROT, replay_key(buffer_bucket(), hex));
    let ak = (DbColFam::REPLAYPROT, replay_key(all_bucket(), hex));
    lemma_apply_ops_untouched(m2, post, bk);
    lemma_apply_ops_untouched(m2, post, ak);
    lemma_apply_ops_untouched(m, pre, bk);
    lemma_buffer_restore_ops(bufs);
    // The buffer key is touched by no write of the replay part.
    assert forall|k: int| 0 <= k < r.len() implies (#[trigger] r[k].0, r[k].1) != bk by {
        if k < ld.len() {
            assert(r[k] == ld[k]);
            lemma_entries_with_prefix_sound(db.entries(DbColFam::REPLAYPROT), last_bucket() + seq!['/'], k);
            let key = lasts[k].0;
            let lp = last_bucket() + seq!['/'];
            assert(key.subrange(0, lp.len() as int) == lp);
            assert(key.subrange(0, lp.len() as int)[0] == key[0]);
            assert(lp[0] == 'l');
            assert(key[0] == 'l');
            assert(bk.1[0] == 'b');
        } else {
            let x = k - ld.len();
            assert(r[k] == br[x]);
            let j = x / 2;
            assert(x == 2 * j || x == 2 * j + 1);
            assert(bufs[j].0 == bufs[j].0);
            assert(replay_key(last_bucket(), bufs[j].0)[0] == last_bucket()[0]);
            assert(replay_key(all_bucket(), bufs[j].0)[0] == all_bucket()[0]);
            assert(bk.1[0] == 'b');
        }
    }
    lemma_apply_ops_untouched(m1, r, bk);
    if m.contains_key(bk) {
        // The hash is buffered: its entry in the bucket of all hashes goes.
        let src = db.entries(DbColFam::REPLAYPROT);
        db.lemma_entries(DbColFam::REPLAYPROT);
        let q = choose|q: int| 0 <= q < src.len() && src[q].0 == bk.1;
        let bp = buffer_bucket() + seq!['/'];
        assert(bk.1.subrange(0, bp.len() as int) =~= bp);
        lemma_entries_with_prefix_complete(src, bp, q);
        let bes = entries_with_prefix(src, bp);
        let j = choose|j: int| 0 <= j < bes.len() && bes[j] == src[q];
        assert(bufs[j].0 =~= hex);
        let idx = ld.len() + 2 * j + 1;
        assert(r[idx] == br[2 * j + 1]);
        assert forall|k: int| idx < k < r.len() && (#[trigger] r[k].0, r[k].1) == ak implies r[k].2 is None by {
            let x = k - ld.len();
            assert(r[k] == br[x]);
            let i = x / 2;
            if x == 2 * i {
                assert(bufs[i].0 == bufs[i].0);
                assert(br[x].1 == replay_key(last_bucket(), bufs[i].0));
                assert(replay_key(last_bucket(), bufs[i].0)[0] == last_bucket()[0]);
                assert(br[x].1[0] == 'l');
                assert(ak.1[0] == 'a');
            } else {
                assert(x == 2 * i + 1);
                assert(bufs[i].0 == bufs[i].0);
                assert(br[2 * i + 1].2 is None);
            }
        }
        lemma_apply_ops_deleted(m1, r, ak, idx);
    }
}

/// The store after the first `n` of the writes `vs` of `key` at heights
/// `hs`, each applied with persisted diffs.
pub open spec fn after_writes(m0: DbState, key: Seq<char>, hs: Seq<nat>, vs: Seq<Seq<u8>>, n: nat) -> DbState
    decreases n,
{
    if n == 0 {
        m0
    } else {
        let m = after_writes(m0, key, hs, vs, (n - 1) as nat);
        apply_ops(m, write_ops(m, hs[n - 1], key, vs[n - 1], true))
    }
}

/// What the diffs of `key` hold after the first `n` writes: each write's
/// new value at its height, the value before it as the old one, and no
/// other diffs from the first height on.
pub open spec fn history_holds(m: DbState, key: Seq<char>, hs: Seq<nat>, vs: Seq<Seq<u8>>, n: nat, prior: Option<Seq<u8>>) -> bool {
    &&& n >= 1 ==> lookup(m, (DbColFam::SUBSPACE, key)) == Some(vs[n - 1])
    &&& forall|j: int| 0 <= j < n ==> lookup(m, diff_place(#[trigger] hs[j], false, key)) == Some(vs[j])
    &&& forall|j: int| 0 < j < n ==> lookup(m, diff_place(#[trigger] hs[j], true, key)) == Some(vs[j - 1])
    &&& n >= 1 ==> lookup(m, diff_place(hs[0], true, key)) == prior
    &&& forall|h: nat| h >= hs[0] && (forall|j: int| 0 <= j < n ==> hs[j] != h) ==> !#[trigger] has_diff(m, key, h)
}

proof fn lemma_history_step(m0: DbState, key: Seq<char>, hs: Seq<nat>, vs: Seq<Seq<u8>>, n: nat)
    requires
        hs.len() == vs.len(),
        n < hs.len(),
        forall|i: int, j: int| 0 <= i < j < hs.len() ==> hs[i] < hs[j],
        forall|h: nat| h >= hs[0] ==> !#[trigger] has_diff(m0, key, h),
        history_holds(after_writes(m0, key, hs, vs, n), key, hs, vs, n, lookup(m0, (DbColFam::SUBSPACE, key))),
    ensures
        history_holds(after_writes(m0, key, hs, vs, n + 1), key, hs, vs, n + 1, lookup(m0, (DbColFam::SUBSPACE, key))),
{
    let prior = lookup(m0, (DbColFam::SUBSPACE, key));
    let m = after_writes(m0, key, hs, vs, n);
    let h = hs[n as int];
    let v = vs[n as int];
    let w = write_ops(m, h, key, v, true);
    let after = after_writes(m0, key, hs, vs, n + 1);
    assert(after == apply_ops(m, w));
    let cur = lookup(m, (DbColFam::SUBSPACE, key));
    let old_puts = opt_put(diff_place(h, true, key), cur);
    let new_puts = opt_put(diff_place(h, false, key), Some(v));
    assert(compaction_ops(m, key, h, true) =~= Seq::<OpView>::empty());
    assert(w =~= old_puts + new_puts + seq![(DbColFam::SUBSPACE, key, Some(v))]);
    let io = old_puts.len() as int;
    // The subspace value is the new one.
    lemma_apply_ops_last_write(m, w, w.len() - 1);
    // The new diff at `h`.
    assert forall|j: int| io < j < w.len() implies (#[trigger] w[j].0, w[j].1) != (w[io].0, w[io].1) by {}
    lemma_apply_ops_last_write(m, w, io);
    // The old diff at `h`.
    if cur is Some {
        assert forall|j: int| 0 < j < w.len() implies (#[trigger] w[j].0, w[j].1) != (w[0].0, w[0].1) by {
            if j == 1 && diff_place(h, false, key) == diff_place(h, true, key) {
                lemma_diff_key_injective(h, false, key, h, true, key);
            }
        }
        lemma_apply_ops_last_write(m, w, 0);
    }
    // Every other diff of `key` is untouched.
    assert forall|x: nat, o: bool| x != h implies #[trigger] lookup(after, diff_place(x, o, key)) == lookup(m, diff_place(x, o, key)) by {
        let p = diff_place(x, o, key);
        assert forall|j: int| 0 <= j < w.len() implies (#[trigger] w[j].0, w[j].1) != p by {
            if j < w.len() - 1 && (w[j].0, w[j].1) == p {
                if j < io {
                    lemma_diff_key_injective(h, true, key, x, o, key);
                } else {
                    lemma_diff_key_injective(h, false, key, x, o, key);
                }
            }
        }
        lemma_apply_ops_untouched(m, w, p);
    }
    if n == 0 {
        if cur is None {
            assert(lookup(after, diff_place(h, true, key)) == lookup(m, diff_place(h, true, key))) by {
                let p = diff_place(h, true, key);
                assert forall|j: int| 0 <= j < w.len() implies (#[trigger] w[j].0, w[j].1) != p by {
                    if j == 0 && (w[j].0, w[j].1) == p {
                        lemma_diff_key_injective(h, false, key, h, true, key);
                    }
                }
                lemma_apply_ops_untouched(m, w, p);
            }
            assert(!has_diff(m0, key, h));
        }
    } else {
        assert(hs[n - 1] < h);
        assert(cur == Some(vs[n - 1]));
    }
    assert forall|j: int| 0 <= j < n + 1 implies lookup(after, diff_place(#[trigger] hs[j], false, key)) == Some(vs[j]) by {
        if j < n {
            assert(hs[j] < h);
            assert(lookup(after, diff_place(hs[j], false, key)) == lookup(m, diff_place(hs[j], false, key)));
        }
    }
    assert forall|j: int| 0 < j < n + 1 implies lookup(after, diff_place(#[trigger] hs[j], true, key)) == Some(vs[j - 1]) by {
        if j < n {
            assert(hs[j] < h);
            assert(lookup(after, diff_place(hs[j], true, key)) == lookup(m, diff_place(hs[j], true, key)));
        }
    }
    if n >= 1 {
        assert(hs[0] < h);
        assert(lookup(after, diff_place(hs[0], true, key)) == lookup(m, diff_place(hs[0], true, key)));
    }
    assert forall|x: nat| x >= hs[0] && (forall|j: int| 0 <= j < n + 1 ==> hs[j] != x) implies !#[trigger] has_diff(after, key, x) by {
        assert(hs[n as int] != x);
        assert(lookup(after, diff_place(x, true, key)) == lookup(m, diff_place(x, true, key)));
        assert(lookup(after, diff_place(x, false, key)) == lookup(m, diff_place(x, false, key)));
        assert forall|j: int| 0 <= j < n implies hs[j] != x by {
            assert(hs[j] != x);
        }
    }
}

proof fn lemma_history(m0: DbState, key: Seq<char>, hs: Seq<nat>, vs: Seq<Seq<u8>>, n: nat)
    requires
        hs.len() == vs.len(),
        n <= hs.len(),
        hs.len() > 0,
        forall|i: int, j: int| 0 <= i < j < hs.len() ==> hs[i] < hs[j],
        forall|h: nat| h >= hs[0] ==> !#[trigger] has_diff(m0, key, h),
    ensures
        history_holds(after_writes(m0, key, hs, vs, n), key, hs, vs, n, lookup(m0, (DbColFam::SUBSPACE, key))),
    decreases n,
{
    if n > 0 {
        lemma_history(m0, key, hs, vs, (n - 1) as nat);
        lemma_history_step(m0, key, hs, vs, (n - 1) as nat);
    }
}

proof fn lemma_read_after_skip(m: DbState, key: Seq<char>, x: nat, y: nat, last: nat, v: Seq<u8>)
    requires
        x <= y <= last,
        forall|h: nat| x <= h < y ==> !#[trigger] has_diff(m, key, h),
        lookup(m, diff_place(y, true, key)) == Some(v),
    ensures
        read_after(m, key, x, last) == Some(v),
    decreases y - x,
{
    if x < y {
        assert(!has_diff(m, key, x));
        lemma_read_after_skip(m, key, x + 1, y, last, v);
    }
}

/// Historical round trip: after writes of `key` with persisted diffs at
/// strictly increasing heights `hs` (values `vs`), on a store with no diffs
/// of `key` from the first of those heights on, the value read at any
/// height `p` between the first and the last write (the last write's height
/// being the last height) is the value of the last write at or below `p`.
pub proof fn law_historical_round_trip(m0: DbState, key: Seq<char>, hs: Seq<nat>, vs: Seq<Seq<u8>>, p: nat, i: int)
    requires
        hs.len() == vs.len(),
        hs.len() > 0,
        forall|a: int, b: int| 0 <= a < b < hs.len() ==> hs[a] < hs[b],
        forall|h: nat| h >= hs[0] ==> !#[trigger] has_diff(m0, key, h),
        0 <= i < hs.len(),
        hs[i] <= p,
        i == hs.len() - 1 || p < hs[i + 1],
        p <= hs.last(),
    ensures
        read_at(after_writes(m0, key, hs, vs, hs.len()), key, p, hs.last()) == Some(vs[i]),
{
    let n = hs.len();
    let m = after_writes(m0, key, hs, vs, n);
    lemma_history(m0, key, hs, vs, n);
    if p == hs[i] {
        assert(lookup(m, diff_place(hs[i], false, key)) == Some(vs[i]));
    } else {
        assert(i < n - 1);
        assert forall|j: int| 0 <= j < n implies hs[j] != p by {
            if j <= i {
                if j < i {
                    assert(hs[j] < hs[i]);
                }
            } else {
                if j > i + 1 {
                    assert(hs[i + 1] < hs[j]);
                }
            }
        }
        assert(p >= hs[0]) by {
            if i > 0 {
                assert(hs[0] < hs[i]);
            }
        }
        assert(!has_diff(m, key, p));
        assert forall|h: nat| p + 1 <= h < hs[i + 1] implies !#[trigger] has_diff(m, key, h) by {
            assert forall|j: int| 0 <= j < n implies hs[j] != h by {
                if j <= i {
                    if j < i {
                        assert(hs[j] < hs[i]);
                    }
                } else if j > i + 1 {
                    assert(hs[i + 1] < hs[j]);
                }
            }
        }
        assert(lookup(m, diff_place(hs[i + 1], true, key)) == Some(vs[i]));
        if i + 1 < n - 1 {
            assert(hs[i + 1] < hs[n - 1]);
        }
        lemma_read_after_skip(m, key, p + 1, hs[i + 1], hs.last(), vs[i]);
    }
}

proof fn lemma_deleted_restore_subspace_only(m: DbState, olds: Seq<(Seq<char>, Seq<u8>)>, l: nat)
    ensures
        forall|k: int| 0 <= k < deleted_restore_ops(m, olds, l).len() ==> (#[trigger] deleted_restore_ops(m, olds, l)[k]).0 == DbColFam::SUBSPACE,
{
    lemma_deleted_restore_cf(m, olds, l);
}

/// Rollback, in part: the height goes back by one, and no block result,
/// block entry or diff of the rolled back height is left.
pub proof fn law_rollback_forgets_last_height(db: &RocksDB, b: &BlockStateRead, k: Seq<char>)
    requires
        db.wf(),
        b.height >= 1,
    ensures
        ({
            let after = apply_ops(db@, rollback_ops(db, b));
            let hp = crate::key::height_prefix(b.height as nat);
            &&& after.contains_key((DbColFam::STATE, "height"@))
            &&& after[(DbColFam::STATE, "height"@)] == crate::codec::u64_bytes((b.height - 1) as u64)
            &&& !after.contains_key((DbColFam::BLOCK, crate::block::results_key(b.height as nat)))
            &&& starts_with(k, hp) ==> !after.contains_key((DbColFam::DIFFS, k)) && !after.contains_key((DbColFam::BLOCK, k))
        }),
{
    reveal_strlit("height");
    reveal_strlit("next_epoch_min_start_height");
    reveal_strlit("next_epoch_min_start_time");
    reveal_strlit("update_epoch_blocks_delay");
    reveal_strlit("tx_queue");
    reveal_strlit("conversion_state");
    let m = db@;
    let l = b.height as nat;
    let hp = crate::key::height_prefix(l);
    let meta = metadata_ops(m, b);
    let lasts = entries_with_prefix(db.entries(DbColFam::REPLAYPROT), last_bucket() + seq!['/']);
    let bufs = stripped(entries_with_prefix(db.entries(DbColFam::REPLAYPROT), buffer_bucket() + seq!['/']), buffer_bucket().len() + 1);
    let res = seq![(DbColFam::BLOCK, crate::block::results_key(l), None::<Seq<u8>>)];
    let ld = replay_deletes(lasts);
    let br = buffer_restore_ops(bufs);
    let sr = subspace_restore_ops(m, db.entries(DbColFam::SUBSPACE), l);
    let olds = stripped(entries_with_prefix(db.entries(DbColFam::DIFFS), hp + "old/"@), (hp + "old/"@).len());
    let dr = deleted_restore_ops(m, olds, l);
    let dsrc = entries_with_prefix(db.entries(DbColFam::DIFFS), hp);
    let bsrc = entries_with_prefix(db.entries(DbColFam::BLOCK), hp);
    let cd1 = cf_deletes(DbColFam::DIFFS, dsrc);
    let cd2 = cf_deletes(DbColFam::BLOCK, bsrc);
    let ops = rollback_ops(db, b);
    assert(ops =~= meta + res + ld + br + sr + dr + cd1 + cd2);
    let after = apply_ops(m, ops);
    lemma_deleted_restore_subspace_only(m, olds, l);
    lemma_buffer_restore_ops(bufs);
    let n0 = meta.len() + 1;
    let n1 = n0 + ld.len() + br.len() + sr.len() + dr.len();
    let n2 = n1 + cd1.len();
    // Where each part of the rollback writes.
    assert forall|j: int| 0 <= j < ops.len() implies {
        &&& (j == 0 ==> (#[trigger] ops[j]).0 == DbColFam::STATE && ops[j].1 == "height"@)
        &&& (0 < j < meta.len() ==> ops[j].0 == DbColFam::STATE && ops[j].1 != "height"@)
        &&& (j == meta.len() ==> ops[j] == res[0])
        &&& (n0 <= j < n0 + ld.len() + br.len() ==> ops[j].0 == DbColFam::REPLAYPROT)
        &&& (n0 + ld.len() + br.len() <= j < n1 ==> ops[j].0 == DbColFam::SUBSPACE)
        &&& (n1 <= j < n2 ==> ops[j] == cd1[j - n1])
        &&& (n2 <= j ==> ops[j] == cd2[j - n2])
    } by {
        if j < meta.len() {
            assert(ops[j] == meta[j]);
        } else if n0 <= j < n0 + ld.len() {
            assert(ops[j] == ld[j - n0]);
        } else if n0 + ld.len() <= j < n0 + ld.len() + br.len() {
            let x = j - n0 - ld.len();
            assert(ops[j] == br[x]);
            let i = x / 2;
            assert(bufs[i].0 == bufs[i].0);
        } else if n0 + ld.len() + br.len() <= j < n0 + ld.len() + br.len() + sr.len() {
            assert(ops[j] == sr[j - n0 - ld.len() - br.len()]);
        } else if n0 + ld.len() + br.len() + sr.len() <= j < n1 {
            assert(ops[j] == dr[j - n0 - ld.len() - br.len() - sr.len()]);
        }
    }
    // The height.
    assert forall|j: int| 0 < j < ops.len() implies (#[trigger] ops[j].0, ops[j].1) != (ops[0].0, ops[0].1) by {
        if n1 <= j < n2 {
            assert(ops[j].0 == DbColFam::DIFFS);
        } else if n2 <= j {
            assert(ops[j].0 == DbColFam::BLOCK);
        }
    }
    lemma_apply_ops_last_write(m, ops, 0);
    // The results of the rolled back height.
    let rk = (DbColFam::BLOCK, crate::block::results_key(l));
    let ri = meta.len() as int;
    assert forall|j: int| ri < j < ops.len() && (#[trigger] ops[j].0, ops[j].1) == rk implies ops[j].2 is None by {
        if n2 <= j {
            assert(ops[j] == cd2[j - n2]);
        }
    }
    lemma_apply_ops_deleted(m, ops, rk, ri);
    if starts_with(k, hp) {
        db.lemma_entries(DbColFam::DIFFS);
        db.lemma_entries(DbColFam::BLOCK);
        let dp = (DbColFam::DIFFS, k);
        if m.contains_key(dp) {
            let q = choose|q: int| 0 <= q < db.entries(DbColFam::DIFFS).len() && db.entries(DbColFam::DIFFS)[q].0 == k;
            lemma_entries_with_prefix_complete(db.entries(DbColFam::DIFFS), hp, q);
            let x = choose|x: int| 0 <= x < dsrc.len() && dsrc[x] == db.entries(DbColFam::DIFFS)[q];
            assert(ops[n1 + x] == cd1[x]);
            assert forall|j: int| n1 + x < j < ops.len() && (#[trigger] ops[j].0, ops[j].1) == dp implies ops[j].2 is None by {
                if j < n2 {
                    assert(ops[j] == cd1[j - n1]);
                } else {
                    assert(ops[j] == cd2[j - n2]);
                }
            }
            lemma_apply_ops_deleted(m, ops, dp, n1 + x);
        } else {
            assert forall|j: int| 0 <= j < ops.len() && (#[trigger] ops[j].0, ops[j].1) == dp implies ops[j].2 is None by {
                if n1 <= j < n2 {
                    assert(ops[j] == cd1[j - n1]);
                }
            }
            lemma_apply_ops_never_put(m, ops, dp);
        }
        let bp = (DbColFam::BLOCK, k);
        if m.contains_key(bp) {
            let q = choose|q: int| 0 <= q < db.entries(DbColFam::BLOCK).len() && db.entries(DbColFam::BLOCK)[q].0 == k;
            lemma_entries_with_prefix_complete(db.entries(DbColFam::BLOCK), hp, q);
            let x = choose|x: int| 0 <= x < bsrc.len() && bsrc[x] == db.entries(DbColFam::BLOCK)[q];
            assert(ops[n2 + x] == cd2[x]);
            assert forall|j: int| n2 + x < j < ops.len() && (#[trigger] ops[j].0, ops[j].1) == bp implies ops[j].2 is None by {
                assert(ops[j] == cd2[j - n2]);
            }
            lemma_apply_ops_deleted(m, ops, bp, n2 + x);
        } else {
            assert forall|j: int| 0 <= j < ops.len() && (#[trigger] ops[j].0, ops[j].1) == bp implies ops[j].2 is None by {
                if n2 <= j {
                    assert(ops[j] == cd2[j - n2]);
                }
            }
            lemma_apply_ops_never_put(m, ops, bp);
        }
    }
}

/// A place that holds nothing and that no write puts a value in stays
/// empty.
pub proof fn lemma_apply_ops_never_put(m: DbState, ops: Seq<OpView>, p: (DbColFam, Seq<char>))
    requires
        !m.contains_key(p),
        forall|j: int| 0 <= j < ops.len() && (#[trigger] ops[j].0, ops[j].1) == p ==> ops[j].2 is None,
    ensures
        !apply_ops(m, ops).contains_key(p),
    decreases ops.len(),
{
    if ops.len() > 0 {
        lemma_apply_ops_never_put(m, ops.drop_last(), p);
    }
}

/// Once a write settles a place, later writes that keep the same outcome
/// leave it so.
pub proof fn lemma_apply_ops_settles(m: DbState, ops: Seq<OpView>, p: (DbColFam, Seq<char>), j: int, val: Option<Seq<u8>>)
    requires
        0 <= j < ops.len(),
        (ops[j].0, ops[j].1) == p,
        ops[j].2 == val,
        forall|k: int| j < k < ops.len() && (#[trigger] ops[k].0, ops[k].1) == p ==> ops[k].2 == val,
    ensures
        lookup(apply_ops(m, ops), p) == val,
    decreases ops.len(),
{
    if j < ops.len() - 1 {
        lemma_apply_ops_settles(m, ops.drop_last(), p, j, val);
    }
}

proof fn lemma_deleted_restore_members(m: DbState, olds: Seq<(Seq<char>, Seq<u8>)>, l: nat)
    ensures
        forall|k: int| 0 <= k < deleted_restore_ops(m, olds, l).len() ==> exists|i: int| 0 <= i < olds.len()
            && #[trigger] deleted_restore_ops(m, olds, l)[k] == (DbColFam::SUBSPACE, olds[i].0, Some(olds[i].1)),
        forall|i: int| 0 <= i < olds.len() && !m.contains_key(diff_place(l, false, (#[trigger] olds[i]).0)) ==> exists|k: int|
            0 <= k < deleted_restore_ops(m, olds, l).len() && deleted_restore_ops(m, olds, l)[k] == (DbColFam::SUBSPACE, olds[i].0, Some(olds[i].1)),
    decreases olds.len(),
{
    if olds.len() > 0 {
        let d = olds.drop_last();
        lemma_deleted_restore_members(m, d, l);
        let r = deleted_restore_ops(m, olds, l);
        let rd = deleted_restore_ops(m, d, l);
        assert forall|k: int| 0 <= k < r.len() implies exists|i: int| 0 <= i < olds.len()
            && #[trigger] r[k] == (DbColFam::SUBSPACE, olds[i].0, Some(olds[i].1)) by {
            if k < rd.len() {
                assert(r[k] == rd[k]);
                let i = choose|i: int| 0 <= i < d.len() && rd[k] == (DbColFam::SUBSPACE, d[i].0, Some(d[i].1));
                assert(olds[i] == d[i]);
            } else {
                assert(r[k] == (DbColFam::SUBSPACE, olds[olds.len() - 1].0, Some(olds[olds.len() - 1].1)));
            }
        }
        assert forall|i: int| 0 <= i < olds.len() && !m.contains_key(diff_place(l, false, (#[trigger] olds[i]).0)) implies exists|k: int|
            0 <= k < r.len() && r[k] == (DbColFam::SUBSPACE, olds[i].0, Some(olds[i].1)) by {
            if i < olds.len() - 1 {
                assert(d[i] == olds[i]);
                let k = choose|k: int| 0 <= k < rd.len() && rd[k] == (DbColFam::SUBSPACE, d[i].0, Some(d[i].1));
                assert(r[k] == rd[k]);
            } else {
                assert(r[r.len() - 1] == (DbColFam::SUBSPACE, olds[i].0, Some(olds[i].1)));
            }
        }
    }
}

/// The writes of one change of `key` at height `l` with persisted diffs: a
/// write of the value, or a delete for `None`.
pub open spec fn change_ops(m: DbState, l: nat, key: Seq<char>, v: Option<Seq<u8>>) -> Seq<OpView> {
    match v {
        Some(x) => write_ops(m, l, key, x, true),
        None => crate::subspace::delete_ops(m, l, key, true),
    }
}

/// The value that a store keeps of `key` at height `h` agrees with its
/// latest value: a new diff there is the latest value, and a delete there
/// (an old diff alone) left no value.
pub open spec fn consistent_at(m: DbState, key: Seq<char>, h: nat) -> bool {
    &&& lookup(m, diff_place(h, false, key)) is Some ==> lookup(m, diff_place(h, false, key)) == lookup(m, (DbColFam::SUBSPACE, key))
    &&& lookup(m, diff_place(h, true, key)) is Some && lookup(m, diff_place(h, false, key)) is None ==> lookup(m, (DbColFam::SUBSPACE, key)) is None
}

proof fn lemma_change_diffs(m0: DbState, l: nat, key: Seq<char>, v: Option<Seq<u8>>)
    requires
        !has_diff(m0, key, l),
    ensures
        lookup(apply_ops(m0, change_ops(m0, l, key, v)), (DbColFam::SUBSPACE, key)) == v,
        lookup(apply_ops(m0, change_ops(m0, l, key, v)), diff_place(l, true, key)) == lookup(m0, (DbColFam::SUBSPACE, key)),
        lookup(apply_ops(m0, change_ops(m0, l, key, v)), diff_place(l, false, key)) == v,
        forall|x: nat, o: bool| x != l ==> #[trigger] lookup(apply_ops(m0, change_ops(m0, l, key, v)), diff_place(x, o, key)) == lookup(m0, diff_place(x, o, key)),
{
    let prior = lookup(m0, (DbColFam::SUBSPACE, key));
    let w = change_ops(m0, l, key, v);
    let po = diff_place(l, true, key);
    let pn = diff_place(l, false, key);
    assert(compaction_ops(m0, key, l, true) =~= Seq::<OpView>::empty());
    if po == pn {
        lemma_diff_key_injective(l, true, key, l, false, key);
    }
    let old_puts = opt_put(po, prior);
    let new_puts = opt_put(pn, v);
    if v is Some || prior is Some {
        assert(w =~= old_puts + new_puts + seq![(DbColFam::SUBSPACE, key, v)]);
    } else {
        assert(w =~= seq![(DbColFam::SUBSPACE, key, v)]);
    }
    lemma_apply_ops_settles(m0, w, (DbColFam::SUBSPACE, key), w.len() - 1, v);
    if prior is Some {
        assert forall|k: int| 0 < k < w.len() implies (#[trigger] w[k].0, w[k].1) != po by {}
        lemma_apply_ops_settles(m0, w, po, 0, prior);
    } else {
        assert forall|k: int| 0 <= k < w.len() implies (#[trigger] w[k].0, w[k].1) != po by {}
        lemma_apply_ops_untouched(m0, w, po);
    }
    if v is Some {
        let io = old_puts.len() as int;
        assert forall|k: int| io < k < w.len() implies (#[trigger] w[k].0, w[k].1) != pn by {}
        lemma_apply_ops_settles(m0, w, pn, io, v);
    } else {
        assert forall|k: int| 0 <= k < w.len() implies (#[trigger] w[k].0, w[k].1) != pn by {}
        lemma_apply_ops_untouched(m0, w, pn);
    }
    assert forall|x: nat, o: bool| x != l implies #[trigger] lookup(apply_ops(m0, w), diff_place(x, o, key)) == lookup(m0, diff_place(x, o, key)) by {
        let p = diff_place(x, o, key);
        assert forall|k: int| 0 <= k < w.len() implies (#[trigger] w[k].0, w[k].1) != p by {
            if (w[k].0, w[k].1) == p {
                if (w[k].0, w[k].1) == po {
                    lemma_diff_key_injective(l, true, key, x, o, key);
                } else {
                    lemma_diff_key_injective(l, false, key, x, o, key);
                }
            }
        }
        lemma_apply_ops_untouched(m0, w, p);
    }
}

/// The old diffs of the rolled back height, keyed by subspace key.
pub open spec fn rolled_back_olds(db: &RocksDB, b: &BlockStateRead) -> Seq<(Seq<char>, Seq<u8>)> {
    let op = crate::key::height_prefix(b.height as nat) + "old/"@;
    stripped(entries_with_prefix(db.entries(DbColFam::DIFFS), op), op.len())
}

/// Where the subspace writes of a rollback start.
pub open spec fn subspace_part_start(db: &RocksDB, b: &BlockStateRead) -> int {
    let lasts = entries_with_prefix(db.entries(DbColFam::REPLAYPROT), last_bucket() + seq!['/']);
    let bufs = stripped(entries_with_prefix(db.entries(DbColFam::REPLAYPROT), buffer_bucket() + seq!['/']), buffer_bucket().len() + 1);
    (metadata_ops(db@, b).len() + 1 + replay_deletes(lasts).len() + buffer_restore_ops(bufs).len()) as int
}

proof fn lemma_rollback_layout(db: &RocksDB, b: &BlockStateRead)
    requires
        db.wf(),
    ensures
        ({
            let ops = rollback_ops(db, b);
            let m = db@;
            let l = b.height as nat;
            let sr = subspace_restore_ops(m, db.entries(DbColFam::SUBSPACE), l);
            let dr = deleted_restore_ops(m, rolled_back_olds(db, b), l);
            let ns = subspace_part_start(db, b);
            let nd = ns + sr.len();
            &&& ns + sr.len() + dr.len() <= ops.len()
            &&& forall|x: int| 0 <= x < sr.len() ==> ops[ns + x] == #[trigger] sr[x]
            &&& forall|k: int| 0 <= k < dr.len() ==> ops[nd + k] == #[trigger] dr[k]
            &&& forall|j: int| 0 <= j < ops.len() && (j < ns || j >= nd + dr.len()) ==> (#[trigger] ops[j]).0 != DbColFam::SUBSPACE
        }),
{
    reveal_strlit("old/");
    let m = db@;
    let l = b.height as nat;
    let hp = crate::key::height_prefix(l);
    let meta = metadata_ops(m, b);
    let lasts = entries_with_prefix(db.entries(DbColFam::REPLAYPROT), last_bucket() + seq!['/']);
    let bufs = stripped(entries_with_prefix(db.entries(DbColFam::REPLAYPROT), buffer_bucket() + seq!['/']), buffer_bucket().len() + 1);
    let res = seq![(DbColFam::BLOCK, crate::block::results_key(l), None::<Seq<u8>>)];
    let ld = replay_deletes(lasts);
    let br = buffer_restore_ops(bufs);
    let sr = subspace_restore_ops(m, db.entries(DbColFam::SUBSPACE), l);
    let dr = deleted_restore_ops(m, rolled_back_olds(db, b), l);
    let cd1 = cf_deletes(DbColFam::DIFFS, entries_with_prefix(db.entries(DbColFam::DIFFS), hp));
    let cd2 = cf_deletes(DbColFam::BLOCK, entries_with_prefix(db.entries(DbColFam::BLOCK), hp));
    let ops = rollback_ops(db, b);
    assert(ops =~= meta + res + ld + br + sr + dr + cd1 + cd2);
    lemma_buffer_restore_ops(bufs);
    let ns = subspace_part_start(db, b);
    let nd = ns + sr.len();
    let ne = nd + dr.len();
    assert forall|j: int| 0 <= j < ops.len() && (j < ns || j >= ne) implies (#[trigger] ops[j]).0 != DbColFam::SUBSPACE by {
        if j < meta.len() {
            assert(ops[j] == meta[j]);
        } else if meta.len() + 1 <= j < meta.len() + 1 + ld.len() {
            assert(ops[j] == ld[j - meta.len() - 1]);
        } else if meta.len() + 1 + ld.len() <= j < ns {
            let x = j - meta.len() - 1 - ld.len();
            assert(ops[j] == br[x]);
            let i = x / 2;
            assert(bufs[i].0 == bufs[i].0);
        } else if ne <= j < ne + cd1.len() {
            assert(ops[j] == cd1[j - ne]);
        } else if ne + cd1.len() <= j {
            assert(ops[j] == cd2[j - ne - cd1.len()]);
        }
    }
}

proof fn lemma_rollback_subspace_touch(db: &RocksDB, b: &BlockStateRead, key: Seq<char>, j: int)
    requires
        db.wf(),
        b.height >= 1,
        0 <= j < rollback_ops(db, b).len(),
        (rollback_ops(db, b)[j].0, rollback_ops(db, b)[j].1) == (DbColFam::SUBSPACE, key),
    ensures
        rollback_ops(db, b)[j].2 == read_at(db@, key, (b.height - 1) as nat, b.height as nat) || (
            db@.contains_key(diff_place(b.height as nat, true, key))
            && rollback_ops(db, b)[j].2 == Some(db@[diff_place(b.height as nat, true, key)])),
{
    reveal_strlit("old/");
    let m = db@;
    let l = b.height as nat;
    let ops = rollback_ops(db, b);
    lemma_rollback_layout(db, b);
    let sr = subspace_restore_ops(m, db.entries(DbColFam::SUBSPACE), l);
    let olds = rolled_back_olds(db, b);
    let dr = deleted_restore_ops(m, olds, l);
    let ns = subspace_part_start(db, b);
    let nd = ns + sr.len();
    if j < nd {
        assert(ops[j] == sr[j - ns]);
    } else {
        assert(ops[j] == dr[j - nd]);
        lemma_deleted_restore_members(m, olds, l);
        let i = choose|i: int| 0 <= i < olds.len() && dr[j - nd] == (DbColFam::SUBSPACE, olds[i].0, Some(olds[i].1));
        let op = crate::key::height_prefix(l) + "old/"@;
        let osrc = entries_with_prefix(db.entries(DbColFam::DIFFS), op);
        lemma_entries_with_prefix_sound(db.entries(DbColFam::DIFFS), op, i);
        db.lemma_entries(DbColFam::DIFFS);
        let q = choose|q: int| 0 <= q < db.entries(DbColFam::DIFFS).len() && db.entries(DbColFam::DIFFS)[q] == osrc[i];
        let full = osrc[i].0;
        assert(full.subrange(0, op.len() as int) == op);
        assert(olds[i].0 == full.subrange(op.len() as int, full.len() as int));
        assert(full =~= op + olds[i].0);
        assert(op + key =~= diff_key(l, true, key));
        assert(m.contains_key((DbColFam::DIFFS, full)));
    }
}

/// Rollback, in part: when the rolled back block `l` made one change of
/// `key` with persisted diffs (a write, or a delete for `None`), on a store
/// with no diffs of `key` at `l` that agreed with itself at `l - 1`, the
/// rollback gives `key` back the value it had before the block.
#[verifier::rlimit(60)]
pub proof fn law_rollback_undoes_change(db: &RocksDB, b: &BlockStateRead, m0: DbState, key: Seq<char>, v: Option<Seq<u8>>)
    requires
        db.wf(),
        b.height >= 1,
        !has_diff(m0, key, b.height as nat),
        consistent_at(m0, key, (b.height - 1) as nat),
        db@ == apply_ops(m0, change_ops(m0, b.height as nat, key, v)),
    ensures
        lookup(apply_ops(db@, rollback_ops(db, b)), (DbColFam::SUBSPACE, key)) == lookup(m0, (DbColFam::SUBSPACE, key)),
{
    reveal_strlit("old/");
    let m = db@;
    let l = b.height as nat;
    let prior = lookup(m0, (DbColFam::SUBSPACE, key));
    lemma_change_diffs(m0, l, key, v);
    assert(lookup(m, diff_place((l - 1) as nat, false, key)) == lookup(m0, diff_place((l - 1) as nat, false, key)));
    assert(lookup(m, diff_place((l - 1) as nat, true, key)) == lookup(m0, diff_place((l - 1) as nat, true, key)));
    // The value at the height below is the one from before the block.
    assert(read_at(m, key, (l - 1) as nat, l) == prior) by {
        assert((l - 1) as nat + 1 == l);
    }
    let ops = rollback_ops(db, b);
    lemma_rollback_layout(db, b);
    let subs = db.entries(DbColFam::SUBSPACE);
    let sr = subspace_restore_ops(m, subs, l);
    let olds = rolled_back_olds(db, b);
    let dr = deleted_restore_ops(m, olds, l);
    let ns = subspace_part_start(db, b);
    let nd = ns + sr.len();
    let sp = (DbColFam::SUBSPACE, key);
    assert forall|j: int| 0 <= j < ops.len() && (#[trigger] ops[j].0, ops[j].1) == sp implies ops[j].2 == prior by {
        lemma_rollback_subspace_touch(db, b, key, j);
    }
    db.lemma_entries(DbColFam::SUBSPACE);
    db.lemma_entries(DbColFam::DIFFS);
    if m.contains_key(sp) {
        // The key stands in the subspace: it is restored in turn.
        let x = choose|x: int| 0 <= x < subs.len() && subs[x].0 == key;
        assert(ops[ns + x] == sr[x]);
        lemma_apply_ops_settles(m, ops, sp, ns + x, prior);
    } else if m.contains_key(diff_place(l, true, key)) {
        // The key was deleted in the block: its old value comes back.
        let op = crate::key::height_prefix(l) + "old/"@;
        let osrc = entries_with_prefix(db.entries(DbColFam::DIFFS), op);
        let ok = diff_key(l, true, key);
        let q = choose|q: int| 0 <= q < db.entries(DbColFam::DIFFS).len() && db.entries(DbColFam::DIFFS)[q].0 == ok;
        assert(ok =~= op + key);
        assert(ok.subrange(0, op.len() as int) =~= op);
        lemma_entries_with_prefix_complete(db.entries(DbColFam::DIFFS), op, q);
        let i = choose|i: int| 0 <= i < osrc.len() && osrc[i] == db.entries(DbColFam::DIFFS)[q];
        assert(olds[i].0 =~= key);
        lemma_deleted_restore_members(m, olds, l);
        let k = choose|k: int| 0 <= k < dr.len() && dr[k] == (DbColFam::SUBSPACE, olds[i].0, Some(olds[i].1));
        assert(ops[nd + k] == dr[k]);
        lemma_apply_ops_settles(m, ops, sp, nd + k, prior);
    } else {
        // Nothing stood before the block, and nothing is restored.
        assert(prior is None);
        lemma_apply_ops_never_put(m, ops, sp);
    }
}

} // verus!
