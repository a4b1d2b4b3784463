//! Iteration over column families by key prefix or pattern.

use vstd::prelude::*;

use crate::db::{DbColFam, RocksDB};
use crate::key::{diff_kind, height_prefix, Key};
use crate::kv::{entries_with_prefix, pairs_view};
use crate::pattern::{pattern_is_match, regex_matches, Pattern};
use crate::replay::{buffer_bucket, last_bucket};

verus! {

/// The scan prefix of an optional key: the key and a separator, or nothing
/// for no key or a key without segments.
pub open spec fn key_scan_prefix(prefix: Option<&Key>) -> Seq<char> {
    match prefix {
        Some(p) => if p.segs().len() > 0 {
            p@ + seq!['/']
        } else {
            Seq::empty()
        },
        None => Seq::empty(),
    }
}

/// Entries with the first `n` characters of their keys dropped.
pub open spec fn stripped(s: Seq<(Seq<char>, Seq<u8>)>, n: nat) -> Seq<(Seq<char>, Seq<u8>)> {
    s.map_values(|e: (Seq<char>, Seq<u8>)| (e.0.subrange(n as int, e.0.len() as int), e.1))
}

/// The entries of `s` whose key matches `pattern`, in order.
pub open spec fn matching(s: Seq<(Seq<char>, Seq<u8>)>, pattern: Seq<char>) -> Seq<(Seq<char>, Seq<u8>)>
    decreases s.len(),
{
    if s.len() == 0 {
        s
    } else {
        let rest = matching(s.drop_last(), pattern);
        if regex_matches(pattern, s.last().0) {
            rest.push(s.last())
        } else {
            rest
        }
    }
}

/// The string of the scan prefix of an optional key.
fn key_scan_prefix_string(prefix: Option<&Key>) -> (r: String)
    ensures
        r@ == key_scan_prefix(prefix),
{
    match prefix {
        Some(p) => {
            if !p.is_empty() {
                let mut s = p.to_string();
                proof {
                    reveal_strlit("/");
                }
                s.append("/");
                s
            } else {
                String::new()
            }
        },
        None => String::new(),
    }
}

impl RocksDB {
    /// The entries of `cf` under `outer` followed by the scan prefix of
    /// `prefix`, with `outer` dropped from their keys.
    fn scan_stripped(&self, cf: DbColFam, outer: &str, prefix: Option<&Key>) -> (r: Vec<(String, Vec<u8>)>)
        requires
            self.wf(),
        ensures
            pairs_view(r@) == stripped(entries_with_prefix(self.entries(cf), outer@ + key_scan_prefix(prefix)), outer@.len()),
    {
        let mut full = outer.to_owned();
        full.append(key_scan_prefix_string(prefix).as_str());
        let entries = self.scan_cf(cf, full.as_str());
        let ghost es = pairs_view(entries@);
        let n = outer.unicode_len();
        let mut r: Vec<(String, Vec<u8>)> = Vec::new();
        let mut i: usize = 0;
        while i < entries.len()
            invariant
                es == pairs_view(entries@),
                es == entries_with_prefix(self.entries(cf), outer@ + key_scan_prefix(prefix)),
                n == outer@.len(),
                i <= entries.len(),
                pairs_view(r@) == stripped(es.take(i as int), n as nat),
            decreases entries.len() - i,
        {
            proof {
                crate::kv::lemma_entries_with_prefix_sound(self.entries(cf), outer@ + key_scan_prefix(prefix), i as int);
            }
            let key = entries[i].0.as_str();
            let klen = key.unicode_len();
            let k = key.substring_char(n, klen).to_owned();
            let v = crate::kv::copy_bytes(&entries[i].1);
            let ghost before = pairs_view(r@);
            proof {
                assert(es[i as int] == (entries@[i as int].0@, entries@[i as int].1@));
                assert(k@ == es[i as int].0.subrange(n as int, es[i as int].0.len() as int));
            }
            r.push((k, v));
            proof {
                assert(pairs_view(r@) =~= before.push((k@, v@)));
                assert(stripped(es.take(i + 1), n as nat) =~= stripped(es.take(i as int), n as nat).push((k@, v@)));
            }
            i = i + 1;
        }
        proof {
            assert(es.take(i as int) =~= es);
        }
        r
    }

    /// The subspace entries under `prefix` (all of them for `None`), in key
    /// order.
    pub fn iter_prefix(&self, prefix: Option<&Key>) -> (r: Vec<(String, Vec<u8>)>)
        requires
            self.wf(),
        ensures
            pairs_view(r@) == entries_with_prefix(self.entries(DbColFam::SUBSPACE), key_scan_prefix(prefix)),
    {
        let p = key_scan_prefix_string(prefix);
        self.scan_cf(DbColFam::SUBSPACE, p.as_str())
    }

    /// The subspace entries under `prefix` whose key matches `pattern`, in
    /// key order.
    pub fn iter_pattern(&self, prefix: Option<&Key>, pattern: &Pattern) -> (r: Vec<(String, Vec<u8>)>)
        requires
            self.wf(),
        ensures
            pairs_view(r@) == matching(entries_with_prefix(self.entries(DbColFam::SUBSPACE), key_scan_prefix(prefix)), pattern.source()),
    {
        let all = self.iter_prefix(prefix);
        let ghost es = pairs_view(all@);
        let mut r: Vec<(String, Vec<u8>)> = Vec::new();
        let mut i: usize = 0;
        while i < all.len()
            invariant
                es == pairs_view(all@),
                i <= all.len(),
                pairs_view(r@) == matching(es.take(i as int), pattern.source()),
            decreases all.len() - i,
        {
            proof {
                assert(es.take(i + 1).drop_last() =~= es.take(i as int));
            }
            if pattern_is_match(pattern, all[i].0.as_str()) {
                let k = all[i].0.clone();
                let v = crate::kv::copy_bytes(&all[i].1);
                r.push((k, v));
                proof {
                    assert(pairs_view(r@) =~= matching(es.take(i as int), pattern.source()).push(es[i as int]));
                }
            }
            i = i + 1;
        }
        proof {
            assert(es.take(i as int) =~= es);
        }
        r
    }

    /// The block results, keyed by height.
    pub fn iter_results(&self) -> (r: Vec<(String, Vec<u8>)>)
        requires
            self.wf(),
        ensures
            pairs_view(r@) == stripped(entries_with_prefix(self.entries(DbColFam::BLOCK), "results/"@), "results/"@.len()),
    {
        let r = self.scan_stripped(DbColFam::BLOCK, "results/", None);
        proof {
            assert("results/"@ + key_scan_prefix(None) =~= "results/"@);
        }
        r
    }

    /// The old (`is_old`) or new diffs at `height` under `prefix`, keyed by
    /// the subspace key.
    fn iter_diffs_prefix(&self, height: u64, prefix: Option<&Key>, is_old: bool) -> (r: Vec<(String, Vec<u8>)>)
        requires
            self.wf(),
        ensures
            pairs_view(r@) == stripped(
                entries_with_prefix(self.entries(DbColFam::DIFFS), height_prefix(height as nat) + diff_kind(is_old) + seq!['/'] + key_scan_prefix(prefix)),
                (height_prefix(height as nat) + diff_kind(is_old) + seq!['/']).len(),
            ),
    {
        let outer = crate::key::diff_prefix_string(height, is_old);
        self.scan_stripped(DbColFam::DIFFS, outer.as_str(), prefix)
    }

    /// The old diffs at `height` under `prefix`, keyed by the subspace key.
    pub fn iter_old_diffs(&self, height: u64, prefix: Option<&Key>) -> (r: Vec<(String, Vec<u8>)>)
        requires
            self.wf(),
        ensures
            pairs_view(r@) == stripped(
                entries_with_prefix(self.entries(DbColFam::DIFFS), height_prefix(height as nat) + diff_kind(true) + seq!['/'] + key_scan_prefix(prefix)),
                (height_prefix(height as nat) + diff_kind(true) + seq!['/']).len(),
            ),
    {
        self.iter_diffs_prefix(height, prefix, true)
    }

    /// The new diffs at `height` under `prefix`, keyed by the subspace key.
    pub fn iter_new_diffs(&self, height: u64, prefix: Option<&Key>) -> (r: Vec<(String, Vec<u8>)>)
        requires
            self.wf(),
        ensures
            pairs_view(r@) == stripped(
                entries_with_prefix(self.entries(DbColFam::DIFFS), height_prefix(height as nat) + diff_kind(false) + seq!['/'] + key_scan_prefix(prefix)),
                (height_prefix(height as nat) + diff_kind(false) + seq!['/']).len(),
            ),
    {
        self.iter_diffs_prefix(height, prefix, false)
    }

    /// The hashes of the current block's bucket, as hex text.
    pub fn iter_replay_protection(&self) -> (r: Vec<(String, Vec<u8>)>)
        requires
            self.wf(),
        ensures
            pairs_view(r@) == stripped(entries_with_prefix(self.entries(DbColFam::REPLAYPROT), last_bucket() + seq!['/']), last_bucket().len() + 1),
    {
        proof {
            reveal_strlit("last/");
            reveal_strlit("last");
        }
        let r = self.scan_stripped(DbColFam::REPLAYPROT, "last/", None);
        proof {
            assert("last/"@ + key_scan_prefix(None) =~= last_bucket() + seq!['/']);
        }
        r
    }

    /// The hashes of the previous block's buffer bucket, as hex text.
    pub fn iter_replay_protection_buffer(&self) -> (r: Vec<(String, Vec<u8>)>)
        requires
            self.wf(),
        ensures
            pairs_view(r@) == stripped(entries_with_prefix(self.entries(DbColFam::REPLAYPROT), buffer_bucket() + seq!['/']), buffer_bucket().len() + 1),
    {
        proof {
            reveal_strlit("buffer/");
            reveal_strlit("buffer");
        }
        let r = self.scan_stripped(DbColFam::REPLAYPROT, "buffer/", None);
        proof {
            assert("buffer/"@ + key_scan_prefix(None) =~= buffer_bucket() + seq!['/']);
        }
        r
    }
}

} // verus!
