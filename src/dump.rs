//! A line-per-entry dump of the store: `"key" = "hex value"`.

use vstd::prelude::*;

use crate::db::{DbColFam, DbState, RocksDB};
use crate::error::Error;
use crate::hex::{hex_lower, hex_of};
use crate::key::{height_prefix, height_prefix_string};
use crate::kv::{entries_with_prefix, pairs_view};
use crate::subspace::read_at;
use crate::visitor::last_height;

verus! {

/// The dump line of one entry.
pub open spec fn dump_line(k: Seq<char>, v: Seq<u8>) -> Seq<char> {
    "\""@ + k + "\" = \""@ + hex_of(v) + "\"\n"@
}

/// The dump lines of entries, in order.
pub open spec fn dump_lines(es: Seq<(Seq<char>, Seq<u8>)>) -> Seq<char>
    decreases es.len(),
{
    if es.len() == 0 {
        Seq::empty()
    } else {
        dump_lines(es.drop_last()) + dump_line(es.last().0, es.last().1)
    }
}

/// Every value is short enough to be hex-encoded.
pub open spec fn dumpable(es: Seq<(Seq<char>, Seq<u8>)>) -> bool {
    forall|i: int| 0 <= i < es.len() ==> (#[trigger] es[i]).1.len() <= usize::MAX / 512
}

/// The subspace keys of `es` with their values at height `h`, for those
/// that had one; `last` is the last committed height.
pub open spec fn restored(m: DbState, es: Seq<(Seq<char>, Seq<u8>)>, h: nat, last: nat) -> Seq<(Seq<char>, Seq<u8>)>
    decreases es.len(),
{
    if es.len() == 0 {
        Seq::empty()
    } else {
        let rest = restored(m, es.drop_last(), h, last);
        match read_at(m, es.last().0, h, last) {
            Some(v) => rest.push((es.last().0, v)),
            None => rest,
        }
    }
}

/// The entries that a dump of height `h` covers, section by section.
pub open spec fn dump_entries(db: &RocksDB, historic: bool, h: u64, last: u64) -> Seq<Seq<(Seq<char>, Seq<u8>)>> {
    let hp = height_prefix(h as nat);
    let history = if historic {
        seq![
            entries_with_prefix(db.entries(DbColFam::DIFFS), hp),
            entries_with_prefix(db.entries(DbColFam::BLOCK), hp),
        ]
    } else {
        Seq::empty()
    };
    let subspace = if h != last {
        restored(db@, db.entries(DbColFam::SUBSPACE), h as nat, last as nat)
    } else {
        db.entries(DbColFam::SUBSPACE)
    };
    let replay = if h == last {
        seq![db.entries(DbColFam::REPLAYPROT)]
    } else if h + 1 == last {
        seq![entries_with_prefix(db.entries(DbColFam::REPLAYPROT), "all/"@)]
    } else {
        Seq::empty()
    };
    history + seq![subspace] + replay
}

/// The text of the given sections, one after the other.
pub open spec fn sections_text(sections: Seq<Seq<(Seq<char>, Seq<u8>)>>) -> Seq<char>
    decreases sections.len(),
{
    if sections.len() == 0 {
        Seq::empty()
    } else {
        sections_text(sections.drop_last()) + dump_lines(sections.last())
    }
}

/// Every section can be dumped.
pub open spec fn sections_dumpable(sections: Seq<Seq<(Seq<char>, Seq<u8>)>>) -> bool {
    forall|i: int| 0 <= i < sections.len() ==> dumpable(#[trigger] sections[i])
}

/// A dump: the height it shows and its text.
pub struct Dump {
    pub height: u64,
    pub text: String,
}

/// Appends the dump lines of `es` to `out`.
fn append_lines(out: &mut String, es: &Vec<(String, Vec<u8>)>) -> (r: Result<(), Error>)
    ensures
        r is Ok <==> dumpable(pairs_view(es@)),
        r is Ok ==> final(out)@ == old(out)@ + dump_lines(pairs_view(es@)),
{
    let ghost start = out@;
    let ghost ps = pairs_view(es@);
    let mut i: usize = 0;
    while i < es.len()
        invariant
            ps == pairs_view(es@),
            i <= es.len(),
            dumpable(ps.take(i as int)),
            out@ == start + dump_lines(ps.take(i as int)),
        decreases es.len() - i,
    {
        let v = &es[i].1;
        if v.len() > usize::MAX / 512 {
            proof {
                assert(ps[i as int].1.len() > usize::MAX / 512);
            }
            return Err(Error::CodingError("Value too long to dump".to_owned()));
        }
        out.append("\"");
        out.append(es[i].0.as_str());
        out.append("\" = \"");
        out.append(hex_lower(v.as_slice()).as_str());
        out.append("\"\n");
        i = i + 1;
        proof {
            assert(ps.take(i as int).drop_last() =~= ps.take(i - 1));
            assert(out@ =~= start + dump_lines(ps.take(i as int)));
            assert(dumpable(ps.take(i as int))) by {
                assert forall|j: int| 0 <= j < i implies (#[trigger] ps.take(i as int)[j]).1.len() <= usize::MAX / 512 by {
                    if j < i - 1 {
                        assert(ps.take(i - 1)[j] == ps.take(i as int)[j]);
                    }
                }
            }
        }
    }
    proof {
        assert(ps.take(i as int) =~= ps);
    }
    Ok(())
}

/// The text of the given sections; an error when a value is too long.
fn render_sections(sections_v: &Vec<Vec<(String, Vec<u8>)>>, expected: Ghost<Seq<Seq<(Seq<char>, Seq<u8>)>>>) -> (r: Result<String, Error>)
    requires
        sections_v@.len() == expected@.len(),
        forall|j: int| 0 <= j < expected@.len() ==> pairs_view((#[trigger] sections_v@[j])@) == expected@[j],
    ensures
        r is Ok <==> sections_dumpable(expected@),
        r matches Ok(t) ==> t@ == sections_text(expected@),
{
    let ghost sections = expected@;
    let mut text = String::new();
    let mut i: usize = 0;
    while i < sections_v.len()
        invariant
            sections == expected@,
            sections_v@.len() == sections.len(),
            forall|j: int| 0 <= j < sections.len() ==> pairs_view((#[trigger] sections_v@[j])@) == sections[j],
            i <= sections_v.len(),
            sections_dumpable(sections.take(i as int)),
            text@ == sections_text(sections.take(i as int)),
        decreases sections_v.len() - i,
    {
        proof {
            assert(sections[i as int] == pairs_view(sections_v@[i as int]@));
        }
        match append_lines(&mut text, &sections_v[i]) {
            Ok(()) => {},
            Err(e) => {
                proof {
                    assert(!dumpable(sections[i as int]));
                }
                return Err(e);
            },
        }
        i = i + 1;
        proof {
            assert(sections.take(i as int).drop_last() =~= sections.take(i - 1));
            assert(sections_dumpable(sections.take(i as int))) by {
                assert forall|j: int| 0 <= j < i implies dumpable(#[trigger] sections.take(i as int)[j]) by {
                    if j < i - 1 {
                        assert(sections.take(i - 1)[j] == sections.take(i as int)[j]);
                    }
                }
            }
        }
    }
    proof {
        assert(sections.take(i as int) =~= sections);
    }
    Ok(text)
}

impl RocksDB {
    /// The subspace keys with their values at height `h`, for those that
    /// had one.
    fn restored_subspace(&self, h: u64, last: u64) -> (r: Vec<(String, Vec<u8>)>)
        requires
            self.wf(),
            h < u64::MAX,
        ensures
            pairs_view(r@) == restored(self@, self.entries(DbColFam::SUBSPACE), h as nat, last as nat),
    {
        let all = self.iter_prefix(None);
        let ghost es = pairs_view(all@);
        proof {
            assert(crate::iter::key_scan_prefix(None) =~= Seq::<char>::empty());
            crate::rollback::lemma_prefix_empty(self.entries(DbColFam::SUBSPACE));
        }
        let mut r: Vec<(String, Vec<u8>)> = Vec::new();
        let mut i: usize = 0;
        while i < all.len()
            invariant
                self.wf(),
                h < u64::MAX,
                es == pairs_view(all@),
                es == self.entries(DbColFam::SUBSPACE),
                i <= all.len(),
                pairs_view(r@) == restored(self@, es.take(i as int), h as nat, last as nat),
            decreases all.len() - i,
        {
            proof {
                assert(es.take(i + 1).drop_last() =~= es.take(i as int));
            }
            let key = all[i].0.as_str();
            if let Some(v) = self.read_at_height(key, h, last) {
                r.push((key.to_owned(), v));
                proof {
                    assert(pairs_view(r@) =~= restored(self@, es.take(i as int), h as nat, last as nat).push((es[i as int].0, read_at(self@, es[i as int].0, h as nat, last as nat)->0)));
                }
            }
            i = i + 1;
        }
        proof {
            assert(es.take(i as int) =~= es);
        }
        r
    }

    /// The entries of each section of a dump of height `h`.
    fn dump_sections(&self, historic: bool, h: u64, last: u64) -> (r: Vec<Vec<(String, Vec<u8>)>>)
        requires
            self.wf(),
            h != last ==> h < u64::MAX,
        ensures
            r@.len() == dump_entries(self, historic, h, last).len(),
            forall|j: int| 0 <= j < r@.len() ==> pairs_view((#[trigger] r@[j])@) == dump_entries(self, historic, h, last)[j],
    {
        let ghost sections = dump_entries(self, historic, h, last);
        let mut sections_v: Vec<Vec<(String, Vec<u8>)>> = Vec::new();
        let ghost mut secs: Seq<Seq<(Seq<char>, Seq<u8>)>> = Seq::empty();
        if historic {
            let prefix = height_prefix_string(h);
            let d = self.scan_cf(DbColFam::DIFFS, prefix.as_str());
            proof {
                secs = secs.push(pairs_view(d@));
            }
            sections_v.push(d);
            let b = self.scan_cf(DbColFam::BLOCK, prefix.as_str());
            proof {
                secs = secs.push(pairs_view(b@));
            }
            sections_v.push(b);
        }
        let sub = if h != last {
            self.restored_subspace(h, last)
        } else {
            let all = self.iter_prefix(None);
            proof {
                assert(crate::iter::key_scan_prefix(None) =~= Seq::<char>::empty());
                crate::rollback::lemma_prefix_empty(self.entries(DbColFam::SUBSPACE));
            }
            all
        };
        proof {
            secs = secs.push(pairs_view(sub@));
        }
        sections_v.push(sub);
        if h == last {
            let rp = self.scan_cf(DbColFam::REPLAYPROT, "");
            proof {
                reveal_strlit("");
                assert(""@ =~= Seq::<char>::empty());
                crate::rollback::lemma_prefix_empty(self.entries(DbColFam::REPLAYPROT));
                secs = secs.push(pairs_view(rp@));
            }
            sections_v.push(rp);
        } else if last > 0 && h == last - 1 {
            let rp = self.scan_cf(DbColFam::REPLAYPROT, "all/");
            proof {
                secs = secs.push(pairs_view(rp@));
            }
            sections_v.push(rp);
        }
        proof {
            if historic {
                assert(secs[0] == sections[0]);
                assert(secs[1] == sections[1]);
            }
            let o: int = if historic { 2 } else { 0 };
            assert(secs[o] == sections[o]);
            assert(secs.len() == sections.len());
            assert(secs =~= sections);
        }
        sections_v
    }

    /// The dump of height `height` (the last committed height when `None`):
    /// with `historic`, the diffs and block entries of that height; the
    /// subspace as it stood then; the replay protection entries, all of them
    /// at the last height and the bucket of all hashes at the one before.
    pub fn dump_block(&self, historic: bool, height: Option<u64>) -> (r: Result<Dump, Error>)
        requires
            self.wf(),
            height != Some(u64::MAX),
        ensures
            r is Ok <==> (last_height(self@) matches Some(last) && sections_dumpable(dump_entries(
                self,
                historic,
                match height { Some(h) => h, None => last },
                last,
            ))),
            r matches Ok(d) ==> last_height(self@) matches Some(last) && d.height == match height { Some(h) => h, None => last }
                && d.text@ == sections_text(dump_entries(self, historic, d.height, last)),
    {
        let last = match self.get_cf(DbColFam::STATE, "height") {
            Some(b) => match crate::codec::decode_u64(b.as_slice()) {
                Ok(h) => h,
                Err(e) => return Err(e),
            },
            None => return Err(Error::DBError("No block height found".to_owned())),
        };
        let h = match height {
            Some(h) => h,
            None => last,
        };
        let sections_v = self.dump_sections(historic, h, last);
        let text = match render_sections(&sections_v, Ghost(dump_entries(self, historic, h, last))) {
            Ok(t) => t,
            Err(e) => return Err(e),
        };
        Ok(Dump { height: h, text })
    }
}

} // verus!
