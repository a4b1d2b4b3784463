//! An ordered map from string keys to byte values: one column family of the
//! store. Entries are kept sorted by the code points of their keys.

use vstd::prelude::*;

verus! {

/// Strict lexicographic order on character sequences, by code point.
pub open spec fn seq_lt(a: Seq<char>, b: Seq<char>) -> bool
    decreases a.len(),
{
    if a.len() == 0 {
        b.len() > 0
    } else if b.len() == 0 {
        false
    } else if a[0] != b[0] {
        a[0] < b[0]
    } else {
        seq_lt(a.drop_first(), b.drop_first())
    }
}

/// `p` is a prefix of `s`.
pub open spec fn starts_with(s: Seq<char>, p: Seq<char>) -> bool {
    p.len() <= s.len() && s.subrange(0, p.len() as int) == p
}

pub proof fn lemma_seq_lt_irreflexive(a: Seq<char>)
    ensures
        !seq_lt(a, a),
    decreases a.len(),
{
    if a.len() > 0 {
        lemma_seq_lt_irreflexive(a.drop_first());
    }
}

pub proof fn lemma_seq_lt_transitive(a: Seq<char>, b: Seq<char>, c: Seq<char>)
    requires
        seq_lt(a, b),
        seq_lt(b, c),
    ensures
        seq_lt(a, c),
    decreases a.len(),
{
    if a.len() > 0 && b.len() > 0 && c.len() > 0 {
        if a[0] == b[0] && b[0] == c[0] {
            lemma_seq_lt_transitive(a.drop_first(), b.drop_first(), c.drop_first());
        }
    }
}

pub proof fn lemma_seq_lt_total(a: Seq<char>, b: Seq<char>)
    requires
        a != b,
    ensures
        seq_lt(a, b) || seq_lt(b, a),
    decreases a.len(),
{
    if a.len() > 0 && b.len() > 0 && a[0] == b[0] {
        if a.drop_first() == b.drop_first() {
            assert(a =~= seq![a[0]] + a.drop_first());
            assert(b =~= seq![b[0]] + b.drop_first());
        }
        lemma_seq_lt_total(a.drop_first(), b.drop_first());
    } else if a.len() == 0 && b.len() == 0 {
        assert(a =~= b);
    }
}

/// Copies a byte vector.
pub fn copy_bytes(v: &Vec<u8>) -> (r: Vec<u8>)
    ensures
        r@ == v@,
{
    let r = v.clone();
    proof {
        assert(r@ =~= v@);
    }
    r
}

/// The characters of a string.
pub fn chars_of(s: &str) -> (r: Vec<char>)
    ensures
        r@ == s@,
{
    let n = s.unicode_len();
    let mut r: Vec<char> = Vec::new();
    let mut i: usize = 0;
    while i < n
        invariant
            n == s@.len(),
            i <= n,
            r@ == s@.subrange(0, i as int),
        decreases n - i,
    {
        let c = s.get_char(i);
        r.push(c);
        i = i + 1;
        proof {
            assert(r@ =~= s@.subrange(0, i as int));
        }
    }
    proof {
        assert(r@ =~= s@);
    }
    r
}

/// Whether `a` orders strictly before `b`.
pub fn chars_lt(a: &Vec<char>, b: &Vec<char>) -> (r: bool)
    ensures
        r == seq_lt(a@, b@),
{
    let mut i: usize = 0;
    proof {
        assert(a@.subrange(0, a.len() as int) =~= a@);
        assert(b@.subrange(0, b.len() as int) =~= b@);
    }
    while i < a.len() && i < b.len() && a[i] == b[i]
        invariant
            i <= a.len(),
            i <= b.len(),
            seq_lt(a@, b@) == seq_lt(a@.subrange(i as int, a.len() as int), b@.subrange(i as int, b.len() as int)),
        decreases a.len() - i,
    {
        proof {
            let sa = a@.subrange(i as int, a.len() as int);
            let sb = b@.subrange(i as int, b.len() as int);
            assert(sa.drop_first() =~= a@.subrange(i + 1, a.len() as int));
            assert(sb.drop_first() =~= b@.subrange(i + 1, b.len() as int));
        }
        i = i + 1;
    }
    if i == a.len() {
        i < b.len()
    } else if i == b.len() {
        false
    } else {
        a[i] < b[i]
    }
}

/// Whether `a` and `b` hold the same characters.
pub fn chars_eq(a: &Vec<char>, b: &Vec<char>) -> (r: bool)
    ensures
        r == (a@ == b@),
{
    if a.len() != b.len() {
        return false;
    }
    let mut i: usize = 0;
    while i < a.len()
        invariant
            a.len() == b.len(),
            i <= a.len(),
            forall|j: int| 0 <= j < i ==> a@[j] == b@[j],
        decreases a.len() - i,
    {
        if a[i] != b[i] {
            return false;
        }
        i = i + 1;
    }
    proof {
        assert(a@ =~= b@);
    }
    true
}

/// Whether `p` is a prefix of `s`.
pub fn chars_start_with(s: &Vec<char>, p: &Vec<char>) -> (r: bool)
    ensures
        r == starts_with(s@, p@),
{
    if p.len() > s.len() {
        return false;
    }
    let mut i: usize = 0;
    while i < p.len()
        invariant
            p.len() <= s.len(),
            i <= p.len(),
            forall|j: int| 0 <= j < i ==> s@[j] == p@[j],
        decreases p.len() - i,
    {
        if s[i] != p[i] {
            proof {
                assert(s@.subrange(0, p.len() as int)[i as int] != p@[i as int]);
            }
            return false;
        }
        i = i + 1;
    }
    proof {
        assert(s@.subrange(0, p.len() as int) =~= p@);
    }
    true
}

/// One entry of a column family.
pub struct KvEntry {
    key: String,
    chars: Vec<char>,
    value: Vec<u8>,
}

/// The entries of `s` whose key starts with `p`, in order.
pub open spec fn entries_with_prefix(s: Seq<(Seq<char>, Seq<u8>)>, p: Seq<char>) -> Seq<(Seq<char>, Seq<u8>)>
    decreases s.len(),
{
    if s.len() == 0 {
        s
    } else {
        let rest = entries_with_prefix(s.drop_last(), p);
        if starts_with(s.last().0, p) {
            rest.push(s.last())
        } else {
            rest
        }
    }
}

/// Views of key-value pairs handed out by the store.
pub open spec fn pairs_view(v: Seq<(String, Vec<u8>)>) -> Seq<(Seq<char>, Seq<u8>)> {
    v.map_values(|e: (String, Vec<u8>)| (e.0@, e.1@))
}

/// A sequence of entries sorted strictly by key.
pub open spec fn sorted_entries(s: Seq<(Seq<char>, Seq<u8>)>) -> bool {
    forall|i: int, j: int| 0 <= i < j < s.len() ==> seq_lt(#[trigger] s[i].0, #[trigger] s[j].0)
}

/// The value of the last entry of `s` under key `k`.
pub open spec fn find_in(s: Seq<(Seq<char>, Seq<u8>)>, k: Seq<char>) -> Option<Seq<u8>>
    decreases s.len(),
{
    if s.len() == 0 {
        None
    } else if s.last().0 == k {
        Some(s.last().1)
    } else {
        find_in(s.drop_last(), k)
    }
}

pub proof fn lemma_find_in(s: Seq<(Seq<char>, Seq<u8>)>, k: Seq<char>)
    ensures
        match find_in(s, k) {
            Some(v) => exists|i: int| 0 <= i < s.len() && s[i] == (k, v),
            None => forall|i: int| 0 <= i < s.len() ==> (#[trigger] s[i]).0 != k,
        },
    decreases s.len(),
{
    if s.len() > 0 {
        let d = s.drop_last();
        if s.last().0 != k {
            lemma_find_in(d, k);
            match find_in(d, k) {
                Some(v) => {
                    let i = choose|i: int| 0 <= i < d.len() && d[i] == (k, v);
                    assert(s[i] == (k, v));
                },
                None => {
                    assert forall|i: int| 0 <= i < s.len() implies (#[trigger] s[i]).0 != k by {
                        if i < d.len() {
                            assert(d[i] == s[i]);
                        }
                    }
                },
            }
        } else {
            assert(s[s.len() - 1] == (k, s.last().1));
        }
    }
}

/// In a sorted sequence, the entry under a key is the one found.
pub proof fn lemma_find_in_sorted(s: Seq<(Seq<char>, Seq<u8>)>, i: int)
    requires
        sorted_entries(s),
        0 <= i < s.len(),
    ensures
        find_in(s, s[i].0) == Some(s[i].1),
    decreases s.len(),
{
    if i < s.len() - 1 {
        assert(seq_lt(s[i].0, s[s.len() - 1].0));
        if s.last().0 == s[i].0 {
            lemma_seq_lt_irreflexive(s[i].0);
        }
        assert(s.drop_last()[i] == s[i]);
        lemma_find_in_sorted(s.drop_last(), i);
    }
}

/// The entries kept by a prefix filter are entries of the sequence with the
/// prefix.
pub proof fn lemma_entries_with_prefix_sound(s: Seq<(Seq<char>, Seq<u8>)>, p: Seq<char>, i: int)
    requires
        0 <= i < entries_with_prefix(s, p).len(),
    ensures
        starts_with(entries_with_prefix(s, p)[i].0, p),
        exists|j: int| 0 <= j < s.len() && s[j] == entries_with_prefix(s, p)[i],
    decreases s.len(),
{
    let d = s.drop_last();
    let r = entries_with_prefix(s, p);
    let rd = entries_with_prefix(d, p);
    if i < rd.len() {
        lemma_entries_with_prefix_sound(d, p, i);
        let j = choose|j: int| 0 <= j < d.len() && d[j] == rd[i];
        assert(s[j] == r[i]);
    } else {
        assert(s[s.len() - 1] == r[i]);
    }
}

/// Every entry with the prefix is kept by the filter.
pub proof fn lemma_entries_with_prefix_complete(s: Seq<(Seq<char>, Seq<u8>)>, p: Seq<char>, j: int)
    requires
        0 <= j < s.len(),
        starts_with(s[j].0, p),
    ensures
        exists|i: int| 0 <= i < entries_with_prefix(s, p).len() && entries_with_prefix(s, p)[i] == s[j],
    decreases s.len(),
{
    let d = s.drop_last();
    let r = entries_with_prefix(s, p);
    let rd = entries_with_prefix(d, p);
    if j < s.len() - 1 {
        assert(d[j] == s[j]);
        lemma_entries_with_prefix_complete(d, p, j);
        let i = choose|i: int| 0 <= i < rd.len() && rd[i] == d[j];
        assert(r[i] == s[j]);
    } else {
        assert(r[r.len() - 1] == s[j]);
    }
}

/// The filter keeps the order.
pub proof fn lemma_entries_with_prefix_sorted(s: Seq<(Seq<char>, Seq<u8>)>, p: Seq<char>)
    requires
        sorted_entries(s),
    ensures
        sorted_entries(entries_with_prefix(s, p)),
    decreases s.len(),
{
    if s.len() > 0 {
        let d = s.drop_last();
        let r = entries_with_prefix(s, p);
        let rd = entries_with_prefix(d, p);
        assert(sorted_entries(d));
        lemma_entries_with_prefix_sorted(d, p);
        if starts_with(s.last().0, p) {
            assert forall|a: int, b: int| 0 <= a < b < r.len() implies seq_lt(#[trigger] r[a].0, #[trigger] r[b].0) by {
                if b == r.len() - 1 {
                    lemma_entries_with_prefix_sound(d, p, a);
                    let j = choose|j: int| 0 <= j < d.len() && d[j] == rd[a];
                    assert(seq_lt(s[j].0, s[s.len() - 1].0));
                } else {
                    assert(r[a] == rd[a] && r[b] == rd[b]);
                }
            }
        }
    }
}

/// An ordered map from string keys to byte values.
pub struct KvMap {
    entries: Vec<KvEntry>,
    contents: Ghost<Map<Seq<char>, Seq<u8>>>,
}

impl KvMap {
    /// The entries in key order.
    pub closed spec fn entry_seq(&self) -> Seq<(Seq<char>, Seq<u8>)> {
        self.entries@.map_values(|e: KvEntry| (e.key@, e.value@))
    }

    /// What the map holds.
    pub closed spec fn view(&self) -> Map<Seq<char>, Seq<u8>> {
        self.contents@
    }

    /// The entries are sorted, unique, and are exactly the map's contents.
    pub closed spec fn wf(&self) -> bool {
        &&& forall|i: int| 0 <= i < self.entries@.len() ==> (#[trigger] self.entries@[i]).chars@ == self.entries@[i].key@
        &&& forall|i: int, j: int| 0 <= i < j < self.entries@.len() ==> seq_lt(#[trigger] self.entries@[i].key@, #[trigger] self.entries@[j].key@)
        &&& forall|i: int| 0 <= i < self.entries@.len() ==> self.contents@.contains_key(#[trigger] self.entries@[i].key@)
            && self.contents@[self.entries@[i].key@] == self.entries@[i].value@
        &&& forall|k: Seq<char>| #[trigger] self.contents@.contains_key(k) ==> exists|i: int| 0 <= i < self.entries@.len() && self.entries@[i].key@ == k
    }

    pub proof fn lemma_entry_seq(&self)
        requires
            self.wf(),
        ensures
            sorted_entries(self.entry_seq()),
            forall|i: int| 0 <= i < self.entry_seq().len() ==> self.view().contains_key(#[trigger] self.entry_seq()[i].0)
                && self.view()[self.entry_seq()[i].0] == self.entry_seq()[i].1,
            forall|k: Seq<char>| #[trigger] self.view().contains_key(k) ==> exists|i: int| 0 <= i < self.entry_seq().len() && self.entry_seq()[i].0 == k,
    {
        assert forall|k: Seq<char>| #[trigger] self.view().contains_key(k) implies exists|i: int| 0 <= i < self.entry_seq().len() && self.entry_seq()[i].0 == k by {
            let i = choose|i: int| 0 <= i < self.entries@.len() && self.entries@[i].key@ == k;
            assert(self.entry_seq()[i].0 == k);
        }
    }

    /// An empty map.
    pub fn new() -> (r: KvMap)
        ensures
            r.wf(),
            r.view() == Map::<Seq<char>, Seq<u8>>::empty(),
    {
        KvMap { entries: Vec::new(), contents: Ghost(Map::empty()) }
    }

    /// The value under `key`.
    pub fn get(&self, key: &str) -> (r: Option<Vec<u8>>)
        requires
            self.wf(),
        ensures
            r is Some <==> self.view().contains_key(key@),
            r is Some ==> r->0@ == self.view()[key@],
    {
        let chars = chars_of(key);
        let mut i: usize = 0;
        while i < self.entries.len()
            invariant
                self.wf(),
                chars@ == key@,
                i <= self.entries.len(),
                forall|j: int| 0 <= j < i ==> self.entries@[j].key@ != key@,
            decreases self.entries.len() - i,
        {
            if chars_eq(&self.entries[i].chars, &chars) {
                return Some(copy_bytes(&self.entries[i].value));
            }
            i = i + 1;
        }
        None
    }

    /// The position at which `key` stands or would be inserted.
    fn position(&self, key: &Vec<char>) -> (r: usize)
        requires
            self.wf(),
        ensures
            r <= self.entries@.len(),
            forall|j: int| 0 <= j < r ==> seq_lt(#[trigger] self.entries@[j].key@, key@),
            r < self.entries@.len() ==> !seq_lt(self.entries@[r as int].key@, key@),
    {
        let mut i: usize = 0;
        while i < self.entries.len()
            invariant
                self.wf(),
                i <= self.entries.len(),
                forall|j: int| 0 <= j < i ==> seq_lt(#[trigger] self.entries@[j].key@, key@),
            decreases self.entries.len() - i,
        {
            if !chars_lt(&self.entries[i].chars, key) {
                return i;
            }
            i = i + 1;
        }
        i
    }

    /// Puts `value` under `key`.
    pub fn put(&mut self, key: &str, value: Vec<u8>)
        requires
            old(self).wf(),
        ensures
            final(self).wf(),
            final(self).view() == old(self).view().insert(key@, value@),
    {
        let chars = chars_of(key);
        let p = self.position(&chars);
        let ghost old_entries = self.entries@;
        let ghost new_contents = self.contents@.insert(key@, value@);
        if p < self.entries.len() && !chars_lt(&chars, &self.entries[p].chars) {
            proof {
                if self.entries@[p as int].key@ != key@ {
                    lemma_seq_lt_total(self.entries@[p as int].key@, key@);
                }
            }
            let entry = KvEntry { key: key.to_owned(), chars, value };
            self.entries.set(p, entry);
            self.contents = Ghost(new_contents);
            proof {
                assert forall|k: Seq<char>| #[trigger] self.contents@.contains_key(k) implies exists|i: int| 0 <= i < self.entries@.len() && self.entries@[i].key@ == k by {
                    if k != key@ {
                        let i = choose|i: int| 0 <= i < old_entries.len() && old_entries[i].key@ == k;
                        assert(self.entries@[i].key@ == k);
                    } else {
                        assert(self.entries@[p as int].key@ == k);
                    }
                }
                assert forall|i: int| 0 <= i < self.entries@.len() implies self.contents@.contains_key(#[trigger] self.entries@[i].key@)
                    && self.contents@[self.entries@[i].key@] == self.entries@[i].value@ by {
                    if i != p {
                        if old_entries[i].key@ == key@ {
                            if i < p {
                                lemma_seq_lt_irreflexive(key@);
                            } else {
                                lemma_seq_lt_irreflexive(key@);
                            }
                        }
                    }
                }
            }
        } else {
            let entry = KvEntry { key: key.to_owned(), chars, value };
            self.entries.insert(p, entry);
            self.contents = Ghost(new_contents);
            proof {
                assert forall|i: int, j: int| 0 <= i < j < self.entries@.len() implies seq_lt(#[trigger] self.entries@[i].key@, #[trigger] self.entries@[j].key@) by {
                    if j == p {
                    } else if i == p {
                        if p < old_entries.len() {
                            lemma_seq_lt_total(key@, old_entries[p as int].key@);
                            if j - 1 > p {
                                lemma_seq_lt_transitive(key@, old_entries[p as int].key@, old_entries[j - 1].key@);
                            }
                        }
                    } else if i < p && j > p {
                        assert(seq_lt(old_entries[i].key@, key@));
                        if p < old_entries.len() {
                            lemma_seq_lt_total(key@, old_entries[p as int].key@);
                            assert(seq_lt(key@, old_entries[p as int].key@));
                            if j - 1 > p {
                                lemma_seq_lt_transitive(key@, old_entries[p as int].key@, old_entries[j - 1].key@);
                            }
                            lemma_seq_lt_transitive(old_entries[i].key@, key@, old_entries[j - 1].key@);
                        }
                    }
                }
                assert forall|k: Seq<char>| #[trigger] self.contents@.contains_key(k) implies exists|i: int| 0 <= i < self.entries@.len() && self.entries@[i].key@ == k by {
                    if k != key@ {
                        let i = choose|i: int| 0 <= i < old_entries.len() && old_entries[i].key@ == k;
                        if i < p {
                            assert(self.entries@[i].key@ == k);
                        } else {
                            assert(self.entries@[i + 1].key@ == k);
                        }
                    } else {
                        assert(self.entries@[p as int].key@ == k);
                    }
                }
                assert forall|i: int| 0 <= i < self.entries@.len() implies self.contents@.contains_key(#[trigger] self.entries@[i].key@)
                    && self.contents@[self.entries@[i].key@] == self.entries@[i].value@ by {
                    if i < p {
                        if old_entries[i].key@ == key@ {
                            lemma_seq_lt_irreflexive(key@);
                        }
                    } else if i > p {
                        if old_entries[i - 1].key@ == key@ {
                            if p < old_entries.len() {
                                lemma_seq_lt_total(key@, old_entries[p as int].key@);
                                if i - 1 > p {
                                    lemma_seq_lt_transitive(key@, old_entries[p as int].key@, old_entries[i - 1].key@);
                                }
                            }
                            lemma_seq_lt_irreflexive(key@);
                        }
                    }
                }
            }
        }
    }

    /// Removes the entry under `key`, if any.
    pub fn delete(&mut self, key: &str)
        requires
            old(self).wf(),
        ensures
            final(self).wf(),
            final(self).view() == old(self).view().remove(key@),
    {
        let ghost old_entries = self.entries@;
        let chars = chars_of(key);
        let mut i: usize = 0;
        while i < self.entries.len()
            invariant
                self.wf(),
                chars@ == key@,
                self.entries@ == old_entries,
                self.contents@ == old(self).contents@,
                i <= self.entries.len(),
                forall|j: int| 0 <= j < i ==> self.entries@[j].key@ != key@,
            decreases self.entries.len() - i,
        {
            if chars_eq(&self.entries[i].chars, &chars) {
                self.entries.remove(i);
                self.contents = Ghost(self.contents@.remove(key@));
                proof {
                    assert forall|a: int, b: int| 0 <= a < b < self.entries@.len() implies seq_lt(#[trigger] self.entries@[a].key@, #[trigger] self.entries@[b].key@) by {
                        let oa = if a < i { a } else { a + 1 };
                        let ob = if b < i { b } else { b + 1 };
                        assert(seq_lt(old_entries[oa].key@, old_entries[ob].key@));
                    }
                    assert forall|k: Seq<char>| #[trigger] self.contents@.contains_key(k) implies exists|j: int| 0 <= j < self.entries@.len() && self.entries@[j].key@ == k by {
                        let j = choose|j: int| 0 <= j < old_entries.len() && old_entries[j].key@ == k;
                        if j < i {
                            assert(self.entries@[j].key@ == k);
                        } else {
                            assert(j != i);
                            assert(self.entries@[j - 1].key@ == k);
                        }
                    }
                    assert forall|j: int| 0 <= j < self.entries@.len() implies self.contents@.contains_key(#[trigger] self.entries@[j].key@)
                        && self.contents@[self.entries@[j].key@] == self.entries@[j].value@ by {
                        let oj = if j < i { j } else { j + 1 };
                        if old_entries[oj].key@ == key@ {
                            if oj < i {
                                lemma_seq_lt_irreflexive(key@);
                            } else {
                                assert(seq_lt(old_entries[i as int].key@, old_entries[oj].key@));
                                lemma_seq_lt_irreflexive(key@);
                            }
                        }
                    }
                }
                return;
            }
            i = i + 1;
        }
        proof {
            assert(!self.contents@.contains_key(key@));
            assert(self.contents@.remove(key@) =~= self.contents@);
        }
    }

    /// The entries whose key starts with `prefix`, in key order.
    pub fn scan_prefix(&self, prefix: &str) -> (r: Vec<(String, Vec<u8>)>)
        requires
            self.wf(),
        ensures
            pairs_view(r@) == entries_with_prefix(self.entry_seq(), prefix@),
    {
        let p = chars_of(prefix);
        let mut r: Vec<(String, Vec<u8>)> = Vec::new();
        let mut i: usize = 0;
        while i < self.entries.len()
            invariant
                self.wf(),
                p@ == prefix@,
                i <= self.entries.len(),
                pairs_view(r@) == entries_with_prefix(self.entry_seq().take(i as int), prefix@),
            decreases self.entries.len() - i,
        {
            proof {
                assert(self.entry_seq().take(i + 1).drop_last() =~= self.entry_seq().take(i as int));
            }
            if chars_start_with(&self.entries[i].chars, &p) {
                let k = self.entries[i].key.clone();
                let v = copy_bytes(&self.entries[i].value);
                r.push((k, v));
                proof {
                    assert(pairs_view(r@) =~= entries_with_prefix(self.entry_seq().take(i as int), prefix@).push((k@, v@)));
                }
            }
            i = i + 1;
        }
        proof {
            assert(self.entry_seq().take(i as int) =~= self.entry_seq());
        }
        r
    }
}

} // verus!
