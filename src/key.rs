use vstd::prelude::*;

use crate::error::Error;
use crate::kv::chars_of;

verus! {

/// The separator between the segments of a key.
pub const KEY_SEGMENT_SEPARATOR: char = '/';

/// The character of a decimal digit.
pub open spec fn digit_char(d: nat) -> char {
    if d == 0 { '0' }
    else if d == 1 { '1' }
    else if d == 2 { '2' }
    else if d == 3 { '3' }
    else if d == 4 { '4' }
    else if d == 5 { '5' }
    else if d == 6 { '6' }
    else if d == 7 { '7' }
    else if d == 8 { '8' }
    else { '9' }
}

/// Decimal representation of a natural number, without leading zeros.
pub open spec fn decimal(n: nat) -> Seq<char>
    decreases n,
{
    if n < 10 {
        seq![digit_char(n)]
    } else {
        decimal(n / 10).push(digit_char(n % 10))
    }
}

fn digit_str(d: u64) -> (r: &'static str)
    requires
        d < 10,
    ensures
        r@ == seq![digit_char(d as nat)],
{
    proof {
        reveal_strlit("0");
        reveal_strlit("1");
        reveal_strlit("2");
        reveal_strlit("3");
        reveal_strlit("4");
        reveal_strlit("5");
        reveal_strlit("6");
        reveal_strlit("7");
        reveal_strlit("8");
        reveal_strlit("9");
    }
    match d {
        0 => "0",
        1 => "1",
        2 => "2",
        3 => "3",
        4 => "4",
        5 => "5",
        6 => "6",
        7 => "7",
        8 => "8",
        _ => "9",
    }
}

/// The decimal string of `n`.
pub fn decimal_string(n: u64) -> (r: String)
    ensures
        r@ == decimal(n as nat),
    decreases n,
{
    if n < 10 {
        digit_str(n).to_owned()
    } else {
        let mut s = decimal_string(n / 10);
        s.append(digit_str(n % 10));
        s
    }
}

/// A decimal representation holds digits only.
pub proof fn lemma_decimal_digits(n: nat)
    ensures
        decimal(n).len() >= 1,
        forall|i: int| 0 <= i < decimal(n).len() ==> #[trigger] decimal(n)[i] != '/',
        n < 10 <==> decimal(n).len() == 1,
    decreases n,
{
    if n >= 10 {
        lemma_decimal_digits(n / 10);
    }
}

/// Distinct numbers have distinct decimal representations.
pub proof fn lemma_decimal_injective(a: nat, b: nat)
    requires
        decimal(a) == decimal(b),
    ensures
        a == b,
    decreases a,
{
    lemma_decimal_digits(a);
    lemma_decimal_digits(b);
    if a >= 10 && b >= 10 {
        assert(decimal(a).drop_last() =~= decimal(a / 10));
        assert(decimal(b).drop_last() =~= decimal(b / 10));
        lemma_decimal_injective(a / 10, b / 10);
        assert(decimal(a).last() == digit_char(a % 10));
    } else if a < 10 && b < 10 {
        assert(decimal(a)[0] == digit_char(a));
    }
}

/// A number followed by a separator fixes both the number and the rest.
pub proof fn lemma_decimal_prefix_injective(a: nat, x: Seq<char>, b: nat, y: Seq<char>)
    requires
        decimal(a) + seq!['/'] + x == decimal(b) + seq!['/'] + y,
    ensures
        a == b,
        x == y,
{
    lemma_decimal_digits(a);
    lemma_decimal_digits(b);
    let la = decimal(a).len();
    let lb = decimal(b).len();
    let s = decimal(a) + seq!['/'] + x;
    if la < lb {
        assert(s[la as int] == '/');
        assert(decimal(b)[la as int] != '/');
    } else if lb < la {
        assert(s[lb as int] == '/');
        assert(decimal(a)[lb as int] != '/');
    }
    assert(decimal(a) =~= s.subrange(0, la as int));
    assert(decimal(b) =~= (decimal(b) + seq!['/'] + y).subrange(0, lb as int));
    lemma_decimal_injective(a, b);
    assert(x =~= s.subrange(la as int + 1, s.len() as int));
    assert(y =~= (decimal(b) + seq!['/'] + y).subrange(lb as int + 1, s.len() as int));
}

/// Segments joined with the separator: the canonical form of a key.
pub open spec fn joined(segs: Seq<Seq<char>>) -> Seq<char>
    decreases segs.len(),
{
    if segs.len() == 0 {
        Seq::empty()
    } else if segs.len() == 1 {
        segs[0]
    } else {
        joined(segs.drop_last()) + seq!['/'] + segs.last()
    }
}

/// A segment holds no separator.
pub open spec fn valid_segment(s: Seq<char>) -> bool {
    forall|i: int| 0 <= i < s.len() ==> s[i] != '/'
}

/// A storage key: an ordered list of string segments.
#[derive(Debug, Clone, PartialEq, Eq)]
pub struct Key {
    pub segments: Vec<String>,
}

impl Key {
    /// The views of the segments.
    pub open spec fn segs(&self) -> Seq<Seq<char>> {
        self.segments@.map_values(|s: String| s@)
    }
}

impl View for Key {
    type V = Seq<char>;

    /// The canonical string of the key.
    open spec fn view(&self) -> Seq<char> {
        joined(self.segs())
    }
}

fn separator() -> (r: &'static str)
    ensures
        r@ == seq!['/'],
{
    proof {
        reveal_strlit("/");
    }
    "/"
}

fn clone_string(s: &String) -> (r: String)
    ensures
        r@ == s@,
{
    s.clone()
}

impl Key {
    /// A key of one segment.
    pub fn from_segment(seg: String) -> (r: Key)
        ensures
            r.segs() == seq![seg@],
            r@ == seg@,
    {
        let mut segments = Vec::new();
        segments.push(seg);
        let r = Key { segments };
        proof {
            assert(r.segs() =~= seq![seg@]);
        }
        r
    }

    /// Whether the key has no segments.
    pub fn is_empty(&self) -> (r: bool)
        ensures
            r == (self.segs().len() == 0),
    {
        self.segments.len() == 0
    }

    /// The canonical string of the key: its segments joined with `/`.
    pub fn to_string(&self) -> (r: String)
        ensures
            r@ == self@,
    {
        let mut r = String::new();
        let mut i: usize = 0;
        while i < self.segments.len()
            invariant
                i <= self.segments.len(),
                r@ == joined(self.segs().take(i as int)),
            decreases self.segments.len() - i,
        {
            proof {
                assert(self.segs().take(i + 1).drop_last() =~= self.segs().take(i as int));
            }
            if i == 0 {
                r = clone_string(&self.segments[0]);
                proof {
                    assert(self.segs().take(1) =~= seq![self.segments@[0]@]);
                }
            } else {
                r.append(separator());
                r.append(self.segments[i].as_str());
            }
            i = i + 1;
        }
        proof {
            assert(self.segs().take(i as int) =~= self.segs());
        }
        r
    }

    /// This key with one more segment, which must hold no separator.
    pub fn push(&self, seg: &String) -> (r: Result<Key, Error>)
        ensures
            r is Ok <==> valid_segment(seg@),
            r is Ok ==> r->Ok_0.segs() == self.segs().push(seg@),
    {
        let chars = chars_of(seg.as_str());
        let mut i: usize = 0;
        while i < chars.len()
            invariant
                chars@ == seg@,
                i <= chars.len(),
                forall|j: int| 0 <= j < i ==> seg@[j] != '/',
            decreases chars.len() - i,
        {
            if chars[i] == '/' {
                return Err(Error::KeyError(clone_string(seg)));
            }
            i = i + 1;
        }
        Ok(self.clone_with_segment(clone_string(seg)))
    }

    /// A copy of this key with one more segment.
    fn clone_with_segment(&self, seg: String) -> (r: Key)
        ensures
            r.segs() == self.segs().push(seg@),
    {
        let mut segments: Vec<String> = Vec::new();
        let mut i: usize = 0;
        while i < self.segments.len()
            invariant
                i <= self.segments.len(),
                segments@.len() == i,
                forall|j: int| 0 <= j < i ==> (#[trigger] segments@[j])@ == self.segments@[j]@,
            decreases self.segments.len() - i,
        {
            segments.push(clone_string(&self.segments[i]));
            i = i + 1;
        }
        segments.push(seg);
        let r = Key { segments };
        proof {
            assert(r.segs() =~= self.segs().push(seg@));
        }
        r
    }

    /// This key with one more segment.
    pub fn with_segment(self, seg: String) -> (r: Key)
        ensures
            r.segs() == self.segs().push(seg@),
    {
        let mut segments = self.segments;
        segments.push(seg);
        let r = Key { segments };
        proof {
            assert(r.segs() =~= self.segs().push(seg@));
        }
        r
    }

    /// The segments of this key followed by those of `other`.
    pub fn join(&self, other: &Key) -> (r: Key)
        ensures
            r.segs() == self.segs() + other.segs(),
    {
        let mut r = self.clone_with_none();
        let mut i: usize = 0;
        while i < other.segments.len()
            invariant
                i <= other.segments.len(),
                r.segs() == self.segs() + other.segs().take(i as int),
            decreases other.segments.len() - i,
        {
            r = r.with_segment(clone_string(&other.segments[i]));
            i = i + 1;
            proof {
                assert(r.segs() =~= self.segs() + other.segs().take(i as int));
            }
        }
        proof {
            assert(other.segs().take(i as int) =~= other.segs());
        }
        r
    }

    fn clone_with_none(&self) -> (r: Key)
        ensures
            r.segs() == self.segs(),
    {
        let mut segments: Vec<String> = Vec::new();
        let mut i: usize = 0;
        while i < self.segments.len()
            invariant
                i <= self.segments.len(),
                segments@.len() == i,
                forall|j: int| 0 <= j < i ==> (#[trigger] segments@[j])@ == self.segments@[j]@,
            decreases self.segments.len() - i,
        {
            segments.push(clone_string(&self.segments[i]));
            i = i + 1;
        }
        let r = Key { segments };
        proof {
            assert(r.segs() =~= self.segs());
        }
        r
    }

    /// Splits a non-empty string at each `/` into a key.
    pub fn parse(s: &str) -> (r: Result<Key, Error>)
        ensures
            r is Err <==> s@.len() == 0,
            r is Ok ==> r->Ok_0@ == s@,
            r is Ok ==> forall|i: int| 0 <= i < r->Ok_0.segs().len() ==> valid_segment(#[trigger] r->Ok_0.segs()[i]),
    {
        let chars = chars_of(s);
        if chars.len() == 0 {
            return Err(Error::KeyError(s.to_owned()));
        }
        let mut segments: Vec<String> = Vec::new();
        let mut start: usize = 0;
        let mut i: usize = 0;
        while i < chars.len()
            invariant
                chars@ == s@,
                start <= i <= chars.len(),
                segments@.len() == 0 ==> start == 0,
                segments@.len() > 0 ==> joined(segments@.map_values(|x: String| x@)) + seq!['/'] == s@.subrange(0, start as int),
                forall|j: int| start <= j < i ==> s@[j] != '/',
                forall|j: int| 0 <= j < segments@.len() ==> valid_segment(#[trigger] segments@[j]@),
            decreases chars.len() - i,
        {
            if chars[i] == '/' {
                let seg = s.substring_char(start, i).to_owned();
                let ghost before = segments@.map_values(|x: String| x@);
                segments.push(seg);
                proof {
                    let segs = segments@.map_values(|x: String| x@);
                    assert(segs.drop_last() =~= before);
                    assert(segs.last() == s@.subrange(start as int, i as int));
                    if before.len() == 0 {
                        assert(joined(segs) == segs[0]);
                    }
                    assert(joined(segs) + seq!['/'] =~= s@.subrange(0, i + 1));
                }
                start = i + 1;
            }
            i = i + 1;
        }
        let seg = s.substring_char(start, chars.len()).to_owned();
        let ghost before = segments@.map_values(|x: String| x@);
        segments.push(seg);
        let r = Key { segments };
        proof {
            let segs = r.segs();
            assert(segs.drop_last() =~= before);
            if before.len() == 0 {
                assert(joined(segs) == segs[0]);
                assert(segs[0] =~= s@);
            } else {
                assert(joined(segs) =~= s@);
            }
        }
        Ok(r)
    }
}

fn old_str() -> (r: &'static str)
    ensures
        r@ == seq!['o', 'l', 'd'],
{
    proof {
        reveal_strlit("old");
    }
    "old"
}

fn new_str() -> (r: &'static str)
    ensures
        r@ == seq!['n', 'e', 'w'],
{
    proof {
        reveal_strlit("new");
    }
    "new"
}

/// The prefix of every key stamped with height `h`: `"{h}/"`.
pub open spec fn height_prefix(h: nat) -> Seq<char> {
    decimal(h) + seq!['/']
}

/// The name of a diff kind.
pub open spec fn diff_kind(is_old: bool) -> Seq<char> {
    if is_old { seq!['o', 'l', 'd'] } else { seq!['n', 'e', 'w'] }
}

/// The diff key `"{h}/old/{key}"` or `"{h}/new/{key}"`.
pub open spec fn diff_key(h: nat, is_old: bool, key: Seq<char>) -> Seq<char> {
    height_prefix(h) + diff_kind(is_old) + seq!['/'] + key
}

/// Two diff keys are equal only for the same height, kind and key.
pub proof fn lemma_diff_key_injective(h1: nat, o1: bool, k1: Seq<char>, h2: nat, o2: bool, k2: Seq<char>)
    requires
        diff_key(h1, o1, k1) == diff_key(h2, o2, k2),
    ensures
        h1 == h2,
        o1 == o2,
        k1 == k2,
{
    let x = diff_kind(o1) + seq!['/'] + k1;
    let y = diff_kind(o2) + seq!['/'] + k2;
    assert(diff_key(h1, o1, k1) =~= decimal(h1) + seq!['/'] + x);
    assert(diff_key(h2, o2, k2) =~= decimal(h2) + seq!['/'] + y);
    lemma_decimal_prefix_injective(h1, x, h2, y);
    assert(x[0] == diff_kind(o1)[0]);
    assert(y[0] == diff_kind(o2)[0]);
    assert(k1 =~= x.subrange(4, x.len() as int));
    assert(k2 =~= y.subrange(4, y.len() as int));
}

/// The string of height `h` followed by `/`.
pub fn height_prefix_string(h: u64) -> (r: String)
    ensures
        r@ == height_prefix(h as nat),
{
    let mut s = decimal_string(h);
    s.append(separator());
    s
}

/// The pair of diff keys of `key` at height `h`: `"{h}/old/{key}"` and
/// `"{h}/new/{key}"`.
pub fn old_and_new_diff_key(key: &str, h: u64) -> (r: (String, String))
    ensures
        r.0@ == diff_key(h as nat, true, key@),
        r.1@ == diff_key(h as nat, false, key@),
{
    let prefix = height_prefix_string(h);
    let mut old = prefix.clone();
    old.append(old_str());
    old.append(separator());
    old.append(key);
    let mut new = prefix;
    new.append(new_str());
    new.append(separator());
    new.append(key);
    proof {
        assert(old@ =~= diff_key(h as nat, true, key@));
        assert(new@ =~= diff_key(h as nat, false, key@));
    }
    (old, new)
}

/// The prefix of the diff keys of one kind at height `h`: `"{h}/old/"` or
/// `"{h}/new/"`.
pub fn diff_prefix_string(h: u64, is_old: bool) -> (r: String)
    ensures
        r@ == height_prefix(h as nat) + diff_kind(is_old) + seq!['/'],
{
    let mut s = height_prefix_string(h);
    if is_old {
        s.append(old_str());
    } else {
        s.append(new_str());
    }
    s.append(separator());
    s
}

} // verus!
