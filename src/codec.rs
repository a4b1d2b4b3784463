//! The canonical encoding of the values that the engine itself reads:
//! little-endian integers, optional integers with a one-byte tag, and the
//! epoch table as its first epoch, a 32-bit count and the heights.

use vstd::bytes::{
    lemma_auto_spec_u32_to_from_le_bytes, lemma_auto_spec_u64_to_from_le_bytes, spec_u32_from_le_bytes,
    spec_u32_to_le_bytes, spec_u64_from_le_bytes, spec_u64_to_le_bytes, u32_from_le_bytes, u32_to_le_bytes,
    u64_from_le_bytes, u64_to_le_bytes,
};
use vstd::prelude::*;

use crate::error::Error;

verus! {

/// The encoding of a `u64`.
pub open spec fn u64_bytes(x: u64) -> Seq<u8> {
    spec_u64_to_le_bytes(x)
}

/// The encoding of an optional `u32`: a tag byte, then the value.
pub open spec fn opt_u32_bytes(x: Option<u32>) -> Seq<u8> {
    match x {
        None => seq![0u8],
        Some(v) => seq![1u8] + spec_u32_to_le_bytes(v),
    }
}

/// The encodings of a sequence of `u64`, one after the other.
pub open spec fn u64s_bytes(s: Seq<u64>) -> Seq<u8>
    decreases s.len(),
{
    if s.len() == 0 {
        Seq::empty()
    } else {
        u64s_bytes(s.drop_last()) + u64_bytes(s.last())
    }
}

/// The value of a `u64` encoding; `None` for a slice of another length.
pub open spec fn u64_of(b: Seq<u8>) -> Option<u64> {
    if b.len() == 8 {
        Some(spec_u64_from_le_bytes(b))
    } else {
        None
    }
}

proof fn lemma_u64s_bytes_len(s: Seq<u64>)
    ensures
        u64s_bytes(s).len() == 8 * s.len(),
    decreases s.len(),
{
    lemma_auto_spec_u64_to_from_le_bytes();
    if s.len() > 0 {
        lemma_u64s_bytes_len(s.drop_last());
    }
}

proof fn lemma_u64s_bytes_injective(a: Seq<u64>, b: Seq<u64>)
    requires
        u64s_bytes(a) == u64s_bytes(b),
    ensures
        a == b,
    decreases a.len(),
{
    lemma_u64s_bytes_len(a);
    lemma_u64s_bytes_len(b);
    lemma_auto_spec_u64_to_from_le_bytes();
    if a.len() > 0 {
        let x = u64s_bytes(a);
        let n = x.len() as int;
        lemma_u64s_bytes_len(a.drop_last());
        lemma_u64s_bytes_len(b.drop_last());
        assert(u64_bytes(a.last()) =~= x.subrange(n - 8, n));
        assert(u64_bytes(b.last()) =~= x.subrange(n - 8, n));
        assert(u64s_bytes(a.drop_last()) =~= x.subrange(0, n - 8));
        assert(u64s_bytes(b.drop_last()) =~= x.subrange(0, n - 8));
        lemma_u64s_bytes_injective(a.drop_last(), b.drop_last());
        assert(a =~= a.drop_last().push(a.last()));
        assert(b =~= b.drop_last().push(b.last()));
    } else {
        assert(a =~= b);
    }
}

/// An epoch table is determined by its encoding.
pub proof fn lemma_epochs_bytes_injective(f1: u64, h1: Seq<u64>, f2: u64, h2: Seq<u64>)
    requires
        epochs_bytes(f1, h1) == epochs_bytes(f2, h2),
    ensures
        f1 == f2,
        h1 == h2,
{
    lemma_auto_spec_u64_to_from_le_bytes();
    lemma_auto_spec_u32_to_from_le_bytes();
    let x = epochs_bytes(f1, h1);
    assert(u64_bytes(f1) =~= x.subrange(0, 8));
    assert(u64_bytes(f2) =~= x.subrange(0, 8));
    assert(u64s_bytes(h1) =~= x.subrange(12, x.len() as int));
    assert(u64s_bytes(h2) =~= x.subrange(12, x.len() as int));
    lemma_u64s_bytes_injective(h1, h2);
}

/// Encodes a `u64`.
pub fn encode_u64(x: u64) -> (r: Vec<u8>)
    ensures
        r@ == u64_bytes(x),
{
    u64_to_le_bytes(x)
}

/// Decodes a `u64` from exactly eight bytes.
pub fn decode_u64(b: &[u8]) -> (r: Result<u64, Error>)
    ensures
        match r {
            Ok(x) => u64_of(b@) == Some(x),
            Err(e) => u64_of(b@) is None && e is CodingError,
        },
{
    if b.len() == 8 {
        Ok(u64_from_le_bytes(b))
    } else {
        Err(Error::CodingError("expected the eight bytes of a u64".to_owned()))
    }
}

/// A `u64` read back from its encoding.
pub proof fn lemma_u64_round_trip(x: u64)
    ensures
        u64_of(u64_bytes(x)) == Some(x),
{
    lemma_auto_spec_u64_to_from_le_bytes();
}

/// Encodes an optional `u32`.
pub fn encode_opt_u32(x: Option<u32>) -> (r: Vec<u8>)
    ensures
        r@ == opt_u32_bytes(x),
{
    let mut r: Vec<u8> = Vec::new();
    match x {
        None => {
            r.push(0);
            proof {
                assert(r@ =~= seq![0u8]);
            }
        },
        Some(v) => {
            r.push(1);
            let b = u32_to_le_bytes(v);
            let mut i: usize = 0;
            while i < 4
                invariant
                    b@ == spec_u32_to_le_bytes(v),
                    b@.len() == 4,
                    i <= 4,
                    r@ == seq![1u8] + b@.subrange(0, i as int),
                decreases 4 - i,
            {
                r.push(b[i]);
                i = i + 1;
                proof {
                    assert(r@ =~= seq![1u8] + b@.subrange(0, i as int));
                }
            }
            proof {
                assert(b@.subrange(0, 4) =~= b@);
            }
        },
    }
    r
}

/// The value of an optional `u32` encoding.
pub open spec fn opt_u32_of(b: Seq<u8>) -> Option<Option<u32>> {
    if b.len() == 1 && b[0] == 0 {
        Some(None)
    } else if b.len() == 5 && b[0] == 1 {
        Some(Some(spec_u32_from_le_bytes(b.subrange(1, 5))))
    } else {
        None
    }
}

/// Decodes an optional `u32`.
pub fn decode_opt_u32(b: &[u8]) -> (r: Result<Option<u32>, Error>)
    ensures
        match r {
            Ok(x) => opt_u32_of(b@) == Some(x),
            Err(e) => opt_u32_of(b@) is None && e is CodingError,
        },
{
    if b.len() == 1 && b[0] == 0 {
        Ok(None)
    } else if b.len() == 5 && b[0] == 1 {
        let tail = slice_range(b, 1, 5);
        Ok(Some(u32_from_le_bytes(tail.as_slice())))
    } else {
        Err(Error::CodingError("expected an optional u32".to_owned()))
    }
}

/// An optional `u32` read back from its encoding.
pub proof fn lemma_opt_u32_round_trip(x: Option<u32>)
    ensures
        opt_u32_of(opt_u32_bytes(x)) == Some(x),
{
    lemma_auto_spec_u32_to_from_le_bytes();
    if let Some(v) = x {
        assert(opt_u32_bytes(x).subrange(1, 5) =~= spec_u32_to_le_bytes(v));
    }
}

/// The bytes `b[from..to]`.
pub fn slice_range(b: &[u8], from: usize, to: usize) -> (r: Vec<u8>)
    requires
        from <= to <= b@.len(),
    ensures
        r@ == b@.subrange(from as int, to as int),
{
    let mut r: Vec<u8> = Vec::new();
    let mut i = from;
    while i < to
        invariant
            from <= i <= to,
            to <= b@.len(),
            r@ == b@.subrange(from as int, i as int),
        decreases to - i,
    {
        r.push(b[i]);
        i = i + 1;
        proof {
            assert(r@ =~= b@.subrange(from as int, i as int));
        }
    }
    r
}

/// The heights at which epochs start, from a first known epoch on.
#[derive(Debug, Clone, PartialEq, Eq)]
pub struct Epochs {
    /// The epoch that starts at the first recorded height.
    pub first_known_epoch: u64,
    /// The first height of each epoch, in order.
    pub first_block_heights: Vec<u64>,
}

/// How many of the leading heights of `s` are at most `h`.
pub open spec fn leading_at_most(s: Seq<u64>, h: u64) -> nat
    decreases s.len(),
{
    if s.len() == 0 || s[0] > h {
        0
    } else {
        1 + leading_at_most(s.drop_first(), h)
    }
}

/// The epoch of height `h`: the first known epoch, advanced once for each
/// later epoch start at or below `h`.
pub open spec fn epoch_at(first_known_epoch: u64, heights: Seq<u64>, h: u64) -> Option<int> {
    if heights.len() == 0 {
        None
    } else {
        Some(first_known_epoch as int + leading_at_most(heights.drop_first(), h) as int)
    }
}

proof fn lemma_leading_at_most_bound(s: Seq<u64>, h: u64)
    ensures
        leading_at_most(s, h) <= s.len(),
    decreases s.len(),
{
    if s.len() > 0 && s[0] <= h {
        lemma_leading_at_most_bound(s.drop_first(), h);
    }
}

/// The encoding of an epoch table.
pub open spec fn epochs_bytes(first_known_epoch: u64, heights: Seq<u64>) -> Seq<u8> {
    u64_bytes(first_known_epoch) + spec_u32_to_le_bytes(heights.len() as u32) + u64s_bytes(heights)
}

impl Epochs {
    /// The epoch of height `h`, if any epoch is recorded.
    pub fn get_epoch(&self, h: u64) -> (r: Option<u64>)
        requires
            self.first_known_epoch + self.first_block_heights@.len() <= u64::MAX,
        ensures
            match r {
                Some(e) => epoch_at(self.first_known_epoch, self.first_block_heights@, h) == Some(e as int),
                None => epoch_at(self.first_known_epoch, self.first_block_heights@, h) is None,
            },
    {
        let n = self.first_block_heights.len();
        if n == 0 {
            return None;
        }
        let ghost rest = self.first_block_heights@.drop_first();
        proof {
            assert(rest =~= self.first_block_heights@.subrange(1, n as int));
        }
        let mut epoch = self.first_known_epoch;
        let mut i: usize = 1;
        while i < n
            invariant
                1 <= i <= n,
                n == self.first_block_heights@.len(),
                self.first_known_epoch + n <= u64::MAX,
                epoch == self.first_known_epoch + (i - 1),
                rest == self.first_block_heights@.drop_first(),
                leading_at_most(rest, h) == (i - 1) + leading_at_most(self.first_block_heights@.subrange(i as int, n as int), h),
            decreases n - i,
        {
            proof {
                assert(self.first_block_heights@.subrange(i as int, n as int).drop_first() =~= self.first_block_heights@.subrange(i + 1, n as int));
            }
            if h < self.first_block_heights[i] {
                proof {
                    let sub = self.first_block_heights@.subrange(i as int, n as int);
                    assert(sub[0] == self.first_block_heights@[i as int]);
                    assert(leading_at_most(sub, h) == 0);
                    assert(leading_at_most(rest, h) == i - 1);
                    assert(epoch as int == self.first_known_epoch + (i - 1));
                }
                return Some(epoch);
            }
            epoch = epoch + 1;
            i = i + 1;
        }
        proof {
            assert(rest =~= self.first_block_heights@.subrange(1, n as int));
        }
        Some(epoch)
    }

    /// Records that a new epoch starts at height `h`.
    pub fn new_epoch(&mut self, h: u64)
        ensures
            final(self).first_known_epoch == old(self).first_known_epoch,
            final(self).first_block_heights@ == old(self).first_block_heights@.push(h),
    {
        self.first_block_heights.push(h);
    }

    /// Whether `get_epoch` can count the epochs without overflow.
    pub fn is_countable(&self) -> (r: bool)
        ensures
            r == (self.first_known_epoch + self.first_block_heights@.len() <= u64::MAX),
    {
        let n = self.first_block_heights.len() as u64;
        n <= u64::MAX - self.first_known_epoch
    }

    /// Encodes the table.
    pub fn encode(&self) -> (r: Vec<u8>)
        requires
            self.first_block_heights@.len() <= u32::MAX,
        ensures
            r@ == epochs_bytes(self.first_known_epoch, self.first_block_heights@),
    {
        let mut r = encode_u64(self.first_known_epoch);
        let count = u32_to_le_bytes(self.first_block_heights.len() as u32);
        r.extend_from_slice(count.as_slice());
        let ghost head = r@;
        proof {
            assert(r@ =~= u64_bytes(self.first_known_epoch) + spec_u32_to_le_bytes(self.first_block_heights@.len() as u32));
        }
        let mut i: usize = 0;
        while i < self.first_block_heights.len()
            invariant
                i <= self.first_block_heights@.len(),
                r@ == head + u64s_bytes(self.first_block_heights@.subrange(0, i as int)),
            decreases self.first_block_heights@.len() - i,
        {
            let b = encode_u64(self.first_block_heights[i]);
            r.extend_from_slice(b.as_slice());
            i = i + 1;
            proof {
                assert(self.first_block_heights@.subrange(0, i as int).drop_last() =~= self.first_block_heights@.subrange(0, i - 1));
                assert(r@ =~= head + u64s_bytes(self.first_block_heights@.subrange(0, i as int)));
            }
        }
        proof {
            assert(self.first_block_heights@.subrange(0, i as int) =~= self.first_block_heights@);
        }
        r
    }

    /// Decodes a table: a `u64`, a `u32` count, then that many `u64`.
    pub fn decode(b: &[u8]) -> (r: Result<Epochs, Error>)
        ensures
            match r {
                Ok(e) => b@ == epochs_bytes(e.first_known_epoch, e.first_block_heights@)
                    && e.first_block_heights@.len() <= u32::MAX,
                Err(e) => e is CodingError && forall|first: u64, hs: Seq<u64>|
                    hs.len() <= u32::MAX ==> b@ != #[trigger] epochs_bytes(first, hs),
            },
    {
        proof {
            lemma_auto_spec_u64_to_from_le_bytes();
            lemma_auto_spec_u32_to_from_le_bytes();
        }
        if b.len() < 12 {
            proof {
                assert forall|first: u64, hs: Seq<u64>| hs.len() <= u32::MAX implies b@ != #[trigger] epochs_bytes(first, hs) by {
                    lemma_u64s_bytes_len(hs);
                }
            }
            return Err(Error::CodingError("epoch table too short".to_owned()));
        }
        let first_bytes = slice_range(b, 0, 8);
        let first = u64_from_le_bytes(first_bytes.as_slice());
        let count_bytes = slice_range(b, 8, 12);
        let count = u32_from_le_bytes(count_bytes.as_slice());
        let rest = (b.len() - 12) as u64;
        if rest % 8 != 0 || rest / 8 != count as u64 {
            proof {
                assert forall|f: u64, hs: Seq<u64>| hs.len() <= u32::MAX implies b@ != #[trigger] epochs_bytes(f, hs) by {
                    lemma_u64s_bytes_len(hs);
                    if b@ == epochs_bytes(f, hs) {
                        assert(count_bytes@ =~= spec_u32_to_le_bytes(hs.len() as u32));
                        assert(b@.len() == 12 + 8 * hs.len());
                    }
                }
            }
            return Err(Error::CodingError("epoch table of the wrong length".to_owned()));
        }
        let mut heights: Vec<u64> = Vec::new();
        let mut i: usize = 0;
        let n = count as usize;
        let blen = b.len();
        while i < n
            invariant
                blen == b@.len(),
                b@.len() == 12 + 8 * n,
                i <= n,
                n == count,
                heights@.len() == i,
                b@.subrange(12, 12 + 8 * i) == u64s_bytes(heights@),
            decreases n - i,
        {
            proof {
                assert(8 * i + 8 <= 8 * n) by (nonlinear_arith)
                    requires
                        i < n,
                ;
            }
            proof {
                lemma_auto_spec_u64_to_from_le_bytes();
            }
            let start = 12 + 8 * i;
            let chunk = slice_range(b, start, start + 8);
            let h = u64_from_le_bytes(chunk.as_slice());
            let ghost before = heights@;
            heights.push(h);
            i = i + 1;
            proof {
                assert(heights@.drop_last() =~= before);
                assert(u64_bytes(h) =~= chunk@);
                assert(b@.subrange(12, 12 + 8 * i) =~= b@.subrange(12, 12 + 8 * (i - 1)) + chunk@);
            }
        }
        let e = Epochs { first_known_epoch: first, first_block_heights: heights };
        proof {
            assert(first_bytes@ =~= u64_bytes(first));
            assert(count_bytes@ =~= spec_u32_to_le_bytes(n as u32));
            assert(b@ =~= b@.subrange(0, 8) + b@.subrange(8, 12) + b@.subrange(12, 12 + 8 * n));
        }
        Ok(e)
    }
}

} // verus!
