//! A position-tracking view over a borrowed byte buffer.
//!
//! A `Reader` exposes bounded `take` operations and typed big-endian
//! integer reads. Every failure is the single "insufficient data" signal,
//! reported as `None`; a failed fixed-width read never advances the
//! position.
use crate::endian::{be_val, lemma_be_bytes_of_be_val, lemma_pow256_values, pow256};
use vstd::prelude::*;
use vstd::slice::slice_subrange;

verus! {

broadcast use vstd::slice::axiom_spec_len;

/// True when the byte sequence `s` begins with an `n`-byte length prefix
/// that is itself followed by at least as many bytes as it declares.
pub open spec fn prefixed_ok(s: Seq<u8>, n: nat) -> bool {
    n <= s.len() && n + be_val(s.take(n as int)) <= s.len()
}

/// The body declared by the `n`-byte length prefix at the front of `s`:
/// the bytes just after the prefix, as many as the prefix declares.
pub open spec fn prefixed_body(s: Seq<u8>, n: nat) -> Seq<u8> {
    s.subrange(n as int, n as int + be_val(s.take(n as int)) as int)
}

/// A cursor over a borrowed byte buffer: the bytes before `offset` are
/// consumed, the bytes from `offset` on are still to be read.
pub struct Reader<'a> {
    buf: &'a [u8],
    offs: usize,
}

impl<'a> Reader<'a> {
    /// The whole underlying buffer, consumed part included.
    pub closed spec fn all_bytes(&self) -> Seq<u8> {
        self.buf@
    }

    /// How many bytes have been consumed.
    pub closed spec fn offset(&self) -> int {
        self.offs as int
    }

    /// The offset never exceeds the buffer.
    pub open spec fn wf(&self) -> bool {
        0 <= self.offset() <= self.all_bytes().len()
    }

    /// The unconsumed remainder of the buffer.
    pub open spec fn remaining(&self) -> Seq<u8> {
        self.all_bytes().skip(self.offset())
    }

    /// A new cursor over the full buffer, nothing consumed yet.
    pub fn init(bytes: &'a [u8]) -> (r: Reader<'a>)
        ensures
            r.wf(),
            r.all_bytes() == bytes@,
            r.offset() == 0,
    {
        Reader { buf: bytes, offs: 0 }
    }

    /// The unconsumed remainder, without advancing.
    pub fn rest(&self) -> (r: &'a [u8])
        requires
            self.wf(),
        ensures
            r@ == self.remaining(),
    {
        let r = slice_subrange(self.buf, self.offs, self.buf.len());
        proof {
            assert(r@ =~= self.remaining());
        }
        r
    }

    /// The next `len` bytes, advancing past them; `None`, with the
    /// position unchanged, when fewer than `len` bytes remain. A partial
    /// slice is never returned.
    pub fn take(&mut self, len: usize) -> (r: Option<&'a [u8]>)
        requires
            old(self).wf(),
        ensures
            final(self).wf(),
            final(self).all_bytes() == old(self).all_bytes(),
            len <= old(self).remaining().len() ==> (r matches Some(s) && s@ == old(
                self,
            ).remaining().take(len as int) && final(self).offset() == old(self).offset() + len),
            len > old(self).remaining().len() ==> (r is None && final(self).offset() == old(
                self,
            ).offset()),
    {
        let blen = self.buf.len();
        if blen - self.offs < len {
            return None;
        }
        let current = self.offs;
        self.offs = current + len;
        let r = slice_subrange(self.buf, current, current + len);
        proof {
            assert(r@ =~= old(self).remaining().take(len as int));
        }
        Some(r)
    }

    /// Whether any unconsumed bytes remain.
    pub fn any_left(&self) -> (r: bool)
        requires
            self.wf(),
        ensures
            r == (self.remaining().len() > 0),
    {
        self.offs < self.buf.len()
    }

    /// How many bytes remain unconsumed.
    pub fn left(&self) -> (r: usize)
        requires
            self.wf(),
        ensures
            r == self.remaining().len(),
    {
        self.buf.len() - self.offs
    }

    /// How many bytes have been consumed.
    pub fn used(&self) -> (r: usize)
        requires
            self.wf(),
        ensures
            r == self.offset(),
    {
        self.offs
    }

    /// The next `len` bytes wrapped in an independent child cursor whose
    /// own offset starts at zero, so that parsing a nested structure
    /// cannot read past its declared length. `None`, with the position
    /// unchanged, when fewer than `len` bytes remain.
    pub fn sub(&mut self, len: usize) -> (r: Option<Reader<'a>>)
        requires
            old(self).wf(),
        ensures
            final(self).wf(),
            final(self).all_bytes() == old(self).all_bytes(),
            len <= old(self).remaining().len() ==> (r matches Some(s) && s.wf() && s.offset() == 0
                && s.all_bytes() == old(self).remaining().take(len as int) && final(self).offset()
                == old(self).offset() + len),
            len > old(self).remaining().len() ==> (r is None && final(self).offset() == old(
                self,
            ).offset()),
    {
        match self.take(len) {
            Some(bytes) => Some(Reader::init(bytes)),
            None => None,
        }
    }

    /// Reads the next `n` bytes as one big-endian integer, advancing past
    /// them; `None`, with the position unchanged, when fewer than `n`
    /// bytes remain.
    fn read_uint(&mut self, n: usize) -> (r: Option<u64>)
        requires
            old(self).wf(),
            1 <= n <= 8,
        ensures
            final(self).wf(),
            final(self).all_bytes() == old(self).all_bytes(),
            n <= old(self).remaining().len() ==> (r matches Some(v) && v as nat == be_val(
                old(self).remaining().take(n as int),
            ) && final(self).offset() == old(self).offset() + n),
            n > old(self).remaining().len() ==> (r is None && final(self).offset() == old(
                self,
            ).offset()),
    {
        let blen = self.buf.len();
        if blen - self.offs < n {
            return None;
        }
        let buf = self.buf;
        let start = self.offs;
        let ghost rem = old(self).remaining();
        let mut acc: u64 = 0;
        let mut i: usize = 0;
        proof {
            lemma_pow256_values();
            assert(rem.take(0) =~= Seq::<u8>::empty());
        }
        while i < n
            invariant
                i <= n <= 8,
                start + n <= blen,
                blen == buf@.len(),
                rem == buf@.skip(start as int),
                acc as nat == be_val(rem.take(i as int)),
                (acc as nat) < pow256(i as nat),
                pow256(8) == 0x10000000000000000,
            decreases n - i,
        {
            let b = *vstd::slice::slice_index_get(buf, start + i);
            proof {
                let t = rem.take(i + 1);
                assert(t.drop_last() =~= rem.take(i as int));
                assert(t.last() == rem[i as int]);
                assert(rem[i as int] == buf@[start + i]);
                crate::endian::lemma_pow256_increases((i + 1) as nat, 8);
                let a = acc as nat;
                let bn = b as nat;
                let p = pow256(i as nat);
                assert(a * 256 + bn < 256 * p) by (nonlinear_arith)
                    requires
                        a < p,
                        bn < 256,
                ;
            }
            acc = acc * 256 + b as u64;
            i = i + 1;
        }
        self.offs = start + n;
        proof {
            assert(rem.take(n as int) =~= rem.take(i as int));
        }
        Some(acc)
    }

    /// Reads a one-byte big-endian integer, advancing past it; `None`,
    /// with the position unchanged, when no byte remains.
    pub fn read_u8(&mut self) -> (r: Option<usize>)
        requires
            old(self).wf(),
        ensures
            final(self).wf(),
            final(self).all_bytes() == old(self).all_bytes(),
            1 <= old(self).remaining().len() ==> (r matches Some(v) && v as nat == be_val(
                old(self).remaining().take(1),
            ) && final(self).offset() == old(self).offset() + 1),
            old(self).remaining().len() < 1 ==> (r is None && final(self).offset() == old(
                self,
            ).offset()),
    {
        proof {
            lemma_be_bytes_of_be_val(old(self).remaining().take(1));
            lemma_pow256_values();
        }
        match self.read_uint(1) {
            Some(v) => Some(v as usize),
            None => None,
        }
    }

    /// Reads a two-byte big-endian integer, advancing past it; `None`,
    /// with the position unchanged, when fewer than two bytes remain.
    pub fn read_u16(&mut self) -> (r: Option<usize>)
        requires
            old(self).wf(),
        ensures
            final(self).wf(),
            final(self).all_bytes() == old(self).all_bytes(),
            2 <= old(self).remaining().len() ==> (r matches Some(v) && v as nat == be_val(
                old(self).remaining().take(2),
            ) && final(self).offset() == old(self).offset() + 2),
            old(self).remaining().len() < 2 ==> (r is None && final(self).offset() == old(
                self,
            ).offset()),
    {
        proof {
            lemma_be_bytes_of_be_val(old(self).remaining().take(2));
            lemma_pow256_values();
        }
        match self.read_uint(2) {
            Some(v) => Some(v as usize),
            None => None,
        }
    }

    /// Reads a three-byte big-endian integer, advancing past it; `None`,
    /// with the position unchanged, when fewer than three bytes remain.
    /// A genuine three-byte read, not a masked four-byte one.
    pub fn read_u24(&mut self) -> (r: Option<usize>)
        requires
            old(self).wf(),
        ensures
            final(self).wf(),
            final(self).all_bytes() == old(self).all_bytes(),
            3 <= old(self).remaining().len() ==> (r matches Some(v) && v as nat == be_val(
                old(self).remaining().take(3),
            ) && final(self).offset() == old(self).offset() + 3),
            old(self).remaining().len() < 3 ==> (r is None && final(self).offset() == old(
                self,
            ).offset()),
    {
        proof {
            lemma_be_bytes_of_be_val(old(self).remaining().take(3));
            lemma_pow256_values();
        }
        match self.read_uint(3) {
            Some(v) => Some(v as usize),
            None => None,
        }
    }

    /// Reads a four-byte big-endian integer, advancing past it; `None`,
    /// with the position unchanged, when fewer than four bytes remain.
    pub fn read_u32(&mut self) -> (r: Option<usize>)
        requires
            old(self).wf(),
        ensures
            final(self).wf(),
            final(self).all_bytes() == old(self).all_bytes(),
            4 <= old(self).remaining().len() ==> (r matches Some(v) && v as nat == be_val(
                old(self).remaining().take(4),
            ) && final(self).offset() == old(self).offset() + 4),
            old(self).remaining().len() < 4 ==> (r is None && final(self).offset() == old(
                self,
            ).offset()),
    {
        proof {
            lemma_be_bytes_of_be_val(old(self).remaining().take(4));
            lemma_pow256_values();
        }
        match self.read_uint(4) {
            Some(v) => Some(v as usize),
            None => None,
        }
    }

    /// Reads an eight-byte big-endian integer, advancing past it. `None`,
    /// with the position unchanged, when fewer than eight bytes remain,
    /// or when the value cannot be held in a `usize` — such a length
    /// could never be satisfied by an in-memory buffer.
    pub fn read_u64(&mut self) -> (r: Option<usize>)
        requires
            old(self).wf(),
        ensures
            final(self).wf(),
            final(self).all_bytes() == old(self).all_bytes(),
            (8 <= old(self).remaining().len() && be_val(old(self).remaining().take(8))
                <= usize::MAX) ==> (r matches Some(v) && v as nat == be_val(
                old(self).remaining().take(8),
            ) && final(self).offset() == old(self).offset() + 8),
            (old(self).remaining().len() < 8 || be_val(old(self).remaining().take(8))
                > usize::MAX) ==> (r is None && final(self).offset() == old(self).offset()),
    {
        let saved = self.offs;
        match self.read_uint(8) {
            Some(v) => {
                if v <= usize::MAX as u64 {
                    Some(v as usize)
                } else {
                    self.offs = saved;
                    None
                }
            },
            None => None,
        }
    }

    /// Reads an `n`-byte length prefix and then takes that many bytes.
    /// When the remainder is shorter than the prefix itself, nothing is
    /// consumed; when the prefix is read but declares more bytes than
    /// remain, only the prefix is consumed.
    fn prefixed_slice(&mut self, n: usize) -> (r: Option<&'a [u8]>)
        requires
            old(self).wf(),
            1 <= n <= 8,
        ensures
            final(self).wf(),
            final(self).all_bytes() == old(self).all_bytes(),
            prefixed_ok(old(self).remaining(), n as nat) ==> (r matches Some(s) && s@
                == prefixed_body(old(self).remaining(), n as nat) && final(self).offset() == old(
                self,
            ).offset() + n + be_val(old(self).remaining().take(n as int))),
            old(self).remaining().len() < n ==> (r is None && final(self).offset() == old(
                self,
            ).offset()),
            (old(self).remaining().len() >= n && !prefixed_ok(old(self).remaining(), n as nat))
                ==> (r is None && final(self).offset() == old(self).offset() + n),
    {
        let ghost rem = old(self).remaining();
        let v = match self.read_uint(n) {
            Some(v) => v,
            None => {
                return None;
            },
        };
        let ghost declared = be_val(rem.take(n as int));
        let avail = self.left();
        if v > avail as u64 {
            proof {
                assert(!prefixed_ok(rem, n as nat));
            }
            return None;
        }
        let len = v as usize;
        proof {
            assert(self.remaining() =~= rem.skip(n as int));
            assert(prefixed_ok(rem, n as nat));
        }
        let r = self.take(len);
        proof {
            let s = r.unwrap();
            assert(s@ =~= prefixed_body(rem, n as nat));
        }
        r
    }

    /// Reads a one-byte length prefix and takes that many following
    /// bytes.
    pub fn u8_encoded_slice(&mut self) -> (r: Option<&'a [u8]>)
        requires
            old(self).wf(),
        ensures
            final(self).wf(),
            final(self).all_bytes() == old(self).all_bytes(),
            prefixed_ok(old(self).remaining(), 1) ==> (r matches Some(s) && s@ == prefixed_body(
                old(self).remaining(),
                1,
            ) && final(self).offset() == old(self).offset() + 1 + be_val(
                old(self).remaining().take(1),
            )),
            old(self).remaining().len() < 1 ==> (r is None && final(self).offset() == old(
                self,
            ).offset()),
            (old(self).remaining().len() >= 1 && !prefixed_ok(old(self).remaining(), 1)) ==> (
            r is None && final(self).offset() == old(self).offset() + 1),
    {
        self.prefixed_slice(1)
    }

    /// Reads a two-byte length prefix and takes that many following
    /// bytes.
    pub fn u16_encoded_slice(&mut self) -> (r: Option<&'a [u8]>)
        requires
            old(self).wf(),
        ensures
            final(self).wf(),
            final(self).all_bytes() == old(self).all_bytes(),
            prefixed_ok(old(self).remaining(), 2) ==> (r matches Some(s) && s@ == prefixed_body(
                old(self).remaining(),
                2,
            ) && final(self).offset() == old(self).offset() + 2 + be_val(
                old(self).remaining().take(2),
            )),
            old(self).remaining().len() < 2 ==> (r is None && final(self).offset() == old(
                self,
            ).offset()),
            (old(self).remaining().len() >= 2 && !prefixed_ok(old(self).remaining(), 2)) ==> (
            r is None && final(self).offset() == old(self).offset() + 2),
    {
        self.prefixed_slice(2)
    }

    /// Reads a three-byte length prefix and takes that many following
    /// bytes.
    pub fn u24_encoded_slice(&mut self) -> (r: Option<&'a [u8]>)
        requires
            old(self).wf(),
        ensures
            final(self).wf(),
            final(self).all_bytes() == old(self).all_bytes(),
            prefixed_ok(old(self).remaining(), 3) ==> (r matches Some(s) && s@ == prefixed_body(
                old(self).remaining(),
                3,
            ) && final(self).offset() == old(self).offset() + 3 + be_val(
                old(self).remaining().take(3),
            )),
            old(self).remaining().len() < 3 ==> (r is None && final(self).offset() == old(
                self,
            ).offset()),
            (old(self).remaining().len() >= 3 && !prefixed_ok(old(self).remaining(), 3)) ==> (
            r is None && final(self).offset() == old(self).offset() + 3),
    {
        self.prefixed_slice(3)
    }

    /// Reads a four-byte length prefix and takes that many following
    /// bytes.
    pub fn u32_encoded_slice(&mut self) -> (r: Option<&'a [u8]>)
        requires
            old(self).wf(),
        ensures
            final(self).wf(),
            final(self).all_bytes() == old(self).all_bytes(),
            prefixed_ok(old(self).remaining(), 4) ==> (r matches Some(s) && s@ == prefixed_body(
                old(self).remaining(),
                4,
            ) && final(self).offset() == old(self).offset() + 4 + be_val(
                old(self).remaining().take(4),
            )),
            old(self).remaining().len() < 4 ==> (r is None && final(self).offset() == old(
                self,
            ).offset()),
            (old(self).remaining().len() >= 4 && !prefixed_ok(old(self).remaining(), 4)) ==> (
            r is None && final(self).offset() == old(self).offset() + 4),
    {
        self.prefixed_slice(4)
    }

    /// Reads an eight-byte length prefix and takes that many following
    /// bytes.
    pub fn u64_encoded_slice(&mut self) -> (r: Option<&'a [u8]>)
        requires
            old(self).wf(),
        ensures
            final(self).wf(),
            final(self).all_bytes() == old(self).all_bytes(),
            prefixed_ok(old(self).remaining(), 8) ==> (r matches Some(s) && s@ == prefixed_body(
                old(self).remaining(),
                8,
            ) && final(self).offset() == old(self).offset() + 8 + be_val(
                old(self).remaining().take(8),
            )),
            old(self).remaining().len() < 8 ==> (r is None && final(self).offset() == old(
                self,
            ).offset()),
            (old(self).remaining().len() >= 8 && !prefixed_ok(old(self).remaining(), 8)) ==> (
            r is None && final(self).offset() == old(self).offset() + 8),
    {
        self.prefixed_slice(8)
    }
}

} // verus!
