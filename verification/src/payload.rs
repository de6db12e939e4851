//! The length-prefixed payload container family.
//!
//! One behavioural template at five prefix widths: a container holds a
//! byte range, either borrowed from a source buffer or independently
//! owned, and encodes as a width-`n` big-endian length followed by the
//! raw bytes. The unprefixed [`Payload`] has no length field and stands
//! for the remainder of an enclosing region.
use crate::codec::{bytes_to_str, extend, is_prefix_of, lemma_framed_prefix, Codec};
use crate::endian::{
    be_bytes, be_val, encode_u16, encode_u24, encode_u32, encode_u64, encode_u8,
    lemma_be_bytes_len, lemma_be_bytes_of_be_val, lemma_pow256_values, pow256,
};
use crate::reader::{prefixed_body, prefixed_ok, Reader};
use vstd::prelude::*;
use vstd::utf8::{decode_utf8, valid_utf8};

verus! {

/// A byte range that is either a read-only view into a caller-owned
/// buffer, lifetime-bound to it, or an independently held buffer. Both
/// variants expose the same read-only operations.
#[derive(Debug, Clone)]
pub enum Bytes<'a> {
    Borrowed(&'a [u8]),
    Owned(Vec<u8>),
}

impl<'a> View for Bytes<'a> {
    type V = Seq<u8>;

    open spec fn view(&self) -> Seq<u8> {
        match self {
            Bytes::Borrowed(s) => s@,
            Bytes::Owned(v) => v@,
        }
    }
}

impl<'a> Bytes<'a> {
    /// The byte count of the held range.
    pub fn len(&self) -> (r: usize)
        ensures
            r == self@.len(),
    {
        match self {
            Bytes::Borrowed(s) => s.len(),
            Bytes::Owned(v) => v.len(),
        }
    }

    /// A raw view of the held range.
    pub fn as_slice<'b>(&'b self) -> (r: &'b [u8])
        ensures
            r@ == self@,
    {
        match self {
            Bytes::Borrowed(s) => s,
            Bytes::Owned(v) => v.as_slice(),
        }
    }
}

/// On success the prefix value, hence the frame's body and length, are
/// those of the remainder's own leading frame.
proof fn lemma_payload_read_ok(rem: Seq<u8>, n: nat)
    requires
        prefixed_ok(rem, n),
    ensures
        prefixed_body(rem, n).len() == be_val(rem.take(n as int)),
        prefixed_body(rem, n).len() < pow256(n),
        be_bytes(prefixed_body(rem, n).len(), n) + prefixed_body(rem, n) == rem.take(
            n as int + prefixed_body(rem, n).len() as int,
        ),
        n + prefixed_body(rem, n).len() <= rem.len(),
{
    let t = rem.take(n as int);
    lemma_be_bytes_of_be_val(t);
    let body = prefixed_body(rem, n);
    assert(body.len() == be_val(t));
    assert(be_bytes(body.len(), n) == t);
    assert(t + body =~= rem.take(n as int + body.len() as int));
}

/// When the remainder has no whole leading frame, no legally encoded
/// width-`n` payload starts it.
proof fn lemma_payload_read_fail(rem: Seq<u8>, n: nat, d: Seq<u8>)
    requires
        !prefixed_ok(rem, n),
        d.len() < pow256(n),
    ensures
        !is_prefix_of(be_bytes(d.len(), n) + d, rem),
{
    lemma_be_bytes_len(d.len(), n);
    if is_prefix_of(be_bytes(d.len(), n) + d, rem) {
        lemma_framed_prefix(rem, n, d);
    }
}

/// An unprefixed payload: no length field. On read it consumes all bytes
/// remaining in the cursor; on encode it appends its raw bytes with no
/// prefix at all. It is for a payload whose length is implicit from
/// outer framing.
#[derive(Debug, Clone)]
pub struct Payload<'a>(pub Bytes<'a>);

impl<'a> View for Payload<'a> {
    type V = Seq<u8>;

    open spec fn view(&self) -> Seq<u8> {
        self.0@
    }
}

impl<'a> Payload<'a> {
    /// A payload owning the given bytes.
    pub fn new(bytes: Vec<u8>) -> (r: Self)
        ensures
            r@ == bytes@,
    {
        Payload(Bytes::Owned(bytes))
    }

    /// An empty owned payload.
    pub fn empty() -> (r: Self)
        ensures
            r@.len() == 0,
    {
        Payload(Bytes::Owned(Vec::new()))
    }

    /// A payload borrowing the given bytes.
    pub fn from_slice(data: &'a [u8]) -> (r: Self)
        ensures
            r@ == data@,
    {
        Payload(Bytes::Borrowed(data))
    }

    /// The byte count of the held range.
    pub fn len(&self) -> (r: usize)
        ensures
            r == self@.len(),
    {
        self.0.len()
    }

    /// A raw view of the held range.
    pub fn to_slice<'b>(&'b self) -> (r: &'b [u8])
        ensures
            r@ == self@,
    {
        self.0.as_slice()
    }

    /// The held bytes as UTF-8 text; `None` when they are not valid
    /// UTF-8.
    pub fn to_str<'b>(&'b self) -> (r: Option<&'b str>)
        ensures
            match r {
                Some(s) => valid_utf8(self@) && s@ == decode_utf8(self@),
                None => !valid_utf8(self@),
            },
    {
        bytes_to_str(self.0.as_slice())
    }
}

impl<'a> Codec<'a> for Payload<'a> {
    open spec fn spec_enc(&self) -> Seq<u8> {
        self@
    }

    open spec fn enc_ok(&self) -> bool {
        true
    }

    open spec fn is_delimited() -> bool {
        false
    }

    proof fn lemma_delimited_nonempty(v: Self) {
    }

    proof fn lemma_delimited_prefix(v1: Self, v2: Self, s: Seq<u8>) {
    }

    fn encode(&self, bytes: &mut Vec<u8>) {
        extend(self.0.as_slice(), bytes);
    }

    fn read(r: &mut Reader<'a>) -> (res: Option<Payload<'a>>) {
        let res = r.payload();
        proof {
            let rem = old(r).remaining();
            assert(rem.take(rem.len() as int) =~= rem);
        }
        res
    }
}


/// An arbitrary, unknown-content, one-byte-length-prefixed payload.
#[derive(Debug, Clone)]
pub struct PayloadU8<'a>(pub Bytes<'a>);

impl<'a> View for PayloadU8<'a> {
    type V = Seq<u8>;

    open spec fn view(&self) -> Seq<u8> {
        self.0@
    }
}

impl<'a> PayloadU8<'a> {
    /// A payload owning the given bytes.
    pub fn new(bytes: Vec<u8>) -> (r: Self)
        ensures
            r@ == bytes@,
    {
        PayloadU8(Bytes::Owned(bytes))
    }

    /// A payload borrowing the given bytes.
    pub fn from_slice(data: &'a [u8]) -> (r: Self)
        ensures
            r@ == data@,
    {
        PayloadU8(Bytes::Borrowed(data))
    }

    /// The byte count of the held range.
    pub fn len(&self) -> (r: usize)
        ensures
            r == self@.len(),
    {
        self.0.len()
    }

    /// A raw view of the held range.
    pub fn to_slice<'b>(&'b self) -> (r: &'b [u8])
        ensures
            r@ == self@,
    {
        self.0.as_slice()
    }

    /// The held bytes as UTF-8 text; `None` when they are not valid
    /// UTF-8.
    pub fn to_str<'b>(&'b self) -> (r: Option<&'b str>)
        ensures
            match r {
                Some(s) => valid_utf8(self@) && s@ == decode_utf8(self@),
                None => !valid_utf8(self@),
            },
    {
        bytes_to_str(self.0.as_slice())
    }
}

impl<'a> Codec<'a> for PayloadU8<'a> {
    open spec fn spec_enc(&self) -> Seq<u8> {
        be_bytes(self@.len(), 1) + self@
    }

    open spec fn enc_ok(&self) -> bool {
        self@.len() < pow256(1)
    }

    open spec fn is_delimited() -> bool {
        true
    }

    proof fn lemma_delimited_nonempty(v: Self) {
        lemma_be_bytes_len(v@.len(), 1);
    }

    proof fn lemma_delimited_prefix(v1: Self, v2: Self, s: Seq<u8>) {
        lemma_be_bytes_len(v1@.len(), 1);
        lemma_be_bytes_len(v2@.len(), 1);
        lemma_framed_prefix(s, 1, v1@);
        lemma_framed_prefix(s, 1, v2@);
        assert(v1.spec_enc() == s.take(v1.spec_enc().len() as int));
        assert(v2.spec_enc() == s.take(v2.spec_enc().len() as int));
    }

    fn encode(&self, bytes: &mut Vec<u8>) {
        proof {
            lemma_pow256_values();
        }
        let len = self.0.len();
        encode_u8(len as u8, bytes);
        extend(self.0.as_slice(), bytes);
        proof {
            assert(bytes@ =~= old(bytes)@ + self.spec_enc());
        }
    }

    fn read(r: &mut Reader<'a>) -> (res: Option<PayloadU8<'a>>) {
        let ghost rem = old(r).remaining();
        let res = r.u8_payload();
        proof {
            lemma_pow256_values();
            match &res {
                Some(p) => {
                    lemma_payload_read_ok(rem, 1);
                    lemma_be_bytes_len(p@.len(), 1);
                    assert(is_prefix_of(p.spec_enc(), rem));
                },
                None => {
                    assert(!prefixed_ok(rem, 1));
                    assert forall|v: PayloadU8<'a>| !(v.enc_ok() && #[trigger] is_prefix_of(
                        v.spec_enc(),
                        rem,
                    )) by {
                        if v.enc_ok() {
                            lemma_payload_read_fail(rem, 1, v@);
                        }
                    }
                },
            }
        }
        res
    }
}

/// An arbitrary, unknown-content, two-byte-length-prefixed payload.
#[derive(Debug, Clone)]
pub struct PayloadU16<'a>(pub Bytes<'a>);

impl<'a> View for PayloadU16<'a> {
    type V = Seq<u8>;

    open spec fn view(&self) -> Seq<u8> {
        self.0@
    }
}

impl<'a> PayloadU16<'a> {
    /// A payload owning the given bytes.
    pub fn new(bytes: Vec<u8>) -> (r: Self)
        ensures
            r@ == bytes@,
    {
        PayloadU16(Bytes::Owned(bytes))
    }

    /// A payload borrowing the given bytes.
    pub fn from_slice(data: &'a [u8]) -> (r: Self)
        ensures
            r@ == data@,
    {
        PayloadU16(Bytes::Borrowed(data))
    }

    /// The byte count of the held range.
    pub fn len(&self) -> (r: usize)
        ensures
            r == self@.len(),
    {
        self.0.len()
    }

    /// A raw view of the held range.
    pub fn to_slice<'b>(&'b self) -> (r: &'b [u8])
        ensures
            r@ == self@,
    {
        self.0.as_slice()
    }

    /// The held bytes as UTF-8 text; `None` when they are not valid
    /// UTF-8.
    pub fn to_str<'b>(&'b self) -> (r: Option<&'b str>)
        ensures
            match r {
                Some(s) => valid_utf8(self@) && s@ == decode_utf8(self@),
                None => !valid_utf8(self@),
            },
    {
        bytes_to_str(self.0.as_slice())
    }
}

impl<'a> Codec<'a> for PayloadU16<'a> {
    open spec fn spec_enc(&self) -> Seq<u8> {
        be_bytes(self@.len(), 2) + self@
    }

    open spec fn enc_ok(&self) -> bool {
        self@.len() < pow256(2)
    }

    open spec fn is_delimited() -> bool {
        true
    }

    proof fn lemma_delimited_nonempty(v: Self) {
        lemma_be_bytes_len(v@.len(), 2);
    }

    proof fn lemma_delimited_prefix(v1: Self, v2: Self, s: Seq<u8>) {
        lemma_be_bytes_len(v1@.len(), 2);
        lemma_be_bytes_len(v2@.len(), 2);
        lemma_framed_prefix(s, 2, v1@);
        lemma_framed_prefix(s, 2, v2@);
        assert(v1.spec_enc() == s.take(v1.spec_enc().len() as int));
        assert(v2.spec_enc() == s.take(v2.spec_enc().len() as int));
    }

    fn encode(&self, bytes: &mut Vec<u8>) {
        proof {
            lemma_pow256_values();
        }
        let len = self.0.len();
        encode_u16(len as u16, bytes);
        extend(self.0.as_slice(), bytes);
        proof {
            assert(bytes@ =~= old(bytes)@ + self.spec_enc());
        }
    }

    fn read(r: &mut Reader<'a>) -> (res: Option<PayloadU16<'a>>) {
        let ghost rem = old(r).remaining();
        let res = r.u16_payload();
        proof {
            lemma_pow256_values();
            match &res {
                Some(p) => {
                    lemma_payload_read_ok(rem, 2);
                    lemma_be_bytes_len(p@.len(), 2);
                    assert(is_prefix_of(p.spec_enc(), rem));
                },
                None => {
                    assert(!prefixed_ok(rem, 2));
                    assert forall|v: PayloadU16<'a>| !(v.enc_ok() && #[trigger] is_prefix_of(
                        v.spec_enc(),
                        rem,
                    )) by {
                        if v.enc_ok() {
                            lemma_payload_read_fail(rem, 2, v@);
                        }
                    }
                },
            }
        }
        res
    }
}

/// An arbitrary, unknown-content, three-byte-length-prefixed payload.
#[derive(Debug, Clone)]
pub struct PayloadU24<'a>(pub Bytes<'a>);

impl<'a> View for PayloadU24<'a> {
    type V = Seq<u8>;

    open spec fn view(&self) -> Seq<u8> {
        self.0@
    }
}

impl<'a> PayloadU24<'a> {
    /// A payload owning the given bytes.
    pub fn new(bytes: Vec<u8>) -> (r: Self)
        ensures
            r@ == bytes@,
    {
        PayloadU24(Bytes::Owned(bytes))
    }

    /// A payload borrowing the given bytes.
    pub fn from_slice(data: &'a [u8]) -> (r: Self)
        ensures
            r@ == data@,
    {
        PayloadU24(Bytes::Borrowed(data))
    }

    /// The byte count of the held range.
    pub fn len(&self) -> (r: usize)
        ensures
            r == self@.len(),
    {
        self.0.len()
    }

    /// A raw view of the held range.
    pub fn to_slice<'b>(&'b self) -> (r: &'b [u8])
        ensures
            r@ == self@,
    {
        self.0.as_slice()
    }

    /// The held bytes as UTF-8 text; `None` when they are not valid
    /// UTF-8.
    pub fn to_str<'b>(&'b self) -> (r: Option<&'b str>)
        ensures
            match r {
                Some(s) => valid_utf8(self@) && s@ == decode_utf8(self@),
                None => !valid_utf8(self@),
            },
    {
        bytes_to_str(self.0.as_slice())
    }
}

impl<'a> Codec<'a> for PayloadU24<'a> {
    open spec fn spec_enc(&self) -> Seq<u8> {
        be_bytes(self@.len(), 3) + self@
    }

    open spec fn enc_ok(&self) -> bool {
        self@.len() < pow256(3)
    }

    open spec fn is_delimited() -> bool {
        true
    }

    proof fn lemma_delimited_nonempty(v: Self) {
        lemma_be_bytes_len(v@.len(), 3);
    }

    proof fn lemma_delimited_prefix(v1: Self, v2: Self, s: Seq<u8>) {
        lemma_be_bytes_len(v1@.len(), 3);
        lemma_be_bytes_len(v2@.len(), 3);
        lemma_framed_prefix(s, 3, v1@);
        lemma_framed_prefix(s, 3, v2@);
        assert(v1.spec_enc() == s.take(v1.spec_enc().len() as int));
        assert(v2.spec_enc() == s.take(v2.spec_enc().len() as int));
    }

    fn encode(&self, bytes: &mut Vec<u8>) {
        proof {
            lemma_pow256_values();
        }
        let len = self.0.len();
        encode_u24(len as u32, bytes);
        extend(self.0.as_slice(), bytes);
        proof {
            assert(bytes@ =~= old(bytes)@ + self.spec_enc());
        }
    }

    fn read(r: &mut Reader<'a>) -> (res: Option<PayloadU24<'a>>) {
        let ghost rem = old(r).remaining();
        let res = r.u24_payload();
        proof {
            lemma_pow256_values();
            match &res {
                Some(p) => {
                    lemma_payload_read_ok(rem, 3);
                    lemma_be_bytes_len(p@.len(), 3);
                    assert(is_prefix_of(p.spec_enc(), rem));
                },
                None => {
                    assert(!prefixed_ok(rem, 3));
                    assert forall|v: PayloadU24<'a>| !(v.enc_ok() && #[trigger] is_prefix_of(
                        v.spec_enc(),
                        rem,
                    )) by {
                        if v.enc_ok() {
                            lemma_payload_read_fail(rem, 3, v@);
                        }
                    }
                },
            }
        }
        res
    }
}

/// An arbitrary, unknown-content, four-byte-length-prefixed payload.
#[derive(Debug, Clone)]
pub struct PayloadU32<'a>(pub Bytes<'a>);

impl<'a> View for PayloadU32<'a> {
    type V = Seq<u8>;

    open spec fn view(&self) -> Seq<u8> {
        self.0@
    }
}

impl<'a> PayloadU32<'a> {
    /// A payload owning the given bytes.
    pub fn new(bytes: Vec<u8>) -> (r: Self)
        ensures
            r@ == bytes@,
    {
        PayloadU32(Bytes::Owned(bytes))
    }

    /// A payload borrowing the given bytes.
    pub fn from_slice(data: &'a [u8]) -> (r: Self)
        ensures
            r@ == data@,
    {
        PayloadU32(Bytes::Borrowed(data))
    }

    /// The byte count of the held range.
    pub fn len(&self) -> (r: usize)
        ensures
            r == self@.len(),
    {
        self.0.len()
    }

    /// A raw view of the held range.
    pub fn to_slice<'b>(&'b self) -> (r: &'b [u8])
        ensures
            r@ == self@,
    {
        self.0.as_slice()
    }

    /// The held bytes as UTF-8 text; `None` when they are not valid
    /// UTF-8.
    pub fn to_str<'b>(&'b self) -> (r: Option<&'b str>)
        ensures
            match r {
                Some(s) => valid_utf8(self@) && s@ == decode_utf8(self@),
                None => !valid_utf8(self@),
            },
    {
        bytes_to_str(self.0.as_slice())
    }
}

impl<'a> Codec<'a> for PayloadU32<'a> {
    open spec fn spec_enc(&self) -> Seq<u8> {
        be_bytes(self@.len(), 4) + self@
    }

    open spec fn enc_ok(&self) -> bool {
        self@.len() < pow256(4)
    }

    open spec fn is_delimited() -> bool {
        true
    }

    proof fn lemma_delimited_nonempty(v: Self) {
        lemma_be_bytes_len(v@.len(), 4);
    }

    proof fn lemma_delimited_prefix(v1: Self, v2: Self, s: Seq<u8>) {
        lemma_be_bytes_len(v1@.len(), 4);
        lemma_be_bytes_len(v2@.len(), 4);
        lemma_framed_prefix(s, 4, v1@);
        lemma_framed_prefix(s, 4, v2@);
        assert(v1.spec_enc() == s.take(v1.spec_enc().len() as int));
        assert(v2.spec_enc() == s.take(v2.spec_enc().len() as int));
    }

    fn encode(&self, bytes: &mut Vec<u8>) {
        proof {
            lemma_pow256_values();
        }
        let len = self.0.len();
        encode_u32(len as u32, bytes);
        extend(self.0.as_slice(), bytes);
        proof {
            assert(bytes@ =~= old(bytes)@ + self.spec_enc());
        }
    }

    fn read(r: &mut Reader<'a>) -> (res: Option<PayloadU32<'a>>) {
        let ghost rem = old(r).remaining();
        let res = r.u32_payload();
        proof {
            lemma_pow256_values();
            match &res {
                Some(p) => {
                    lemma_payload_read_ok(rem, 4);
                    lemma_be_bytes_len(p@.len(), 4);
                    assert(is_prefix_of(p.spec_enc(), rem));
                },
                None => {
                    assert(!prefixed_ok(rem, 4));
                    assert forall|v: PayloadU32<'a>| !(v.enc_ok() && #[trigger] is_prefix_of(
                        v.spec_enc(),
                        rem,
                    )) by {
                        if v.enc_ok() {
                            lemma_payload_read_fail(rem, 4, v@);
                        }
                    }
                },
            }
        }
        res
    }
}

/// An arbitrary, unknown-content, eight-byte-length-prefixed payload.
#[derive(Debug, Clone)]
pub struct PayloadU64<'a>(pub Bytes<'a>);

impl<'a> View for PayloadU64<'a> {
    type V = Seq<u8>;

    open spec fn view(&self) -> Seq<u8> {
        self.0@
    }
}

impl<'a> PayloadU64<'a> {
    /// A payload owning the given bytes.
    pub fn new(bytes: Vec<u8>) -> (r: Self)
        ensures
            r@ == bytes@,
    {
        PayloadU64(Bytes::Owned(bytes))
    }

    /// A payload borrowing the given bytes.
    pub fn from_slice(data: &'a [u8]) -> (r: Self)
        ensures
            r@ == data@,
    {
        PayloadU64(Bytes::Borrowed(data))
    }

    /// The byte count of the held range.
    pub fn len(&self) -> (r: usize)
        ensures
            r == self@.len(),
    {
        self.0.len()
    }

    /// A raw view of the held range.
    pub fn to_slice<'b>(&'b self) -> (r: &'b [u8])
        ensures
            r@ == self@,
    {
        self.0.as_slice()
    }

    /// The held bytes as UTF-8 text; `None` when they are not valid
    /// UTF-8.
    pub fn to_str<'b>(&'b self) -> (r: Option<&'b str>)
        ensures
            match r {
                Some(s) => valid_utf8(self@) && s@ == decode_utf8(self@),
                None => !valid_utf8(self@),
            },
    {
        bytes_to_str(self.0.as_slice())
    }
}

impl<'a> Codec<'a> for PayloadU64<'a> {
    open spec fn spec_enc(&self) -> Seq<u8> {
        be_bytes(self@.len(), 8) + self@
    }

    open spec fn enc_ok(&self) -> bool {
        self@.len() < pow256(8)
    }

    open spec fn is_delimited() -> bool {
        true
    }

    proof fn lemma_delimited_nonempty(v: Self) {
        lemma_be_bytes_len(v@.len(), 8);
    }

    proof fn lemma_delimited_prefix(v1: Self, v2: Self, s: Seq<u8>) {
        lemma_be_bytes_len(v1@.len(), 8);
        lemma_be_bytes_len(v2@.len(), 8);
        lemma_framed_prefix(s, 8, v1@);
        lemma_framed_prefix(s, 8, v2@);
        assert(v1.spec_enc() == s.take(v1.spec_enc().len() as int));
        assert(v2.spec_enc() == s.take(v2.spec_enc().len() as int));
    }

    fn encode(&self, bytes: &mut Vec<u8>) {
        proof {
            lemma_pow256_values();
        }
        let len = self.0.len();
        encode_u64(len as u64, bytes);
        extend(self.0.as_slice(), bytes);
        proof {
            assert(bytes@ =~= old(bytes)@ + self.spec_enc());
        }
    }

    fn read(r: &mut Reader<'a>) -> (res: Option<PayloadU64<'a>>) {
        let ghost rem = old(r).remaining();
        let res = r.u64_payload();
        proof {
            lemma_pow256_values();
            match &res {
                Some(p) => {
                    lemma_payload_read_ok(rem, 8);
                    lemma_be_bytes_len(p@.len(), 8);
                    assert(is_prefix_of(p.spec_enc(), rem));
                },
                None => {
                    assert(!prefixed_ok(rem, 8));
                    assert forall|v: PayloadU64<'a>| !(v.enc_ok() && #[trigger] is_prefix_of(
                        v.spec_enc(),
                        rem,
                    )) by {
                        if v.enc_ok() {
                            lemma_payload_read_fail(rem, 8, v@);
                        }
                    }
                },
            }
        }
        res
    }
}

impl<'a> Reader<'a> {
    /// Consumes and returns all bytes remaining in the cursor as an
    /// unprefixed payload borrowing the buffer.
    pub fn payload(&mut self) -> (r: Option<Payload<'a>>)
        requires
            old(self).wf(),
        ensures
            final(self).wf(),
            final(self).all_bytes() == old(self).all_bytes(),
            r matches Some(p) && p@ == old(self).remaining() && final(self).offset() == old(
                self,
            ).all_bytes().len(),
    {
        let n = self.left();
        match self.take(n) {
            Some(s) => Some(Payload(Bytes::Borrowed(s))),
            None => None,
        }
    }

    /// Reads a one-byte length prefix and wraps that many following bytes as
    /// a borrowed PayloadU8.
    pub fn u8_payload(&mut self) -> (r: Option<PayloadU8<'a>>)
        requires
            old(self).wf(),
        ensures
            final(self).wf(),
            final(self).all_bytes() == old(self).all_bytes(),
            prefixed_ok(old(self).remaining(), 1) ==> (r matches Some(p) && p@ == prefixed_body(
                old(self).remaining(),
                1,
            ) && final(self).offset() == old(self).offset() + 1 + be_val(
                old(self).remaining().take(1),
            )),
            old(self).remaining().len() < 1 ==> (r is None && final(self).offset() == old(
                self,
            ).offset()),
            (old(self).remaining().len() >= 1 && !prefixed_ok(old(self).remaining(), 1)) ==> (
            r is None && final(self).offset() == old(self).offset() + 1),
    {
        match self.u8_encoded_slice() {
            Some(s) => Some(PayloadU8(Bytes::Borrowed(s))),
            None => None,
        }
    }

    /// Reads a two-byte length prefix and wraps that many following bytes as
    /// a borrowed PayloadU16.
    pub fn u16_payload(&mut self) -> (r: Option<PayloadU16<'a>>)
        requires
            old(self).wf(),
        ensures
            final(self).wf(),
            final(self).all_bytes() == old(self).all_bytes(),
            prefixed_ok(old(self).remaining(), 2) ==> (r matches Some(p) && p@ == prefixed_body(
                old(self).remaining(),
                2,
            ) && final(self).offset() == old(self).offset() + 2 + be_val(
                old(self).remaining().take(2),
            )),
            old(self).remaining().len() < 2 ==> (r is None && final(self).offset() == old(
                self,
            ).offset()),
            (old(self).remaining().len() >= 2 && !prefixed_ok(old(self).remaining(), 2)) ==> (
            r is None && final(self).offset() == old(self).offset() + 2),
    {
        match self.u16_encoded_slice() {
            Some(s) => Some(PayloadU16(Bytes::Borrowed(s))),
            None => None,
        }
    }

    /// Reads a three-byte length prefix and wraps that many following bytes as
    /// a borrowed PayloadU24.
    pub fn u24_payload(&mut self) -> (r: Option<PayloadU24<'a>>)
        requires
            old(self).wf(),
        ensures
            final(self).wf(),
            final(self).all_bytes() == old(self).all_bytes(),
            prefixed_ok(old(self).remaining(), 3) ==> (r matches Some(p) && p@ == prefixed_body(
                old(self).remaining(),
                3,
            ) && final(self).offset() == old(self).offset() + 3 + be_val(
                old(self).remaining().take(3),
            )),
            old(self).remaining().len() < 3 ==> (r is None && final(self).offset() == old(
                self,
            ).offset()),
            (old(self).remaining().len() >= 3 && !prefixed_ok(old(self).remaining(), 3)) ==> (
            r is None && final(self).offset() == old(self).offset() + 3),
    {
        match self.u24_encoded_slice() {
            Some(s) => Some(PayloadU24(Bytes::Borrowed(s))),
            None => None,
        }
    }

    /// Reads a four-byte length prefix and wraps that many following bytes as
    /// a borrowed PayloadU32.
    pub fn u32_payload(&mut self) -> (r: Option<PayloadU32<'a>>)
        requires
            old(self).wf(),
        ensures
            final(self).wf(),
            final(self).all_bytes() == old(self).all_bytes(),
            prefixed_ok(old(self).remaining(), 4) ==> (r matches Some(p) && p@ == prefixed_body(
                old(self).remaining(),
                4,
            ) && final(self).offset() == old(self).offset() + 4 + be_val(
                old(self).remaining().take(4),
            )),
            old(self).remaining().len() < 4 ==> (r is None && final(self).offset() == old(
                self,
            ).offset()),
            (old(self).remaining().len() >= 4 && !prefixed_ok(old(self).remaining(), 4)) ==> (
            r is None && final(self).offset() == old(self).offset() + 4),
    {
        match self.u32_encoded_slice() {
            Some(s) => Some(PayloadU32(Bytes::Borrowed(s))),
            None => None,
        }
    }

    /// Reads an eight-byte length prefix and wraps that many following bytes as
    /// a borrowed PayloadU64.
    pub fn u64_payload(&mut self) -> (r: Option<PayloadU64<'a>>)
        requires
            old(self).wf(),
        ensures
            final(self).wf(),
            final(self).all_bytes() == old(self).all_bytes(),
            prefixed_ok(old(self).remaining(), 8) ==> (r matches Some(p) && p@ == prefixed_body(
                old(self).remaining(),
                8,
            ) && final(self).offset() == old(self).offset() + 8 + be_val(
                old(self).remaining().take(8),
            )),
            old(self).remaining().len() < 8 ==> (r is None && final(self).offset() == old(
                self,
            ).offset()),
            (old(self).remaining().len() >= 8 && !prefixed_ok(old(self).remaining(), 8)) ==> (
            r is None && final(self).offset() == old(self).offset() + 8),
    {
        match self.u64_encoded_slice() {
            Some(s) => Some(PayloadU64(Bytes::Borrowed(s))),
            None => None,
        }
    }
}

} // verus!
