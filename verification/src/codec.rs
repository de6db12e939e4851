//! The generic wire contract: anything that can encode itself onto a
//! growing byte buffer and read itself back from a [`Reader`], and the
//! generic codec for an ordered list of such items under one overall
//! length prefix.
use crate::endian::{be_bytes, be_val, lemma_be_bytes_len, lemma_be_val_of_be_bytes, pow256};
use crate::reader::{prefixed_body, prefixed_ok, Reader};
use vstd::prelude::*;
use vstd::string::StringSliceAdditionalSpecFns;

verus! {

/// True when `p` is an initial segment of `s`.
pub open spec fn is_prefix_of(p: Seq<u8>, s: Seq<u8>) -> bool {
    p.len() <= s.len() && p == s.take(p.len() as int)
}

/// Appends the bytes of `x` to `bytes`.
pub fn extend(x: &[u8], bytes: &mut Vec<u8>)
    ensures
        final(bytes)@ == old(bytes)@ + x@,
{
    let n = x.len();
    let mut i: usize = 0;
    proof {
        assert(bytes@ =~= old(bytes)@ + x@.take(0));
    }
    while i < n
        invariant
            i <= n == x@.len(),
            bytes@ == old(bytes)@ + x@.take(i as int),
        decreases n - i,
    {
        bytes.push(*vstd::slice::slice_index_get(x, i));
        proof {
            assert(old(bytes)@ + x@.take(i + 1) =~= (old(bytes)@ + x@.take(i as int)).push(
                x@[i as int],
            ));
        }
        i = i + 1;
    }
    proof {
        assert(old(bytes)@ + x@.take(n as int) =~= old(bytes)@ + x@);
    }
}

/// Relies on std::str::from_utf8: it succeeds exactly when the bytes are
/// valid UTF-8, and then returns the string those bytes spell, over the
/// same bytes.
#[verifier::external_body]
pub(crate) fn bytes_to_str<'b>(x: &'b [u8]) -> (r: Option<&'b str>)
    ensures
        match r {
            Some(s) => vstd::utf8::valid_utf8(x@) && s@ == vstd::utf8::decode_utf8(x@)
                && s.spec_bytes() == x@,
            None => !vstd::utf8::valid_utf8(x@),
        },
{
    match std::str::from_utf8(x) {
        Ok(s) => Some(s),
        Err(_) => None,
    }
}

/// The bytes as UTF-8 text; `None` when they are not valid UTF-8.
pub fn to_str<'b>(x: &'b [u8]) -> (r: Option<&'b str>)
    ensures
        match r {
            Some(s) => vstd::utf8::valid_utf8(x@) && s@ == vstd::utf8::decode_utf8(x@),
            None => !vstd::utf8::valid_utf8(x@),
        },
{
    bytes_to_str(x)
}

/// Things that can be encoded onto a growing byte buffer and read back
/// from the front of a [`Reader`].
///
/// `spec_enc` is the value's exact wire encoding and `enc_ok` says when
/// the value may legally be encoded (its length fits its prefix width).
/// A successful `read` consumes exactly the encoding of the value it
/// returns; a failed `read` means no legally encoded value starts the
/// remainder. For types whose `is_delimited()` holds, an encoding
/// determines where it ends, which is what makes lists of such values
/// decodable item by item.
pub trait Codec<'a>: Sized {
    /// The exact byte sequence `encode` appends.
    spec fn spec_enc(&self) -> Seq<u8>;

    /// Whether this value may legally be encoded.
    spec fn enc_ok(&self) -> bool;

    /// Whether encodings of this type carry their own length, so that no
    /// legal encoding is a strict prefix of another.
    spec fn is_delimited() -> bool;

    /// For a self-delimiting type, no legal encoding is empty.
    proof fn lemma_delimited_nonempty(v: Self)
        requires
            Self::is_delimited(),
            v.enc_ok(),
        ensures
            v.spec_enc().len() >= 1,
    ;

    /// For a self-delimiting type, two legal encodings that start the
    /// same byte sequence are the same encoding.
    proof fn lemma_delimited_prefix(v1: Self, v2: Self, s: Seq<u8>)
        requires
            Self::is_delimited(),
            v1.enc_ok(),
            v2.enc_ok(),
            is_prefix_of(v1.spec_enc(), s),
            is_prefix_of(v2.spec_enc(), s),
        ensures
            v1.spec_enc() == v2.spec_enc(),
    ;

    /// Appends this value's serialization to `bytes`.
    fn encode(&self, bytes: &mut Vec<u8>)
        requires
            self.enc_ok(),
        ensures
            final(bytes)@ == old(bytes)@ + self.spec_enc(),
    ;

    /// Reads one value from the front of the remainder. On success the
    /// cursor advances past exactly the returned value's encoding; on
    /// failure no legally encoded value starts the remainder.
    fn read(r: &mut Reader<'a>) -> (res: Option<Self>)
        requires
            old(r).wf(),
        ensures
            final(r).wf(),
            final(r).all_bytes() == old(r).all_bytes(),
            old(r).offset() <= final(r).offset() <= old(r).all_bytes().len(),
            (res matches Some(v) ==> v.enc_ok() && is_prefix_of(v.spec_enc(), old(r).remaining())
                && final(r).offset() == old(r).offset() + v.spec_enc().len()),
            (res is None ==> forall|v: Self|
                !(v.enc_ok() && #[trigger] is_prefix_of(v.spec_enc(), old(r).remaining()))),
            ((res is Some && old(r).remaining().len() > 0) ==> final(r).offset() > old(
                r,
            ).offset()),
    ;

    /// This value's serialization as a standalone buffer.
    fn get_encoding(&self) -> (out: Vec<u8>)
        requires
            self.enc_ok(),
        ensures
            out@ == self.spec_enc(),
    {
        let mut ret = Vec::new();
        self.encode(&mut ret);
        proof {
            assert(ret@ =~= self.spec_enc());
        }
        ret
    }
}

/// The concatenation, in order, of the encodings of the items.
pub open spec fn spec_enc_seq<'a, T: Codec<'a>>(items: Seq<T>) -> Seq<u8>
    decreases items.len(),
{
    if items.len() == 0 {
        Seq::empty()
    } else {
        items.first().spec_enc() + spec_enc_seq(items.drop_first())
    }
}

/// Every item of the list may legally be encoded.
pub open spec fn all_enc_ok<'a, T: Codec<'a>>(items: Seq<T>) -> bool {
    forall|i: int| 0 <= i < items.len() ==> #[trigger] items[i].enc_ok()
}

/// Appending an item to a list appends its encoding to the list's.
pub proof fn lemma_enc_seq_push<'a, T: Codec<'a>>(items: Seq<T>, v: T)
    ensures
        spec_enc_seq(items.push(v)) == spec_enc_seq(items) + v.spec_enc(),
    decreases items.len(),
{
    if items.len() == 0 {
        assert(items.push(v).drop_first() =~= Seq::<T>::empty());
        assert(items.push(v).first() == v);
        assert(spec_enc_seq(items.push(v).drop_first()) =~= Seq::<u8>::empty());
        assert(spec_enc_seq(items) =~= Seq::<u8>::empty());
        assert(spec_enc_seq(items.push(v)) =~= spec_enc_seq(items) + v.spec_enc());
    } else {
        assert(items.push(v).drop_first() =~= items.drop_first().push(v));
        lemma_enc_seq_push(items.drop_first(), v);
        assert(spec_enc_seq(items.push(v)) =~= spec_enc_seq(items) + v.spec_enc());
    }
}

/// A length prefix plus matching body frame the front of `s`: from the
/// body alone, the prefix value, the body of the frame, and the framing
/// condition itself are all determined.
pub proof fn lemma_framed_prefix(s: Seq<u8>, n: nat, d: Seq<u8>)
    requires
        d.len() < pow256(n),
        n + d.len() <= s.len(),
        s.take((n + d.len()) as int) == be_bytes(d.len(), n) + d,
    ensures
        prefixed_ok(s, n),
        prefixed_body(s, n) == d,
        be_val(s.take(n as int)) == d.len(),
{
    lemma_be_val_of_be_bytes(d.len(), n);
    let e = s.take((n + d.len()) as int);
    assert(s.take(n as int) =~= e.take(n as int));
    assert(e.take(n as int) =~= be_bytes(d.len(), n));
    assert(be_val(s.take(n as int)) == d.len());
    assert(e.skip(n as int) =~= d);
    assert(prefixed_body(s, n) =~= e.skip(n as int));
}

/// Payload round trip: the width-`n` encoding of a body that fits the
/// prefix is a frame of exactly itself, so reading it back yields the
/// body and leaves nothing over.
pub proof fn lemma_payload_round_trip(b: Seq<u8>, n: nat)
    requires
        b.len() < pow256(n),
    ensures
        (be_bytes(b.len(), n) + b).len() == n + b.len(),
        prefixed_ok(be_bytes(b.len(), n) + b, n),
        prefixed_body(be_bytes(b.len(), n) + b, n) == b,
{
    lemma_be_bytes_len(b.len(), n);
    let s = be_bytes(b.len(), n) + b;
    assert(s.take((n + b.len()) as int) =~= s);
    lemma_framed_prefix(s, n, b);
}

/// Where a run of decoded items stops inside the concatenated encoding
/// of a list, the bytes left over are the concatenated encodings of a
/// suffix of that list.
pub proof fn lemma_enc_seq_align<'a, T: Codec<'a>>(done: Seq<T>, items: Seq<T>, rest: Seq<u8>)
    requires
        T::is_delimited(),
        all_enc_ok(done),
        all_enc_ok(items),
        spec_enc_seq(done) + rest == spec_enc_seq(items),
    ensures
        exists|j: int|
            0 <= j <= items.len() && rest == spec_enc_seq(#[trigger] items.skip(j)),
    decreases done.len(),
{
    if done.len() == 0 {
        assert(spec_enc_seq(done) + rest =~= rest);
        assert(items.skip(0) =~= items);
        assert(rest == spec_enc_seq(items.skip(0)));
    } else {
        let d0 = done.first();
        assert(d0.enc_ok());
        T::lemma_delimited_nonempty(d0);
        let s = spec_enc_seq(items);
        assert(s == d0.spec_enc() + (spec_enc_seq(done.drop_first()) + rest)) by {
            assert(spec_enc_seq(done) + rest =~= d0.spec_enc() + (spec_enc_seq(done.drop_first())
                + rest));
        }
        assert(items.len() > 0) by {
            if items.len() == 0 {
                assert(s.len() == 0);
            }
        }
        let i0 = items.first();
        assert(i0.enc_ok());
        assert(is_prefix_of(d0.spec_enc(), s)) by {
            assert(s.take(d0.spec_enc().len() as int) =~= d0.spec_enc());
        }
        assert(is_prefix_of(i0.spec_enc(), s)) by {
            assert(s =~= i0.spec_enc() + spec_enc_seq(items.drop_first()));
            assert(s.take(i0.spec_enc().len() as int) =~= i0.spec_enc());
        }
        T::lemma_delimited_prefix(d0, i0, s);
        assert(spec_enc_seq(done.drop_first()) + rest =~= spec_enc_seq(items.drop_first())) by {
            let l = d0.spec_enc().len() as int;
            assert(spec_enc_seq(done.drop_first()) + rest =~= s.skip(l));
            assert(spec_enc_seq(items.drop_first()) =~= s.skip(l));
        }
        assert(all_enc_ok(done.drop_first())) by {
            assert forall|i: int| 0 <= i < done.drop_first().len() implies #[trigger] done.drop_first()[i].enc_ok() by {
                assert(done.drop_first()[i] == done[i + 1]);
            }
        }
        assert(all_enc_ok(items.drop_first())) by {
            assert forall|i: int| 0 <= i < items.drop_first().len() implies #[trigger] items.drop_first()[i].enc_ok() by {
                assert(items.drop_first()[i] == items[i + 1]);
            }
        }
        lemma_enc_seq_align(done.drop_first(), items.drop_first(), rest);
        let j1 = choose|j: int|
            0 <= j <= items.drop_first().len() && rest == spec_enc_seq(
                #[trigger] items.drop_first().skip(j),
            );
        assert(items.skip(j1 + 1) =~= items.drop_first().skip(j1));
        assert(rest == spec_enc_seq(items.skip(j1 + 1)));
    }
}

/// List round trip: two lists of legally encodable, self-delimiting
/// items with the same concatenated encoding have the same length and,
/// item by item, the same encodings. Together with the contracts of
/// `encode_vec_u8` and `read_vec_u8` this says that decoding the
/// encoding of a list gives back a list of the same items, in the same
/// order, wherever items with equal encodings are equal in content.
pub proof fn lemma_enc_seq_injective<'a, T: Codec<'a>>(a: Seq<T>, b: Seq<T>)
    requires
        T::is_delimited(),
        all_enc_ok(a),
        all_enc_ok(b),
        spec_enc_seq(a) == spec_enc_seq(b),
    ensures
        a.len() == b.len(),
        forall|i: int| 0 <= i < a.len() ==> #[trigger] a[i].spec_enc() == b[i].spec_enc(),
    decreases a.len(),
{
    if a.len() == 0 {
        if b.len() > 0 {
            T::lemma_delimited_nonempty(b.first());
            assert(spec_enc_seq(b).len() >= b.first().spec_enc().len());
        }
    } else {
        assert(b.len() > 0) by {
            T::lemma_delimited_nonempty(a.first());
            assert(spec_enc_seq(a).len() >= a.first().spec_enc().len());
        }
        let s = spec_enc_seq(a);
        let a0 = a.first();
        let b0 = b.first();
        assert(is_prefix_of(a0.spec_enc(), s)) by {
            assert(s.take(a0.spec_enc().len() as int) =~= a0.spec_enc());
        }
        assert(is_prefix_of(b0.spec_enc(), s)) by {
            assert(s =~= b0.spec_enc() + spec_enc_seq(b.drop_first()));
            assert(s.take(b0.spec_enc().len() as int) =~= b0.spec_enc());
        }
        T::lemma_delimited_prefix(a0, b0, s);
        assert(spec_enc_seq(a.drop_first()) =~= spec_enc_seq(b.drop_first())) by {
            let l = a0.spec_enc().len() as int;
            assert(spec_enc_seq(a.drop_first()) =~= s.skip(l));
            assert(spec_enc_seq(b.drop_first()) =~= s.skip(l));
        }
        assert(all_enc_ok(a.drop_first())) by {
            assert forall|i: int| 0 <= i < a.drop_first().len() implies #[trigger] a.drop_first()[i].enc_ok() by {
                assert(a.drop_first()[i] == a[i + 1]);
            }
        }
        assert(all_enc_ok(b.drop_first())) by {
            assert forall|i: int| 0 <= i < b.drop_first().len() implies #[trigger] b.drop_first()[i].enc_ok() by {
                assert(b.drop_first()[i] == b[i + 1]);
            }
        }
        lemma_enc_seq_injective(a.drop_first(), b.drop_first());
        assert forall|i: int| 0 <= i < a.len() implies #[trigger] a[i].spec_enc()
            == b[i].spec_enc() by {
            if i > 0 {
                assert(a.drop_first()[i - 1] == a[i]);
                assert(b.drop_first()[i - 1] == b[i]);
                assert(a.drop_first()[i - 1].spec_enc() == b.drop_first()[i - 1].spec_enc());
            }
        }
    }
}

/// True when `items` is a legally encodable list whose concatenated
/// encoding is exactly `body`.
pub open spec fn vec_body_of<'a, T: Codec<'a>>(body: Seq<u8>, items: Seq<T>) -> bool {
    all_enc_ok(items) && spec_enc_seq(items) == body
}

/// Encodes each item in order into one region, then writes a one-byte
/// length prefix for the region followed by the region itself.
pub fn encode_vec_u8<'a, T: Codec<'a>>(bytes: &mut Vec<u8>, items: &[T])
    requires
        all_enc_ok(items@),
        spec_enc_seq(items@).len() < 256,
    ensures
        final(bytes)@ == old(bytes)@ + be_bytes(spec_enc_seq(items@).len(), 1) + spec_enc_seq(
            items@,
        ),
{
    let mut sub: Vec<u8> = Vec::new();
    let n = items.len();
    let mut i: usize = 0;
    proof {
        assert(items@.take(0) =~= Seq::<T>::empty());
        assert(sub@ =~= spec_enc_seq(items@.take(0)));
    }
    while i < n
        invariant
            i <= n == items@.len(),
            all_enc_ok(items@),
            sub@ == spec_enc_seq(items@.take(i as int)),
        decreases n - i,
    {
        let item = vstd::slice::slice_index_get(items, i);
        proof {
            assert(items@[i as int].enc_ok());
        }
        item.encode(&mut sub);
        proof {
            lemma_enc_seq_push(items@.take(i as int), items@[i as int]);
            assert(items@.take(i + 1) =~= items@.take(i as int).push(items@[i as int]));
        }
        i = i + 1;
    }
    proof {
        assert(items@.take(n as int) =~= items@);
    }
    let total = sub.len();
    crate::endian::encode_u8(total as u8, bytes);
    bytes.append(&mut sub);
    proof {
        assert(final(bytes)@ =~= old(bytes)@ + be_bytes(spec_enc_seq(items@).len(), 1)
            + spec_enc_seq(items@));
    }
}

/// Reads a one-byte length prefix, bounds a child cursor to exactly that
/// many bytes, and decodes items from it until it is exhausted. If any
/// single item read fails, the whole list read fails: no partial list is
/// ever returned. On success the returned items' concatenated encodings
/// are exactly the prefixed region, and for a self-delimiting item type
/// a failure means the region is not the encoding of any list at all.
pub fn read_vec_u8<'a, T: Codec<'a>>(r: &mut Reader<'a>) -> (res: Option<Vec<T>>)
    requires
        old(r).wf(),
    ensures
        final(r).wf(),
        final(r).all_bytes() == old(r).all_bytes(),
        old(r).offset() <= final(r).offset() <= old(r).all_bytes().len(),
        (res matches Some(vs) ==> prefixed_ok(old(r).remaining(), 1) && vec_body_of(
            prefixed_body(old(r).remaining(), 1),
            vs@,
        ) && final(r).offset() == old(r).offset() + 1 + prefixed_body(
            old(r).remaining(),
            1,
        ).len()),
        ((T::is_delimited() && res is None) ==> !(prefixed_ok(old(r).remaining(), 1)
            && exists|items: Seq<T>|
                #[trigger] vec_body_of(prefixed_body(old(r).remaining(), 1), items))),
{
    let ghost rem0 = old(r).remaining();
    let len = match r.read_u8() {
        Some(l) => l,
        None => {
            proof {
                assert(!prefixed_ok(rem0, 1));
            }
            return None;
        },
    };
    let mut sub = match r.sub(len) {
        Some(s) => s,
        None => {
            proof {
                assert(!prefixed_ok(rem0, 1));
            }
            return None;
        },
    };
    let ghost region = sub.all_bytes();
    proof {
        assert(prefixed_ok(rem0, 1));
        assert(region =~= prefixed_body(rem0, 1));
    }
    let mut ret: Vec<T> = Vec::new();
    proof {
        assert(spec_enc_seq(ret@) =~= region.take(0));
    }
    while sub.any_left()
        invariant
            sub.wf(),
            sub.all_bytes() == region,
            spec_enc_seq(ret@) == region.take(sub.offset()),
            all_enc_ok(ret@),
            r.wf(),
            r.all_bytes() == old(r).all_bytes(),
            rem0 == old(r).remaining(),
            prefixed_ok(rem0, 1),
            region == prefixed_body(rem0, 1),
            r.offset() == old(r).offset() + 1 + region.len(),
        decreases region.len() - sub.offset(),
    {
        let ghost pre = sub;
        let ghost pre_ret = ret@;
        match T::read(&mut sub) {
            Some(v) => {
                proof {
                    let l = v.spec_enc().len() as int;
                    lemma_enc_seq_push(pre_ret, v);
                    assert(v.spec_enc() =~= region.subrange(pre.offset(), pre.offset() + l)) by {
                        assert(v.spec_enc() == pre.remaining().take(l));
                        assert(pre.remaining().take(l) =~= region.subrange(
                            pre.offset(),
                            pre.offset() + l,
                        ));
                    }
                    assert(region.take(sub.offset()) =~= region.take(pre.offset())
                        + region.subrange(pre.offset(), pre.offset() + l));
                    assert(all_enc_ok(pre_ret.push(v))) by {
                        assert forall|i: int| 0 <= i < pre_ret.push(v).len() implies #[trigger] pre_ret.push(
                            v,
                        )[i].enc_ok() by {
                            if i < pre_ret.len() {
                                assert(pre_ret.push(v)[i] == pre_ret[i]);
                            }
                        }
                    }
                }
                ret.push(v);
            },
            None => {
                proof {
                    if T::is_delimited() {
                        assert forall|items: Seq<T>| !(#[trigger] vec_body_of(
                            region,
                            items,
                        )) by {
                            if vec_body_of(region, items) {
                                assert(spec_enc_seq(ret@) + pre.remaining() =~= spec_enc_seq(
                                    items,
                                ));
                                lemma_enc_seq_align(ret@, items, pre.remaining());
                                let j = choose|j: int|
                                    0 <= j <= items.len() && pre.remaining() == spec_enc_seq(
                                        #[trigger] items.skip(j),
                                    );
                                assert(items.skip(j).len() > 0) by {
                                    if items.skip(j).len() == 0 {
                                        assert(spec_enc_seq(items.skip(j))
                                            =~= Seq::<u8>::empty());
                                    }
                                }
                                let w = items.skip(j).first();
                                assert(w.enc_ok()) by {
                                    assert(items.skip(j)[0] == items[j]);
                                    assert(items[j].enc_ok());
                                }
                                assert(is_prefix_of(w.spec_enc(), pre.remaining())) by {
                                    assert(pre.remaining() =~= w.spec_enc() + spec_enc_seq(
                                        items.skip(j).drop_first(),
                                    ));
                                    assert(pre.remaining().take(w.spec_enc().len() as int)
                                        =~= w.spec_enc());
                                }
                            }
                        }
                    }
                }
                return None;
            },
        }
    }
    proof {
        assert(sub.remaining().len() == 0);
        assert(sub.offset() == region.len());
        assert(region.take(region.len() as int) =~= region);
        assert(vec_body_of(region, ret@));
    }
    Some(ret)
}

} // verus!
