//! Fixed-width big-endian (network byte order) integer codec.
//!
//! The mathematical model is `be_val`, the value of a byte sequence read
//! most-significant byte first, and `be_bytes`, the width-`n` big-endian
//! encoding of a value. Every encode and decode function is specified
//! against these two functions.
use vstd::arithmetic::div_mod::{lemma_fundamental_div_mod, lemma_fundamental_div_mod_converse};
use vstd::prelude::*;

verus! {

/// 256 raised to the power `n`: the number of distinct values of an
/// `n`-byte big-endian integer.
pub open spec fn pow256(n: nat) -> nat
    decreases n,
{
    if n == 0 {
        1
    } else {
        256 * pow256((n - 1) as nat)
    }
}

/// The value of a byte sequence interpreted as a big-endian integer:
/// the most-significant byte comes first.
pub open spec fn be_val(s: Seq<u8>) -> nat
    decreases s.len(),
{
    if s.len() == 0 {
        0
    } else {
        be_val(s.drop_last()) * 256 + s.last() as nat
    }
}

/// The `n`-byte big-endian encoding of `v`; faithful when `v < pow256(n)`.
pub open spec fn be_bytes(v: nat, n: nat) -> Seq<u8>
    decreases n,
{
    if n == 0 {
        Seq::empty()
    } else {
        be_bytes(v / 256, (n - 1) as nat).push((v % 256) as u8)
    }
}

/// The concrete sizes of the five prefix widths, and of every width up
/// to eight bytes.
pub proof fn lemma_pow256_values()
    ensures
        pow256(0) == 1,
        pow256(1) == 0x100,
        pow256(2) == 0x10000,
        pow256(3) == 0x1000000,
        pow256(4) == 0x100000000,
        pow256(5) == 0x10000000000,
        pow256(6) == 0x1000000000000,
        pow256(7) == 0x100000000000000,
        pow256(8) == 0x10000000000000000,
{
    reveal_with_fuel(pow256, 9);
}

pub proof fn lemma_pow256_pos(n: nat)
    ensures
        pow256(n) >= 1,
    decreases n,
{
    if n > 0 {
        lemma_pow256_pos((n - 1) as nat);
    }
}

pub proof fn lemma_pow256_increases(a: nat, b: nat)
    requires
        a <= b,
    ensures
        pow256(a) <= pow256(b),
    decreases b,
{
    if a < b {
        lemma_pow256_increases(a, (b - 1) as nat);
        lemma_pow256_pos((b - 1) as nat);
    }
}

pub proof fn lemma_be_bytes_len(v: nat, n: nat)
    ensures
        be_bytes(v, n).len() == n,
    decreases n,
{
    if n > 0 {
        lemma_be_bytes_len(v / 256, (n - 1) as nat);
    }
}

/// Integer round trip: decoding the width-`n` encoding of `v` gives `v`
/// back, and the encoding is exactly `n` bytes long.
pub proof fn lemma_be_val_of_be_bytes(v: nat, n: nat)
    requires
        v < pow256(n),
    ensures
        be_bytes(v, n).len() == n,
        be_val(be_bytes(v, n)) == v,
    decreases n,
{
    lemma_be_bytes_len(v, n);
    if n == 0 {
        assert(be_val(Seq::<u8>::empty()) == 0);
    } else {
        let m = (n - 1) as nat;
        assert(v / 256 < pow256(m)) by {
            lemma_pow256_pos(m);
            lemma_div_by_multiple_bound(v, pow256(m));
        }
        lemma_be_val_of_be_bytes(v / 256, m);
        let s = be_bytes(v, n);
        assert(s.drop_last() =~= be_bytes(v / 256, m));
        assert(s.last() == (v % 256) as u8);
        lemma_fundamental_div_mod(v as int, 256);
    }
}

/// Helper: from `v < 256 * p` conclude `v / 256 < p`.
proof fn lemma_div_by_multiple_bound(v: nat, p: nat)
    requires
        p >= 1,
        v < 256 * p,
    ensures
        v / 256 < p,
{
    assert(v / 256 < p) by (nonlinear_arith)
        requires
            p >= 1,
            v < 256 * p,
    ;
}

/// Encoding is the inverse of decoding: every byte sequence is the
/// big-endian encoding of its own value, and that value is bounded by the
/// sequence's width.
pub proof fn lemma_be_bytes_of_be_val(s: Seq<u8>)
    ensures
        be_val(s) < pow256(s.len()),
        be_bytes(be_val(s), s.len()) == s,
    decreases s.len(),
{
    if s.len() == 0 {
        assert(be_bytes(0, 0) =~= s);
    } else {
        let d = s.drop_last();
        lemma_be_bytes_of_be_val(d);
        let v = be_val(s);
        let dv = be_val(d);
        let last = s.last() as nat;
        let p = pow256((s.len() - 1) as nat);
        assert(v == dv * 256 + last);
        assert(v < 256 * p) by (nonlinear_arith)
            requires
                v == dv * 256 + last,
                last < 256,
                dv < p,
        ;
        lemma_fundamental_div_mod_converse(v as int, 256, dv as int, last as int);
        assert(v / 256 == dv);
        assert(v % 256 == last);
        assert(be_bytes(v, s.len()) =~= s);
    }
}

/// Appends the `n`-byte big-endian encoding of `v` to `bytes`.
fn encode_uint(v: u64, n: usize, bytes: &mut Vec<u8>)
    requires
        n <= 8,
        (v as nat) < pow256(n as nat),
    ensures
        final(bytes)@ == old(bytes)@ + be_bytes(v as nat, n as nat),
    decreases n,
{
    if n == 0 {
        assert(final(bytes)@ =~= old(bytes)@ + be_bytes(v as nat, 0));
        return ;
    }
    let m = n - 1;
    proof {
        lemma_pow256_pos(m as nat);
        lemma_div_by_multiple_bound(v as nat, pow256(m as nat));
        assert(v as nat / 256 == (v / 256) as nat);
    }
    encode_uint(v / 256, m, bytes);
    bytes.push((v % 256) as u8);
    proof {
        assert(final(bytes)@ =~= old(bytes)@ + be_bytes(v as nat, n as nat));
    }
}

/// Appends the value as one byte.
pub fn encode_u8(v: u8, bytes: &mut Vec<u8>)
    ensures
        final(bytes)@ == old(bytes)@ + be_bytes(v as nat, 1),
{
    proof {
        lemma_pow256_values();
    }
    encode_uint(v as u64, 1, bytes);
}

/// Appends the value as two bytes, most-significant first.
pub fn encode_u16(v: u16, bytes: &mut Vec<u8>)
    ensures
        final(bytes)@ == old(bytes)@ + be_bytes(v as nat, 2),
{
    proof {
        lemma_pow256_values();
    }
    encode_uint(v as u64, 2, bytes);
}

/// Appends the low 24 bits of the value as three bytes, most-significant
/// first; the value must fit in 24 bits.
pub fn encode_u24(v: u32, bytes: &mut Vec<u8>)
    requires
        v < 0x1000000,
    ensures
        final(bytes)@ == old(bytes)@ + be_bytes(v as nat, 3),
{
    proof {
        lemma_pow256_values();
    }
    encode_uint(v as u64, 3, bytes);
}

/// Appends the value as four bytes, most-significant first.
pub fn encode_u32(v: u32, bytes: &mut Vec<u8>)
    ensures
        final(bytes)@ == old(bytes)@ + be_bytes(v as nat, 4),
{
    proof {
        lemma_pow256_values();
    }
    encode_uint(v as u64, 4, bytes);
}

/// Appends the value as eight bytes, most-significant first.
pub fn encode_u64(v: u64, bytes: &mut Vec<u8>)
    ensures
        final(bytes)@ == old(bytes)@ + be_bytes(v as nat, 8),
{
    proof {
        lemma_pow256_values();
    }
    encode_uint(v, 8, bytes);
}

/// Writes the eight-byte big-endian encoding of `v` over the first eight
/// bytes of `bytes`, leaving the rest untouched.
pub fn put_u64(v: u64, bytes: &mut [u8])
    requires
        old(bytes)@.len() >= 8,
    ensures
        final(bytes)@.len() == old(bytes)@.len(),
        final(bytes)@.take(8) == be_bytes(v as nat, 8),
        final(bytes)@.skip(8) == old(bytes)@.skip(8),
{
    proof {
        lemma_pow256_values();
    }
    let mut w: u64 = v;
    let mut j: usize = 0;
    while j < 8
        invariant
            j <= 8,
            bytes@.len() == old(bytes)@.len() >= 8,
            (w as nat) < pow256((8 - j) as nat),
            be_bytes(w as nat, (8 - j) as nat) + bytes@.subrange(8 - j, 8) == be_bytes(
                v as nat,
                8,
            ),
            bytes@.skip(8) == old(bytes)@.skip(8),
        decreases 8 - j,
    {
        let ghost prev = bytes@;
        let ghost wn = w as nat;
        let ghost k = (8 - j) as nat;
        bytes[7 - j] = (w % 256) as u8;
        proof {
            lemma_pow256_pos((k - 1) as nat);
            lemma_div_by_multiple_bound(wn, pow256((k - 1) as nat));
            assert(be_bytes(wn, k) == be_bytes(wn / 256, (k - 1) as nat).push((wn % 256) as u8));
            assert(be_bytes(wn / 256, (k - 1) as nat) + bytes@.subrange(8 - j - 1, 8) =~= be_bytes(
                wn,
                k,
            ) + prev.subrange(8 - j, 8));
            assert(bytes@.skip(8) =~= prev.skip(8));
            assert(wn / 256 == (w / 256) as nat);
        }
        w = w / 256;
        j = j + 1;
    }
    proof {
        assert(be_bytes(w as nat, 0) + bytes@.subrange(0, 8) =~= bytes@.take(8));
    }
}

/// Reads the first `n` bytes of the slice as a big-endian integer;
/// `None` when fewer than `n` bytes are available.
fn decode_uint(bytes: &[u8], n: usize) -> (r: Option<u64>)
    requires
        1 <= n <= 8,
    ensures
        bytes@.len() >= n ==> (r matches Some(v) && v as nat == be_val(bytes@.take(n as int))),
        bytes@.len() < n ==> r is None,
{
    if bytes.len() < n {
        return None;
    }
    let mut acc: u64 = 0;
    let mut i: usize = 0;
    proof {
        lemma_pow256_increases(n as nat, 8);
        lemma_pow256_values();
        assert(bytes@.take(0) =~= Seq::<u8>::empty());
    }
    while i < n
        invariant
            i <= n <= 8,
            n <= bytes@.len(),
            acc as nat == be_val(bytes@.take(i as int)),
            (acc as nat) < pow256(i as nat),
            pow256(n as nat) <= 0x10000000000000000,
        decreases n - i,
    {
        let b = *vstd::slice::slice_index_get(bytes, i);
        proof {
            let t = bytes@.take(i + 1);
            assert(t.drop_last() =~= bytes@.take(i as int));
            assert(t.last() == bytes@[i as int]);
            lemma_pow256_increases((i + 1) as nat, n as nat);
            let a = acc as nat;
            let bn = b as nat;
            let p = pow256(i as nat);
            assert(a * 256 + bn < 256 * p) by (nonlinear_arith)
                requires
                    a < p,
                    bn < 256,
            ;
        }
        acc = acc * 256 + b as u64;
        i = i + 1;
    }
    Some(acc)
}

/// Decodes a one-byte big-endian integer from the front of the slice;
/// `None` when the slice is empty.
pub fn decode_u8(bytes: &[u8]) -> (r: Option<u8>)
    ensures
        bytes@.len() >= 1 ==> (r matches Some(v) && v as nat == be_val(bytes@.take(1))),
        bytes@.len() < 1 ==> r is None,
{
    proof {
        lemma_be_bytes_of_be_val(bytes@.take(1));
        lemma_pow256_values();
    }
    match decode_uint(bytes, 1) {
        Some(v) => Some(v as u8),
        None => None,
    }
}

/// Decodes a two-byte big-endian integer from the front of the slice;
/// `None` when fewer than two bytes are available.
pub fn decode_u16(bytes: &[u8]) -> (r: Option<u16>)
    ensures
        bytes@.len() >= 2 ==> (r matches Some(v) && v as nat == be_val(bytes@.take(2))),
        bytes@.len() < 2 ==> r is None,
{
    proof {
        lemma_be_bytes_of_be_val(bytes@.take(2));
        lemma_pow256_values();
    }
    match decode_uint(bytes, 2) {
        Some(v) => Some(v as u16),
        None => None,
    }
}

/// Decodes a three-byte big-endian integer from the front of the slice;
/// `None` when fewer than three bytes are available. This is a genuine
/// three-byte read, not a masked four-byte one.
pub fn decode_u24(bytes: &[u8]) -> (r: Option<u32>)
    ensures
        bytes@.len() >= 3 ==> (r matches Some(v) && v as nat == be_val(bytes@.take(3))),
        bytes@.len() < 3 ==> r is None,
{
    proof {
        lemma_be_bytes_of_be_val(bytes@.take(3));
        lemma_pow256_values();
    }
    match decode_uint(bytes, 3) {
        Some(v) => Some(v as u32),
        None => None,
    }
}

/// Decodes a four-byte big-endian integer from the front of the slice;
/// `None` when fewer than four bytes are available.
pub fn decode_u32(bytes: &[u8]) -> (r: Option<u32>)
    ensures
        bytes@.len() >= 4 ==> (r matches Some(v) && v as nat == be_val(bytes@.take(4))),
        bytes@.len() < 4 ==> r is None,
{
    proof {
        lemma_be_bytes_of_be_val(bytes@.take(4));
        lemma_pow256_values();
    }
    match decode_uint(bytes, 4) {
        Some(v) => Some(v as u32),
        None => None,
    }
}

/// Decodes an eight-byte big-endian integer from the front of the slice;
/// `None` when fewer than eight bytes are available.
pub fn decode_u64(bytes: &[u8]) -> (r: Option<u64>)
    ensures
        bytes@.len() >= 8 ==> (r matches Some(v) && v as nat == be_val(bytes@.take(8))),
        bytes@.len() < 8 ==> r is None,
{
    decode_uint(bytes, 8)
}

} // verus!
