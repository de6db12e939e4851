use wirecodec::{
    decode_u16, decode_u24, decode_u32, decode_u64, decode_u8, encode_u16, encode_u24, encode_u32,
    encode_u64, encode_u8, encode_vec_u8, extend, put_u64, read_vec_u8, to_str, Codec, Payload,
    PayloadU16, PayloadU24, PayloadU8, Reader,
};

//every integer width decodes its own encoding, at exactly width/8 bytes
#[test]
fn integer_round_trips() {
    let mut v = Vec::new();
    encode_u8(0xAB, &mut v);
    assert_eq!(v.len(), 1);
    assert_eq!(decode_u8(&v), Some(0xAB));

    let mut v = Vec::new();
    encode_u16(0xBEEF, &mut v);
    assert_eq!(v.len(), 2);
    assert_eq!(v, [0xBE, 0xEF]);
    assert_eq!(decode_u16(&v), Some(0xBEEF));

    let mut v = Vec::new();
    encode_u24(0xABCDEF, &mut v);
    assert_eq!(v.len(), 3);
    assert_eq!(v, [0xAB, 0xCD, 0xEF]);
    assert_eq!(decode_u24(&v), Some(0xABCDEF));

    let mut v = Vec::new();
    encode_u32(0xDEADBEEF, &mut v);
    assert_eq!(v.len(), 4);
    assert_eq!(v, [0xDE, 0xAD, 0xBE, 0xEF]);
    assert_eq!(decode_u32(&v), Some(0xDEADBEEF));

    let mut v = Vec::new();
    encode_u64(0x0102030405060708, &mut v);
    assert_eq!(v.len(), 8);
    assert_eq!(v, [1, 2, 3, 4, 5, 6, 7, 8]);
    assert_eq!(decode_u64(&v), Some(0x0102030405060708));

    //extreme values survive too
    let mut v = Vec::new();
    encode_u64(u64::MAX, &mut v);
    assert_eq!(decode_u64(&v), Some(u64::MAX));
    let mut v = Vec::new();
    encode_u24(0xFFFFFF, &mut v);
    assert_eq!(decode_u24(&v), Some(0xFFFFFF));
}

//the decoders refuse slices shorter than their width
#[test]
fn decoders_check_length() {
    assert_eq!(decode_u8(&[]), None);
    assert_eq!(decode_u16(&[1]), None);
    assert_eq!(decode_u24(&[1, 2]), None);
    assert_eq!(decode_u32(&[1, 2, 3]), None);
    assert_eq!(decode_u64(&[1, 2, 3, 4, 5, 6, 7]), None);
}

//put_u64 overwrites the first eight bytes and nothing else
#[test]
fn put_u64_writes_in_place() {
    let mut buf = [0xEEu8; 10];
    put_u64(0x1122334455667788, &mut buf);
    assert_eq!(buf, [0x11, 0x22, 0x33, 0x44, 0x55, 0x66, 0x77, 0x88, 0xEE, 0xEE]);
}

//a payload of any width decodes its own encoding and drains the cursor
#[test]
fn payload_round_trips() {
    let body: Vec<u8> = vec![42, 0, 255, 7];

    let p = PayloadU8::new(body.clone());
    let enc = p.get_encoding();
    assert_eq!(enc.len(), 1 + 4);
    let mut r = Reader::init(&enc);
    let q = PayloadU8::read(&mut r).unwrap();
    assert_eq!(q.to_slice(), body.as_slice());
    assert_eq!(r.left(), 0);

    let p = PayloadU16::new(body.clone());
    let enc = p.get_encoding();
    assert_eq!(enc.len(), 2 + 4);
    let mut r = Reader::init(&enc);
    let q = PayloadU16::read(&mut r).unwrap();
    assert_eq!(q.to_slice(), body.as_slice());
    assert_eq!(r.left(), 0);

    let p = PayloadU24::new(body.clone());
    let enc = p.get_encoding();
    assert_eq!(enc.len(), 3 + 4);
    let mut r = Reader::init(&enc);
    let q = PayloadU24::read(&mut r).unwrap();
    assert_eq!(q.to_slice(), body.as_slice());
    assert_eq!(r.left(), 0);

    //an empty body round-trips as well
    let p = PayloadU8::new(Vec::new());
    let enc = p.get_encoding();
    assert_eq!(enc, [0]);
    let mut r = Reader::init(&enc);
    let q = PayloadU8::read(&mut r).unwrap();
    assert_eq!(q.len(), 0);
    assert_eq!(r.any_left(), false);
}

//a truncated payload body makes the read fail
#[test]
fn truncated_payload_fails() {
    //prefix says five bytes follow, only three do
    let wire: [u8; 4] = [5, 1, 2, 3];
    let mut r = Reader::init(&wire);
    assert!(PayloadU8::read(&mut r).is_none());

    let mut r = Reader::init(&wire);
    assert!(r.u8_encoded_slice().is_none());
}

//scenario: a one-byte length 10 then ten bytes of body
#[test]
fn width8_scenario() {
    let mut x = Vec::new();
    encode_u8(10, &mut x);
    x.extend_from_slice(&[0, 1, 2, 3, 4, 5, 6, 7, 8, 9]);
    let mut r = Reader::init(&x);
    let p = r.u8_payload().unwrap();
    assert_eq!(p.len(), 10);
    assert_eq!(p.to_slice(), &[0, 1, 2, 3, 4, 5, 6, 7, 8, 9]);
    assert_eq!(r.any_left(), false);
}

//scenario: the three-byte length path is genuine, not a masked u32
#[test]
fn width24_scenario() {
    let mut x = Vec::new();
    encode_u24(10, &mut x);
    assert_eq!(x, [0, 0, 10]);
    x.extend_from_slice(&[0, 1, 2, 3, 4, 5, 6, 7, 8, 9]);
    let mut r = Reader::init(&x);
    assert_eq!(r.read_u24().unwrap(), 10);
    assert_eq!(r.left(), 10);
}

//scenario: two text payloads as a vector, in order
#[test]
fn vector_of_text_payloads() {
    let hello = PayloadU8::from_slice(b"Hello");
    let world = PayloadU8::from_slice(b"World");
    let mut bytes = Vec::new();
    encode_vec_u8(&mut bytes, &[hello, world]);
    assert_eq!(bytes.len(), 1 + 6 + 6);
    let mut r = Reader::init(&bytes);
    let decoded: Vec<PayloadU8> = read_vec_u8(&mut r).unwrap();
    assert_eq!(decoded.len(), 2);
    assert_eq!(decoded[0].to_str().unwrap(), "Hello");
    assert_eq!(decoded[1].to_str().unwrap(), "World");
    assert_eq!(r.any_left(), false);
}

//a vector body holding a partial item fails as a whole
#[test]
fn truncated_vector_fails() {
    //overall length 5: one whole two-byte item, then a dangling prefix
    //that declares three bytes where only one follows
    let wire: [u8; 6] = [5, 1, 0xAA, 3, 0xBB, 0xCC];
    let mut r = Reader::init(&wire);
    let decoded: Option<Vec<PayloadU8>> = read_vec_u8(&mut r);
    assert!(decoded.is_none());
}

//an empty vector round-trips to an empty list
#[test]
fn empty_vector_round_trips() {
    let none: [PayloadU8; 0] = [];
    let mut bytes = Vec::new();
    encode_vec_u8(&mut bytes, &none);
    assert_eq!(bytes, [0]);
    let mut r = Reader::init(&bytes);
    let decoded: Vec<PayloadU8> = read_vec_u8(&mut r).unwrap();
    assert_eq!(decoded.len(), 0);
}

//text views go through real UTF-8 validation
#[test]
fn text_views() {
    assert_eq!(to_str(b"plain ascii"), Some("plain ascii"));
    assert_eq!(to_str(&[0xF0, 0x9F, 0x98, 0x80]), Some("\u{1F600}"));
    assert_eq!(to_str(&[0xFF, 0xFE]), None);

    let p = PayloadU16::new(vec![0xC3, 0xA9]);
    assert_eq!(p.to_str(), Some("\u{E9}"));
    let bad = PayloadU16::new(vec![0x80]);
    assert_eq!(bad.to_str(), None);
}

//an unprefixed payload wraps whatever remains, and consumes it
#[test]
fn unprefixed_payload_takes_rest() {
    let data: [u8; 5] = [1, 2, 3, 4, 5];
    let mut r = Reader::init(&data);
    r.take(2).unwrap();
    let p = Payload::read(&mut r).unwrap();
    assert_eq!(p.to_slice(), &[3, 4, 5]);
    assert_eq!(r.any_left(), false);

    //encoding appends the raw bytes, no prefix at all
    let enc = p.get_encoding();
    assert_eq!(enc, [3, 4, 5]);

    let e = Payload::empty();
    assert_eq!(e.len(), 0);
    let o = Payload::new(vec![9]);
    assert_eq!(o.len(), 1);
    let s = Payload::from_slice(&data);
    assert_eq!(s.len(), 5);
}

//the length-prefixed slice readers hand back exactly the framed bytes
#[test]
fn encoded_slice_paths() {
    let mut x = Vec::new();
    encode_u16(3, &mut x);
    x.extend_from_slice(&[7, 8, 9, 99]);
    let mut r = Reader::init(&x);
    assert_eq!(r.u16_encoded_slice().unwrap(), &[7, 8, 9]);
    assert_eq!(r.rest(), &[99]);

    let mut x = Vec::new();
    encode_u32(2, &mut x);
    x.extend_from_slice(&[4, 5]);
    let mut r = Reader::init(&x);
    assert_eq!(r.u32_encoded_slice().unwrap(), &[4, 5]);
    assert_eq!(r.any_left(), false);

    let mut x = Vec::new();
    encode_u64(1, &mut x);
    x.extend_from_slice(&[42]);
    let mut r = Reader::init(&x);
    assert_eq!(r.u64_encoded_slice().unwrap(), &[42]);
    assert_eq!(r.any_left(), false);

    let mut x = Vec::new();
    encode_u24(2, &mut x);
    x.extend_from_slice(&[13, 14]);
    let mut r = Reader::init(&x);
    assert_eq!(r.u24_encoded_slice().unwrap(), &[13, 14]);
    assert_eq!(r.any_left(), false);
}

//extend appends, leaving what was already there in place
#[test]
fn extend_appends() {
    let mut v: Vec<u8> = vec![1];
    extend(&[2, 3], &mut v);
    assert_eq!(v, [1, 2, 3]);
    extend(&[], &mut v);
    assert_eq!(v, [1, 2, 3]);
}
