use wirecodec::{
    decode_u16, decode_u24, decode_u32, decode_u64, decode_u8, encode_u16, encode_u24, encode_u32,
    encode_u64, encode_u8, encode_vec_u8, read_vec_u8, Codec, PayloadU16, PayloadU24, PayloadU32,
    PayloadU64, PayloadU8, Reader,
};

#[test]
fn test_encode_decode_u8() {
    /*
     * test from Reader::init
     */
    let mut x = Vec::new();
    encode_u8(10, &mut x);
    x.extend_from_slice(&[0, 1, 2, 3, 4, 5, 6, 7, 8, 9]);
    assert_eq!(x.len(), 11);
    assert_eq!(decode_u8(x.as_slice()), Some(10u8));
    let mut r = Reader::init(x.as_slice());
    let p = r.u8_payload().unwrap();
    assert_eq!(p.len(), 10);
    assert_eq!(p.to_slice(), &[0, 1, 2, 3, 4, 5, 6, 7, 8, 9]);

    /*
     * test from PayloadU8::read( )
     */
    let mut x = Vec::new();
    encode_u8(10, &mut x);
    x.extend_from_slice(&[0, 1, 2, 3, 4, 5, 6, 7, 8, 9]);
    let mut r = Reader::init(x.as_slice());
    let p = PayloadU8::read(&mut r).unwrap();
    assert_eq!(p.len(), 10);
    assert_eq!(p.to_slice(), &[0, 1, 2, 3, 4, 5, 6, 7, 8, 9]);
    assert_eq!(r.any_left(), false);

    /*
     * Test Bulk encoding/decoding
     */
    let x = PayloadU8::from_slice(b"Hello");
    let y = PayloadU8::from_slice(b"World");
    let mut bytes = Vec::new();
    encode_vec_u8(&mut bytes, &[x, y]);
    let mut out = Reader::init(bytes.as_slice());
    let words: Vec<PayloadU8> = read_vec_u8(&mut out).unwrap();
    assert_eq!(words.len(), 2);
    assert_eq!(words[0].to_str().unwrap(), "Hello");
    assert_eq!(words[1].to_str().unwrap(), "World");
}

#[test]
fn test_encode_decode_u16() {
    //test from Reader::init
    let mut x = Vec::new();
    encode_u16(10, &mut x);
    x.extend_from_slice(&[0, 1, 2, 3, 4, 5, 6, 7, 8, 9]);
    assert_eq!(x.len(), 12);
    assert_eq!(decode_u16(x.as_slice()), Some(10u16));
    let mut r = Reader::init(x.as_slice());
    let p = r.u16_payload().unwrap();
    assert_eq!(p.len(), 10);
    assert_eq!(p.to_slice(), &[0, 1, 2, 3, 4, 5, 6, 7, 8, 9]);

    //test from the PayLoadU8::read route
    let mut x = Vec::new();
    encode_u16(10, &mut x);
    x.extend_from_slice(&[0, 1, 2, 3, 4, 5, 6, 7, 8, 9]);
    let mut r = Reader::init(x.as_slice());
    let p = PayloadU16::read(&mut r).unwrap();
    assert_eq!(p.len(), 10);
    assert_eq!(p.to_slice(), &[0, 1, 2, 3, 4, 5, 6, 7, 8, 9]);
    assert_eq!(r.any_left(), false);
}

#[test]
fn test_encode_decode_u24() {
    //test from Reader::init
    let mut x = Vec::new();
    encode_u24(10, &mut x);
    x.extend_from_slice(&[0, 1, 2, 3, 4, 5, 6, 7, 8, 9]);
    assert_eq!(x.len(), 13);
    assert_eq!(decode_u24(x.as_slice()), Some(10u32));
    let mut r = Reader::init(x.as_slice());
    let p = r.u24_payload().unwrap();
    assert_eq!(p.len(), 10);
    assert_eq!(p.to_slice(), &[0, 1, 2, 3, 4, 5, 6, 7, 8, 9]);

    //test from the PayLoadU8::read route
    let mut x = Vec::new();
    encode_u24(10, &mut x);
    x.extend_from_slice(&[0, 1, 2, 3, 4, 5, 6, 7, 8, 9]);
    let mut r = Reader::init(x.as_slice());
    let p = PayloadU24::read(&mut r).unwrap();
    assert_eq!(p.len(), 10);
    assert_eq!(p.to_slice(), &[0, 1, 2, 3, 4, 5, 6, 7, 8, 9]);
    assert_eq!(r.any_left(), false);
}

#[test]
fn test_encode_decode_u32() {
    //test from Reader::init
    let mut x = Vec::new();
    encode_u32(10, &mut x);
    x.extend_from_slice(&[0, 1, 2, 3, 4, 5, 6, 7, 8, 9]);
    assert_eq!(x.len(), 14);
    assert_eq!(decode_u32(x.as_slice()), Some(10u32));
    let mut r = Reader::init(x.as_slice());
    let p = r.u32_payload().unwrap();
    assert_eq!(p.len(), 10);
    assert_eq!(p.to_slice(), &[0, 1, 2, 3, 4, 5, 6, 7, 8, 9]);

    //test from the PayLoadU8::read route
    let mut x = Vec::new();
    encode_u32(10, &mut x);
    x.extend_from_slice(&[0, 1, 2, 3, 4, 5, 6, 7, 8, 9]);
    let mut r = Reader::init(x.as_slice());
    let p = PayloadU32::read(&mut r).unwrap();
    assert_eq!(p.len(), 10);
    assert_eq!(p.to_slice(), &[0, 1, 2, 3, 4, 5, 6, 7, 8, 9]);
    assert_eq!(r.any_left(), false);
}

#[test]
fn test_encode_decode_u64() {
    //test from Reader::init
    let mut x = Vec::new();
    encode_u64(10, &mut x);
    x.extend_from_slice(&[0, 1, 2, 3, 4, 5, 6, 7, 8, 9]);
    assert_eq!(x.len(), 18);
    assert_eq!(decode_u64(x.as_slice()), Some(10u64));
    let mut r = Reader::init(x.as_slice());
    let p = r.u64_payload().unwrap();
    assert_eq!(p.len(), 10);
    assert_eq!(p.to_slice(), &[0, 1, 2, 3, 4, 5, 6, 7, 8, 9]);

    //test from the PayLoadU8::read route
    let mut x = Vec::new();
    encode_u64(10, &mut x);
    x.extend_from_slice(&[0, 1, 2, 3, 4, 5, 6, 7, 8, 9]);
    let mut r = Reader::init(x.as_slice());
    let p = PayloadU64::read(&mut r).unwrap();
    assert_eq!(p.len(), 10);
    assert_eq!(p.to_slice(), &[0, 1, 2, 3, 4, 5, 6, 7, 8, 9]);
    assert_eq!(r.any_left(), false);
}
