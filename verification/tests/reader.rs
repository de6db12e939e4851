use wirecodec::{encode_u8, Reader};

//Reader
#[test]
fn validate_reader() {
    //According to my understand reader is a borrowed slice + a len
    //When a read happens the `offs` value is modified, incremented
    //to account for the new data being _removed/read_ from the
    //structure
    //
    //The goal of this test is to help myself understand it's behavior
    //as well as extensively validate it's functionality.
    //
    //The { } blocks are used to ensure the borrow checker does not
    //get angry with me

    //construct test data
    let test_data: [u8; 10] = [0, 1, 2, 3, 4, 5, 6, 7, 8, 9];
    let mut r = Reader::init(&test_data);

    //validate initial state of the buffer
    {
        assert_eq!(r.rest(), &test_data);
        assert_eq!(r.any_left(), true);
        assert_eq!(r.left(), 10);
        assert_eq!(r.used(), 0);
    }

    //take will copy data out of the buffer
    {
        let x = r.take(2).unwrap();
        //validate the new data
        assert_eq!(x, &[0u8, 1u8]);
    }
    {
        //see what is left in read
        assert_eq!(r.rest(), &[2, 3, 4, 5, 6, 7, 8, 9]);
        assert_eq!(r.any_left(), true);
        assert_eq!(r.left(), 8);
        assert_eq!(r.used(), 2);
    }

    //Sub borrowed reader, of the remaining data
    {
        //you cannot borrow more data then there is left
        let x = r.sub(10);
        assert!(x.is_none());
    }
    {
        //create a new reader of all the data left in r
        let x = r.sub(8).unwrap();
        assert_eq!(x.rest(), &[2, 3, 4, 5, 6, 7, 8, 9]);
        assert_eq!(x.any_left(), true);
        assert_eq!(x.left(), 8);
        //this operation _resets_ the used count
        assert_eq!(x.used(), 0);
    }

    //validate the state of the empty reader
    {
        assert_eq!(r.any_left(), false);
        assert_eq!(r.used(), 10);
        assert_eq!(r.left(), 0);
    }
}

//Encode/Decode
#[test]
fn validate_encode_decode_read() {
    //Encode, Decode, and Read functions are for insert, and removing
    //integers from values

    //build test data
    let mut v: Vec<u8> = vec![0, 1, 2, 3, 4, 5, 6, 7, 8, 9];

    //validate date data
    assert_eq!(v.len(), 10);
    assert_eq!(v.as_slice(), &[0, 1, 2, 3, 4, 5, 6, 7, 8, 9]);

    //encode a u8 value
    encode_u8(80, &mut v);
    assert_eq!(v.len(), 11);
    assert_eq!(v.as_slice(), &[0, 1, 2, 3, 4, 5, 6, 7, 8, 9, 80]);
}

//a sub-cursor starts fresh and never moves its parent past the taken bytes
#[test]
fn sub_cursor_isolation() {
    let data: [u8; 6] = [9, 8, 7, 6, 5, 4];
    let mut parent = Reader::init(&data);
    assert_eq!(parent.take(2).unwrap(), &[9, 8]);

    let mut child = parent.sub(3).unwrap();
    assert_eq!(child.used(), 0);
    assert_eq!(child.left(), 3);

    //consume the child completely
    assert_eq!(child.take(3).unwrap(), &[7, 6, 5]);
    assert_eq!(child.any_left(), false);

    //the parent only moved past the three bytes taken for the child
    assert_eq!(parent.used(), 5);
    assert_eq!(parent.left(), 1);
    assert_eq!(parent.rest(), &[4]);
}

//a failed fixed-width read leaves the cursor untouched
#[test]
fn short_reads_do_not_advance() {
    let one: [u8; 1] = [0xAA];
    let mut r = Reader::init(&one);
    assert!(r.read_u16().is_none());
    assert_eq!(r.used(), 0);
    let mut r = Reader::init(&one);
    assert!(r.read_u24().is_none());
    assert_eq!(r.used(), 0);
    let mut r = Reader::init(&one);
    assert!(r.read_u32().is_none());
    assert_eq!(r.used(), 0);

    let seven: [u8; 7] = [1, 2, 3, 4, 5, 6, 7];
    let mut r = Reader::init(&seven);
    assert!(r.read_u64().is_none());
    assert_eq!(r.used(), 0);

    let empty: [u8; 0] = [];
    let mut r = Reader::init(&empty);
    assert!(r.read_u8().is_none());
    assert_eq!(r.used(), 0);

    //a failed take is just as harmless
    let mut r = Reader::init(&seven);
    assert!(r.take(8).is_none());
    assert_eq!(r.used(), 0);
}

//each typed read consumes exactly its width and is big-endian
#[test]
fn typed_reads_are_big_endian() {
    let data: [u8; 18] = [
        0x01, 0x02, 0x03, 0x04, 0x05, 0x06, 0x07, 0x08, 0x09, 0x0A, 0x0B, 0x0C, 0x0D, 0x0E, 0x0F,
        0x10, 0x11, 0x12,
    ];
    let mut r = Reader::init(&data);
    assert_eq!(r.read_u8().unwrap(), 0x01);
    assert_eq!(r.read_u16().unwrap(), 0x0203);
    assert_eq!(r.read_u24().unwrap(), 0x040506);
    assert_eq!(r.read_u32().unwrap(), 0x0708090A);
    assert_eq!(r.read_u64().unwrap(), 0x0B0C0D0E0F101112);
    assert_eq!(r.any_left(), false);
}
