use pepper::serialization::{DeserializationSlice, Deserializer, SerializationBuf, Serialize, Serializer};

#[test]
fn numbers_are_little_endian() {
    let mut buf = SerializationBuf::default();
    0x12u8.serialize(&mut buf);
    0x3456u16.serialize(&mut buf);
    0x789abcdeu32.serialize(&mut buf);
    assert_eq!(&[0x12, 0x56, 0x34, 0xde, 0xbc, 0x9a, 0x78], buf.as_slice());
}

#[test]
fn numbers_and_chars_roundtrip() {
    let mut buf = SerializationBuf::default();
    7u8.serialize(&mut buf);
    65535u16.serialize(&mut buf);
    u32::MAX.serialize(&mut buf);
    'é'.serialize(&mut buf);

    let mut slice = DeserializationSlice::from_slice(buf.as_slice());
    assert_eq!(7, u8::deserialize(&mut slice).ok().unwrap());
    assert_eq!(65535, u16::deserialize(&mut slice).ok().unwrap());
    assert_eq!(u32::MAX, u32::deserialize(&mut slice).ok().unwrap());
    assert_eq!('é', char::deserialize(&mut slice).ok().unwrap());
    assert_eq!(0, slice.as_slice().len());
    assert!(u8::deserialize(&mut slice).is_err());
}

#[test]
fn invalid_char_code_is_an_error() {
    let mut buf = SerializationBuf::default();
    0xd800u32.serialize(&mut buf);
    let mut slice = DeserializationSlice::from_slice(buf.as_slice());
    assert!(char::deserialize(&mut slice).is_err());
    assert_eq!(0, slice.as_slice().len());
}

#[test]
fn string_is_length_then_bytes() {
    let mut buf = SerializationBuf::default();
    "héllo".serialize(&mut buf);
    assert_eq!(&[6, 0, 0, 0, b'h', 0xc3, 0xa9, b'l', b'l', b'o'], buf.as_slice());
    buf.clear();
    assert_eq!(0, buf.as_slice().len());
}

#[test]
fn string_reads_ten_bytes() {
    let bytes = b"0123456789rest";
    let mut slice = DeserializationSlice::from_slice(bytes);
    assert_eq!("0123456789", <&str>::deserialize(&mut slice).ok().unwrap());
    assert_eq!(b"rest", slice.as_slice());
    assert!(<&str>::deserialize(&mut slice).is_err());
    assert_eq!(b"rest", slice.as_slice());

    let invalid = [0xffu8; 10];
    let mut slice = DeserializationSlice::from_slice(&invalid);
    assert!(<&str>::deserialize(&mut slice).is_err());
    assert_eq!(0, slice.as_slice().len());
}

#[test]
fn reading_past_the_end_keeps_the_bytes() {
    let bytes = [1u8, 2, 3];
    let mut slice = DeserializationSlice::from_slice(&bytes);
    assert!(slice.read(4).is_err());
    assert_eq!(&[1, 2, 3], slice.as_slice());
    assert_eq!(&[1, 2], slice.read(2).ok().unwrap());
    assert_eq!(&[3], slice.as_slice());
    let mut buf = SerializationBuf::default();
    buf.write(&[9, 8]);
    assert_eq!(&[9, 8], buf.as_slice());
}
