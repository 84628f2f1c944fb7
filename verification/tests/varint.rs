use netsys::{decode, encode, take_until_inclusive, ByteStream};

#[test]
fn test_encode_0() {
    let mut iter = encode(0).into_iter();
    assert_eq!(iter.next(), Some(0));
    assert_eq!(iter.next(), None);
}

#[test]
fn test_encode_1() {
    let mut iter = encode(1).into_iter();
    assert_eq!(iter.next(), Some(1));
    assert_eq!(iter.next(), None);
}

#[test]
fn test_encode_150() {
    let mut iter = encode(150).into_iter();
    assert_eq!(iter.next(), Some(0x96));
    assert_eq!(iter.next(), Some(0x01));
    assert_eq!(iter.next(), None);
}

#[test]
fn decode_multi() {
    let mut data: Vec<u8> = Vec::new();
    for v in [123u128, 456, 1337] {
        data.extend(encode(v));
    }
    let mut iter = ByteStream::new(data);
    assert_eq!(decode(&mut iter), Some(123));
    assert_eq!(decode(&mut iter), Some(456));
    assert_eq!(decode(&mut iter), Some(1337));
    assert_eq!(decode(&mut iter), None);
}

#[test]
fn encode_decode_round_trip_edges() {
    for v in [0u128, 127, 128, 16383, 16384, u64::MAX as u128, u128::MAX] {
        let bytes = encode(v);
        assert!(bytes.len() <= 19);
        let mut stream = ByteStream::new(bytes);
        assert_eq!(decode(&mut stream), Some(v));
        assert_eq!(decode(&mut stream), None);
    }
}

#[test]
fn take_until_inclusive_keeps_terminator() {
    // two continuation bytes, a terminator, then unrelated data
    let mut stream = ByteStream::new(vec![0x80, 0x81, 0x05, 0x99, 0x01]);
    let taken = take_until_inclusive(&mut stream);
    assert_eq!(taken, vec![0x80, 0x81, 0x05]);
    let rest = take_until_inclusive(&mut stream);
    assert_eq!(rest, vec![0x99, 0x01]);
}

#[test]
fn decode_empty_stream_is_none() {
    let mut stream = ByteStream::new(Vec::new());
    assert_eq!(decode(&mut stream), None);
}
