use netsys::{
    beep_count, header_response_body, parse_headers, response_head, shout_reply, Answer, Answers,
    BmpError, DnsError, Query, BMP,
};

fn sample_bmp(width: u32, height: u32, bpp: u16) -> Vec<u8> {
    // 14 bytes of file header, 124 of information header, then pixels
    let offset: u32 = 138;
    let mut data = vec![0u8; 138];
    data[0] = 0x42;
    data[1] = 0x4d;
    data[10..14].copy_from_slice(&offset.to_le_bytes());
    data[18..22].copy_from_slice(&width.to_le_bytes());
    data[22..26].copy_from_slice(&height.to_le_bytes());
    data[28..30].copy_from_slice(&bpp.to_le_bytes());
    data.extend(std::iter::repeat(0u8).take((3 * width * height) as usize));
    data
}

#[test]
fn bmp_new_parses_header_fields() {
    let data = sample_bmp(2, 2, 24);
    let image = BMP::new(&data).unwrap();
    assert_eq!(image.size(), (2, 2));
    assert_eq!(image.info.offset, 138);
    assert_eq!(image.info.bpp, 24);
}

#[test]
fn bmp_new_rejects_short_input() {
    assert_eq!(BMP::new(&[0u8; 137]), Err(BmpError::Truncated));
}

#[test]
fn bmp_new_rejects_other_depths() {
    let data = sample_bmp(2, 2, 32);
    assert_eq!(BMP::new(&data), Err(BmpError::UnsupportedBpp));
}

#[test]
fn bmp_set_then_get_round_trip() {
    let data = sample_bmp(2, 2, 24);
    let mut image = BMP::new(&data).unwrap();
    assert_eq!(image.set((1, 0), [10, 20, 30]), Some(()));
    assert_eq!(image.get((1, 0)), Some([10, 20, 30]));
    // stored reversed, bottom row first: (1, 0) is the top row
    assert_eq!(image.data[138 + 3 * 2 + 3], 30);
    assert_eq!(image.data[138 + 3 * 2 + 4], 20);
    assert_eq!(image.data[138 + 3 * 2 + 5], 10);
    // untouched pixel
    assert_eq!(image.get((0, 0)), Some([0, 0, 0]));
}

#[test]
fn bmp_get_out_of_bounds_is_none() {
    let data = sample_bmp(2, 2, 24);
    let image = BMP::new(&data).unwrap();
    assert_eq!(image.get((2, 0)), None);
    assert_eq!(image.get((0, 2)), None);
    assert_eq!(image.pixel_index((0, 0)), Some(138 + 3 * 2));
}

#[test]
fn query_encodes_header_and_question() {
    let query = Query(b"ab.c".to_vec());
    let bytes = query.encode().unwrap();
    let expected = [
        5, 57, 1, 0, 0, 1, 0, 0, 0, 0, 0, 0, // header
        2, b'a', b'b', 1, b'c', 0, // QNAME
        0, 1, 0, 1, // type A, class IN
    ];
    assert_eq!(bytes, expected.to_vec());
}

#[test]
fn query_encodes_empty_domain_as_one_empty_label() {
    let query = Query(Vec::new());
    let question = query.encode_question().unwrap();
    assert_eq!(question, vec![0, 0, 0, 1, 0, 1]);
}

#[test]
fn query_rejects_overlong_label() {
    let query = Query(vec![b'a'; 256]);
    assert_eq!(query.encode(), Err(DnsError::LabelTooLong));
    assert_eq!(Query::encode_header().len(), 12);
}

#[test]
fn answers_parse_a_response() {
    // header says one answer; the 16-byte record sits at the end
    let mut response = vec![5, 57, 0x81, 0x80, 0, 1, 0, 1, 0, 0, 0, 0];
    response.extend([
        0xc0, 0x0c, // compressed name
        0, 1, // type A
        0, 1, // class IN
        0, 0, 0, 60, // TTL
        0, 4, // data length
        1, 2, 3, 4, // address
    ]);
    let answers = Answers::try_from(&response).unwrap();
    assert_eq!(answers.0.len(), 1);
    let answer = &answers.0[0];
    assert_eq!(answer.rtype, 1);
    assert_eq!(answer.class, 1);
    assert_eq!(answer.ttl, 60);
    assert_eq!(answer.address, [1, 2, 3, 4]);
    assert_eq!(answer.display_string(), "1.2.3.4 (TTL = 60)");
}

#[test]
fn answers_reject_short_response() {
    // the header announces two answers but only one record follows
    let mut response = vec![5, 57, 0x81, 0x80, 0, 1, 0, 2, 0, 0, 0, 0];
    response.extend([0u8; 16]);
    assert_eq!(Answers::try_from(&response), Err(DnsError::NotEnoughBytes));
    assert_eq!(Answers::try_from(&[0u8; 7]), Err(DnsError::NotEnoughBytes));
    assert_eq!(Answer::try_from(&[0u8; 15]), Err(DnsError::NotEnoughBytes));
}

#[test]
fn headers_parse_until_blank_line() {
    let head = b"GET / HTTP/1.1\r\nHost: example.com\r\nAccept: */*\r\n\r\nBody: not a header";
    let pairs = parse_headers(head);
    assert_eq!(pairs.len(), 2);
    assert_eq!(pairs[0], (b"Host".to_vec(), b"example.com".to_vec()));
    assert_eq!(pairs[1], (b"Accept".to_vec(), b"*/*".to_vec()));
}

#[test]
fn headers_split_at_first_separator_only() {
    let pairs = parse_headers(b"Key: a: b\nNoSeparator\nLast: v");
    assert_eq!(pairs.len(), 2);
    assert_eq!(pairs[0], (b"Key".to_vec(), b"a: b".to_vec()));
    assert_eq!(pairs[1], (b"Last".to_vec(), b"v".to_vec()));
}

#[test]
fn header_response_is_sorted_pretty_json() {
    let head = b"GET / HTTP/1.1\r\nHost: example.com\r\nAccept: */*\r\n\r\n";
    let body = header_response_body(head);
    assert_eq!(
        body,
        "{\n  \"Accept\": \"*/*\",\n  \"Host\": \"example.com\"\n}"
    );
    assert_eq!(response_head(), "HTTP/1.1 200 OK\r\n\r\n");
}

#[test]
fn shout_uppercases() {
    assert_eq!(shout_reply("hello, world"), "HELLO, WORLD");
    assert_eq!(shout_reply(""), "");
}

#[test]
fn beep_counts_digits_only() {
    assert_eq!(beep_count(b'0'), 0);
    assert_eq!(beep_count(b'5'), 5);
    assert_eq!(beep_count(b'9'), 9);
    assert_eq!(beep_count(b'a'), 0);
    assert_eq!(beep_count(0x07), 0);
}

#[test]
fn bmp_rotated_quarter_turn() {
    let data = sample_bmp(2, 2, 24);
    let mut image = BMP::new(&data).unwrap();
    // distinct colors per pixel
    image.set((0, 0), [1, 0, 0]).unwrap();
    image.set((1, 0), [2, 0, 0]).unwrap();
    image.set((0, 1), [3, 0, 0]).unwrap();
    image.set((1, 1), [4, 0, 0]).unwrap();
    let turned = image.rotated();
    // (x, y) of the result comes from (y, width - x - 1)
    assert_eq!(turned.get((0, 0)), image.get((0, 1)));
    assert_eq!(turned.get((1, 0)), image.get((0, 0)));
    assert_eq!(turned.get((0, 1)), image.get((1, 1)));
    assert_eq!(turned.get((1, 1)), image.get((1, 0)));
    // header bytes kept as they are
    assert_eq!(&turned.data[..138], &image.data[..138]);
}
