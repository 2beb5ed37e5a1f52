use asn1::{expect, find, read, read_all, read_integer, tlv, ElementReader, Step};
use asn1::{INTEGER, NULL, OCTET_STRING, SEQUENCE};

#[test]
fn elements_are_read_in_order_and_found_by_tag() {
    let long = tlv(OCTET_STRING, &[7; 300]);
    let (tag, contents, rest) = read(&long).expect("read");
    assert_eq!((tag, contents.len(), rest.len()), (OCTET_STRING, 300, 0));

    let two = [tlv(OCTET_STRING, b"hi"), tlv(NULL, &[])].concat();
    let all = read_all(&two).expect("all");
    assert_eq!(all, vec![(OCTET_STRING, &b"hi"[..]), (NULL, &[][..])]);
    assert_eq!(find(&all, NULL).expect("null"), &[]);
    assert!(find(&all, INTEGER).is_err());
    assert_eq!(expect(&two, OCTET_STRING).expect("hi").0, b"hi");
}

#[test]
fn what_is_not_this_subset_of_x690_is_refused_saying_why() {
    let refused = |bytes: &[u8]| read(bytes).expect_err("refused").message;
    assert!(refused(&[]).contains("there is none"));
    assert!(refused(&[0x04]).contains("before its length"));
    assert!(refused(&[0x1f, 0x01, 0x00]).contains("high-tag-number"));
    assert!(refused(&[0x30, 0x80, 0, 0]).contains("indefinite"));
    assert!(refused(&[0x04, 0x85, 0, 0, 0, 0, 0]).contains("wider than four"));
    assert!(refused(&[0x04, 0x82, 0x01]).contains("inside its length"));
    assert!(refused(&[0x04, 0x05, 1, 2]).contains("says 5 bytes and 2 follow"));

    let mistagged = expect(&[0x04, 0x00], INTEGER).expect_err("mistagged");
    assert!(mistagged.message.contains("0x02"), "{}", mistagged.message);
    assert!(read_integer(&[]).is_err());
    assert!(read_integer(&[0; 9]).is_err());
}

/// Runs an `ElementReader` over a stream of bytes held in memory, taking
/// exactly the bytes it wants each time, as a caller holding a real stream
/// does with `read_exact`.
fn read_element(stream: &mut &[u8], largest: usize) -> Result<Vec<u8>, String> {
    let mut reader = ElementReader::new(largest);
    loop {
        let want = reader.wanted();
        if stream.len() < want {
            return Err("an element was cut short on the stream".to_string());
        }
        let (bytes, rest) = stream.split_at(want);
        *stream = rest;
        match reader.advance(bytes) {
            Step::More(next) => reader = next,
            Step::Done(element) => return Ok(element),
            Step::Refused(e) => return Err(e.message),
        }
    }
}

#[test]
fn one_element_is_read_off_a_stream_and_the_next_is_left() {
    let mut wire = tlv(SEQUENCE, &[9u8; 200]);
    wire.extend_from_slice(&tlv(OCTET_STRING, b"next"));
    let mut stream = wire.as_slice();

    let first = read_element(&mut stream, 1024).expect("read");
    assert_eq!(first, tlv(SEQUENCE, &[9u8; 200]));
    assert_eq!(
        read_element(&mut stream, 1024).expect("read"),
        tlv(OCTET_STRING, b"next")
    );
    assert!(read_element(&mut stream, 1024).is_err());

    let mut huge: &[u8] = &[0x30, 0x84, 0x7f, 0xff, 0xff, 0xff];
    let failure = read_element(&mut huge, 1024).expect_err("refused");
    assert!(failure.contains("more than the 1024"), "{}", failure);
}

#[test]
fn a_stream_reader_wants_the_opening_then_the_length_then_the_contents() {
    let reader = ElementReader::new(10);
    assert_eq!(reader.wanted(), 2);
    let reader = match reader.advance(&[0x04, 0x81]) {
        Step::More(next) => next,
        _ => panic!("a long-form length wants more"),
    };
    assert_eq!(reader.wanted(), 1);
    match reader.advance(&[0x80]) {
        Step::Refused(e) => assert!(e.message.contains("128 bytes, more than the 10")),
        _ => panic!("128 bytes is more than 10"),
    }
    let short = ElementReader::new(10);
    let short = match short.advance(&[0x04, 0x02]) {
        Step::More(next) => next,
        _ => panic!("a short length wants its contents"),
    };
    assert_eq!(short.wanted(), 2);
    match short.advance(b"hi") {
        Step::Done(element) => assert_eq!(element, [0x04, 0x02, b'h', b'i']),
        _ => panic!("the contents end the element"),
    }
}

#[test]
fn a_stream_reader_refuses_an_indefinite_length_and_reads_at_most_four_length_bytes() {
    let reader = ElementReader::new(10);
    let reader = match reader.advance(&[0x30, 0x80]) {
        Step::More(next) => next,
        _ => panic!("a long-form first byte wants its width"),
    };
    assert_eq!(reader.wanted(), 0);
    match reader.advance(&[]) {
        Step::Refused(e) => assert!(e.message.contains("indefinite")),
        _ => panic!("an indefinite length is refused"),
    }
    let wide = ElementReader::new(10);
    let wide = match wide.advance(&[0x30, 0x89]) {
        Step::More(next) => next,
        _ => panic!("a long-form first byte wants its width"),
    };
    assert_eq!(wide.wanted(), 4);
    match wide.advance(&[0, 0, 0, 0]) {
        Step::Refused(e) => assert!(e.message.contains("wider than four")),
        _ => panic!("a nine-byte length is refused"),
    }
}

#[test]
fn every_element_of_a_concatenation_reads_back() {
    let parts = [
        tlv(INTEGER, &[5]),
        tlv(OCTET_STRING, &[1; 200]),
        tlv(NULL, &[]),
        tlv(SEQUENCE, &[2; 70_000]),
    ];
    let bytes = parts.concat();
    let all = read_all(&bytes).expect("all");
    assert_eq!(all.len(), 4);
    assert_eq!(all[0], (INTEGER, &[5u8][..]));
    assert_eq!(all[1].1.len(), 200);
    assert_eq!(all[2], (NULL, &[][..]));
    assert_eq!((all[3].0, all[3].1.len()), (SEQUENCE, 70_000));
}

#[test]
fn a_length_is_read_from_its_big_endian_bytes() {
    let bytes = [&[0x04, 0x83, 0x01, 0x00, 0x00][..], &[3u8; 65_536][..], &[0xaa][..]].concat();
    let (tag, contents, rest) = read(&bytes).expect("read");
    assert_eq!((tag, contents.len(), rest), (OCTET_STRING, 65_536, &[0xaa][..]));
    let (tag, contents, rest) = read(&[0x02, 0x81, 0x01, 0x07]).expect("read");
    assert_eq!((tag, contents, rest), (INTEGER, &[7u8][..], &[][..]));
}

#[test]
fn integer_contents_read_as_twos_complement() {
    assert_eq!(read_integer(&[0x01, 0x00]).expect("read"), 256);
    assert_eq!(read_integer(&[0xfe]).expect("read"), -2);
    assert_eq!(read_integer(&[0x80, 0, 0, 0, 0, 0, 0, 0]).expect("read"), i64::MIN);
    assert_eq!(read_integer(&[0x00, 0x00, 0x05]).expect("read"), 5);
    let wide = read_integer(&[0; 9]).expect_err("refused");
    assert!(wide.message.contains("an INTEGER of 9 bytes"), "{}", wide.message);
}

#[test]
fn find_gives_the_first_element_so_tagged() {
    let all = vec![(INTEGER, &b"a"[..]), (NULL, &b""[..]), (INTEGER, &b"b"[..])];
    assert_eq!(find(&all, INTEGER).expect("found"), b"a");
    let missing = find(&all, SEQUENCE).expect_err("missing");
    assert!(missing.message.contains("0x30"), "{}", missing.message);
}

#[test]
fn reading_all_stops_at_the_first_element_that_fails_with_its_words() {
    let bytes = [tlv(INTEGER, &[1]), tlv(NULL, &[]), vec![0x04, 0x05, 1, 2]].concat();
    let failure = read_all(&bytes).expect_err("broken");
    assert_eq!(
        failure.message,
        "an element ends inside its contents: it says 5 bytes and 2 follow"
    );
}

#[test]
fn the_words_of_a_failure_spell_numbers_in_decimal_and_tags_in_hex() {
    let mistagged = expect(&[0x30, 0x00], 0x0a).expect_err("mistagged");
    assert_eq!(mistagged.message, "an element tagged 0x0a was expected and 0x30 arrived");
    let all = vec![(INTEGER, &b"a"[..])];
    assert_eq!(find(&all, 0xa5).expect_err("missing").message, "no element tagged 0xa5");
    assert_eq!(
        read_integer(&[0; 12]).expect_err("wide").message,
        "an INTEGER of 12 bytes, where one to eight are read"
    );
}
