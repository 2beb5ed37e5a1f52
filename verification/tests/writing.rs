use asn1::{integer, read, read_integer, tlv, write_tlv, NULL, OCTET_STRING, SEQUENCE};

#[test]
fn a_length_is_short_below_128_and_the_fewest_long_bytes_from_there() {
    assert_eq!(tlv(OCTET_STRING, b"hi"), [0x04, 2, b'h', b'i']);
    assert_eq!(&tlv(OCTET_STRING, &[7; 128])[..3], &[0x04, 0x81, 0x80]);
    assert_eq!(
        &tlv(OCTET_STRING, &[7; 300])[..4],
        &[0x04, 0x82, 0x01, 0x2c]
    );
    let mut appended = vec![0xff];
    write_tlv(&mut appended, NULL, &[]);
    assert_eq!(appended, [0xff, NULL, 0]);
}

#[test]
fn integers_are_the_shortest_twos_complement() {
    for (value, bytes) in [
        (0, vec![0x00]),
        (1, vec![0x01]),
        (127, vec![0x7f]),
        (128, vec![0x00, 0x80]),
        (-1, vec![0xff]),
        (-128, vec![0x80]),
        (-129, vec![0xff, 0x7f]),
        (65_535, vec![0x00, 0xff, 0xff]),
    ] {
        assert_eq!(integer(value), bytes, "{value}");
        assert_eq!(read_integer(&bytes).expect("read"), value, "{value}");
    }
    for value in [i64::MAX, i64::MIN] {
        assert_eq!(read_integer(&integer(value)).expect("read"), value);
    }
}

#[test]
fn the_widest_integers_take_eight_bytes() {
    assert_eq!(integer(i64::MAX), [0x7f, 0xff, 0xff, 0xff, 0xff, 0xff, 0xff, 0xff]);
    assert_eq!(integer(i64::MIN), [0x80, 0, 0, 0, 0, 0, 0, 0]);
    assert_eq!(integer(-32_769), [0xff, 0x7f, 0xff]);
    assert_eq!(integer(32_767), [0x7f, 0xff]);
}

#[test]
fn a_length_at_the_edges_of_each_form() {
    assert_eq!(&tlv(SEQUENCE, &[0; 127])[..2], &[0x30, 0x7f]);
    assert_eq!(&tlv(SEQUENCE, &[0; 255])[..3], &[0x30, 0x81, 0xff]);
    assert_eq!(&tlv(SEQUENCE, &[0; 256])[..4], &[0x30, 0x82, 0x01, 0x00]);
    assert_eq!(&tlv(SEQUENCE, &[0; 65_536])[..5], &[0x30, 0x83, 0x01, 0x00, 0x00]);
    assert_eq!(tlv(NULL, &[]), [NULL, 0]);
}

#[test]
fn what_is_written_reads_back_with_what_follows_left_over() {
    for size in [0usize, 1, 127, 128, 255, 256, 65_535, 65_536] {
        let contents = vec![0x5a; size];
        let mut bytes = tlv(OCTET_STRING, &contents);
        bytes.extend_from_slice(&[1, 2, 3]);
        let (tag, read_back, rest) = read(&bytes).expect("read");
        assert_eq!((tag, read_back, rest), (OCTET_STRING, &contents[..], &[1u8, 2, 3][..]));
    }
}

#[test]
fn no_integer_starts_with_a_byte_that_only_repeats_the_sign() {
    for value in [0i64, 1, -1, 127, 128, -128, -129, 255, 256, -32_768, i64::MAX, i64::MIN] {
        let bytes = integer(value);
        assert!((1..=8).contains(&bytes.len()), "{value}");
        if bytes.len() > 1 {
            assert!(!(bytes[0] == 0x00 && bytes[1] < 0x80), "{value}");
            assert!(!(bytes[0] == 0xff && bytes[1] >= 0x80), "{value}");
        }
    }
}
