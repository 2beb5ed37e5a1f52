use asn1::{object_identifier, read_object_identifier};

#[test]
fn arcs_round_trip_and_the_first_two_fold_into_one() {
    for arcs in [
        vec![1, 3, 6, 1, 4, 1, 9, 9, 1, 0, 70_000],
        vec![2, 999, 3],
        vec![1, 2, 840, 113_549],
    ] {
        let contents = object_identifier(&arcs);
        assert_eq!(read_object_identifier(&contents).expect("read"), arcs);
    }
    assert_eq!(object_identifier(&[1, 3, 6, 1]), [0x2b, 6, 1]);
    assert_eq!(object_identifier(&[2, 5, 29, 74]), [0x55, 0x1d, 0x4a]);
}

#[test]
fn what_is_not_an_identifier_is_refused_saying_why() {
    let refused = |contents: &[u8]| read_object_identifier(contents).expect_err("refused");
    assert!(refused(&[]).message.contains("empty"));
    assert!(refused(&[0x81]).message.contains("does not end"));
    assert!(
        refused(&[0x2b, 0xff, 0xff, 0xff, 0xff, 0x7f])
            .message
            .contains("32 bits")
    );
}

#[test]
fn fewer_than_two_arcs_are_written_as_though_the_rest_were_zero() {
    assert_eq!(object_identifier(&[]), [0x00]);
    assert_eq!(object_identifier(&[1]), [0x28]);
    assert_eq!(read_object_identifier(&object_identifier(&[])).expect("read"), vec![0, 0]);
}

#[test]
fn the_largest_arc_takes_five_bytes_and_reads_back() {
    let arcs = vec![1, 3, u32::MAX];
    let contents = object_identifier(&arcs);
    assert_eq!(contents, [0x2b, 0x8f, 0xff, 0xff, 0xff, 0x7f]);
    assert_eq!(read_object_identifier(&contents).expect("read"), arcs);
    assert_eq!(object_identifier(&[1, 3, 128]), [0x2b, 0x81, 0x00]);
}

#[test]
fn a_folded_arc_from_80_is_arc_two() {
    assert_eq!(read_object_identifier(&[0x50]).expect("read"), vec![2, 0]);
    assert_eq!(read_object_identifier(&[0x4f]).expect("read"), vec![1, 39]);
    assert_eq!(read_object_identifier(&[0x88, 0x37]).expect("read"), vec![2, 999]);
}

#[test]
fn an_arc_is_refused_exactly_where_it_reaches_32_bits() {
    assert_eq!(
        read_object_identifier(&[0x2b, 0x8f, 0xff, 0xff, 0xff, 0x7f]).expect("read"),
        vec![1, 3, u32::MAX]
    );
    let failure = read_object_identifier(&[0x2b, 0x90, 0x80, 0x80, 0x80, 0x00]).expect_err("wide");
    assert_eq!(failure.message, "an OBJECT IDENTIFIER arc larger than 32 bits");
}
