use asn1::{
    application, context, tlv, Element, GeneralizedTime, GENERALIZED_TIME, GENERAL_STRING,
    INTEGER, OCTET_STRING, SEQUENCE,
};

#[test]
fn a_long_form_length_is_read_and_a_truncated_element_is_refused() {
    let element = tlv(OCTET_STRING, &[7; 300]);

    let (read, rest) = Element::read(&element).expect("read");
    let failure = Element::read(&element[..100]).expect_err("truncated");

    assert_eq!(
        (read.tag, read.content.len(), rest.len()),
        (OCTET_STRING, 300, 0)
    );
    assert!(
        failure.message.contains("ends inside"),
        "{}",
        failure.message
    );
}

#[test]
fn a_tagged_field_is_found_among_its_siblings_and_unwrapped() {
    let fields = [
        tlv(context(0, true), &tlv(INTEGER, &[5])),
        tlv(context(1, true), &tlv(GENERAL_STRING, b"HTTP")),
    ]
    .concat();
    let sequence = tlv(SEQUENCE, &fields);
    let (element, _) = Element::read(&sequence).expect("read");

    assert_eq!(
        element.field(0).expect("read").and_then(|e| e.integer()),
        Some(5)
    );
    assert_eq!(
        element.field(1).expect("read").and_then(|e| e.text()),
        Some("HTTP")
    );
    assert_eq!(element.field(3).expect("read"), None);
}

#[test]
fn an_unexpected_tag_names_what_was_expected() {
    let failure =
        Element::expect(&tlv(OCTET_STRING, &[]), SEQUENCE, "a Ticket").expect_err("mistagged");
    assert!(
        failure.message.contains("expected a Ticket"),
        "{}",
        failure.message
    );
}

#[test]
fn an_integer_is_read_only_where_it_is_non_negative_and_fits() {
    let at = |content: &[u8]| {
        Element {
            tag: INTEGER,
            content,
        }
        .integer()
    };
    assert_eq!(at(&[0x00, 0xff, 0xff, 0xff, 0xff]), Some(u32::MAX));
    assert_eq!(at(&[0x80]), None);
    assert_eq!(at(&[1, 0, 0, 0, 0]), None);
    assert_eq!(
        Element {
            tag: OCTET_STRING,
            content: &[1]
        }
        .integer(),
        None
    );
}

#[test]
fn context_and_application_tags_carry_class_form_and_number() {
    assert_eq!(context(5, true), 0xa5);
    assert_eq!(context(9, false), 0x89);
    assert_eq!(application(0), 0x60);
    assert_eq!(application(14), 0x6e);
}

#[test]
fn a_generalized_time_is_read_into_its_fields() {
    let at = |text: &str| {
        let encoded = tlv(GENERALIZED_TIME, text.as_bytes());
        Element::read(&encoded).expect("read").0.generalized_time()
    };
    assert_eq!(
        at("20270115080000Z"),
        Some(GeneralizedTime { year: 2027, month: 1, day: 15, hour: 8, minute: 0, second: 0 })
    );
    assert_eq!(
        at("19700101000000Z"),
        Some(GeneralizedTime { year: 1970, month: 1, day: 1, hour: 0, minute: 0, second: 0 })
    );
    assert_eq!(at("2027011508+000Z"), None, "a sign is not a digit");
    assert_eq!(at("2027011508Z"), None);
    assert_eq!(at("20270115080000"), None);
    let mistagged = Element { tag: OCTET_STRING, content: b"20270115080000Z" };
    assert_eq!(mistagged.generalized_time(), None);
}

#[test]
fn text_is_read_only_from_a_general_string_of_utf8() {
    let name = Element { tag: GENERAL_STRING, content: "Grüße".as_bytes() };
    assert_eq!(name.text(), Some("Grüße"));
    let broken = Element { tag: GENERAL_STRING, content: &[0xc3, 0x28] };
    assert_eq!(broken.text(), None);
    let octets = Element { tag: OCTET_STRING, content: b"HTTP" };
    assert_eq!(octets.text(), None);
}

#[test]
fn children_are_read_in_order_and_a_broken_child_is_refused() {
    let inner = [tlv(INTEGER, &[1]), tlv(OCTET_STRING, b"x")].concat();
    let outer = Element { tag: SEQUENCE, content: &inner };
    let children = outer.children().expect("children");
    assert_eq!(children.len(), 2);
    assert_eq!((children[0].tag, children[0].content), (INTEGER, &[1u8][..]));
    assert_eq!((children[1].tag, children[1].content), (OCTET_STRING, &b"x"[..]));

    let broken = Element { tag: SEQUENCE, content: &[0x02, 0x05, 1] };
    assert!(broken.children().is_err());
    assert!(broken.field(0).is_err());

    let wrapped_broken = tlv(context(2, true), &[0x04, 0x09]);
    let holder = Element { tag: SEQUENCE, content: &wrapped_broken };
    assert!(holder.field(2).is_err());
    assert_eq!(holder.field(1).expect("read"), None);
}

#[test]
fn the_first_of_two_fields_with_one_number_is_the_one_found() {
    let fields = [
        tlv(context(4, true), &tlv(INTEGER, &[1])),
        tlv(context(4, true), &tlv(INTEGER, &[2])),
    ]
    .concat();
    let holder = Element { tag: SEQUENCE, content: &fields };
    assert_eq!(holder.field(4).expect("read").and_then(|e| e.integer()), Some(1));
    let primitive = tlv(context(4, false), &tlv(INTEGER, &[3]));
    let holder = Element { tag: SEQUENCE, content: &primitive };
    assert_eq!(holder.field(4).expect("read"), None);
}

#[test]
fn an_integer_written_reads_back_through_element_integer_where_it_fits() {
    for value in [0i64, 1, 127, 128, 255, 256, 65_535, u32::MAX as i64] {
        let contents = asn1::integer(value);
        let element = Element { tag: INTEGER, content: &contents };
        assert_eq!(element.integer(), Some(value as u32), "{value}");
    }
    for value in [-1i64, -128, u32::MAX as i64 + 1, i64::MAX, i64::MIN] {
        let contents = asn1::integer(value);
        let element = Element { tag: INTEGER, content: &contents };
        assert_eq!(element.integer(), None, "{value}");
    }
}

#[test]
fn an_unexpected_tag_spells_both_tags_in_hex() {
    let failure = Element::expect(&[0x04, 0x00], 0x30, "a Ticket").expect_err("mistagged");
    assert_eq!(failure.message, "expected a Ticket (tag 0x30) and found tag 0x04");
}
