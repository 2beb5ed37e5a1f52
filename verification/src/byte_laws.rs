//! The laws that pin the formats down byte by byte: what each field of a
//! time, each bit of a tag, each byte of a length and each arc of an
//! identifier is, in plain arithmetic over the bytes.

use vstd::prelude::*;

use crate::decode::{
    be_value, lemma_be_value_bound, lemma_p256_grows, length_spec, p256, read_integer_spec,
    read_spec,
};
use crate::encode::integer_spec;
use crate::laws::{lemma_be_value_concat, lemma_integer_round_trip};
use crate::element::{decimal, generalized_time_spec, is_utc_seconds, GeneralizedTime};
use crate::encode::{length_octets, tlv_spec};
use crate::laws::{arc_through, lemma_scan_fails_where_an_arc_passes_32_bits, pending_arc};
use crate::laws::lemma_object_identifier_round_trip;
use crate::oid::{object_identifier_spec, oid_scan, read_object_identifier_spec, unfold_arc};
use crate::text::{decimal_text, hex_byte_text};
use crate::{application_tag, context_tag, GENERALIZED_TIME};

verus! {

/// The value of an ASCII decimal digit.
pub open spec fn digit_value(byte: u8) -> int {
    byte - 0x30
}

/// Two ASCII decimal digits read as a number.
proof fn lemma_two_digits(digits: Seq<u8>)
    requires
        digits.len() == 2,
        0x30 <= digits[0] <= 0x39,
        0x30 <= digits[1] <= 0x39,
    ensures
        decimal(digits) == digit_value(digits[0]) * 10 + digit_value(digits[1]),
{
    assert(digits.drop_last() =~= seq![digits[0]]);
    assert(seq![digits[0]].drop_last() =~= Seq::<u8>::empty());
    assert(decimal(seq![digits[0]].drop_last()) == 0);
    assert(seq![digits[0]].last() == digits[0]);
    assert(decimal(seq![digits[0]]) == digit_value(digits[0]));
    assert(digits.last() == digits[1]);
}

/// `YYYYMMDDHHMMSSZ` under the `GeneralizedTime` tag is read field by
/// field: the year is the first four digits, then month, day, hour, minute
/// and second two digits each, in that order; anything else under that tag
/// or any other tag is no time.
pub proof fn lemma_generalized_time_fields(tag: u8, content: Seq<u8>)
    ensures
        tag == GENERALIZED_TIME && content.len() == 15 && content[14] == 0x5a && (forall|i: int|
            0 <= i < 14 ==> 0x30 <= #[trigger] content[i] <= 0x39) ==> generalized_time_spec(
            tag,
            content,
        ) == Some(
            GeneralizedTime {
                year: (digit_value(content[0]) * 1000 + digit_value(content[1]) * 100
                    + digit_value(content[2]) * 10 + digit_value(content[3])) as i64,
                month: (digit_value(content[4]) * 10 + digit_value(content[5])) as u32,
                day: (digit_value(content[6]) * 10 + digit_value(content[7])) as u32,
                hour: (digit_value(content[8]) * 10 + digit_value(content[9])) as u32,
                minute: (digit_value(content[10]) * 10 + digit_value(content[11])) as u32,
                second: (digit_value(content[12]) * 10 + digit_value(content[13])) as u32,
            },
        ),
        tag != GENERALIZED_TIME ==> generalized_time_spec(tag, content) is None,
        content.len() != 15 ==> generalized_time_spec(tag, content) is None,
        content.len() == 15 && content[14] != 0x5a ==> generalized_time_spec(tag, content) is None,
        content.len() == 15 && (exists|i: int| 0 <= i < 14 && !(0x30 <= #[trigger] content[i] <= 0x39))
            ==> generalized_time_spec(tag, content) is None,
{
    if tag == GENERALIZED_TIME && content.len() == 15 && content[14] == 0x5a && (forall|i: int|
        0 <= i < 14 ==> 0x30 <= #[trigger] content[i] <= 0x39) {
        assert forall|k: int| 0 <= k < 14 implies #[trigger] content.subrange(k, k + 2)[0]
            == content[k] && content.subrange(k, k + 2)[1] == content[k + 1] by {}
        assert(0x30 <= content[4] <= 0x39 && 0x30 <= content[5] <= 0x39);
        lemma_two_digits(content.subrange(4, 6));
        assert(0x30 <= content[6] <= 0x39 && 0x30 <= content[7] <= 0x39);
        lemma_two_digits(content.subrange(6, 8));
        assert(0x30 <= content[8] <= 0x39 && 0x30 <= content[9] <= 0x39);
        lemma_two_digits(content.subrange(8, 10));
        assert(0x30 <= content[10] <= 0x39 && 0x30 <= content[11] <= 0x39);
        lemma_two_digits(content.subrange(10, 12));
        assert(0x30 <= content[12] <= 0x39 && 0x30 <= content[13] <= 0x39);
        lemma_two_digits(content.subrange(12, 14));
        assert(0x30 <= content[0] <= 0x39 && 0x30 <= content[1] <= 0x39);
        assert(0x30 <= content[2] <= 0x39 && 0x30 <= content[3] <= 0x39);
        lemma_two_digits(content.subrange(0, 2));
        let year = content.subrange(0, 4);
        assert(year.drop_last().drop_last() =~= content.subrange(0, 2));
        assert(year.drop_last().last() == content[2]);
        assert(year.last() == content[3]);
        assert(decimal(year.drop_last()) == decimal(content.subrange(0, 2)) * 10 + digit_value(
            content[2],
        ));
        assert(decimal(year) == decimal(year.drop_last()) * 10 + digit_value(content[3]));
        assert(is_utc_seconds(content));
    }
}

/// The tag of `[APPLICATION number]` is `0x60` plus the number, for every
/// number under 31; its top three bits are always `011` and its low five
/// bits always the number's.
pub proof fn lemma_application_tag_bits(number: u8)
    ensures
        number < 31 ==> application_tag(number) == 0x60 + number,
        application_tag(number) / 32 == 3,
        application_tag(number) % 32 == number % 32,
{
}

/// The tag of `[number]` is `0x80`, plus `0x20` where constructed, plus the
/// number, for every number under 31; its top two bits are always `10`,
/// its next bit the form, and its low five bits always the number's.
pub proof fn lemma_context_tag_bits(number: u8, constructed: bool)
    ensures
        number < 31 ==> context_tag(number, constructed) == 0x80 + (if constructed {
            0x20int
        } else {
            0
        }) + number,
        context_tag(number, constructed) / 64 == 2,
        (context_tag(number, constructed) / 32) % 2 == (if constructed {
            1int
        } else {
            0
        }),
        context_tag(number, constructed) % 32 == number % 32,
{
}

/// Every length under 128 is written in one byte, the length itself; every
/// element with fewer than 128 bytes of contents is those contents after two
/// bytes, its tag and its length.
pub proof fn lemma_short_form(tag: u8, contents: Seq<u8>)
    ensures
        forall|n: nat| n < 128 ==> #[trigger] length_octets(n) == seq![n as u8],
        contents.len() < 128 ==> tlv_spec(tag, contents) == seq![tag, contents.len() as u8]
            + contents,
{
    assert forall|n: nat| n < 128 implies #[trigger] length_octets(n) == seq![n as u8] by {}
    if contents.len() < 128 {
        assert(tlv_spec(tag, contents) =~= seq![tag, contents.len() as u8] + contents);
    }
}

/// A length of the long form `0x80 | width`, with `width` from one to four,
/// takes exactly that first byte and `width` more, whatever they hold,
/// leading zeros too, and says the big-endian value of those `width`
/// bytes; a first byte under `0x80` is the length itself, in one byte.
pub proof fn lemma_length_reads_any_digits(digits: Seq<u8>, after: Seq<u8>, first: u8)
    ensures
        1 <= digits.len() <= 4 ==> length_spec(seq![(0x80 + digits.len()) as u8] + digits + after)
            == Ok::<(nat, nat), Seq<char>>((be_value(digits), digits.len() + 1)),
        first < 0x80 ==> length_spec(seq![first] + after) == Ok::<(nat, nat), Seq<char>>(
            (first as nat, 1),
        ),
{
    if 1 <= digits.len() <= 4 {
        let bytes = seq![(0x80 + digits.len()) as u8] + digits + after;
        assert(bytes.subrange(1, digits.len() as int + 1) =~= digits);
    }
}

/// An element whose long-form length has `width` bytes, from one to four,
/// leading zeros too, reads as its tag, the contents that length says, and
/// what follows them: the header takes exactly `width + 2` bytes.
pub proof fn lemma_read_any_long_length(tag: u8, digits: Seq<u8>, body: Seq<u8>)
    requires
        tag % 32 != 31,
        1 <= digits.len() <= 4,
        be_value(digits) <= body.len(),
    ensures
        read_spec(seq![tag, (0x80 + digits.len()) as u8] + digits + body) == Ok::<
            (u8, Seq<u8>, Seq<u8>),
            Seq<char>,
        >((tag, body.take(be_value(digits) as int), body.skip(be_value(digits) as int))),
{
    let bytes = seq![tag, (0x80 + digits.len()) as u8] + digits + body;
    lemma_length_reads_any_digits(digits, body, 0);
    assert(bytes.drop_first() =~= seq![(0x80 + digits.len()) as u8] + digits + body);
    assert(bytes.drop_first().skip(digits.len() as int + 1) =~= body);
}

/// How many arcs `bytes` finish: how many of them are under `0x80`.
pub open spec fn finished_arcs(bytes: Seq<u8>) -> nat
    decreases bytes.len(),
{
    if bytes.len() == 0 {
        0
    } else {
        finished_arcs(bytes.drop_last()) + if bytes.last() < 0x80 {
            1nat
        } else {
            0
        }
    }
}

/// Fewer bytes finish no more arcs, and a byte under `0x80` finishes one
/// more.
proof fn lemma_finished_arcs_prefix(bytes: Seq<u8>, k: int)
    requires
        0 <= k < bytes.len(),
    ensures
        finished_arcs(bytes.take(k + 1)) == finished_arcs(bytes.take(k)) + if bytes[k] < 0x80 {
            1nat
        } else {
            0
        },
        finished_arcs(bytes.take(k + 1)) <= finished_arcs(bytes),
    decreases bytes.len(),
{
    assert(bytes.take(k + 1).drop_last() =~= bytes.take(k));
    if k + 1 < bytes.len() {
        lemma_finished_arcs_prefix(bytes.drop_last(), k);
        assert(bytes.drop_last().take(k + 1) =~= bytes.take(k + 1));
        assert(bytes.drop_last().take(k) =~= bytes.take(k));
    } else {
        assert(bytes.take(k + 1) =~= bytes);
    }
}

/// The two arcs one folded arc `x` stands for fold back to `x`: forty times
/// the first plus the second, the first at most 2 and the second under 40
/// unless the first is 2.
proof fn lemma_unfold_arc_folds_back(x: u32)
    ensures
        unfold_arc(x).len() == 2,
        unfold_arc(x)[0] * 40 + unfold_arc(x)[1] == x,
        unfold_arc(x)[0] <= 2,
        unfold_arc(x)[0] < 2 ==> unfold_arc(x)[1] < 40,
{
}

/// Every arc an identifier's contents give is the full value of the bytes
/// that finish it: the first two, folded as forty times the first plus the
/// second, are the value of the bytes up to the first byte under `0x80`;
/// the arc after `m` finished ones is the value of the bytes up to the next.
/// There are as many arcs as finished ones, plus one for the fold.
#[verifier::rlimit(40)]
pub proof fn lemma_scanned_arcs_are_arc_values(contents: Seq<u8>)
    requires
        oid_scan(contents) is Ok,
    ensures
        ({
            let arcs = oid_scan(contents)->Ok_0.0;
            &&& arcs.len() == if finished_arcs(contents) == 0 {
                0
            } else {
                finished_arcs(contents) + 1
            }
            &&& forall|k: int|
                #![trigger arc_through(contents.take(k + 1))]
                0 <= k < contents.len() && contents[k] < 0x80 ==> {
                    let m = finished_arcs(contents.take(k));
                    &&& m == 0 ==> arcs[0] * 40 + arcs[1] == arc_through(contents.take(k + 1))
                        && arcs[0] <= 2 && (arcs[0] < 2 ==> arcs[1] < 40)
                    &&& m > 0 ==> arcs[m as int + 1] == arc_through(contents.take(k + 1))
                }
        }),
    decreases contents.len(),
{
    if contents.len() > 0 {
        let shorter = contents.drop_last();
        let last = contents.len() - 1;
        assert(oid_scan(shorter) is Ok);
        lemma_scanned_arcs_are_arc_values(shorter);
        lemma_scan_fails_where_an_arc_passes_32_bits(shorter);
        let (arcs_before, arc) = oid_scan(shorter)->Ok_0;
        let arcs = oid_scan(contents)->Ok_0.0;
        let byte = contents.last();
        assert(arc < 0x200_0000);
        assert(arc == pending_arc(shorter));
        assert(contents.take(last + 1) =~= contents);
        assert(contents.take(last) =~= shorter);
        let next = arc_through(contents);
        assert(next == arc * 128 + (byte % 128) as nat);
        assert(next < 0x1_0000_0000);
        assert(finished_arcs(contents) == finished_arcs(shorter) + if byte < 0x80 {
            1nat
        } else {
            0
        });
        if byte >= 0x80 {
            assert(arcs == arcs_before);
        } else if arcs_before.len() == 0 {
            assert(arcs == unfold_arc(next as u32));
        } else {
            assert(arcs == arcs_before.push(next as u32));
        }
        assert forall|k: int| 0 <= k < shorter.len() implies #[trigger] contents.take(k + 1)
            == shorter.take(k + 1) && contents.take(k) == shorter.take(k) && contents[k]
            == shorter[k] by {
            assert(contents.take(k + 1) =~= shorter.take(k + 1));
            assert(contents.take(k) =~= shorter.take(k));
        }
        assert forall|k: int|
            #![trigger arc_through(contents.take(k + 1))]
            0 <= k < contents.len() && contents[k] < 0x80 implies {
            let m = finished_arcs(contents.take(k));
            &&& m == 0 ==> arcs[0] * 40 + arcs[1] == arc_through(contents.take(k + 1))
                && arcs[0] <= 2 && (arcs[0] < 2 ==> arcs[1] < 40)
            &&& m > 0 ==> arcs[m as int + 1] == arc_through(contents.take(k + 1))
        } by {
            let m = finished_arcs(contents.take(k));
            if k < last {
                assert(contents.take(k + 1) == shorter.take(k + 1));
                assert(contents.take(k) == shorter.take(k));
                lemma_finished_arcs_prefix(shorter, k);
                assert(arc_through(shorter.take(k + 1)) == arc_through(contents.take(k + 1)));
                assert(m + 1 <= finished_arcs(shorter));
                assert(arcs_before.len() == finished_arcs(shorter) + 1);
                if byte < 0x80 {
                    assert(arcs == arcs_before.push(next as u32));
                }
            } else {
                assert(k == last);
                assert(byte < 0x80);
                assert(m == finished_arcs(shorter));
                if arcs_before.len() == 0 {
                    assert(arcs == unfold_arc(next as u32));
                    lemma_unfold_arc_folds_back(next as u32);
                } else {
                    assert(arcs == arcs_before.push(next as u32));
                }
            }
        }
    }
}

/// The arcs read from an identifier's contents are the values of the bytes
/// that finish them: the first two, folded as forty times the first plus
/// the second, the value up to the first byte under `0x80`, the first at
/// most 2 and the second under 40 unless the first is 2; each later arc the
/// value up to its own last byte; one arc more than the finished ones.
pub proof fn lemma_read_arcs_are_arc_values(contents: Seq<u8>)
    ensures
        read_object_identifier_spec(contents) matches Ok(arcs) ==> {
            &&& arcs.len() == finished_arcs(contents) + 1
            &&& forall|k: int|
                #![trigger arc_through(contents.take(k + 1))]
                0 <= k < contents.len() && contents[k] < 0x80 ==> {
                    let m = finished_arcs(contents.take(k));
                    &&& m == 0 ==> arcs[0] * 40 + arcs[1] == arc_through(contents.take(k + 1))
                        && arcs[0] <= 2 && (arcs[0] < 2 ==> arcs[1] < 40)
                    &&& m > 0 ==> arcs[m as int + 1] == arc_through(contents.take(k + 1))
                }
        },
{
    if read_object_identifier_spec(contents) is Ok {
        lemma_scanned_arcs_are_arc_values(contents);
        let last = contents.len() - 1;
        lemma_finished_arcs_prefix(contents, last);
        assert(contents.take(last + 1) =~= contents);
    }
}

/// The contents written for an identifier of at least two arcs, whose first
/// arc is 0, 1 or 2 and whose second is under 40 unless the first is 2,
/// spell its arcs: the bytes up to the first under `0x80` have the value
/// forty times the first arc plus the second, and the bytes up to each
/// later byte under `0x80` the value of the next arc.
pub proof fn lemma_written_arcs_are_arc_values(arcs: Seq<u32>)
    requires
        arcs.len() >= 2,
        arcs[0] <= 2,
        arcs[0] < 2 ==> arcs[1] < 40,
        arcs[0] * 40 + arcs[1] <= u32::MAX,
    ensures
        ({
            let contents = object_identifier_spec(arcs);
            &&& finished_arcs(contents) + 1 == arcs.len()
            &&& forall|k: int|
                #![trigger arc_through(contents.take(k + 1))]
                0 <= k < contents.len() && contents[k] < 0x80 ==> {
                    let m = finished_arcs(contents.take(k));
                    &&& m == 0 ==> arc_through(contents.take(k + 1)) == arcs[0] * 40 + arcs[1]
                    &&& m > 0 ==> arc_through(contents.take(k + 1)) == arcs[m as int + 1]
                }
        }),
{
    lemma_object_identifier_round_trip(arcs);
    lemma_read_arcs_are_arc_values(object_identifier_spec(arcs));
}

/// Every tag whose low five bits are all ones, the high-tag-number form, is
/// refused whatever follows it; a length whose first byte is `0x80`, the
/// indefinite form, or says more than four bytes is refused whatever
/// follows it; and contents that the length says run past the end are
/// refused.
pub proof fn lemma_refused_forms(tag: u8, first: u8, after: Seq<u8>)
    ensures
        tag % 32 == 31 ==> read_spec(seq![tag] + after) is Err,
        first == 0x80 || first > 0x84 ==> length_spec(seq![first] + after) is Err,
        tag % 32 != 31 && first < 0x80 && first > after.len() ==> read_spec(
            seq![tag, first] + after,
        ) is Err,
{
    if tag % 32 != 31 && first < 0x80 {
        let bytes = seq![tag, first] + after;
        assert(bytes.drop_first() =~= seq![first] + after);
        assert(bytes.drop_first().skip(1) =~= after);
    }
}

/// An `INTEGER`'s contents are its first byte read as signed, scaled past
/// the rest, plus the rest read as unsigned, all big-endian: one byte `b`
/// is `b` under `0x80` and `b - 256` from there.
pub proof fn lemma_integer_contents_value(first: u8, rest: Seq<u8>)
    ensures
        rest.len() < 8 ==> read_integer_spec(seq![first] + rest) == Ok::<int, Seq<char>>(
            (if first < 0x80 {
                first as int
            } else {
                first - 256
            }) * p256(rest.len()) + be_value(rest),
        ),
{
    let bytes = seq![first] + rest;
    lemma_be_value_concat(seq![first], rest);
    let one = seq![first];
    assert(one.drop_last() =~= Seq::<u8>::empty());
    assert(be_value(one.drop_last()) == 0);
    assert(be_value(one) == first as nat);
    assert(bytes[0] == first);
    assert(p256(bytes.len()) == 256 * p256(rest.len()));
    let p = p256(rest.len());
    assert((first - 256) * p == first * p - 256 * p) by (nonlinear_arith);
}

/// Every `i64` is written so that its last byte is the value modulo 256,
/// its first byte has the top bit set exactly where it is negative, and
/// its bytes, big-endian, are the value modulo 256 to the power of their
/// count.
pub proof fn lemma_integer_bytes_are_the_value(v: i64)
    ensures
        ({
            let bytes = integer_spec(v as int);
            &&& bytes.last() as int == (v as int) % 256
            &&& (bytes[0] >= 0x80 <==> v < 0)
            &&& be_value(bytes) as int == (v as int) % (p256(bytes.len()) as int)
        }),
{
    lemma_integer_round_trip(v);
    let bytes = integer_spec(v as int);
    let n = bytes.len();
    let first = bytes[0];
    let rest = bytes.drop_first();
    assert(seq![first] + rest =~= bytes);
    lemma_integer_contents_value(first, rest);
    lemma_be_value_bound(bytes);
    lemma_be_value_bound(rest);
    lemma_be_value_concat(seq![first], rest);
    let one = seq![first];
    assert(one.drop_last() =~= Seq::<u8>::empty());
    assert(be_value(one.drop_last()) == 0);
    assert(be_value(one) == first as nat);
    let p = p256(rest.len());
    assert(p256(n) == 256 * p);
    assert(p >= 1) by {
        lemma_p256_grows(0, rest.len());
    }
    let value = be_value(bytes) as int;
    assert(value == first * p + be_value(rest));
    assert(first * p >= 128 * p <==> first >= 128) by (nonlinear_arith)
        requires
            p >= 1,
    ;
    if first >= 0x80 {
        assert(v == value - 256 * p);
        assert(value == v + 256 * p);
    } else {
        assert(v == value);
        assert(0 <= value < 128 * p) by (nonlinear_arith)
            requires
                value == first * p + be_value(rest),
                first < 128,
                be_value(rest) < p,
                p >= 1,
        ;
    }
    assert((v as int) % (256 * p as int) == value) by (nonlinear_arith)
        requires
            0 <= value < 256 * p,
            v == value || v == value - 256 * p,
    ;
    assert(bytes.drop_last().len() == n - 1);
    assert(be_value(bytes) == be_value(bytes.drop_last()) * 256 + bytes.last());
    assert((v as int) % 256 == bytes.last() as int) by (nonlinear_arith)
        requires
            value == be_value(bytes.drop_last()) * 256 + bytes.last(),
            bytes.last() < 256,
            v == value || v == value - 256 * p,
    ;
}

/// The value of a character as a digit of base 16: `0` to `9`, then `a` to
/// `f`.
pub open spec fn char_digit(c: char) -> int {
    if '0' <= c <= '9' {
        c as int - '0' as int
    } else {
        c as int - 'a' as int + 10
    }
}

/// Decimal characters read back as a number.
pub open spec fn decimal_value(text: Seq<char>) -> nat
    decreases text.len(),
{
    if text.len() == 0 {
        0
    } else {
        decimal_value(text.drop_last()) * 10 + char_digit(text.last()) as nat
    }
}

/// A number in a failure's words is its decimal digits, most significant
/// first, with no leading zero: they read back as the number.
pub proof fn lemma_decimal_text(n: nat)
    ensures
        decimal_text(n).len() >= 1,
        forall|i: int| 0 <= i < decimal_text(n).len() ==> '0' <= #[trigger] decimal_text(n)[i] <= '9',
        n > 0 ==> decimal_text(n)[0] != '0',
        decimal_value(decimal_text(n)) == n,
    decreases n,
{
    if n >= 10 {
        lemma_decimal_text(n / 10);
        let t = decimal_text(n);
        assert(t.drop_last() =~= decimal_text(n / 10));
        assert(t.last() == ((48 + n % 10) as char));
        assert(char_digit(t.last()) == n % 10);
        assert(n == (n / 10) * 10 + n % 10);
        assert forall|i: int| 0 <= i < t.len() implies '0' <= #[trigger] t[i] <= '9' by {
            if i < t.len() - 1 {
                assert(t[i] == decimal_text(n / 10)[i]);
            }
        }
    } else {
        let t = decimal_text(n);
        assert(t.drop_last() =~= Seq::<char>::empty());
        assert(decimal_value(t.drop_last()) == 0);
        assert(t.last() == ((48 + n) as char));
        assert(char_digit(t.last()) == n);
    }
}

/// A tag in a failure's words is `0x` and two lower-case hexadecimal
/// digits, the high one first, that read back as the tag.
pub proof fn lemma_hex_byte_text(byte: u8)
    ensures
        hex_byte_text(byte).len() == 4,
        hex_byte_text(byte)[0] == '0' && hex_byte_text(byte)[1] == 'x',
        forall|i: int| 2 <= i < 4 ==> ('0' <= #[trigger] hex_byte_text(byte)[i] <= '9' || 'a'
            <= hex_byte_text(byte)[i] <= 'f'),
        char_digit(hex_byte_text(byte)[2]) * 16 + char_digit(hex_byte_text(byte)[3]) == byte,
{
}

} // verus!
