//! What holds of the readers and writers together.

use vstd::prelude::*;

use crate::{context_tag, INTEGER};
use crate::decode::{
    be_value, first_tagged, lemma_be_value_bound, lemma_p256_grows, length_spec, none_tagged, p256, read_all_spec, read_integer_spec,
    read_spec, signed_value,
};
use crate::element::{field_spec, small_integer_spec};
use crate::encode::{
    be_bytes, be_fixed, fits_signed, integer_spec, lemma_be_bytes_len, lemma_be_bytes_value,
    length_octets, signed_width_from, tlv_spec, twos_complement,
};
use crate::oid::{
    arcs_base128, base128_spec, folded_arc, large_arc_text, later_arcs, object_identifier_spec, oid_scan,
    read_object_identifier_spec, unfold_arc,
};
use crate::stream::{after_header, drive, start_view, ReaderView, Stage, StepView};
use crate::text::too_large_text;

verus! {

/// The definite length that `length_octets` writes reads back as itself,
/// taking exactly its own bytes, whatever follows it, wherever it is at most
/// four bytes wide.
pub proof fn lemma_length_round_trip(n: nat, after: Seq<u8>)
    requires
        n < p256(4),
    ensures
        length_spec(length_octets(n) + after) == Ok::<(nat, nat), Seq<char>>(
            (n, length_octets(n).len()),
        ),
{
    let bytes = length_octets(n) + after;
    if n >= 128 {
        let digits = be_bytes(n);
        lemma_be_bytes_len(n, 4);
        lemma_be_bytes_value(n);
        assert(bytes[0] == (0x80 + digits.len()) as u8);
        assert(bytes.subrange(1, digits.len() as int + 1) =~= digits);
    }
}

/// A tag, length and contents that `tlv` writes reads back as that tag and
/// those contents, with whatever followed it left over: every tag under the
/// high-tag-number form and every length under 2^32.
pub proof fn lemma_read_tlv(tag: u8, contents: Seq<u8>, rest: Seq<u8>)
    requires
        tag % 32 != 31,
        contents.len() < p256(4),
    ensures
        read_spec(tlv_spec(tag, contents) + rest) == Ok::<(u8, Seq<u8>, Seq<u8>), Seq<char>>(
            (tag, contents, rest),
        ),
{
    let bytes = tlv_spec(tag, contents) + rest;
    let octets = length_octets(contents.len());
    assert(bytes.drop_first() =~= octets + (contents + rest));
    lemma_length_round_trip(contents.len(), contents + rest);
    assert(bytes.drop_first().skip(octets.len() as int) =~= contents + rest);
    assert((contents + rest).take(contents.len() as int) =~= contents);
    assert((contents + rest).skip(contents.len() as int) =~= rest);
}

/// Tags and contents, written one after another.
pub open spec fn tlvs_spec(elements: Seq<(u8, Seq<u8>)>) -> Seq<u8>
    decreases elements.len(),
{
    if elements.len() == 0 {
        seq![]
    } else {
        tlv_spec(elements[0].0, elements[0].1) + tlvs_spec(elements.drop_first())
    }
}

/// Elements written one after another read back, all of them, in order:
/// every tag under the high-tag-number form and every length under 2^32.
#[verifier::rlimit(40)]
pub proof fn lemma_read_all_tlvs(elements: Seq<(u8, Seq<u8>)>)
    requires
        forall|i: int| 0 <= i < elements.len() ==> #[trigger] elements[i].0 % 32 != 31,
        forall|i: int| 0 <= i < elements.len() ==> #[trigger] elements[i].1.len() < p256(4),
    ensures
        read_all_spec(tlvs_spec(elements)) == Ok::<Seq<(u8, Seq<u8>)>, Seq<char>>(elements),
    decreases elements.len(),
{
    if elements.len() > 0 {
        let tail = elements.drop_first();
        assert forall|i: int| 0 <= i < tail.len() implies #[trigger] tail[i].0 % 32 != 31 by {
            assert(tail[i] == elements[i + 1]);
        }
        assert forall|i: int| 0 <= i < tail.len() implies #[trigger] tail[i].1.len() < p256(
            4,
        ) by {
            assert(tail[i] == elements[i + 1]);
        }
        lemma_read_all_tlvs(tail);
        let bytes = tlvs_spec(elements);
        assert(elements[0].0 % 32 != 31);
        assert(elements[0].1.len() < p256(4));
        lemma_read_tlv(elements[0].0, elements[0].1, tlvs_spec(tail));
        assert(bytes.len() > 0);
        assert(seq![(elements[0].0, elements[0].1)] + tail =~= elements);
        assert(read_spec(bytes) == Ok::<(u8, Seq<u8>, Seq<u8>), Seq<char>>(
            (elements[0].0, elements[0].1, tlvs_spec(tail)),
        ));
    } else {
        assert(elements =~= Seq::<(u8, Seq<u8>)>::empty());
    }
}

/// `be_fixed` is exactly `n` bytes long and spells `u` where `u` fits them.
pub proof fn lemma_be_fixed(u: nat, n: nat)
    requires
        u < p256(n),
    ensures
        be_fixed(u, n).len() == n,
        be_value(be_fixed(u, n)) == u,
    decreases n,
{
    if n > 0 {
        assert(u / 256 < p256((n - 1) as nat));
        lemma_be_fixed(u / 256, (n - 1) as nat);
        assert(be_fixed(u, n).drop_last() =~= be_fixed(u / 256, (n - 1) as nat));
        assert(u == (u / 256) * 256 + u % 256);
    }
}

/// The first of some bytes has its top bit set exactly where the number
/// they spell is at least half of what that many bytes can hold.
pub proof fn lemma_sign_bit(bytes: Seq<u8>)
    requires
        bytes.len() > 0,
    ensures
        bytes[0] >= 0x80 <==> be_value(bytes) >= 128 * p256((bytes.len() - 1) as nat),
    decreases bytes.len(),
{
    let prefix = bytes.drop_last();
    if bytes.len() == 1 {
        assert(be_value(prefix) == 0);
    } else {
        lemma_sign_bit(prefix);
        assert(prefix[0] == bytes[0]);
        assert(p256((bytes.len() - 1) as nat) == 256 * p256((prefix.len() - 1) as nat));
    }
}

/// The search for the fewest bytes ends at a width that fits, past every
/// width that does not.
pub proof fn lemma_signed_width(v: int, n: nat)
    requires
        1 <= n <= 8,
        i64::MIN <= v <= i64::MAX,
    ensures
        n <= signed_width_from(v, n) <= 8,
        fits_signed(v, signed_width_from(v, n)),
        forall|m: nat| n <= m < signed_width_from(v, n) ==> !fits_signed(v, m),
    decreases 8 - n,
{
    if n >= 8 {
        assert(p256(7) == 0x100_0000_0000_0000) by {
            reveal_with_fuel(p256, 8);
        }
    } else if !fits_signed(v, n) {
        lemma_signed_width(v, n + 1);
    }
}

/// Two's complement in `n` bytes reads back as the value, wherever the value
/// fits them.
pub proof fn lemma_twos_complement_value(v: int, n: nat)
    requires
        fits_signed(v, n),
    ensures
        twos_complement(v, n).len() == n,
        signed_value(twos_complement(v, n)) == v,
{
    let u = (if v < 0 { v + p256(n) } else { v }) as nat;
    assert(p256(n) == 256 * p256((n - 1) as nat));
    lemma_be_fixed(u, n);
    lemma_sign_bit(be_fixed(u, n));
}

/// Every `i64` is written in one to eight bytes, the fewest that keep its
/// sign, and reads back as itself.
pub proof fn lemma_integer_round_trip(v: i64)
    ensures
        1 <= integer_spec(v as int).len() <= 8,
        fits_signed(v as int, integer_spec(v as int).len()),
        forall|n: nat| 1 <= n < integer_spec(v as int).len() ==> !fits_signed(v as int, n),
        read_integer_spec(integer_spec(v as int)) == Ok::<int, Seq<char>>(v as int),
{
    lemma_signed_width(v as int, 1);
    lemma_twos_complement_value(v as int, signed_width_from(v as int, 1));
}

/// After a finished arc, the base-128 digits of `x` with the high bit set
/// on every one leave `x` begun and nothing more finished.
proof fn lemma_scan_unfinished(prefix: Seq<u8>, arcs: Seq<u32>, x: nat)
    requires
        oid_scan(prefix) == Ok::<(Seq<u32>, u32), Seq<char>>((arcs, 0)),
        x <= u32::MAX,
    ensures
        oid_scan(prefix + base128_spec(x, false)) == Ok::<(Seq<u32>, u32), Seq<char>>(
            (arcs, x as u32),
        ),
    decreases x,
{
    let bytes = prefix + base128_spec(x, false);
    if x < 128 {
        assert(bytes.drop_last() =~= prefix);
    } else {
        lemma_scan_unfinished(prefix, arcs, x / 128);
        assert(bytes.drop_last() =~= prefix + base128_spec(x / 128, false));
        assert(x == (x / 128) * 128 + x % 128);
    }
}

/// The arcs finished after one more arc `x` is read.
pub open spec fn finish_arc(arcs: Seq<u32>, x: u32) -> Seq<u32> {
    if arcs.len() == 0 {
        unfold_arc(x)
    } else {
        arcs.push(x)
    }
}

/// After a finished arc, one arc in base 128 finishes exactly that arc.
proof fn lemma_scan_arc(prefix: Seq<u8>, arcs: Seq<u32>, x: nat)
    requires
        oid_scan(prefix) == Ok::<(Seq<u32>, u32), Seq<char>>((arcs, 0)),
        x <= u32::MAX,
    ensures
        oid_scan(prefix + base128_spec(x, true)) == Ok::<(Seq<u32>, u32), Seq<char>>(
            (finish_arc(arcs, x as u32), 0),
        ),
        base128_spec(x, true).len() > 0,
        base128_spec(x, true).last() < 0x80,
{
    let bytes = prefix + base128_spec(x, true);
    if x < 128 {
        assert(bytes.drop_last() =~= prefix);
    } else {
        lemma_scan_unfinished(prefix, arcs, x / 128);
        assert(bytes.drop_last() =~= prefix + base128_spec(x / 128, false));
        assert(x == (x / 128) * 128 + x % 128);
    }
}

/// The folded arc, then every later arc, scan back to the two arcs the
/// folded one stands for and the later ones.
proof fn lemma_scan_arcs(folded: nat, later: Seq<u32>)
    requires
        folded <= u32::MAX,
    ensures
        oid_scan(base128_spec(folded, true) + arcs_base128(later)) == Ok::<
            (Seq<u32>, u32),
            Seq<char>,
        >((unfold_arc(folded as u32) + later, 0)),
        (base128_spec(folded, true) + arcs_base128(later)).last() < 0x80,
    decreases later.len(),
{
    let head = base128_spec(folded, true);
    if later.len() == 0 {
        lemma_scan_arc(Seq::<u8>::empty(), Seq::<u32>::empty(), folded);
        assert(Seq::<u8>::empty() + head =~= head + arcs_base128(later));
        assert(unfold_arc(folded as u32) + later =~= unfold_arc(folded as u32));
    } else {
        let shorter = later.drop_last();
        lemma_scan_arcs(folded, shorter);
        let before = head + arcs_base128(shorter);
        lemma_scan_arc(before, unfold_arc(folded as u32) + shorter, later.last() as nat);
        assert(before + base128_spec(later.last() as nat, true) =~= head + arcs_base128(later));
        assert((unfold_arc(folded as u32) + shorter).push(later.last()) =~= unfold_arc(
            folded as u32,
        ) + later);
    }
}

/// An identifier of at least two arcs, whose first arc is 0, 1 or 2 and
/// whose second is under 40 unless the first is 2, reads back as itself
/// from the contents that encode it.
pub proof fn lemma_object_identifier_round_trip(arcs: Seq<u32>)
    requires
        arcs.len() >= 2,
        arcs[0] <= 2,
        arcs[0] < 2 ==> arcs[1] < 40,
        folded_arc(arcs) <= u32::MAX,
    ensures
        read_object_identifier_spec(object_identifier_spec(arcs)) == Ok::<Seq<u32>, Seq<char>>(
            arcs,
        ),
{
    let folded = folded_arc(arcs);
    lemma_scan_arcs(folded, later_arcs(arcs));
    lemma_scan_arc(Seq::<u8>::empty(), Seq::<u32>::empty(), folded);
    assert(unfold_arc(folded as u32) =~= arcs.subrange(0, 2));
    assert(unfold_arc(folded as u32) + later_arcs(arcs) =~= arcs);
}

/// Off a stream that starts with a tag, length and contents that `tlv`
/// writes, a reader bounded by `largest` takes exactly that element and
/// leaves what follows, wherever the contents are at most `largest` bytes;
/// where they are more, it refuses, saying how many and the bound. Every
/// length under 2^32.
pub proof fn lemma_stream_reads_tlv(tag: u8, contents: Seq<u8>, rest: Seq<u8>, largest: nat)
    requires
        contents.len() < p256(4),
    ensures
        contents.len() <= largest ==> drive(
            start_view(largest),
            tlv_spec(tag, contents) + rest,
            3,
        ) == (StepView::Done(tlv_spec(tag, contents)), rest),
        contents.len() > largest ==> drive(
            start_view(largest),
            tlv_spec(tag, contents) + rest,
            3,
        ).0 == StepView::Refused(too_large_text(contents.len(), largest)),
{
    let n = contents.len();
    let octets = length_octets(n);
    let wire = tlv_spec(tag, contents) + rest;
    let opening = wire.take(2);
    let after_opening = wire.skip(2);
    lemma_length_round_trip(n, Seq::<u8>::empty());
    assert(octets + Seq::<u8>::empty() =~= octets);
    if n < 128 {
        assert(opening =~= seq![tag] + octets);
        assert(opening.drop_first() =~= octets);
        assert(after_opening =~= contents + rest);
        assert(after_opening.take(n as int) =~= contents);
        assert(after_opening.skip(n as int) =~= rest);
        assert(opening + contents =~= tlv_spec(tag, contents));
        assert(Seq::<u8>::empty() + opening =~= opening);
        if n <= largest {
            assert(after_header(opening, largest) == StepView::More(
                ReaderView {
                    element: opening,
                    largest,
                    stage: Stage::Contents,
                    want: n,
                },
            ));
        }
    } else {
        let digits = be_bytes(n);
        lemma_be_bytes_len(n, 4);
        let w = digits.len();
        assert(octets =~= seq![(0x80 + w) as u8] + digits);
        assert(opening =~= seq![tag, (0x80 + w) as u8]);
        assert(after_opening =~= digits + (contents + rest));
        assert(after_opening.take(w as int) =~= digits);
        let header = opening + digits;
        assert(header =~= seq![tag] + octets);
        assert(header.drop_first() =~= octets);
        assert(Seq::<u8>::empty() + opening =~= opening);
        let after_length = after_opening.skip(w as int);
        assert(after_length =~= contents + rest);
        assert(after_length.take(n as int) =~= contents);
        assert(after_length.skip(n as int) =~= rest);
        assert(header + contents =~= tlv_spec(tag, contents));
    }
    reveal_with_fuel(drive, 4);
}

/// The long form of a length is written in the fewest bytes: no leading
/// zero byte, and no fewer bytes could hold it.
pub proof fn lemma_length_is_shortest(n: nat)
    requires
        n >= 128,
    ensures
        length_octets(n) == seq![(0x80 + be_bytes(n).len()) as u8] + be_bytes(n),
        be_bytes(n)[0] != 0,
        p256((be_bytes(n).len() - 1) as nat) <= n < p256(be_bytes(n).len()),
{
    lemma_be_bytes_leading(n);
}

/// The fewest base-256 digits of a positive `n` start with a non-zero one,
/// and their count `k` is the one with `256^(k-1) <= n < 256^k`.
proof fn lemma_be_bytes_leading(n: nat)
    requires
        n > 0,
    ensures
        be_bytes(n).len() >= 1,
        be_bytes(n)[0] != 0,
        p256((be_bytes(n).len() - 1) as nat) <= n < p256(be_bytes(n).len()),
    decreases n,
{
    if n >= 256 {
        lemma_be_bytes_leading(n / 256);
        assert(be_bytes(n)[0] == be_bytes(n / 256)[0]);
        let k = be_bytes(n / 256).len();
        assert(p256(k) == 256 * p256((k - 1) as nat));
        assert(p256(k + 1) == 256 * p256(k));
    }
}

/// Among fields written one after another, `[number]` explicitly tagged
/// finds the first field so tagged and unwraps the element it holds, with
/// whatever follows that element inside the wrapper ignored; where no field
/// is so tagged, there is none. Every tag under the high-tag-number form
/// and every length under 2^32.
pub proof fn lemma_field_of_tlvs(
    fields: Seq<(u8, Seq<u8>)>,
    number: u8,
    index: int,
    tag: u8,
    contents: Seq<u8>,
    after: Seq<u8>,
)
    requires
        forall|i: int| 0 <= i < fields.len() ==> #[trigger] fields[i].0 % 32 != 31,
        forall|i: int| 0 <= i < fields.len() ==> #[trigger] fields[i].1.len() < p256(4),
        tag % 32 != 31,
        contents.len() < p256(4),
    ensures
        first_tagged(fields, context_tag(number, true), index) && fields[index].1 == tlv_spec(
            tag,
            contents,
        ) + after ==> field_spec(tlvs_spec(fields), number) == Ok::<
            Option<(u8, Seq<u8>)>,
            Seq<char>,
        >(Some((tag, contents))),
        none_tagged(fields, context_tag(number, true)) ==> field_spec(tlvs_spec(fields), number)
            == Ok::<Option<(u8, Seq<u8>)>, Seq<char>>(None),
{
    lemma_read_all_tlvs(fields);
    lemma_read_tlv(tag, contents, after);
    let wrapper = context_tag(number, true);
    if first_tagged(fields, wrapper, index) {
        let k = choose|k: int| first_tagged(fields, wrapper, k);
        assert(k == index);
    }
}

/// A length read whole from some bytes reads the same with more after them.
proof fn lemma_length_extends(bytes: Seq<u8>, more: Seq<u8>)
    requires
        length_spec(bytes) is Ok,
    ensures
        length_spec(bytes + more) == length_spec(bytes),
{
    let all = bytes + more;
    if bytes[0] >= 0x80 {
        let width = (bytes[0] - 0x80) as nat;
        assert(all.subrange(1, width as int + 1) =~= bytes.subrange(1, width as int + 1));
    }
}

/// An element read whole from some bytes reads the same with more after
/// them, the more after what followed it.
pub proof fn lemma_read_extends(bytes: Seq<u8>, more: Seq<u8>)
    requires
        read_spec(bytes) is Ok,
    ensures
        read_spec(bytes + more) == Ok::<(u8, Seq<u8>, Seq<u8>), Seq<char>>(
            (read_spec(bytes)->Ok_0.0, read_spec(bytes)->Ok_0.1, read_spec(bytes)->Ok_0.2 + more),
        ),
{
    let all = bytes + more;
    assert(all.drop_first() =~= bytes.drop_first() + more);
    lemma_length_extends(bytes.drop_first(), more);
    let (said, took) = length_spec(bytes.drop_first())->Ok_0;
    let after = bytes.drop_first().skip(took as int);
    assert(all.drop_first().skip(took as int) =~= after + more);
    assert((after + more).take(said as int) =~= after.take(said as int));
    assert((after + more).skip(said as int) =~= after.skip(said as int) + more);
}

/// Where some bytes read whole into elements and what follows them does not
/// begin with an element, reading all of it fails as that element fails,
/// and none of the elements before it are given.
pub proof fn lemma_read_all_stops_at_failure(whole: Seq<u8>, broken: Seq<u8>)
    requires
        read_all_spec(whole) is Ok,
        broken.len() > 0,
        read_spec(broken) is Err,
    ensures
        read_all_spec(whole + broken) == Err::<Seq<(u8, Seq<u8>)>, Seq<char>>(
            read_spec(broken)->Err_0,
        ),
    decreases whole.len(),
{
    if whole.len() == 0 {
        assert(whole + broken =~= broken);
    } else {
        let (tag, contents, rest) = read_spec(whole)->Ok_0;
        lemma_read_extends(whole, broken);
        lemma_read_all_stops_at_failure(rest, broken);
    }
}

/// The number two runs of digits spell together: the first shifted past the
/// second, plus the second.
pub proof fn lemma_be_value_concat(high: Seq<u8>, low: Seq<u8>)
    ensures
        be_value(high + low) == be_value(high) * p256(low.len()) + be_value(low),
    decreases low.len(),
{
    if low.len() == 0 {
        assert(high + low =~= high);
        assert(be_value(high) * 1 == be_value(high));
    } else {
        let shorter = low.drop_last();
        lemma_be_value_concat(high, shorter);
        assert((high + low).drop_last() =~= high + shorter);
        assert((high + low).last() == low.last());
        let a = be_value(high);
        let ps = p256(shorter.len());
        let bs = be_value(shorter);
        let last = low.last() as nat;
        assert(p256(low.len()) == 256 * ps);
        assert(be_value(low) == bs * 256 + last);
        assert((a * ps + bs) * 256 + last == a * (256 * ps) + (bs * 256 + last))
            by (nonlinear_arith);
    }
}

/// An `INTEGER`'s contents as `integer` writes them start with no byte that
/// only repeats the sign: more than one byte never starts with `0x00` and a
/// byte under `0x80`, nor with `0xff` and a byte from `0x80`.
pub proof fn lemma_integer_has_no_redundant_byte(v: i64)
    ensures
        integer_spec(v as int).len() > 1 ==> {
            let r = integer_spec(v as int);
            &&& !(r[0] == 0x00 && r[1] < 0x80)
            &&& !(r[0] == 0xff && r[1] >= 0x80)
        },
{
    lemma_integer_round_trip(v);
    let r = integer_spec(v as int);
    let n = r.len();
    if n > 1 {
        let w = signed_width_from(v as int, 1);
        lemma_signed_width(v as int, 1);
        lemma_twos_complement_value(v as int, w);
        lemma_sign_bit(r);
        let top = r.take(2);
        let low = r.skip(2);
        assert(top + low =~= r);
        lemma_be_value_concat(top, low);
        lemma_be_value_bound(low);
        assert(top.drop_last() =~= seq![r[0]]);
        lemma_be_value_one(r[0]);
        assert(top.len() == 2 && top.last() == r[1]);
        assert(be_value(top) == r[0] * 256 + r[1]);
        let p = p256(low.len());
        lemma_p256_grows(0, low.len());
        assert(low.len() == n - 2);
        assert(p256((n - 1) as nat) == 256 * p);
        assert(p256(n) == 256 * (256 * p));
        assert(!fits_signed(v as int, (n - 1) as nat));
        if r[0] == 0x00 && r[1] < 0x80 {
            assert(be_value(top) * p == r[1] * p) by (nonlinear_arith)
                requires
                    be_value(top) == r[0] * 256 + r[1],
                    r[0] == 0,
            ;
            assert(be_value(r) == r[1] * p + be_value(low));
            assert(r[1] * p + be_value(low) < 128 * p) by (nonlinear_arith)
                requires
                    r[1] < 0x80,
                    be_value(low) < p,
            ;
            assert(fits_signed(v as int, (n - 1) as nat));
        }
        if r[0] == 0xff && r[1] >= 0x80 {
            let head: int = 0xff * 256 + r[1];
            assert(be_value(top) == head);
            let t: int = head * p;
            assert(be_value(r) == t + be_value(low));
            assert(t >= 65408 * p) by (nonlinear_arith)
                requires
                    t == head * p,
                    head >= 65408,
                    p >= 0,
            ;
            assert(signed_value(r) == v);
            assert(signed_value(r) == be_value(r) - p256(n));
            assert(v >= -128 * p);
            lemma_be_value_bound(r);
            assert(v < 0);
            assert(p256((((n - 1) as nat) - 1) as nat) == p);
            assert(fits_signed(v as int, (n - 1) as nat));
        }
    }
}

/// An `INTEGER` that `integer` writes reads back through
/// `Element::integer` as itself exactly where it is from 0 to `u32::MAX`,
/// and as nothing elsewhere.
pub proof fn lemma_integer_reads_as_small_integer(v: i64)
    ensures
        small_integer_spec(INTEGER, integer_spec(v as int)) == if 0 <= v <= u32::MAX {
            Some(v as u32)
        } else {
            None
        },
{
    lemma_integer_round_trip(v);
    let r = integer_spec(v as int);
    let n = r.len();
    let w = signed_width_from(v as int, 1);
    lemma_signed_width(v as int, 1);
    lemma_twos_complement_value(v as int, w);
    lemma_sign_bit(r);
    let rest = r.drop_first();
    assert(seq![r[0]] + rest =~= r);
    lemma_be_value_concat(seq![r[0]], rest);
    lemma_be_value_one(r[0]);
    lemma_be_value_bound(rest);
    lemma_be_value_bound(r);
    reveal_with_fuel(p256, 6);
    if v >= 0 {
        assert(r[0] < 0x80);
        assert(be_value(r) == v);
        if r[0] == 0 {
            assert(be_value(seq![r[0]]) * p256(rest.len()) == 0) by (nonlinear_arith)
                requires
                    be_value(seq![r[0]]) == 0,
            ;
            assert(be_value(rest) == v);
        } else {
            assert(be_value(r) >= r[0] * p256(rest.len())) by (nonlinear_arith)
                requires
                    be_value(r) == r[0] * p256(rest.len()) + be_value(rest),
            ;
            assert(r[0] * p256(rest.len()) >= p256(rest.len())) by (nonlinear_arith)
                requires
                    r[0] >= 1,
            ;
            if n >= 5 {
                lemma_p256_grows(4, (n - 1) as nat);
            }
        }
        if v <= u32::MAX {
            if n >= 6 {
                assert(fits_signed(v as int, 5));
            }
        } else {
            if n <= 4 {
                lemma_p256_grows((n - 1) as nat, 3);
            }
        }
    }
}

/// One digit spells itself.
proof fn lemma_be_value_one(digit: u8)
    ensures
        be_value(seq![digit]) == digit as nat,
{
    let one = seq![digit];
    assert(one.drop_last() =~= Seq::<u8>::empty());
    assert(be_value(one.drop_last()) == 0);
    assert(one.last() == digit);
}

/// `[number]` explicitly tagged is found as the first child so tagged and
/// read as the element it wraps; where the children cannot be read, the
/// failure is theirs; where no child is so tagged, there is none.
pub proof fn lemma_field_is_first_wrapper_read(content: Seq<u8>, number: u8, index: int)
    ensures
        match read_all_spec(content) {
            Err(why) => field_spec(content, number) == Err::<Option<(u8, Seq<u8>)>, Seq<char>>(
                why,
            ),
            Ok(children) => {
                &&& first_tagged(children, context_tag(number, true), index) ==> field_spec(
                    content,
                    number,
                ) == match read_spec(children[index].1) {
                    Err(why) => Err::<Option<(u8, Seq<u8>)>, Seq<char>>(why),
                    Ok((tag, inner, _)) => Ok(Some((tag, inner))),
                }
                &&& none_tagged(children, context_tag(number, true)) ==> field_spec(
                    content,
                    number,
                ) == Ok::<Option<(u8, Seq<u8>)>, Seq<char>>(None)
            },
        },
{
    if read_all_spec(content) is Ok {
        let children = read_all_spec(content)->Ok_0;
        let wrapper = context_tag(number, true);
        if first_tagged(children, wrapper, index) {
            let k = choose|k: int| first_tagged(children, wrapper, k);
            assert(k == index);
        }
    }
}

/// The arc begun and not yet finished after `bytes`, at its full value.
pub open spec fn pending_arc(bytes: Seq<u8>) -> nat
    decreases bytes.len(),
{
    if bytes.len() == 0 || bytes.last() < 0x80 {
        0
    } else {
        pending_arc(bytes.drop_last()) * 128 + (bytes.last() % 128) as nat
    }
}

/// The full value of the arc as far as the last of `bytes`, that byte
/// included.
pub open spec fn arc_through(bytes: Seq<u8>) -> nat {
    pending_arc(bytes.drop_last()) * 128 + (bytes.last() % 128) as nat
}

/// Scanning an identifier's contents fails exactly where some arc, read as
/// far as some byte, reaches 2^32, and says so; where it does not fail, the
/// arc it holds unfinished is the full value of the pending one.
pub proof fn lemma_scan_fails_where_an_arc_passes_32_bits(contents: Seq<u8>)
    ensures
        oid_scan(contents) is Err <==> exists|j: int|
            0 <= j < contents.len() && #[trigger] arc_through(contents.take(j + 1)) > u32::MAX,
        oid_scan(contents) is Err ==> oid_scan(contents)->Err_0 == large_arc_text(),
        oid_scan(contents) is Ok ==> oid_scan(contents)->Ok_0.1 == pending_arc(contents),
    decreases contents.len(),
{
    if contents.len() > 0 {
        let shorter = contents.drop_last();
        lemma_scan_fails_where_an_arc_passes_32_bits(shorter);
        let last = contents.len() - 1;
        assert(contents.take(last + 1) =~= contents);
        assert(contents.drop_last() =~= shorter);
        assert forall|j: int| 0 <= j < shorter.len() implies #[trigger] contents.take(j + 1)
            == shorter.take(j + 1) by {
            assert(contents.take(j + 1) =~= shorter.take(j + 1));
        }
        if oid_scan(shorter) is Err {
            let j = choose|j: int|
                0 <= j < shorter.len() && #[trigger] arc_through(shorter.take(j + 1)) > u32::MAX;
            assert(contents.take(j + 1) == shorter.take(j + 1));
            assert(arc_through(contents.take(j + 1)) > u32::MAX);
        } else {
            if exists|j: int|
                0 <= j < contents.len() && #[trigger] arc_through(contents.take(j + 1))
                    > u32::MAX {
                let j = choose|j: int|
                    0 <= j < contents.len() && #[trigger] arc_through(contents.take(j + 1))
                        > u32::MAX;
                if j < shorter.len() {
                    assert(contents.take(j + 1) == shorter.take(j + 1));
                    assert(arc_through(shorter.take(j + 1)) > u32::MAX);
                } else {
                    assert(j == last);
                }
            }
            assert(arc_through(contents) == pending_arc(shorter) * 128 + (contents.last()
                % 128) as nat);
        }
    }
}

} // verus!
