//! Reading: the element at the head of some bytes.

use vstd::prelude::*;

use crate::text::{
    cut_short, cut_short_text, integer_width, integer_width_text, missing_tag, missing_tag_text,
    mistagged, mistagged_text,
};
use crate::Asn1Error;

verus! {

/// `256` to the power `n`.
pub open spec fn p256(n: nat) -> nat
    decreases n,
{
    if n == 0 {
        1
    } else {
        256 * p256((n - 1) as nat)
    }
}

/// The number that `digits` spell, big-endian, base 256.
pub open spec fn be_value(digits: Seq<u8>) -> nat
    decreases digits.len(),
{
    if digits.len() == 0 {
        0
    } else {
        be_value(digits.drop_last()) * 256 + digits.last() as nat
    }
}

/// The words of the failure where nothing is there.
pub open spec fn none_text() -> Seq<char> {
    "an element was expected and there is none"@
}

/// The words of the failure where a tag is of the high-tag-number form.
pub open spec fn high_tag_text() -> Seq<char> {
    "an element's tag is of the high-tag-number form, which no protocol here uses"@
}

/// The words of the failure where the bytes end before the length.
pub open spec fn before_length_text() -> Seq<char> {
    "an element ends before its length"@
}

/// The words of the failure where the length is indefinite or too wide.
pub open spec fn wide_length_text() -> Seq<char> {
    "an element's length is indefinite or wider than four bytes"@
}

/// The words of the failure where the bytes end inside the length.
pub open spec fn inside_length_text() -> Seq<char> {
    "an element ends inside its length"@
}

/// The definite length at the head of `bytes`: what it says and how many
/// bytes saying so took, or why it is not one this reads.
///
/// Under `0x80` the first byte is the length; `0x80 | w` with `w` from one
/// to four is followed by `w` big-endian bytes of it.
pub open spec fn length_spec(bytes: Seq<u8>) -> Result<(nat, nat), Seq<char>> {
    if bytes.len() == 0 {
        Err(before_length_text())
    } else if bytes[0] < 0x80 {
        Ok((bytes[0] as nat, 1))
    } else {
        let width = (bytes[0] - 0x80) as nat;
        if width == 0 || width > 4 {
            Err(wide_length_text())
        } else if bytes.len() < width + 1 {
            Err(inside_length_text())
        } else {
            Ok((be_value(bytes.subrange(1, width as int + 1)), width + 1))
        }
    }
}

/// The first element of `bytes` as tag, contents and what follows, or the
/// words of why there is none this reads.
pub open spec fn read_spec(bytes: Seq<u8>) -> Result<(u8, Seq<u8>, Seq<u8>), Seq<char>> {
    if bytes.len() == 0 {
        Err(none_text())
    } else if bytes[0] % 32 == 31 {
        Err(high_tag_text())
    } else {
        match length_spec(bytes.drop_first()) {
            Err(why) => Err(why),
            Ok((said, took)) => {
                let after = bytes.drop_first().skip(took as int);
                if said <= after.len() {
                    Ok((bytes[0], after.take(said as int), after.skip(said as int)))
                } else {
                    Err(cut_short_text(said, after.len()))
                }
            },
        }
    }
}

/// Every element of `bytes`, in order, as tag and contents, or the words of
/// the first failure.
pub open spec fn read_all_spec(bytes: Seq<u8>) -> Result<Seq<(u8, Seq<u8>)>, Seq<char>>
    decreases bytes.len(),
{
    if bytes.len() == 0 {
        Ok(seq![])
    } else {
        match read_spec(bytes) {
            Err(why) => Err(why),
            Ok((tag, contents, rest)) => match read_all_spec(rest) {
                Err(why) => Err(why),
                Ok(others) => Ok(seq![(tag, contents)] + others),
            },
        }
    }
}

/// A list of tags and borrowed contents, taken by value.
pub open spec fn pairs_view<'a>(pairs: Seq<(u8, &'a [u8])>) -> Seq<(u8, Seq<u8>)> {
    pairs.map_values(|p: (u8, &'a [u8])| (p.0, p.1@))
}

/// `index` is the first place in `pairs` tagged `tag`.
pub open spec fn first_tagged<T>(pairs: Seq<(u8, T)>, tag: u8, index: int) -> bool {
    &&& 0 <= index < pairs.len()
    &&& pairs[index].0 == tag
    &&& forall|j: int| 0 <= j < index ==> pairs[j].0 != tag
}

/// No place in `pairs` is tagged `tag`.
pub open spec fn none_tagged<T>(pairs: Seq<(u8, T)>, tag: u8) -> bool {
    forall|j: int| 0 <= j < pairs.len() ==> pairs[j].0 != tag
}

/// The value of `contents` read as two's complement, big-endian.
pub open spec fn signed_value(contents: Seq<u8>) -> int {
    if contents.len() > 0 && contents[0] >= 0x80 {
        be_value(contents) - p256(contents.len())
    } else {
        be_value(contents) as int
    }
}

/// The words of the failure of reading an `INTEGER` of `contents`, or its
/// value.
pub open spec fn read_integer_spec(contents: Seq<u8>) -> Result<int, Seq<char>> {
    if contents.len() == 0 || contents.len() > 8 {
        Err(integer_width_text(contents.len()))
    } else {
        Ok(signed_value(contents))
    }
}

/// A value of `be_value` is below `256` to the power of the digits' count.
pub proof fn lemma_be_value_bound(digits: Seq<u8>)
    ensures
        be_value(digits) < p256(digits.len()),
    decreases digits.len(),
{
    if digits.len() > 0 {
        lemma_be_value_bound(digits.drop_last());
    }
}

/// Read `bytes[from..to]` in `be_value` one digit further.
proof fn lemma_be_value_step(bytes: Seq<u8>, from: int, to: int)
    requires
        0 <= from <= to < bytes.len(),
    ensures
        be_value(bytes.subrange(from, to + 1)) == be_value(bytes.subrange(from, to)) * 256
            + bytes[to],
{
    assert(bytes.subrange(from, to + 1).drop_last() =~= bytes.subrange(from, to));
}

/// The definite length at the head of `bytes`: what it says, and how many
/// bytes saying so took.
pub(crate) fn length(bytes: &[u8]) -> (r: Result<(usize, usize), Asn1Error>)
    ensures
        match r {
            Ok((said, took)) => length_spec(bytes@) == Ok::<(nat, nat), Seq<char>>(
                (said as nat, took as nat),
            ),
            Err(e) => length_spec(bytes@) == Err::<(nat, nat), Seq<char>>(e.message@),
        },
{
    if bytes.len() == 0 {
        return Err(Asn1Error { message: String::from_str("an element ends before its length") });
    }
    let first = bytes[0];
    if first < 0x80 {
        return Ok((first as usize, 1));
    }
    let width = (first & 0x7f) as usize;
    assert(first & 0x7f == first - 0x80) by (bit_vector)
        requires
            first >= 0x80,
    ;
    if width == 0 || width > 4 {
        return Err(
            Asn1Error {
                message: String::from_str(
                    "an element's length is indefinite or wider than four bytes",
                ),
            },
        );
    }
    if bytes.len() < width + 1 {
        return Err(Asn1Error { message: String::from_str("an element ends inside its length") });
    }
    let mut said: usize = 0;
    let mut i: usize = 1;
    proof {
        reveal_with_fuel(p256, 5);
        assert(bytes@.subrange(1, 1) =~= Seq::<u8>::empty());
    }
    while i <= width
        invariant
            1 <= i <= width + 1,
            width <= 4,
            width + 1 <= bytes.len(),
            said == be_value(bytes@.subrange(1, i as int)),
            p256(4) == 0x1_0000_0000,
        decreases width + 1 - i,
    {
        proof {
            lemma_be_value_step(bytes@, 1, i as int);
            lemma_be_value_bound(bytes@.subrange(1, i as int + 1));
            assert(p256(i as nat) <= p256(4)) by {
                reveal_with_fuel(p256, 5);
            }
        }
        said = said * 256 + bytes[i] as usize;
        i = i + 1;
    }
    Ok((said, width + 1))
}

/// The first element of `bytes`: its tag, its contents, and what follows.
///
/// # Errors
/// Nothing there, cut short, a tag of the high-tag-number form, or a length
/// that is indefinite, wider than four bytes or past the end.
pub fn read(bytes: &[u8]) -> (r: Result<(u8, &[u8], &[u8]), Asn1Error>)
    ensures
        match r {
            Ok((tag, contents, rest)) => read_spec(bytes@) == Ok::<
                (u8, Seq<u8>, Seq<u8>),
                Seq<char>,
            >((tag, contents@, rest@)),
            Err(e) => read_spec(bytes@) == Err::<(u8, Seq<u8>, Seq<u8>), Seq<char>>(e.message@),
        },
{
    if bytes.len() == 0 {
        return Err(
            Asn1Error { message: String::from_str("an element was expected and there is none") },
        );
    }
    let tag = bytes[0];
    let after_tag = &bytes[1..bytes.len()];
    assert(tag & 0x1f == tag % 32) by (bit_vector);
    if tag & 0x1f == 0x1f {
        return Err(
            Asn1Error {
                message: String::from_str(
                    "an element's tag is of the high-tag-number form, which no protocol here uses",
                ),
            },
        );
    }
    assert(after_tag@ =~= bytes@.drop_first());
    let (length, took) = match length(after_tag) {
        Ok(found) => found,
        Err(e) => return Err(e),
    };
    let rest = &after_tag[took..after_tag.len()];
    assert(rest@ =~= bytes@.drop_first().skip(took as int));
    if length > rest.len() {
        return Err(Asn1Error { message: cut_short(length, rest.len()) });
    }
    let (contents, rest) = rest.split_at(length);
    assert(contents@ =~= bytes@.drop_first().skip(took as int).take(length as int));
    assert(rest@ =~= bytes@.drop_first().skip(took as int).skip(length as int));
    Ok((tag, contents, rest))
}

/// The first element of `bytes`, which must carry `tag`: its contents and
/// what follows.
///
/// # Errors
/// As [`read`], or the element carries another tag.
pub fn expect(bytes: &[u8], tag: u8) -> (r: Result<(&[u8], &[u8]), Asn1Error>)
    ensures
        match read_spec(bytes@) {
            Err(why) => r matches Err(e) && e.message@ == why,
            Ok((found, contents, rest)) => if found == tag {
                r matches Ok((c, after)) && c@ == contents && after@ == rest
            } else {
                r matches Err(e) && e.message@ == mistagged_text(tag, found)
            },
        },
{
    let (found, contents, rest) = match read(bytes) {
        Ok(element) => element,
        Err(e) => return Err(e),
    };
    if found != tag {
        return Err(Asn1Error { message: mistagged(tag, found) });
    }
    Ok((contents, rest))
}

/// Every element of `bytes`, in order, as tag and contents.
///
/// # Errors
/// As [`read`], for any of them.
pub fn read_all(bytes: &[u8]) -> (r: Result<Vec<(u8, &[u8])>, Asn1Error>)
    ensures
        match r {
            Ok(all) => read_all_spec(bytes@) == Ok::<Seq<(u8, Seq<u8>)>, Seq<char>>(
                pairs_view(all@),
            ),
            Err(e) => read_all_spec(bytes@) == Err::<Seq<(u8, Seq<u8>)>, Seq<char>>(e.message@),
        },
{
    let mut out: Vec<(u8, &[u8])> = Vec::new();
    let mut rest = bytes;
    while rest.len() > 0
        invariant
            read_all_spec(bytes@) == match read_all_spec(rest@) {
                Ok(others) => Ok::<Seq<(u8, Seq<u8>)>, Seq<char>>(pairs_view(out@) + others),
                Err(why) => Err(why),
            },
        decreases rest@.len(),
    {
        let (tag, contents, after) = match read(rest) {
            Ok(element) => element,
            Err(e) => return Err(e),
        };
        let ghost before = out@;
        out.push((tag, contents));
        proof {
            assert(pairs_view(out@) =~= pairs_view(before) + seq![(tag, contents@)]);
            match read_all_spec(after@) {
                Ok(others) => {
                    assert(pairs_view(before) + (seq![(tag, contents@)] + others) =~= pairs_view(
                        out@,
                    ) + others);
                },
                Err(_) => {},
            }
        }
        rest = after;
    }
    assert(pairs_view(out@) + Seq::<(u8, Seq<u8>)>::empty() =~= pairs_view(out@));
    Ok(out)
}

/// The contents of the element in `elements` tagged `tag`.
///
/// # Errors
/// No such element.
pub fn find<'a>(elements: &[(u8, &'a [u8])], tag: u8) -> (r: Result<&'a [u8], Asn1Error>)
    ensures
        match r {
            Ok(contents) => exists|i: int|
                first_tagged(elements@, tag, i) && contents == elements@[i].1,
            Err(e) => none_tagged(elements@, tag) && e.message@ == missing_tag_text(tag),
        },
{
    let mut i: usize = 0;
    while i < elements.len()
        invariant
            0 <= i <= elements@.len(),
            forall|j: int| 0 <= j < i ==> elements@[j].0 != tag,
        decreases elements@.len() - i,
    {
        if elements[i].0 == tag {
            assert(first_tagged(elements@, tag, i as int));
            return Ok(elements[i].1);
        }
        i = i + 1;
    }
    Err(Asn1Error { message: missing_tag(tag) })
}

/// The value an `INTEGER`'s contents carry.
///
/// # Errors
/// Empty, or wider than sixty-four bits.
pub fn read_integer(contents: &[u8]) -> (r: Result<i64, Asn1Error>)
    ensures
        match r {
            Ok(value) => read_integer_spec(contents@) == Ok::<int, Seq<char>>(value as int),
            Err(e) => read_integer_spec(contents@) == Err::<int, Seq<char>>(e.message@),
        },
{
    if contents.len() == 0 || contents.len() > 8 {
        return Err(Asn1Error { message: integer_width(contents.len()) });
    }
    let negative = contents[0] >= 0x80;
    let mut value: i64 = if negative { -1 } else { 0 };
    let mut i: usize = 0;
    proof {
        reveal_with_fuel(p256, 8);
        assert(contents@.subrange(0, 0) =~= Seq::<u8>::empty());
    }
    while i < contents.len()
        invariant
            0 <= i <= contents.len() <= 8,
            negative == (contents@[0] >= 0x80),
            p256(6) == 0x1_0000_0000_0000,
            value == be_value(contents@.subrange(0, i as int)) - (if negative {
                p256(i as nat)
            } else {
                0
            }),
            i == 0 ==> value == (if negative { -1int } else { 0 }),
            i > 0 && negative ==> -128 * p256((i - 1) as nat) <= value < 0,
            i > 0 && !negative ==> 0 <= value < 128 * p256((i - 1) as nat),
        decreases contents.len() - i,
    {
        proof {
            lemma_be_value_step(contents@, 0, i as int);
            if i > 0 {
                lemma_p256_grows((i - 1) as nat, 6);
            }
            assert(p256(i as nat + 1) == 256 * p256(i as nat));
            if i > 0 {
                assert(p256(i as nat) == 256 * p256((i - 1) as nat));
            }
        }
        value = value * 256 + contents[i] as i64;
        i = i + 1;
    }
    assert(contents@.subrange(0, contents.len() as int) =~= contents@);
    Ok(value)
}

/// `p256` does not shrink as the power grows.
pub proof fn lemma_p256_grows(m: nat, n: nat)
    requires
        m <= n,
    ensures
        p256(m) <= p256(n),
    decreases n,
{
    if m < n {
        lemma_p256_grows(m, (n - 1) as nat);
    }
}

} // verus!
