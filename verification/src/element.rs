//! One element as a value, for structures of explicitly tagged fields.
//!
//! Kerberos and SPNEGO are `SEQUENCE`s whose fields are each wrapped in
//! `[n]`; [`Element::field`] finds and unwraps one. Nothing is copied: an
//! element borrows its contents from the bytes it was read out of.

use vstd::prelude::*;
use vstd::utf8::{decode_utf8, valid_utf8};

use crate::decode::{be_value, first_tagged, none_tagged, read_all_spec, read_spec};
use crate::text::{unexpected, unexpected_text};
use crate::{context, context_tag, Asn1Error, GENERALIZED_TIME, GENERAL_STRING, INTEGER};

verus! {

/// One element: its tag and its contents.
#[derive(Clone, Copy, Debug, Eq, PartialEq)]
pub struct Element<'a> {
    /// The tag byte.
    pub tag: u8,
    /// The contents.
    pub content: &'a [u8],
}

/// The civil time a `GeneralizedTime` of whole seconds in UTC spells, field
/// by field, as its digits say: nothing here checks the calendar.
#[derive(Clone, Copy, Debug, Eq, PartialEq)]
pub struct GeneralizedTime {
    /// The year, four digits.
    pub year: i64,
    /// The month, two digits.
    pub month: u32,
    /// The day of the month, two digits.
    pub day: u32,
    /// The hour, two digits.
    pub hour: u32,
    /// The minute, two digits.
    pub minute: u32,
    /// The second, two digits.
    pub second: u32,
}

/// Elements taken by value, as tag and contents.
pub open spec fn elements_view<'a>(elements: Seq<Element<'a>>) -> Seq<(u8, Seq<u8>)> {
    elements.map_values(|e: Element<'a>| (e.tag, e.content@))
}

/// What `[number]`, explicitly tagged, wraps among the elements `content`
/// holds, as tag and contents: the first child so tagged, read; none where
/// no child is so tagged; the words of a failure where the children or the
/// wrapped element cannot be read.
pub open spec fn field_spec(content: Seq<u8>, number: u8) -> Result<
    Option<(u8, Seq<u8>)>,
    Seq<char>,
> {
    let wrapper = context_tag(number, true);
    match read_all_spec(content) {
        Err(why) => Err(why),
        Ok(children) => if exists|i: int| first_tagged(children, wrapper, i) {
            let i = choose|i: int| first_tagged(children, wrapper, i);
            match read_spec(children[i].1) {
                Err(why) => Err(why),
                Ok((tag, inner, _)) => Ok(Some((tag, inner))),
            }
        } else {
            Ok(None)
        },
    }
}

/// An `INTEGER`'s contents as a non-negative number that fits 32 bits: no
/// sign bit, and after one leading zero byte at most four bytes.
pub open spec fn small_integer_spec(tag: u8, content: Seq<u8>) -> Option<u32> {
    if tag != INTEGER || content.len() == 0 || content[0] >= 0x80 {
        None
    } else {
        let digits = if content[0] == 0 {
            content.drop_first()
        } else {
            content
        };
        if digits.len() <= 4 {
            Some(be_value(digits) as u32)
        } else {
            None
        }
    }
}

/// The byte of an ASCII decimal digit.
pub open spec fn is_digit(byte: u8) -> bool {
    0x30 <= byte <= 0x39
}

/// The number ASCII decimal `digits` spell.
pub open spec fn decimal(digits: Seq<u8>) -> nat
    decreases digits.len(),
{
    if digits.len() == 0 {
        0
    } else {
        decimal(digits.drop_last()) * 10 + (digits.last() - 0x30) as nat
    }
}

/// `YYYYMMDDHHMMSSZ`: fifteen bytes, fourteen digits and a `Z`.
pub open spec fn is_utc_seconds(content: Seq<u8>) -> bool {
    &&& content.len() == 15
    &&& forall|i: int| 0 <= i < 14 ==> is_digit(#[trigger] content[i])
    &&& content[14] == 0x5a
}

/// The fields a `GeneralizedTime` element spells, where it is one of whole
/// seconds in UTC.
pub open spec fn generalized_time_spec(tag: u8, content: Seq<u8>) -> Option<GeneralizedTime> {
    if tag == GENERALIZED_TIME && is_utc_seconds(content) {
        Some(
            GeneralizedTime {
                year: decimal(content.subrange(0, 4)) as i64,
                month: decimal(content.subrange(4, 6)) as u32,
                day: decimal(content.subrange(6, 8)) as u32,
                hour: decimal(content.subrange(8, 10)) as u32,
                minute: decimal(content.subrange(10, 12)) as u32,
                second: decimal(content.subrange(12, 14)) as u32,
            },
        )
    } else {
        None
    }
}

/// `core::str::from_utf8`: the text `bytes` are, where they are valid UTF-8
/// (per vstd's `valid_utf8`), and nothing where they are not.
#[verifier::external_body]
fn utf8(bytes: &[u8]) -> (text: Option<&str>)
    ensures
        text is Some <==> valid_utf8(bytes@),
        text matches Some(s) ==> s@ == decode_utf8(bytes@),
{
    core::str::from_utf8(bytes).ok()
}

/// The number the ASCII digits `bytes[from..to]` spell.
fn number(bytes: &[u8], from: usize, to: usize) -> (n: u32)
    requires
        from <= to <= bytes.len(),
        to - from <= 4,
        forall|i: int| from <= i < to ==> is_digit(#[trigger] bytes@[i]),
    ensures
        n == decimal(bytes@.subrange(from as int, to as int)),
{
    let mut n: u32 = 0;
    let mut i: usize = from;
    assert(bytes@.subrange(from as int, from as int) =~= Seq::<u8>::empty());
    while i < to
        invariant
            from <= i <= to <= bytes.len(),
            to - from <= 4,
            forall|j: int| from <= j < to ==> is_digit(#[trigger] bytes@[j]),
            n == decimal(bytes@.subrange(from as int, i as int)),
            n < p10((i - from) as nat),
        decreases to - i,
    {
        assert(is_digit(bytes@[i as int]));
        assert(bytes@.subrange(from as int, i as int + 1).drop_last() =~= bytes@.subrange(
            from as int,
            i as int,
        ));
        assert(p10((i - from) as nat + 1) == 10 * p10((i - from) as nat));
        assert(p10((i - from) as nat) <= 1000) by {
            reveal_with_fuel(p10, 4);
        }
        n = n * 10 + (bytes[i] - 0x30) as u32;
        i = i + 1;
    }
    n
}

/// `10` to the power `n`.
pub open spec fn p10(n: nat) -> nat
    decreases n,
{
    if n == 0 {
        1
    } else {
        10 * p10((n - 1) as nat)
    }
}

impl<'a> Element<'a> {
    /// The element at the head of `input`, and what follows it.
    ///
    /// # Errors
    /// As [`crate::read`].
    pub fn read(input: &'a [u8]) -> (r: Result<(Element<'a>, &'a [u8]), Asn1Error>)
        ensures
            match r {
                Ok((element, rest)) => read_spec(input@) == Ok::<
                    (u8, Seq<u8>, Seq<u8>),
                    Seq<char>,
                >((element.tag, element.content@, rest@)),
                Err(e) => read_spec(input@) == Err::<(u8, Seq<u8>, Seq<u8>), Seq<char>>(
                    e.message@,
                ),
            },
    {
        let (tag, content, rest) = match crate::read(input) {
            Ok(found) => found,
            Err(e) => return Err(e),
        };
        Ok((Element { tag, content }, rest))
    }

    /// The element at the head of `input`, which must carry `tag`.
    ///
    /// # Errors
    /// As [`Element::read`], and where the tag is another: the error names
    /// `what` was expected.
    pub fn expect(input: &'a [u8], tag: u8, what: &str) -> (r: Result<Element<'a>, Asn1Error>)
        ensures
            match read_spec(input@) {
                Err(why) => r matches Err(e) && e.message@ == why,
                Ok((found, content, _)) => if found == tag {
                    r matches Ok(element) && element.tag == tag && element.content@ == content
                } else {
                    r matches Err(e) && e.message@ == unexpected_text(what@, tag, found)
                },
            },
    {
        let (element, _) = match Self::read(input) {
            Ok(found) => found,
            Err(e) => return Err(e),
        };
        if element.tag == tag {
            Ok(element)
        } else {
            Err(Asn1Error { message: unexpected(what, tag, element.tag) })
        }
    }

    /// The elements inside this one, in order.
    ///
    /// # Errors
    /// As [`Element::read`], for any of them.
    pub fn children(&self) -> (r: Result<Vec<Element<'a>>, Asn1Error>)
        ensures
            match r {
                Ok(children) => read_all_spec(self.content@) == Ok::<
                    Seq<(u8, Seq<u8>)>,
                    Seq<char>,
                >(elements_view(children@)),
                Err(e) => read_all_spec(self.content@) == Err::<Seq<(u8, Seq<u8>)>, Seq<char>>(
                    e.message@,
                ),
            },
    {
        let mut children: Vec<Element<'a>> = Vec::new();
        let mut rest = self.content;
        while rest.len() > 0
            invariant
                read_all_spec(self.content@) == match read_all_spec(rest@) {
                    Ok(others) => Ok::<Seq<(u8, Seq<u8>)>, Seq<char>>(
                        elements_view(children@) + others,
                    ),
                    Err(why) => Err(why),
                },
            decreases rest@.len(),
        {
            let (child, after) = match Self::read(rest) {
                Ok(found) => found,
                Err(e) => return Err(e),
            };
            let ghost before = children@;
            children.push(child);
            proof {
                assert(elements_view(children@) =~= elements_view(before) + seq![
                    (child.tag, child.content@),
                ]);
                match read_all_spec(after@) {
                    Ok(others) => {
                        assert(elements_view(before) + (seq![(child.tag, child.content@)] + others)
                            =~= elements_view(children@) + others);
                    },
                    Err(_) => {},
                }
            }
            rest = after;
        }
        assert(elements_view(children@) + Seq::<(u8, Seq<u8>)>::empty() =~= elements_view(
            children@,
        ));
        Ok(children)
    }

    /// What `[number]`, explicitly tagged, wraps among this element's
    /// children, where it is there.
    ///
    /// # Errors
    /// As [`Element::read`].
    pub fn field(&self, number: u8) -> (r: Result<Option<Element<'a>>, Asn1Error>)
        ensures
            match r {
                Ok(Some(inner)) => field_spec(self.content@, number) == Ok::<
                    Option<(u8, Seq<u8>)>,
                    Seq<char>,
                >(Some((inner.tag, inner.content@))),
                Ok(None) => field_spec(self.content@, number) == Ok::<
                    Option<(u8, Seq<u8>)>,
                    Seq<char>,
                >(None),
                Err(e) => field_spec(self.content@, number) == Err::<
                    Option<(u8, Seq<u8>)>,
                    Seq<char>,
                >(e.message@),
            },
    {
        let children = match self.children() {
            Ok(found) => found,
            Err(e) => return Err(e),
        };
        let wrapper = context(number, true);
        let ghost view = elements_view(children@);
        let mut i: usize = 0;
        while i < children.len()
            invariant
                0 <= i <= children@.len(),
                view == elements_view(children@),
                view.len() == children@.len(),
                read_all_spec(self.content@) == Ok::<Seq<(u8, Seq<u8>)>, Seq<char>>(view),
                wrapper == context_tag(number, true),
                forall|j: int| 0 <= j < i ==> view[j].0 != wrapper,
            decreases children@.len() - i,
        {
            if children[i].tag == wrapper {
                proof {
                    assert(first_tagged(view, wrapper, i as int));
                    let k = choose|k: int| first_tagged(view, wrapper, k);
                    assert(k == i);
                    assert(view[i as int] == (children@[i as int].tag, children@[i as int].content@));
                }
                return match Self::read(children[i].content) {
                    Ok((inner, _)) => Ok(Some(inner)),
                    Err(e) => Err(e),
                };
            }
            i = i + 1;
        }
        assert(none_tagged(view, wrapper));
        Ok(None)
    }

    /// The contents as a non-negative `INTEGER` that fits 32 bits.
    pub fn integer(&self) -> (value: Option<u32>)
        ensures
            value == small_integer_spec(self.tag, self.content@),
    {
        if self.tag != INTEGER || self.content.len() == 0 || self.content[0] >= 0x80 {
            return None;
        }
        let digits: &[u8] = if self.content[0] == 0 {
            &self.content[1..self.content.len()]
        } else {
            self.content
        };
        assert(self.content[0] == 0 ==> digits@ =~= self.content@.drop_first());
        if digits.len() > 4 {
            return None;
        }
        let mut sum: u32 = 0;
        let mut i: usize = 0;
        assert(digits@.subrange(0, 0) =~= Seq::<u8>::empty());
        while i < digits.len()
            invariant
                0 <= i <= digits.len() <= 4,
                sum == be_value(digits@.subrange(0, i as int)),
                be_value(digits@.subrange(0, i as int)) < crate::decode::p256(i as nat),
            decreases digits.len() - i,
        {
            proof {
                assert(digits@.subrange(0, i as int + 1).drop_last() =~= digits@.subrange(
                    0,
                    i as int,
                ));
                assert(crate::decode::p256(i as nat) <= 0x100_0000) by {
                    reveal_with_fuel(crate::decode::p256, 4);
                }
                crate::decode::lemma_be_value_bound(digits@.subrange(0, i as int + 1));
            }
            sum = sum * 256 + digits[i] as u32;
            i = i + 1;
        }
        assert(digits@.subrange(0, digits.len() as int) =~= digits@);
        Some(sum)
    }

    /// The contents as the text of a `GeneralString`: where the tag is that
    /// and the contents are valid UTF-8, the characters they decode to.
    pub fn text(&self) -> (text: Option<&'a str>)
        ensures
            text is Some <==> self.tag == GENERAL_STRING && valid_utf8(self.content@),
            text matches Some(s) ==> s@ == decode_utf8(self.content@),
    {
        if self.tag == GENERAL_STRING {
            utf8(self.content)
        } else {
            None
        }
    }

    /// The fields of the contents as a `GeneralizedTime` of whole seconds in
    /// UTC — `YYYYMMDDHHMMSSZ`, the only form RFC 4120 section 5.2.3 allows.
    pub fn generalized_time(&self) -> (fields: Option<GeneralizedTime>)
        ensures
            fields == generalized_time_spec(self.tag, self.content@),
    {
        let content = self.content;
        if self.tag != GENERALIZED_TIME || content.len() != 15 || content[14] != 0x5a {
            return None;
        }
        let mut i: usize = 0;
        while i < 14
            invariant
                0 <= i <= 14,
                content.len() == 15,
                content@ == self.content@,
                forall|j: int| 0 <= j < i ==> is_digit(#[trigger] content@[j]),
            decreases 14 - i,
        {
            if content[i] < 0x30 || content[i] > 0x39 {
                assert(!is_digit(content@[i as int]));
                assert(!is_utc_seconds(self.content@));
                return None;
            }
            i = i + 1;
        }
        Some(
            GeneralizedTime {
                year: number(content, 0, 4) as i64,
                month: number(content, 4, 6),
                day: number(content, 6, 8),
                hour: number(content, 8, 10),
                minute: number(content, 10, 12),
                second: number(content, 12, 14),
            },
        )
    }
}

} // verus!
