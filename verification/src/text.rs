//! The words of the failures that name numbers. Each is `format!` over its
//! arguments: the library's words, numbers in decimal and tags as `0x` and
//! two hexadecimal digits, spelled out by the spec functions here.

use vstd::prelude::*;

verus! {

/// The character of the decimal digit `d`.
pub open spec fn decimal_digit(d: nat) -> char {
    (48 + d) as char
}

/// `n` in decimal, as `Display` writes an unsigned integer: no sign, no
/// leading zero, `0` for zero.
pub open spec fn decimal_text(n: nat) -> Seq<char>
    decreases n,
{
    if n < 10 {
        seq![decimal_digit(n)]
    } else {
        decimal_text(n / 10).push(decimal_digit(n % 10))
    }
}

/// The character of the lower-case hexadecimal digit `d`.
pub open spec fn hex_digit(d: nat) -> char {
    if d < 10 {
        (48 + d) as char
    } else {
        (87 + d) as char
    }
}

/// `byte` as `{:#04x}` writes it: `0x` and two lower-case hexadecimal
/// digits.
pub open spec fn hex_byte_text(byte: u8) -> Seq<char> {
    seq!['0', 'x', hex_digit(byte as nat / 16), hex_digit(byte as nat % 16)]
}

/// The words of an element that says `said` bytes where only `follow`
/// follow.
pub open spec fn cut_short_text(said: nat, follow: nat) -> Seq<char> {
    "an element ends inside its contents: it says "@ + decimal_text(said) + " bytes and "@
        + decimal_text(follow) + " follow"@
}

/// The words of an element tagged `found` where `tag` was expected.
pub open spec fn mistagged_text(tag: u8, found: u8) -> Seq<char> {
    "an element tagged "@ + hex_byte_text(tag) + " was expected and "@ + hex_byte_text(found)
        + " arrived"@
}

/// The words of a search for `tag` that found nothing.
pub open spec fn missing_tag_text(tag: u8) -> Seq<char> {
    "no element tagged "@ + hex_byte_text(tag)
}

/// The words of an `INTEGER` of `width` bytes.
pub open spec fn integer_width_text(width: nat) -> Seq<char> {
    "an INTEGER of "@ + decimal_text(width) + " bytes, where one to eight are read"@
}

/// The words of an element of `said` bytes where at most `largest` are
/// read.
pub open spec fn too_large_text(said: nat, largest: nat) -> Seq<char> {
    "an element says "@ + decimal_text(said) + " bytes, more than the "@ + decimal_text(largest)
        + " this reads"@
}

/// The words of an element tagged `found` where `what`, tagged `tag`, was
/// expected.
pub open spec fn unexpected_text(what: Seq<char>, tag: u8, found: u8) -> Seq<char> {
    "expected "@ + what + " (tag "@ + hex_byte_text(tag) + ") and found tag "@ + hex_byte_text(
        found,
    )
}

/// `format!` of "an element ends inside its contents: it says {said} bytes
/// and {follow} follow"; the numbers in decimal, as `cut_short_text` spells it.
#[verifier::external_body]
pub(crate) fn cut_short(said: usize, follow: usize) -> (text: String)
    ensures
        text@ == cut_short_text(said as nat, follow as nat),
{
    format!("an element ends inside its contents: it says {said} bytes and {follow} follow")
}

/// `format!` of "an element tagged {tag:#04x} was expected and {found:#04x}
/// arrived"; the tags in hexadecimal, as `mistagged_text` spells it.
#[verifier::external_body]
pub(crate) fn mistagged(tag: u8, found: u8) -> (text: String)
    ensures
        text@ == mistagged_text(tag, found),
{
    format!("an element tagged {tag:#04x} was expected and {found:#04x} arrived")
}

/// `format!` of "no element tagged {tag:#04x}"; the tag in
/// hexadecimal, as `missing_tag_text` spells it.
#[verifier::external_body]
pub(crate) fn missing_tag(tag: u8) -> (text: String)
    ensures
        text@ == missing_tag_text(tag),
{
    format!("no element tagged {tag:#04x}")
}

/// `format!` of "an INTEGER of {width} bytes, where one to eight are read";
/// the width in decimal, as `integer_width_text` spells it.
#[verifier::external_body]
pub(crate) fn integer_width(width: usize) -> (text: String)
    ensures
        text@ == integer_width_text(width as nat),
{
    format!("an INTEGER of {width} bytes, where one to eight are read")
}

/// `format!` of "an element says {said} bytes, more than the {largest} this
/// reads"; the numbers in decimal, as `too_large_text` spells it.
#[verifier::external_body]
pub(crate) fn too_large(said: usize, largest: usize) -> (text: String)
    ensures
        text@ == too_large_text(said as nat, largest as nat),
{
    format!("an element says {said} bytes, more than the {largest} this reads")
}

/// `format!` of "expected {what} (tag {tag:#04x}) and found tag
/// {found:#04x}"; `what` as it is and the tags in hexadecimal, as
/// `unexpected_text` spells it.
#[verifier::external_body]
pub(crate) fn unexpected(what: &str, tag: u8, found: u8) -> (text: String)
    ensures
        text@ == unexpected_text(what@, tag, found),
{
    format!("expected {what} (tag {tag:#04x}) and found tag {found:#04x}")
}

} // verus!
