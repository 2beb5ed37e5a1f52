//! X.690 tag-length-value: what every ASN.1 protocol and token frames with.
//!
//! ```text
//! tag     one byte: class, constructed, number under 31
//! length  under 128 in one byte; else 0x80 | n, then n bytes, n at most 4
//! value   that many bytes
//! ```
//!
//! The subset is deliberate: the high-tag-number form and the indefinite
//! length are refused, and a writer here always uses the shortest definite
//! length, which is DER and is also valid BER.
//!
//! Nothing here knows what a tag means. [`Element`] reads the explicitly
//! tagged fields Kerberos and SPNEGO are made of; the flat functions read and
//! write for protocols that walk their own structure.

use vstd::prelude::*;

pub mod byte_laws;
pub mod decode;
pub mod element;
pub mod encode;
pub mod laws;
pub mod oid;
pub mod stream;
pub mod text;

pub use decode::{expect, find, read, read_all, read_integer};
pub use element::{Element, GeneralizedTime};
pub use encode::{integer, tlv, write_tlv};
pub use oid::{object_identifier, read_object_identifier};
pub use stream::{ElementReader, Stage, Step};

verus! {

/// `BOOLEAN`.
pub const BOOLEAN: u8 = 0x01;
/// `INTEGER`.
pub const INTEGER: u8 = 0x02;
/// `BIT STRING`.
pub const BIT_STRING: u8 = 0x03;
/// `OCTET STRING`.
pub const OCTET_STRING: u8 = 0x04;
/// `NULL`.
pub const NULL: u8 = 0x05;
/// `OBJECT IDENTIFIER`.
pub const OBJECT_IDENTIFIER: u8 = 0x06;
/// `ENUMERATED`: an LDAP result code.
pub const ENUMERATED: u8 = 0x0a;
/// `GeneralizedTime`, which RFC 4120 uses for every time.
pub const GENERALIZED_TIME: u8 = 0x18;
/// `VisibleString`.
pub const VISIBLE_STRING: u8 = 0x1a;
/// `GeneralString`, which RFC 4120 uses for every name.
pub const GENERAL_STRING: u8 = 0x1b;
/// `SEQUENCE` and `SEQUENCE OF`, constructed.
pub const SEQUENCE: u8 = 0x30;

/// The tag byte of `[number]`, context-specific: class bits `10`, the
/// constructed bit, and the low five bits of `number`.
pub open spec fn context_tag(number: u8, constructed: bool) -> u8 {
    (0x80 + (if constructed { 0x20int } else { 0 }) + number % 32) as u8
}

/// The tag byte of `[APPLICATION number]`, constructed: class bits `01`,
/// the constructed bit, and the low five bits of `number`.
pub open spec fn application_tag(number: u8) -> u8 {
    (0x60 + number % 32) as u8
}

/// The tag of `[n]`, context-specific, constructed or primitive.
pub fn context(number: u8, constructed: bool) -> (tag: u8)
    ensures
        tag == context_tag(number, constructed),
{
    let form: u8 = if constructed { 0x20 } else { 0x00 };
    assert(0x80u8 | form | (number & 0x1f) == (0x80 + form + number % 32) as u8) by (bit_vector)
        requires
            form == 0x20u8 || form == 0x00u8,
    ;
    0x80 | form | (number & 0x1f)
}

/// The tag of `[APPLICATION n]`, constructed.
pub fn application(number: u8) -> (tag: u8)
    ensures
        tag == application_tag(number),
{
    assert(0x60u8 | (number & 0x1f) == (0x60 + number % 32) as u8) by (bit_vector);
    0x60 | (number & 0x1f)
}

/// Why bytes are not the X.690 this reads.
#[derive(Clone, Debug, Eq, PartialEq)]
pub struct Asn1Error {
    /// What was wrong, in words.
    pub message: String,
}

impl Asn1Error {
    /// A failure saying `message`.
    pub fn new<M: Into<String>>(message: M) -> (e: Asn1Error)
        ensures
            call_ensures(M::into, (message,), e.message),
    {
        Asn1Error { message: message.into() }
    }
}

} // verus!
