//! Note identities: 128-bit values, written and read as UUIDs.

use vstd::prelude::*;

verus! {

/// The stable key of a note: the 128 bits of its UUID, most significant first.
#[derive(Clone, Copy, Debug, PartialEq, Eq, Structural, Hash)]
pub struct NoteId {
    pub bits: u128,
}

/// The bits that `uuid::Uuid::parse_str` reads from `text`, where it accepts it.
pub uninterp spec fn uuid_of_text(text: Seq<char>) -> Option<u128>;

/// The text that `uuid::Uuid` displays for the UUID with these bits.
pub uninterp spec fn uuid_text(bits: u128) -> Seq<char>;

/// The version and variant fields of a random UUID: version 4, variant `10`.
pub open spec fn is_random_uuid(bits: u128) -> bool {
    bits & 0x0000_0000_0000_F000_C000_0000_0000_0000 == 0x0000_0000_0000_4000_8000_0000_0000_0000
}

/// Calls `uuid::Uuid::new_v4`. The value is random; the contract states the
/// two fields that the function sets in every value it returns.
#[verifier::external_body]
pub(crate) fn random_uuid_bits() -> (bits: u128)
    ensures
        is_random_uuid(bits),
{
    uuid::Uuid::new_v4().as_u128()
}

/// Calls `uuid::Uuid::parse_str`. The contract names what it reads; an input
/// that it rejects gives `None`.
#[verifier::external_body]
pub(crate) fn parse_uuid_bits(text: &str) -> (bits: Option<u128>)
    ensures
        bits == uuid_of_text(text@),
{
    match uuid::Uuid::parse_str(text) {
        Ok(id) => Some(id.as_u128()),
        Err(_) => None,
    }
}

/// Calls `to_string` on the `uuid::Uuid` made of `bits`: its hyphenated,
/// lower-case form. The contract names that text.
#[verifier::external_body]
pub(crate) fn format_uuid_bits(bits: u128) -> (text: String)
    ensures
        text@ == uuid_text(bits),
{
    uuid::Uuid::from_u128(bits).to_string()
}

impl NoteId {
    /// A new random identity.
    pub fn mint() -> (id: NoteId)
        ensures
            is_random_uuid(id.bits),
    {
        NoteId { bits: random_uuid_bits() }
    }

    /// The identity that `bits` stands for, as a UUID parser gave it for a text:
    /// `None` where it rejected the text.
    pub fn from_parsed(bits: Option<u128>) -> (id: Option<NoteId>)
        ensures
            id == Self::spec_from_parsed(bits),
    {
        match bits {
            Some(b) => Some(NoteId { bits: b }),
            None => None,
        }
    }

    pub open spec fn spec_from_parsed(bits: Option<u128>) -> Option<NoteId> {
        match bits {
            Some(b) => Some(NoteId { bits: b }),
            None => None,
        }
    }

    /// Reads an identity from UUID text.
    pub fn parse(text: &str) -> (id: Option<NoteId>)
        ensures
            id == Self::spec_from_parsed(uuid_of_text(text@)),
    {
        Self::from_parsed(parse_uuid_bits(text))
    }

    /// The identity as UUID text.
    pub fn to_text(&self) -> (text: String)
        ensures
            text@ == uuid_text(self.bits),
    {
        format_uuid_bits(self.bits)
    }
}

} // verus!
