//! Identifiers of participants and records: 128-bit values that the `uuid`
//! crate generates, prints and parses.
use crate::text::{copy_range, hex_char};
use vstd::prelude::*;

verus! {

/// An identifier of version 4 in the RFC 9562 layout: the version nibble
/// (bits 76 to 79) holds 4 and the two variant bits (62 and 63) hold `10`.
pub open spec fn is_v4_id(id: u128) -> bool {
    (id >> 76u128) & 0xfu128 == 4 && (id >> 62u128) & 0x3u128 == 2
}

/// `Uuid::new_v4().as_u128()`: a fresh random identifier. `new_v4` masks a
/// random 128-bit value and sets the version and variant bits, so every
/// result is a version 4 identifier; the other 122 bits are random and
/// nothing more is stated of them.
#[verifier::external_body]
pub(crate) fn new_id() -> (id: u128)
    ensures
        is_v4_id(id),
{
    uuid::Uuid::new_v4().as_u128()
}

/// The last `n` hexadecimal digits of `v`, most significant first, lower case.
pub open spec fn hex_digits(v: nat, n: nat) -> Seq<char>
    decreases n,
{
    if n == 0 {
        Seq::empty()
    } else {
        hex_digits(v / 16, (n - 1) as nat).push(hex_char((v % 16) as int))
    }
}

/// The hyphenated lower-case form of an identifier, `8-4-4-4-12` hex digits.
pub open spec fn uuid_text(id: u128) -> Seq<char> {
    let h = hex_digits(id as nat, 32);
    h.subrange(0, 8) + seq!['-'] + h.subrange(8, 12) + seq!['-'] + h.subrange(12, 16) + seq!['-']
        + h.subrange(16, 20) + seq!['-'] + h.subrange(20, 32)
}

/// `Uuid::from_u128(id).to_string()`: the hyphenated lower-case form
/// (`Display` of `Uuid` formats the 16 big-endian bytes as lower-case hex
/// nibbles with hyphens after the 8th, 12th, 16th and 20th digit), which
/// `Uuid::parse_str` reads back as the same identifier.
#[verifier::external_body]
pub(crate) fn id_to_string(id: u128) -> (s: String)
    ensures
        s@ == uuid_text(id),
        uuid_parsed(s@) == Some(id),
{
    uuid::Uuid::from_u128(id).to_string()
}

/// What `Uuid::parse_str` accepts and yields, as a 128-bit value.
pub uninterp spec fn uuid_parsed(s: Seq<char>) -> Option<u128>;

/// `Uuid::parse_str(s)`, the value as `as_u128`: the result is `uuid_parsed`
/// of the argument; the accepted forms are left unstated.
#[verifier::external_body]
pub(crate) fn parse_id(s: &str) -> (r: Option<u128>)
    ensures
        r == uuid_parsed(s@),
{
    uuid::Uuid::parse_str(s).ok().map(|u| u.as_u128())
}

/// The first eight characters of the hyphenated form of `id`.
pub fn id_prefix(id: u128) -> (r: Vec<char>)
    ensures
        r@ == uuid_text(id).subrange(0, 8),
{
    let s = id_to_string(id);
    let v = crate::text::chars_of(s.as_str());
    proof {
        assert(uuid_text(id).len() >= 8) by {
            lemma_hex_digits_len(id as nat, 32);
        }
    }
    copy_range(&v, 0, 8)
}

pub proof fn lemma_hex_digits_len(v: nat, n: nat)
    ensures
        hex_digits(v, n).len() == n,
    decreases n,
{
    if n > 0 {
        lemma_hex_digits_len(v / 16, (n - 1) as nat);
    }
}

} // verus!
