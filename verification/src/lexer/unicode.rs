//! The two Unicode questions that identifiers raise.

use super::grammar::{is_char, nfc, xid_continue, xid_start};
use unicode_normalization::UnicodeNormalization;
use vstd::prelude::*;

verus! {

/// `unicode_ident::is_xid_start`: whether a character has the property XID_Start. The
/// contract claims that the answer depends on the character alone.
pub assume_specification[ unicode_ident::is_xid_start ](ch: char) -> (r: bool)
    ensures
        r == xid_start(ch),
;

/// `unicode_ident::is_xid_continue`: whether a character has the property XID_Continue.
/// The contract claims that the answer depends on the character alone.
pub assume_specification[ unicode_ident::is_xid_continue ](ch: char) -> (r: bool)
    ensures
        r == xid_continue(ch),
;

/// `char::from_u32`: the character with a given number. There is one for every number up
/// to 0x10FFFF that is not a surrogate.
pub assume_specification[ char::from_u32 ](v: u32) -> (r: Option<char>)
    ensures
        r == if is_char(v as int) {
            Some(v as char)
        } else {
            None
        },
;

/// `unicode_normalization`'s `nfc`, collected: the text in normalization form C. The
/// contract claims that the result depends on the text alone.
#[verifier::external_body]
pub(crate) fn to_nfc(text: &str) -> (r: String)
    ensures
        r@ == nfc(text@),
{
    text.nfc().collect()
}

} // verus!
