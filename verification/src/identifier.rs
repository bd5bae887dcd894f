//! Random identifiers, and what is cut from them.
//!
//! A session's key, a chunk's nonce and the second half of a chunk's name are all
//! taken from random identifiers, which the `uuid` crate draws.

use vstd::prelude::*;
use vstd::string::{StrSliceExecFns, StringSliceAdditionalSpecFns};
use crate::crypto::{KEY_SIZE, NONCE_SIZE};

verus! {

/// Characters in an identifier.
pub const IDENTIFIER_LEN: usize = 36;

/// Where an identifier's nonce begins: its last [`NONCE_SIZE`] characters.
pub const NONCE_START: usize = 24;

/// Whether `c` is one of `0` to `9` or `a` to `f`.
pub open spec fn is_lower_hex(c: char) -> bool {
    ('0' <= c <= '9') || ('a' <= c <= 'f')
}

/// Whether an identifier has a hyphen at `position`.
pub open spec fn is_hyphen_position(position: int) -> bool {
    position == 8 || position == 13 || position == 18 || position == 23
}

/// Whether `text` has the shape of an identifier: 36 characters, hyphens after
/// the 8th, 12th, 16th and 20th digit, and lower-case hexadecimal digits elsewhere.
pub open spec fn is_identifier(text: Seq<char>) -> bool {
    &&& text.len() == IDENTIFIER_LEN
    &&& forall|i: int|
        0 <= i < text.len() ==> if is_hyphen_position(i) {
            #[trigger] text[i] == '-'
        } else {
            is_lower_hex(text[i])
        }
}

/// The key that is cut from an identifier: its first [`KEY_SIZE`] characters.
pub open spec fn key_part(id: Seq<char>) -> Seq<char> {
    id.subrange(0, KEY_SIZE as int)
}

/// The nonce that is cut from an identifier: its last [`NONCE_SIZE`] characters.
pub open spec fn nonce_part(id: Seq<char>) -> Seq<char> {
    id.subrange(NONCE_START as int, IDENTIFIER_LEN as int)
}

/// Calls `uuid::Uuid::new_v4` and writes the identifier out with its `Display`,
/// which is the hyphenated lower-case form.
///
/// Believed of it: the shape of the text. The identifier is random, so nothing
/// is said of its digits, and two calls are not known to differ. The call
/// panics where the system has no randomness to give.
#[verifier::external_body]
pub(crate) fn random_identifier() -> (id: String)
    ensures
        is_identifier(id@),
{
    uuid::Uuid::new_v4().to_string()
}

/// An identifier is ASCII, so it has as many bytes as characters, and so has
/// every part cut from it.
pub proof fn lemma_identifier_is_ascii(id: Seq<char>)
    requires
        is_identifier(id),
    ensures
        vstd::utf8::is_ascii_chars(id),
        vstd::utf8::is_ascii_chars(key_part(id)),
        vstd::utf8::is_ascii_chars(nonce_part(id)),
        vstd::utf8::encode_utf8(key_part(id)).len() == KEY_SIZE,
        vstd::utf8::encode_utf8(nonce_part(id)).len() == NONCE_SIZE,
{
    assert forall|i: int| 0 <= i < id.len() implies '\0' <= #[trigger] id[i] <= '\u{7f}' by {
        if is_hyphen_position(i) {
            assert(id[i] == '-');
        } else {
            assert(is_lower_hex(id[i]));
        }
    }
    assert(vstd::utf8::is_ascii_chars(key_part(id)));
    assert(vstd::utf8::is_ascii_chars(nonce_part(id)));
    vstd::utf8::is_ascii_chars_encode_utf8(key_part(id));
    vstd::utf8::is_ascii_chars_encode_utf8(nonce_part(id));
}

/// Cuts the key from an identifier.
pub(crate) fn key_from_identifier(id: &str) -> (key: String)
    requires
        is_identifier(id@),
    ensures
        key@ == key_part(id@),
        key@.len() == KEY_SIZE,
        vstd::utf8::encode_utf8(key@).len() == KEY_SIZE,
{
    proof {
        lemma_identifier_is_ascii(id@);
    }
    id.substring_ascii(0, KEY_SIZE).to_owned()
}

/// Cuts the nonce from an identifier.
pub(crate) fn nonce_from_identifier(id: &str) -> (nonce: String)
    requires
        is_identifier(id@),
    ensures
        nonce@ == nonce_part(id@),
        nonce@.len() == NONCE_SIZE,
        vstd::utf8::encode_utf8(nonce@).len() == NONCE_SIZE,
{
    proof {
        lemma_identifier_is_ascii(id@);
    }
    id.substring_ascii(NONCE_START, IDENTIFIER_LEN).to_owned()
}

} // verus!
