//! Protocol text as bytes.

use vstd::prelude::*;
use vstd::string::is_ascii;
use vstd::string::is_ascii_spec_bytes;

verus! {

/// The bytes of a text of ASCII characters, one byte for each character.
pub open spec fn ascii(text: &str) -> Seq<u8> {
    Seq::new(text@.len(), |i: int| text@[i] as u8)
}

/// An ASCII upper-case letter as its lower-case letter, any other byte as
/// itself.
pub open spec fn lower(c: u8) -> u8 {
    if 65 <= c <= 90 {
        (c + 32) as u8
    } else {
        c
    }
}

/// Computes [`lower`].
pub(crate) fn to_lower(c: u8) -> (l: u8)
    ensures
        l == lower(c),
{
    if 65 <= c && c <= 90 {
        c + 32
    } else {
        c
    }
}

/// Appends the bytes of an ASCII text.
pub(crate) fn push_text(out: &mut Vec<u8>, text: &str)
    requires
        is_ascii(text),
    ensures
        final(out)@ == old(out)@ + ascii(text),
{
    proof {
        is_ascii_spec_bytes(text);
    }
    out.extend_from_slice(text.as_bytes());
}

/// The bytes of an ASCII text, borrowed.
pub(crate) fn text_bytes(text: &str) -> (bytes: &[u8])
    requires
        is_ascii(text),
    ensures
        bytes@ == ascii(text),
{
    proof {
        is_ascii_spec_bytes(text);
    }
    text.as_bytes()
}

} // verus!
