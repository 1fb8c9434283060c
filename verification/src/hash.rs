//! The content hash that code references store: the MD5 digest of a file's
//! bytes in lowercase hex.

use vstd::prelude::*;

verus! {

/// The MD5 digest of `bytes`, written as lowercase hex.
pub uninterp spec fn md5_hex(bytes: Seq<u8>) -> Seq<char>;

/// Whether `c` is a lowercase hexadecimal digit.
pub open spec fn is_lower_hex(c: char) -> bool {
    ('0' <= c && c <= '9') || ('a' <= c && c <= 'f')
}

/// `md5::compute` formatted with `{:x}`. Trusted: the text is [`md5_hex`] of
/// the bytes, and, as the crate's `LowerHex` writes each of the sixteen
/// digest bytes as two lowercase hex digits, it has 32 such digits. The
/// digest itself is not restated.
#[verifier::external_body]
fn md5_lower_hex(bytes: &[u8]) -> (r: String)
    ensures
        r@ == md5_hex(bytes@),
        r@.len() == 32,
        forall|i: int| 0 <= i < 32 ==> is_lower_hex(#[trigger] r@[i]),
{
    format!("{:x}", md5::compute(bytes))
}

/// The hash stored for a file with content `bytes` (see [`md5_hex`]): 32
/// lowercase hex digits.
pub fn content_hash(bytes: &[u8]) -> (r: String)
    ensures
        r@ == md5_hex(bytes@),
        r@.len() == 32,
        forall|i: int| 0 <= i < r@.len() ==> is_lower_hex(#[trigger] r@[i]),
{
    md5_lower_hex(bytes)
}

} // verus!
