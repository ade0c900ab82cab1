//! Windows-1251, the encoding of stored session logs, through `encoding_rs`.

use vstd::prelude::*;

verus! {

/// The text that `encoding_rs::WINDOWS_1251.decode` makes of a byte string
/// (with its BOM sniffing and replacement of malformed input).
pub uninterp spec fn cp1251_decoded(bytes: Seq<u8>) -> Seq<char>;

/// The bytes that `encoding_rs::WINDOWS_1251.encode` makes of a text (with
/// unmappable characters written as HTML numeric character references).
pub uninterp spec fn cp1251_encoded(text: Seq<char>) -> Seq<u8>;

/// Decodes a Windows-1251 byte string with `encoding_rs::Encoding::decode`.
/// Claimed: the result is `cp1251_decoded` of the bytes. The bound on the
/// length leaves out the inputs whose output buffer size (three bytes per input
/// byte) would overflow `usize`, on which the call panics.
#[verifier::external_body]
pub(crate) fn decode_cp1251(bytes: &[u8]) -> (text: String)
    requires
        bytes@.len() <= usize::MAX / 4,
    ensures
        text@ == cp1251_decoded(bytes@),
{
    let (cow, _, _) = encoding_rs::WINDOWS_1251.decode(bytes);
    cow.into_owned()
}

/// Encodes a text as Windows-1251 with `encoding_rs::Encoding::encode`.
/// Claimed: the result is `cp1251_encoded` of the text. The bound on the
/// length leaves out the inputs whose output buffer size (rounded up to a power
/// of two, with room for character references) could overflow `usize`, on
/// which the call panics.
#[verifier::external_body]
pub(crate) fn encode_cp1251(text: &str) -> (bytes: Vec<u8>)
    requires
        text@.len() <= usize::MAX / 64,
    ensures
        bytes@ == cp1251_encoded(text@),
{
    let (cow, _, _) = encoding_rs::WINDOWS_1251.encode(text);
    cow.into_owned()
}

} // verus!
