//! Calls into other crates, and what is believed of them.

use crate::hex_text::{hex_bytes, hex_text, hex_value, is_hex};
use aes::Aes128;
use cbc::cipher::block_padding::Pkcs7;
use cbc::cipher::{BlockEncryptMut, KeyIvInit};
use cbc::Encryptor;
use sha2::{Digest, Sha256};
use std::sync::Arc;
use url::Url;
use uuid::Uuid;
use vstd::prelude::*;

verus! {

/// The SHA-256 digest of `data`.
pub uninterp spec fn sha256_of(data: Seq<u8>) -> Seq<u8>;

/// `sha2::Sha256::digest`: the digest is a function of the bytes alone, and 32
/// bytes long.
#[verifier::external_body]
pub(crate) fn sha256(data: &[u8]) -> (digest: Vec<u8>)
    ensures
        digest@ == sha256_of(data@),
        digest@.len() == 32,
{
    Sha256::digest(data).to_vec()
}

/// `hex::encode`: two lowercase hexadecimal digits for each byte, the high half
/// first.
#[verifier::external_body]
pub(crate) fn hex_encode(data: &[u8]) -> (text: String)
    ensures
        text@ == hex_text(data@),
{
    hex::encode(data)
}

/// `hex::decode`: the bytes that an even number of hexadecimal digits of either
/// case writes; any other text is refused.
#[verifier::external_body]
pub(crate) fn hex_decode(text: &str) -> (data: Option<Vec<u8>>)
    ensures
        data is Some <==> is_hex(text@),
        data matches Some(data) ==> data@ == hex_bytes(text@),
{
    hex::decode(text).ok()
}

/// The AES-128 encryption of `message` in CBC mode, with PKCS #7 padding.
pub uninterp spec fn aes128_cbc(message: Seq<u8>, key: Seq<u8>, iv: Seq<u8>) -> Seq<u8>;

/// `cbc::Encryptor::<aes::Aes128>::encrypt_padded_mut`: the first `len` bytes of
/// `buf` are padded and encrypted where they are. The ciphertext is a function
/// of the message, the key and the initialisation vector. It takes the next
/// whole number of 16-byte blocks past the message, and there has to be exactly
/// as much room.
#[verifier::external_body]
pub(crate) fn encrypt_padded(buf: &mut Vec<u8>, len: usize, key: &[u8; 16], iv: &[u8; 16])
    requires
        len <= old(buf)@.len(),
        old(buf)@.len() == len + (16 - len % 16),
    ensures
        final(buf)@ == aes128_cbc(old(buf)@.take(len as int), key@, iv@),
        final(buf)@.len() == old(buf)@.len(),
{
    Encryptor::<Aes128>::new(key.into(), iv.into())
        .encrypt_padded_mut::<Pkcs7>(buf, len)
        .expect("the padded message fits");
}

/// Where `path` leads from `base`: none where `base` is no URL or `path` cannot
/// be resolved against it.
pub uninterp spec fn joined_url(base: Seq<char>, path: Seq<char>) -> Option<Seq<char>>;

/// `url::Url::join`, on a base that is parsed first: the result is a function
/// of the two texts.
#[verifier::external_body]
pub(crate) fn join_url(base: &str, path: &str) -> (joined: Option<String>)
    ensures
        joined is Some <==> joined_url(base@, path@) is Some,
        joined matches Some(joined) ==> joined_url(base@, path@) == Some(joined@),
{
    Url::parse(base).ok()?.join(path).ok().map(String::from)
}

/// Whether `text` is a UUID as it is usually written: 32 hexadecimal digits of
/// either case, with hyphens behind the 8th, 12th, 16th and 20th.
pub open spec fn is_hyphenated_uuid(text: Seq<char>) -> bool {
    &&& text.len() == 36
    &&& forall|i: int|
        0 <= i < 36 ==> if i == 8 || i == 13 || i == 18 || i == 23 {
            #[trigger] text[i] == '-'
        } else {
            hex_value(text[i]) is Some
        }
}

/// Whether `text` begins with `urn:uuid:`, in either case.
pub open spec fn is_urn(text: Seq<char>) -> bool {
    &&& text.len() >= 9
    &&& text[0] == 'u' || text[0] == 'U'
    &&& text[1] == 'r' || text[1] == 'R'
    &&& text[2] == 'n' || text[2] == 'N'
    &&& text[3] == ':'
    &&& text[4] == 'u' || text[4] == 'U'
    &&& text[5] == 'u' || text[5] == 'U'
    &&& text[6] == 'i' || text[6] == 'I'
    &&& text[7] == 'd' || text[7] == 'D'
    &&& text[8] == ':'
}

/// Whether `text` writes a UUID: as 32 hexadecimal digits, with hyphens, with
/// hyphens and in braces, or with hyphens as a URN.
pub open spec fn is_uuid_text(text: Seq<char>) -> bool {
    ||| text.len() == 32 && forall|i: int| 0 <= i < 32 ==> hex_value(#[trigger] text[i]) is Some
    ||| is_hyphenated_uuid(text)
    ||| text.len() == 38 && text[0] == '{' && text[37] == '}' && is_hyphenated_uuid(
        text.subrange(1, 37),
    )
    ||| text.len() == 45 && is_urn(text) && is_hyphenated_uuid(text.skip(9))
}

/// `uuid::Uuid::parse_str`: a text is accepted in the four forms that the crate
/// writes, and in no other.
#[verifier::external_body]
pub(crate) fn is_uuid(text: &str) -> (accepted: bool)
    ensures
        accepted == is_uuid_text(text@),
{
    Uuid::parse_str(text).is_ok()
}

/// `uuid::Uuid::new_v4`: a random UUID, as text with hyphens. Which one is left
/// to chance.
#[verifier::external_body]
pub(crate) fn new_uuid() -> (text: String)
    ensures
        is_hyphenated_uuid(text@),
{
    Uuid::new_v4().to_string()
}

/// The bytes of the name-based UUID (version 5) of `name` in the namespace of
/// URLs.
pub uninterp spec fn url_uuid(name: Seq<char>) -> Seq<u8>;

/// `uuid::Uuid::new_v5` in the namespace of URLs: 16 bytes that depend on the
/// name alone.
#[verifier::external_body]
pub(crate) fn uuid_v5_url(name: &str) -> (uuid: [u8; 16])
    ensures
        uuid@ == url_uuid(name@),
{
    *Uuid::new_v5(&Uuid::NAMESPACE_URL, name.as_bytes()).as_bytes()
}

/// `std::sync::Arc::clone`: another handle on the same value.
#[verifier::external_body]
pub(crate) fn share<T>(value: &Arc<T>) -> (other: Arc<T>)
    ensures
        other == *value,
{
    Arc::clone(value)
}

} // verus!
