use crate::text::{chars_of, string_of};
use openssl::symm::{decrypt, Cipher};
use vstd::prelude::*;
use vstd::utf8::{decode_utf8, encode_utf8, valid_utf8};

verus! {

/// Why a block digest could not be decrypted.
#[derive(Debug, Clone, Copy, PartialEq, Eq)]
pub enum DecryptError {
    /// The text is no base 64.
    NotBase64,
    /// The bytes are not what the cipher wrote with this key.
    NotDecrypted,
    /// What was decrypted is no text.
    NotText,
}

/// The most characters that a block digest to decrypt may have.
pub const MAX_PREID_LEN: usize = 0x1000_0000;

/// The bytes that `text` stands for in base 64 with the standard alphabet
/// and padding, as `base64::decode` reads it, if it is such a text.
pub uninterp spec fn base64_decoded(text: Seq<u8>) -> Option<Seq<u8>>;

/// What `data` decrypts to with AES in ECB mode, a key of 128 bits and
/// padding, as `openssl::symm::decrypt` does it, if it decrypts at all.
pub uninterp spec fn aes_128_ecb_decrypted(key: Seq<u8>, data: Seq<u8>) -> Option<Seq<u8>>;

/// `base64::decode` reads base 64 in the standard alphabet. What it gives
/// is never longer than what it read.
#[verifier::external_body]
fn base64_decode(text: &[u8]) -> (r: Option<Vec<u8>>)
    requires
        text@.len() <= MAX_PREID_LEN + 24,
    ensures
        match r {
            Some(bytes) => base64_decoded(text@) == Some(bytes@) && bytes@.len() <= text@.len(),
            None => base64_decoded(text@) is None,
        },
{
    match base64::decode(text) {
        Ok(bytes) => Some(bytes),
        Err(_) => None,
    }
}

/// `openssl::symm::decrypt` with the cipher `Cipher::aes_128_ecb()`, which
/// takes no initialisation vector.
#[verifier::external_body]
fn aes_128_ecb_decrypt(key: &[u8], data: &[u8]) -> (r: Option<Vec<u8>>)
    requires
        key@.len() == 16,
        data@.len() <= MAX_PREID_LEN + 24,
    ensures
        match r {
            Some(bytes) => aes_128_ecb_decrypted(key@, data@) == Some(bytes@),
            None => aes_128_ecb_decrypted(key@, data@) is None,
        },
{
    match decrypt(Cipher::aes_128_ecb(), key, None, data) {
        Ok(bytes) => Some(bytes),
        Err(_) => None,
    }
}

/// `std::str::from_utf8` accepts exactly the bytes that are UTF-8, and the
/// text it gives is what these bytes encode.
#[verifier::external_body]
fn text_of(bytes: &[u8]) -> (r: Option<String>)
    ensures
        match r {
            Some(s) => valid_utf8(bytes@) && s@ == decode_utf8(bytes@),
            None => !valid_utf8(bytes@),
        },
{
    match std::str::from_utf8(bytes) {
        Ok(s) => Some(s.to_owned()),
        Err(_) => None,
    }
}

/// `s` without the characters `c` at its end.
pub open spec fn without_trailing(s: Seq<char>, c: char) -> Seq<char>
    decreases s.len(),
{
    if s.len() > 0 && s.last() == c {
        without_trailing(s.drop_last(), c)
    } else {
        s
    }
}

/// Cuts the characters `c` off the end of `s`.
pub fn trim_end(s: &str, c: char) -> (r: String)
    ensures
        r@ == without_trailing(s@, c),
{
    let mut chars = chars_of(s);
    while chars.len() > 0 && chars[chars.len() - 1] == c
        invariant
            without_trailing(chars@, c) == without_trailing(s@, c),
        decreases chars.len(),
    {
        let ghost before = chars@;
        chars.pop();
        assert(chars@ =~= before.drop_last());
    }
    string_of(chars.as_slice())
}

/// The key under which block digests were encrypted.
pub open spec fn preid_key() -> Seq<u8> {
    encode_utf8("zhshimima1112221"@)
}

/// The block that ends every encrypted block digest, in base 64.
pub open spec fn preid_suffix() -> Seq<char> {
    "42IcwVjnnGHZB9ehzW+Pew=="@
}

/// The text that decrypted bytes stand for: what they encode, without the
/// padding of zero characters at its end.
pub open spec fn preid_of_plain(plain: Seq<u8>) -> Result<Seq<char>, DecryptError> {
    if valid_utf8(plain) {
        Ok(without_trailing(decode_utf8(plain), '\0'))
    } else {
        Err(DecryptError::NotText)
    }
}

/// The block digest that stands encrypted in bytes, given what they are
/// decoded from.
pub open spec fn preid_of_decoded(content: Option<Seq<u8>>) -> Result<Seq<char>, DecryptError> {
    match content {
        None => Err(DecryptError::NotBase64),
        Some(c) => match aes_128_ecb_decrypted(preid_key(), c) {
            None => Err(DecryptError::NotDecrypted),
            Some(plain) => preid_of_plain(plain),
        },
    }
}

/// What the string holds, or the error.
pub open spec fn text_result(r: Result<String, DecryptError>) -> Result<Seq<char>, DecryptError> {
    match r {
        Ok(s) => Ok(s@),
        Err(e) => Err(e),
    }
}

/// Reads decrypted bytes as text and cuts the padding off.
pub fn preid_from_plain(plain: &[u8]) -> (r: Result<String, DecryptError>)
    ensures
        text_result(r) == preid_of_plain(plain@),
{
    match text_of(plain) {
        None => Err(DecryptError::NotText),
        Some(text) => Ok(trim_end(text.as_str(), '\0')),
    }
}

/// Decrypts a block digest as older link files carry it: base 64 of the
/// encrypted digest, without its last block, which is always the same.
pub fn preid_decrypt(data: &str) -> (r: Result<String, DecryptError>)
    requires
        encode_utf8(data@ + preid_suffix()).len() <= MAX_PREID_LEN + 24,
    ensures
        text_result(r) == preid_of_decoded(base64_decoded(encode_utf8(data@ + preid_suffix()))),
{
    let mut text = data.to_owned();
    text.append("42IcwVjnnGHZB9ehzW+Pew==");
    let content = match base64_decode(text.as_str().as_bytes()) {
        Some(content) => content,
        None => {
            return Err(DecryptError::NotBase64);
        },
    };
    let key = "zhshimima1112221".as_bytes();
    assert(key@.len() == 16) by {
        reveal_strlit("zhshimima1112221");
        vstd::utf8::is_ascii_chars_encode_utf8("zhshimima1112221"@);
    }
    match aes_128_ecb_decrypt(key, content.as_slice()) {
        None => Err(DecryptError::NotDecrypted),
        Some(plain) => preid_from_plain(plain.as_slice()),
    }
}

} // verus!
