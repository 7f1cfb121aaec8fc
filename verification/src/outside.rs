//! The functions of other crates and of the standard library that this library relies on
//! without proof. Each item states what is taken for granted of the function it names.

use argon2::password_hash::rand_core::OsRng as SaltSource;
use argon2::password_hash::{PasswordHash, PasswordHasher, PasswordVerifier, SaltString};
use argon2::Argon2;
use base64::engine::general_purpose::STANDARD;
use base64::Engine;
use rand::RngCore;
use sha2::{Digest, Sha256};
use vstd::prelude::*;

verus! {

// ---------------------------------------------------------------------------------------
// Letters and case
// ---------------------------------------------------------------------------------------

/// The lower case of a text, as the Unicode Character Database gives it.
pub uninterp spec fn lowercase(s: Seq<char>) -> Seq<char>;

/// `str::to_lowercase` is a function of the text.
pub assume_specification[ str::to_lowercase ](s: &str) -> (r: String)
    ensures
        r@ == lowercase(s@),
;

/// Whether a character is a letter or a number, as the Unicode Character Database has it.
pub uninterp spec fn alphanumeric(c: char) -> bool;

/// `char::is_alphanumeric` is a function of the character. Of the ASCII characters it holds
/// for the letters and the digits, and it holds for no white space, which is neither a letter nor
/// a number.
#[verifier::external_body]
pub(crate) fn is_alphanumeric(c: char) -> (r: bool)
    ensures
        r == alphanumeric(c),
        (c as u32) < 0x80 ==> r == crate::text::ascii_letter_or_digit(c),
        crate::text::white_space(c) ==> !r,
{
    c.is_alphanumeric()
}

/// The lower case of a character, as the Unicode Character Database gives it.
pub uninterp spec fn char_lowercase(c: char) -> Seq<char>;

/// `char::to_lowercase` yields one or more characters, which are a function of the character.
/// A character without a lower case yields itself. An ASCII capital letter yields the small one,
/// and any other ASCII character itself. The lower case of a letter is made of letters and marks:
/// an ASCII character comes out only where it is a small letter, or where it went in and was
/// yielded as it is, and no white space comes out otherwise.
#[verifier::external_body]
pub(crate) fn lower_char(c: char) -> (r: Vec<char>)
    ensures
        r@ == char_lowercase(c),
        r@.len() > 0,
        (c as u32) < 0x80 ==> r@ == seq![crate::text::ascii_lowercase(c)],
        r@ == seq![c] || (forall|i: int|
            0 <= i < r@.len() ==> ((#[trigger] r@[i] as int) >= 0x80 && !crate::text::white_space(
                r@[i],
            )) || 0x61 <= (r@[i] as int) <= 0x7a),
{
    c.to_lowercase().collect()
}

// ---------------------------------------------------------------------------------------
// Bytes
// ---------------------------------------------------------------------------------------

/// The character of a hexadecimal digit, in lower case.
pub open spec fn hex_digit(d: int) -> char {
    if d < 10 {
        (48 + d) as char
    } else {
        (87 + d) as char
    }
}

/// `bytes` in hexadecimal, two digits in lower case for each byte.
pub open spec fn hex_text(bytes: Seq<u8>) -> Seq<char> {
    Seq::new(
        2 * bytes.len(),
        |i: int|
            if i % 2 == 0 {
                hex_digit(bytes[i / 2] as int / 16)
            } else {
                hex_digit(bytes[i / 2] as int % 16)
            },
    )
}

/// `hex::encode` writes two lower case hexadecimal digits for each byte, the high one first.
#[verifier::external_body]
pub(crate) fn hex_encode(bytes: &[u8]) -> (r: String)
    ensures
        r@ == hex_text(bytes@),
{
    hex::encode(bytes)
}

/// The SHA-256 digest of a sequence of bytes.
pub uninterp spec fn sha256(bytes: Seq<u8>) -> Seq<u8>;

/// `sha2::Sha256::digest` is a function of the bytes, and yields 32 bytes.
#[verifier::external_body]
pub(crate) fn sha256_digest(bytes: &[u8]) -> (r: Vec<u8>)
    ensures
        r@ == sha256(bytes@),
        r@.len() == 32,
{
    Sha256::digest(bytes).to_vec()
}

/// The bytes that a text stands for in the standard base64 alphabet with padding.
pub uninterp spec fn base64_bytes(text: Seq<char>) -> Option<Seq<u8>>;

/// `base64::Engine::decode` of the standard engine is a function of the text. `None` stands
/// for its error.
#[verifier::external_body]
pub(crate) fn base64_decode(text: &str) -> (r: Option<Vec<u8>>)
    ensures
        match r {
            Some(bytes) => base64_bytes(text@) == Some(bytes@),
            None => base64_bytes(text@) is None,
        },
{
    STANDARD.decode(text).ok()
}

/// The essence of the MIME type that is guessed for a path.
pub uninterp spec fn mime_essence(path: Seq<char>) -> Seq<char>;

/// `mime_guess::from_path`, with `application/octet-stream` where nothing is guessed, is a
/// function of the path.
#[verifier::external_body]
pub(crate) fn guess_mime(path: &str) -> (r: String)
    ensures
        r@ == mime_essence(path@),
{
    mime_guess::from_path(path).first_or_octet_stream().essence_str().to_string()
}

/// `String::from_utf8` gives the text that bytes are in UTF-8, where they are one. `None` stands
/// for its error.
#[verifier::external_body]
pub(crate) fn text_of_bytes(bytes: Vec<u8>) -> (r: Option<String>)
    ensures
        match r {
            Some(s) => vstd::utf8::valid_utf8(bytes@) && s@ == vstd::utf8::decode_utf8(bytes@),
            None => !vstd::utf8::valid_utf8(bytes@),
        },
{
    String::from_utf8(bytes).ok()
}

// ---------------------------------------------------------------------------------------
// Chance
// ---------------------------------------------------------------------------------------

/// `rand::rngs::OsRng` fills the given number of bytes with chance. Nothing else is known of
/// them. No vector holds more bytes than `isize::MAX`.
#[verifier::external_body]
pub(crate) fn random_bytes(count: usize) -> (r: Vec<u8>)
    requires
        count <= isize::MAX,
    ensures
        r@.len() == count,
{
    let mut bytes = vec![0u8; count];
    rand::rngs::OsRng.fill_bytes(&mut bytes);
    bytes
}

/// Whether a text is a salt as it is drawn: sixteen bytes in the base64 alphabet without padding,
/// which are twenty-two characters. The last one stands for two bits and four that are zero.
pub open spec fn drawn_salt(s: Seq<char>) -> bool {
    &&& s.len() == 22
    &&& forall|i: int|
        0 <= i < s.len() ==> crate::text::ascii_letter_or_digit(#[trigger] s[i]) || s[i] == '+'
            || s[i] == '/'
    &&& s[21] == 'A' || s[21] == 'Q' || s[21] == 'g' || s[21] == 'w'
}

/// `SaltString::generate` draws sixteen bytes and writes them in base64 without padding. Which
/// bytes are drawn is not known.
#[verifier::external_body]
pub(crate) fn random_salt() -> (r: String)
    ensures
        drawn_salt(r@),
{
    SaltString::generate(&mut SaltSource).as_str().to_string()
}

// ---------------------------------------------------------------------------------------
// Passwords
// ---------------------------------------------------------------------------------------

/// The hash string that Argon2 with its default parameters gives for a password and a salt, or
/// the text of its error.
pub uninterp spec fn argon2_hash(password: Seq<char>, salt: Seq<char>) -> Result<
    Seq<char>,
    Seq<char>,
>;

/// The text of the error where a text is no hash string.
pub uninterp spec fn hash_string_error(hash: Seq<char>) -> Option<Seq<char>>;

/// Whether Argon2 accepts a password for a hash string. It accepts none for a text that is no
/// hash string.
pub uninterp spec fn argon2_accepts(password: Seq<char>, hash: Seq<char>) -> bool;

/// The texts of a result of hashing.
pub open spec fn hash_result(r: Result<String, String>) -> Result<Seq<char>, Seq<char>> {
    match r {
        Ok(hash) => Ok(hash@),
        Err(e) => Err(e@),
    }
}

/// Whether nine digits or more follow `p=` somewhere in a text. As a degree of parallelism such a
/// number is far beyond the largest one that Argon2 takes, which has eight digits.
pub open spec fn long_parallelism(hash: Seq<char>) -> bool {
    exists|i: int| #[trigger] long_parallelism_at(hash, i)
}

/// Whether `p=` and nine digits stand at position `i` of a text.
pub open spec fn long_parallelism_at(hash: Seq<char>, i: int) -> bool {
    &&& 0 <= i
    &&& i + 11 <= hash.len()
    &&& hash[i] == 'p'
    &&& hash[i + 1] == '='
    &&& forall|k: int| i + 2 <= k < i + 11 ==> '0' <= #[trigger] hash[k] <= '9'
}

/// `Argon2::hash_password` with the default parameters is a function of the password and the
/// salt. It succeeds for a salt as it is drawn and a password that fits in 32 bits of length. The
/// hash string that it yields can be read, has a parallelism of one, and the password is accepted
/// for it.
#[verifier::external_body]
pub(crate) fn argon2_hash_password(password: &str, salt: &str) -> (r: Result<String, String>)
    ensures
        hash_result(r) == argon2_hash(password@, salt@),
        drawn_salt(salt@) && vstd::utf8::encode_utf8(password@).len() <= 0xffff_ffff ==> r is Ok,
        r matches Ok(hash) ==> hash_string_error(hash@) is None && !long_parallelism(hash@)
            && argon2_accepts(password@, hash@),
{
    let salt = SaltString::from_b64(salt).map_err(|e| e.to_string())?;
    let hash = Argon2::default().hash_password(password.as_bytes(), &salt);
    hash.map(|h| h.to_string()).map_err(|e| e.to_string())
}

/// `PasswordHash::new` reads a hash string. Whether it can is a function of the text. `Some` is
/// the text of its error.
#[verifier::external_body]
pub(crate) fn read_hash_string(hash: &str) -> (r: Option<String>)
    ensures
        crate::text::optional(r) == hash_string_error(hash@),
{
    PasswordHash::new(hash).err().map(|e| e.to_string())
}

/// `Argon2::verify_password` says whether a hash string was made of the password. That is a
/// function of the two. A hash string with too long a parallelism is left out, for which the
/// arithmetic of the parameters overflows.
/// Nothing is said of a machine without the memory that a hash string asks for.
#[verifier::external_body]
pub(crate) fn argon2_verify_password(password: &str, hash: &str) -> (r: bool)
    requires
        !long_parallelism(hash@),
    ensures
        r == argon2_accepts(password@, hash@),
{
    match PasswordHash::new(hash) {
        Ok(parsed) => Argon2::default().verify_password(password.as_bytes(), &parsed).is_ok(),
        Err(_) => false,
    }
}

} // verus!
