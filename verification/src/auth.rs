//! The password of the owner, session tokens and the session cookie.

use crate::files;
use crate::outside;
use crate::text;
use crate::text::CharSet;
use vstd::prelude::*;
use vstd::slice::slice_subrange;

verus! {

/// The name of the session cookie.
pub const SESSION_COOKIE_NAME: &'static str = "llm_wiki_session";

/// How long a session lasts, in seconds.
pub const SESSION_TTL_SECONDS: i64 = 86_400;

/// How long the answer to a failed login is held back, in milliseconds.
pub const LOGIN_FAILURE_DELAY_MILLIS: u64 = 250;

// ---------------------------------------------------------------------------------------
// Passwords
// ---------------------------------------------------------------------------------------

/// Whether a password may be that of the owner: it has eight characters or more.
pub fn owner_password_is_acceptable(password: &str) -> (r: bool)
    ensures
        r == (password@.len() >= 8),
{
    text::to_chars(password).len() >= 8
}

/// What hashing a password with a salt comes to: the hash string, or why there is none.
pub open spec fn hashed(password: Seq<char>, salt: Seq<char>) -> Result<Seq<char>, Seq<char>> {
    match outside::argon2_hash(password, salt) {
        Ok(hash) => Ok(hash),
        Err(e) => Err("failed to hash owner password: "@ + e),
    }
}

/// Whether a password is short enough to be hashed: its length in bytes fits in 32 bits.
pub open spec fn can_be_hashed(password: Seq<char>) -> bool {
    vstd::utf8::encode_utf8(password).len() <= 0xffff_ffff
}

/// The hash string of a password with the given salt. The password is accepted for it. There is
/// one for every salt as it is drawn and every password that is short enough.
pub fn hash_with_salt(password: &str, salt: &str) -> (r: Result<String, String>)
    ensures
        outside::hash_result(r) == hashed(password@, salt@),
        outside::drawn_salt(salt@) && can_be_hashed(password@) ==> r is Ok,
        r matches Ok(hash) ==> accepts(password@, hash@),
{
    match outside::argon2_hash_password(password, salt) {
        Ok(hash) => Ok(hash),
        Err(e) => {
            let mut message = "failed to hash owner password: ".to_string();
            message.append(e.as_str());
            Err(message)
        },
    }
}

/// The hash string of a password with a salt that is drawn by chance. The password is accepted
/// for it. There is one for every password that is short enough. Which salt is drawn is not known.
pub fn hash_password(password: &str) -> (r: Result<String, String>)
    ensures
        exists|salt: Seq<char>|
            outside::drawn_salt(salt) && outside::hash_result(r) == #[trigger] hashed(
                password@,
                salt,
            ),
        can_be_hashed(password@) ==> r is Ok,
        r matches Ok(hash) ==> accepts(password@, hash@),
{
    let salt = outside::random_salt();
    hash_with_salt(password, salt.as_str())
}

/// Whether Argon2 accepts a password for a hash string, or why the hash string cannot be read. No
/// password is accepted for a hash string with a parallelism beyond what Argon2 takes.
pub open spec fn verdict(password: Seq<char>, hash: Seq<char>) -> Result<bool, Seq<char>> {
    match outside::hash_string_error(hash) {
        Some(e) => Err(e),
        None => Ok(!outside::long_parallelism(hash) && outside::argon2_accepts(password, hash)),
    }
}

/// Whether a password is accepted for a hash string.
pub open spec fn accepts(password: Seq<char>, hash: Seq<char>) -> bool {
    verdict(password, hash) == Ok::<bool, Seq<char>>(true)
}

/// The verdict and the text of a result of verifying.
pub open spec fn verdict_result(r: Result<bool, String>) -> Result<bool, Seq<char>> {
    match r {
        Ok(accepted) => Ok(accepted),
        Err(e) => Err(e@),
    }
}

/// What verifying a password comes to, given the verdict on it.
pub open spec fn verified(verdict: Result<bool, Seq<char>>) -> Result<bool, Seq<char>> {
    match verdict {
        Ok(accepted) => Ok(accepted),
        Err(e) => Err("stored owner password hash is invalid: "@ + e),
    }
}

/// Whether a verdict accepts a password, or why it cannot be said.
pub fn read_verdict(verdict: Result<bool, String>) -> (r: Result<bool, String>)
    ensures
        verdict_result(r) == verified(verdict_result(verdict)),
{
    match verdict {
        Ok(accepted) => Ok(accepted),
        Err(e) => {
            let mut message = "stored owner password hash is invalid: ".to_string();
            message.append(e.as_str());
            Err(message)
        },
    }
}

/// Whether `p=` and nine digits stand at position `i` of a text.
fn is_long_parallelism(hash: &[char], i: usize) -> (r: bool)
    requires
        i < hash@.len(),
    ensures
        r == outside::long_parallelism_at(hash@, i as int),
{
    if hash.len() - i < 11 || hash[i] != 'p' || hash[i + 1] != '=' {
        return false;
    }
    let end: usize = i + 11;
    let mut k: usize = i + 2;
    while k < end
        invariant
            i + 2 <= k <= end,
            end == i + 11,
            end <= hash@.len(),
            forall|j: int| i + 2 <= j < k ==> '0' <= #[trigger] hash@[j] <= '9',
        decreases end - k,
    {
        let c: char = hash[k];
        if !('0' <= c && c <= '9') {
            return false;
        }
        k += 1;
    }
    true
}

/// Whether nine digits or more follow `p=` somewhere in a hash string.
fn has_long_parallelism(hash: &str) -> (r: bool)
    ensures
        r == outside::long_parallelism(hash@),
{
    let chars = text::to_chars(hash);
    let mut i: usize = 0;
    while i < chars.len()
        invariant
            i <= chars@.len(),
            chars@ == hash@,
            forall|j: int| j < i ==> !#[trigger] outside::long_parallelism_at(hash@, j),
        decreases chars@.len() - i,
    {
        if is_long_parallelism(chars.as_slice(), i) {
            return true;
        }
        i += 1;
    }
    false
}

/// Whether a password is the one that a hash string was made of, or why it cannot be said.
pub fn verify_password(password: &str, password_hash: &str) -> (r: Result<bool, String>)
    ensures
        verdict_result(r) == verified(verdict(password@, password_hash@)),
{
    let found: Result<bool, String> = match outside::read_hash_string(password_hash) {
        Some(e) => Err(e),
        None => if has_long_parallelism(password_hash) {
            Ok(false)
        } else {
            Ok(outside::argon2_verify_password(password, password_hash))
        },
    };
    read_verdict(found)
}

/// A password that is accepted for a hash string, as it is for one that was made of it, is
/// verified.
pub proof fn lemma_hashed_password_verifies(password: Seq<char>, hash: Seq<char>)
    requires
        accepts(password, hash),
    ensures
        verified(verdict(password, hash)) == Ok::<bool, Seq<char>>(true),
{
}

// ---------------------------------------------------------------------------------------
// Tokens
// ---------------------------------------------------------------------------------------

/// The session token that the given bytes stand for.
pub fn token_of(bytes: &[u8]) -> (r: String)
    ensures
        r@ == outside::hex_text(bytes@),
{
    outside::hex_encode(bytes)
}

/// A session token: thirty-two bytes that are drawn by chance, in hexadecimal digits. Which bytes
/// are drawn is not known.
pub fn generate_session_token() -> (r: String)
    ensures
        r@.len() == 64,
        exists|bytes: Seq<u8>| bytes.len() == 32 && r@ == outside::hex_text(bytes),
{
    let bytes = outside::random_bytes(32);
    token_of(bytes.as_slice())
}

/// What is kept of a session token: the SHA-256 digest of its bytes in hexadecimal digits.
pub open spec fn token_hash(token: Seq<char>) -> Seq<char> {
    files::digest_text(vstd::utf8::encode_utf8(token))
}

/// What is kept of a session token.
pub fn hash_session_token(token: &str) -> (r: String)
    ensures
        r@ == token_hash(token@),
        r@.len() == 64,
{
    files::sha256_hex(token.as_bytes())
}

/// The character of a hexadecimal digit is an ASCII letter or digit.
proof fn lemma_hex_digit(d: int)
    requires
        0 <= d < 16,
    ensures
        text::ascii_letter_or_digit(outside::hex_digit(d)),
{
}

/// Bytes in hexadecimal digits are ASCII letters and digits.
pub proof fn lemma_hex_text(bytes: Seq<u8>)
    ensures
        forall|i: int|
            0 <= i < outside::hex_text(bytes).len() ==> text::ascii_letter_or_digit(
                #[trigger] outside::hex_text(bytes)[i],
            ),
{
    assert forall|i: int| 0 <= i < outside::hex_text(bytes).len() implies text::ascii_letter_or_digit(
        #[trigger] outside::hex_text(bytes)[i],
    ) by {
        let b = bytes[i / 2];
        lemma_byte_digits(b);
    }
}

/// The two hexadecimal digits of a byte are ASCII letters and digits.
proof fn lemma_byte_digits(b: u8)
    ensures
        text::ascii_letter_or_digit(outside::hex_digit(b as int / 16)),
        text::ascii_letter_or_digit(outside::hex_digit(b as int % 16)),
{
    lemma_hex_digit(b as int / 16);
    lemma_hex_digit(b as int % 16);
}

// ---------------------------------------------------------------------------------------
// Cookies
// ---------------------------------------------------------------------------------------

/// The cookie that carries a session token.
pub open spec fn cookie_text(token: Seq<char>) -> Seq<char> {
    SESSION_COOKIE_NAME@ + "="@ + token + "; Path=/; Max-Age=86400; HttpOnly; SameSite=Strict"@
}

/// The cookie that carries a session token.
pub fn session_cookie(token: &str) -> (r: String)
    ensures
        r@ == cookie_text(token@),
{
    let mut out = SESSION_COOKIE_NAME.to_string();
    out.append("=");
    out.append(token);
    out.append("; Path=/; Max-Age=86400; HttpOnly; SameSite=Strict");
    out
}

/// The cookie that takes the place of one that carries a session token, and is dropped at once.
pub open spec fn expired_cookie_text() -> Seq<char> {
    SESSION_COOKIE_NAME@ + "=; Path=/; Max-Age=0; HttpOnly; SameSite=Strict"@
}

/// The cookie that takes the place of one that carries a session token, and is dropped at once.
pub fn expired_session_cookie() -> (r: String)
    ensures
        r@ == expired_cookie_text(),
{
    let mut out = SESSION_COOKIE_NAME.to_string();
    out.append("=; Path=/; Max-Age=0; HttpOnly; SameSite=Strict");
    out
}

/// The value of the first session cookie among the parts of a cookie header from `from` on. A
/// part is a name and a value with an equals sign between them.
pub open spec fn cookie_value(parts: Seq<Seq<char>>, from: int) -> Option<Seq<char>>
    decreases parts.len() - from,
{
    if from < 0 || from >= parts.len() {
        None
    } else {
        let part = text::trimmed(parts[from]);
        match text::position(part, seq!['=']) {
            Some(i) => if part.subrange(0, i) == SESSION_COOKIE_NAME@ {
                Some(part.subrange(i + 1, part.len() as int))
            } else {
                cookie_value(parts, from + 1)
            },
            None => cookie_value(parts, from + 1),
        }
    }
}

/// The session token in a cookie header: the value of the first session cookie, unless it is
/// empty.
pub open spec fn header_token(header: Seq<char>) -> Option<Seq<char>> {
    match cookie_value(text::pieces(header, CharSet::Only(';')), 0) {
        Some(value) => if value.len() > 0 {
            Some(value)
        } else {
            None
        },
        None => None,
    }
}

/// The session token in a cookie header.
pub fn session_token_from_header(header: &str) -> (r: Option<String>)
    ensures
        text::optional(r) == header_token(header@),
{
    let parts = text::split(text::to_chars(header).as_slice(), CharSet::Only(';'));
    let ghost all = text::texts(parts@);
    let equals: Vec<char> = vec!['='];
    assert(equals@ =~= seq!['=']);
    let mut i: usize = 0;
    while i < parts.len()
        invariant
            i <= parts@.len(),
            all == text::texts(parts@),
            all == text::pieces(header@, CharSet::Only(';')),
            equals@ == seq!['='],
            cookie_value(all, i as int) == cookie_value(all, 0),
        decreases parts@.len() - i,
    {
        assert(all[i as int] == parts@[i as int]@);
        let part: &[char] = text::trim(parts[i].as_slice());
        let n: usize = part.len();
        match text::find(part, equals.as_slice()) {
            Some(at) => {
                if text::is_text(slice_subrange(part, 0, at), SESSION_COOKIE_NAME) {
                    let value: &[char] = slice_subrange(part, at + 1, n);
                    return if value.len() > 0 {
                        Some(text::to_text(value))
                    } else {
                        None
                    };
                }
            },
            None => {},
        }
        i += 1;
    }
    None
}

/// A session token that is sent back in a cookie is the one that was set: a token of ASCII
/// letters and digits is what is read of a cookie header with its name and itself in it.
pub proof fn lemma_cookie_gives_token_back(token: Seq<char>)
    requires
        token.len() > 0,
        forall|i: int| 0 <= i < token.len() ==> text::ascii_letter_or_digit(#[trigger] token[i]),
    ensures
        header_token(SESSION_COOKIE_NAME@ + "="@ + token) == Some(token),
{
    let name = SESSION_COOKIE_NAME@;
    reveal_strlit("llm_wiki_session");
    reveal_strlit("=");
    assert("="@ =~= seq!['=']);
    let part = name + "="@ + token;
    lemma_part_read(name, token);
    text::lemma_pieces_single(part, ';');
}

/// A name without equals signs, an equals sign and a value are taken apart into the name and the
/// value.
proof fn lemma_part_read(name: Seq<char>, token: Seq<char>)
    requires
        name.len() > 0,
        !text::white_space(name[0]),
        forall|i: int| 0 <= i < name.len() ==> #[trigger] name[i] != '=' && name[i] != ';',
        token.len() > 0,
        forall|i: int| 0 <= i < token.len() ==> text::ascii_letter_or_digit(#[trigger] token[i]),
    ensures
        ({
            let part = name + seq!['='] + token;
            &&& !part.contains(';')
            &&& text::trimmed(part) == part
            &&& text::position(part, seq!['=']) == Some(name.len() as int)
            &&& part.subrange(0, name.len() as int) == name
            &&& part.subrange(name.len() as int + 1, part.len() as int) == token
        }),
{
    let n = name.len() as int;
    let e = seq!['='];
    let part = name + e + token;
    assert(part.subrange(0, n) =~= name);
    assert(part.subrange(n + 1, part.len() as int) =~= token);
    assert forall|i: int| 0 <= i < part.len() implies part[i] != ';' by {
        if i < n {
            assert(part[i] == name[i]);
        } else if i > n {
            assert(part[i] == token[i - n - 1]);
        }
    }
    assert(part[0] == name[0]);
    assert(part.last() == token.last());
    assert(text::ascii_letter_or_digit(token[token.len() - 1]));
    text::lemma_trimmed_same(part);
    text::lemma_position_from(part, e, 0);
    assert(text::occurs_at(part, e, n)) by {
        assert(part.subrange(n, n + 1) =~= e);
    }
    assert forall|k: int| 0 <= k < n implies !text::occurs_at(part, e, k) by {
        assert(part.subrange(k, k + 1)[0] == name[k]);
    }
}

} // verus!
