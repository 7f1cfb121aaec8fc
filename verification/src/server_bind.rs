//! The address that the server listens at.

use crate::text;
use vstd::prelude::*;

verus! {

/// The host that the server listens at where none is configured.
pub const DEFAULT_BIND_HOST: &'static str = "127.0.0.1";

/// The environment variable that names the host.
pub const BIND_HOST_ENV: &'static str = "LLM_WIKI_BIND_HOST";

/// Whether a character may stand in the name or the address of a host.
pub open spec fn is_host_char(c: char) -> bool {
    text::ascii_letter_or_digit(c) || c == '.' || c == '-' || c == '_' || c == ':' || c == '['
        || c == ']'
}

/// Whether a text may be the name or the address of a host.
pub open spec fn is_host(s: Seq<char>) -> bool {
    s.len() > 0 && forall|i: int| 0 <= i < s.len() ==> is_host_char(#[trigger] s[i])
}

/// Whether `c` may stand in the name or the address of a host.
fn host_char(c: char) -> (r: bool)
    ensures
        r == is_host_char(c),
{
    text::is_ascii_letter_or_digit(c) || c == '.' || c == '-' || c == '_' || c == ':' || c == '['
        || c == ']'
}

/// The host that a text names, without white space around it, where it may name one.
pub fn sanitize_bind_host(value: &str) -> (r: Option<String>)
    ensures
        match r {
            Some(host) => host@ == text::trimmed(value@) && is_host(host@),
            None => !is_host(text::trimmed(value@)),
        },
{
    let chars = text::to_chars(value);
    let host: &[char] = text::trim(chars.as_slice());
    if host.len() == 0 {
        return None;
    }
    let mut i: usize = 0;
    while i < host.len()
        invariant
            i <= host@.len(),
            host@ == text::trimmed(value@),
            forall|k: int| 0 <= k < i ==> is_host_char(#[trigger] host@[k]),
        decreases host@.len() - i,
    {
        if !host_char(host[i]) {
            assert(!is_host_char(host@[i as int]));
            return None;
        }
        i += 1;
    }
    Some(text::to_text(host))
}

/// The host that the server listens at, given the one that is configured: the default where none
/// is, or what is configured names none.
pub fn configured_bind_host(configured: Option<&str>) -> (r: String)
    ensures
        r@ == (match configured {
            Some(value) if is_host(text::trimmed(value@)) => text::trimmed(value@),
            _ => DEFAULT_BIND_HOST@,
        }),
{
    match configured {
        Some(value) => match sanitize_bind_host(value) {
            Some(host) => host,
            None => DEFAULT_BIND_HOST.to_string(),
        },
        None => DEFAULT_BIND_HOST.to_string(),
    }
}

/// The address of a port of a host: the host, in brackets where it has a colon and does not start
/// with a bracket, a colon and the port.
pub open spec fn address(host: Seq<char>, port: u16) -> Seq<char> {
    if host.contains(':') && !(host.len() > 0 && host[0] == '[') {
        "["@ + host + "]:"@ + text::decimal(port as nat)
    } else {
        host + ":"@ + text::decimal(port as nat)
    }
}

/// The address of a port of a host.
pub fn bind_addr(host: &str, port: u16) -> (r: String)
    ensures
        r@ == address(host@, port),
{
    let chars = text::to_chars(host);
    let digits = text::decimal_text(port as u64);
    if text::has_char(chars.as_slice(), ':') && !(chars.len() > 0 && chars[0] == '[') {
        let mut out = "[".to_string();
        out.append(host);
        out.append("]:");
        out.append(digits.as_str());
        out
    } else {
        let mut out = host.to_string();
        out.append(":");
        out.append(digits.as_str());
        out
    }
}

} // verus!
