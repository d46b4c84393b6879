//! Basic authentication: reading the credentials of an `Authorization`
//! header and finding a user's entry in a `.htpasswd` file. The password
//! hash itself is checked by the caller with `crypt(3)`.

use vstd::prelude::*;
use vstd::string::*;
use vstd::utf8::*;
use crate::text::{
    chars_of, chars_equal, copy_chars, trim_chars, trim_ws, trim_end_chars, end_non_ws,
    next_char, find_char, string_of_chars, split_on, split_chars, check_utf8, string_from_utf8,
};

verus! {

broadcast use vstd::utf8::group_utf8_lib;

/// Name of the password file looked for in the served directories.
pub const AUTH_FILE: &'static str = ".htpasswd";

/// Title of the 401 response.
pub const ERR_401_TITLE: &'static str = "Unauthorized";

/// Body format of the 401 response.
pub const ERR_401_FORM: &'static str = "Authorization required for the URL '%.80s'.\n";

/// The outcome of the access check for a file.
#[derive(Debug, Clone, Copy, PartialEq, Eq, Structural)]
pub enum AuthResult {
    /// No password file governs the file: the request proceeds.
    NoAuthFile,
    /// A password file governs the file and the credentials are good.
    Authorized,
    /// A password file governs the file and the credentials are missing or
    /// wrong (answered with 401).
    Unauthorized,
}

/// What the standard base64 engine (padded, standard alphabet) decodes the
/// bytes to, or `None` when they are not valid base64.
pub uninterp spec fn base64_standard(input: Seq<u8>) -> Option<Seq<u8>>;

/// Calls `base64::engine::general_purpose::STANDARD.decode` on the bytes of
/// the text; the result is named, its algorithm not restated.
#[verifier::external_body]
fn base64_decode(input: &str) -> (r: Option<Vec<u8>>)
    ensures
        match r {
            Some(v) => base64_standard(encode_utf8(input@)) == Some(v@),
            None => base64_standard(encode_utf8(input@)) is None,
        },
{
    base64::Engine::decode(&base64::engine::general_purpose::STANDARD, input).ok()
}

/// The base64 text of a `Basic` authorization: after the scheme word and
/// one space, trimmed; `None` for any other scheme.
pub open spec fn basic_payload(auth: Seq<char>) -> Option<Seq<char>> {
    let t = trim_ws(auth);
    if t.len() >= 6 && t.take(6) == "Basic "@ {
        Some(trim_ws(t.skip(6)))
    } else {
        None
    }
}

/// The `user:password` pair in decoded credentials: split at the first
/// colon; `None` when they are not UTF-8 or hold no colon.
pub open spec fn credentials_of(decoded: Seq<u8>) -> Option<(Seq<char>, Seq<char>)> {
    if valid_utf8(decoded) {
        let s = decode_utf8(decoded);
        let e = next_char(s, 0, ':');
        if e < s.len() {
            Some((s.take(e), s.skip(e + 1)))
        } else {
            None
        }
    } else {
        None
    }
}

/// The credentials of an `Authorization` header value.
pub open spec fn basic_credentials(auth: Seq<char>) -> Option<(Seq<char>, Seq<char>)> {
    match basic_payload(auth) {
        None => None,
        Some(p) => match base64_standard(encode_utf8(p)) {
            None => None,
            Some(d) => credentials_of(d),
        },
    }
}

pub open spec fn pair_view(r: Option<(String, String)>) -> Option<(Seq<char>, Seq<char>)> {
    match r {
        Some((a, b)) => Some((a@, b@)),
        None => None,
    }
}

/// The `user:password` pair of decoded credentials bytes (the result of
/// the base64 decoding, `None` when that failed).
pub fn credentials_from_decoded(decoded: Option<Vec<u8>>) -> (r: Option<(String, String)>)
    ensures
        pair_view(r) == match decoded {
            Some(d) => credentials_of(d@),
            None => None,
        },
{
    let d = match decoded {
        Some(d) => d,
        None => {
            return None;
        },
    };
    if !check_utf8(d.as_slice()) {
        return None;
    }
    let text = string_from_utf8(d.as_slice());
    let cs = chars_of(text.as_str());
    let e = find_char(cs.as_slice(), 0, ':');
    if e >= cs.len() {
        return None;
    }
    let user = string_of_chars(cs.as_slice(), 0, e);
    let pass = string_of_chars(cs.as_slice(), e + 1, cs.len());
    assert(user@ =~= cs@.take(e as int));
    assert(pass@ =~= cs@.skip(e + 1));
    Some((user, pass))
}

/// Reads `Authorization: Basic <base64(user:pass)>` into `(user, pass)`;
/// `None` when the value is not of the `Basic` scheme, is not valid
/// base64, or decodes to text without a colon.
pub fn parse_basic_auth(authorization: &str) -> (r: Option<(String, String)>)
    ensures
        pair_view(r) == basic_credentials(authorization@),
{
    let all = chars_of(authorization);
    let t = trim_chars(all.as_slice());
    if t.len() < 6 {
        return None;
    }
    let scheme = copy_chars(t.as_slice(), 0, 6);
    if !chars_equal(scheme.as_slice(), "Basic ") {
        assert(scheme@ == t@.take(6));
        return None;
    }
    assert(scheme@ =~= t@.take(6));
    let rest = copy_chars(t.as_slice(), 6, t.len());
    assert(rest@ =~= t@.skip(6));
    let payload_chars = trim_chars(rest.as_slice());
    let payload = string_of_chars(payload_chars.as_slice(), 0, payload_chars.len());
    assert(payload@ =~= payload_chars@);
    credentials_from_decoded(base64_decode(payload.as_str()))
}

/// The hash stored for `user` in the lines `lines[k..]` of a password
/// file: each line is trimmed at its end, empty lines and lines without a
/// colon are skipped, and the first line whose part before the first colon
/// is the user decides.
pub open spec fn htpasswd_hash_from(lines: Seq<Seq<char>>, k: int, user: Seq<char>) -> Option<Seq<char>>
    decreases lines.len() - k,
{
    if k < 0 || k >= lines.len() {
        None
    } else {
        let l = lines[k].take(end_non_ws(lines[k], lines[k].len() as int));
        let e = next_char(l, 0, ':');
        if l.len() > 0 && e < l.len() && l.take(e) == user {
            Some(l.skip(e + 1))
        } else {
            htpasswd_hash_from(lines, k + 1, user)
        }
    }
}

/// The hash stored for `user` in the text of a password file, read line by
/// line (a carriage return before a newline is trimmed with the rest).
pub open spec fn htpasswd_hash(content: Seq<char>, user: Seq<char>) -> Option<Seq<char>> {
    htpasswd_hash_from(split_on(content, '\n'), 0, user)
}

/// The hash stored for `user` in the text of a password file.
pub fn htpasswd_lookup(content: &str, user: &str) -> (r: Option<String>)
    ensures
        match r {
            Some(h) => htpasswd_hash(content@, user@) == Some(h@),
            None => htpasswd_hash(content@, user@) is None,
        },
{
    let cs = chars_of(content);
    let lines = split_chars(cs.as_slice(), '\n');
    let ghost ls = split_on(content@, '\n');
    let u = chars_of(user);
    let mut k: usize = 0;
    while k < lines.len()
        invariant
            k <= lines@.len(),
            lines@.len() == ls.len(),
            forall|i: int| 0 <= i < lines@.len() ==> #[trigger] lines@[i]@ == ls[i],
            ls == split_on(content@, '\n'),
            u@ == user@,
            htpasswd_hash(content@, user@) == htpasswd_hash_from(ls, k as int, user@),
        decreases lines@.len() - k,
    {
        assert(lines@[k as int]@ == ls[k as int]);
        let l = trim_end_chars(lines[k].as_slice());
        let e = find_char(l.as_slice(), 0, ':');
        if l.len() > 0 && e < l.len() {
            let name = copy_chars(l.as_slice(), 0, e);
            if chars_equal(name.as_slice(), user) {
                assert(name@ =~= l@.take(e as int));
                let hash = string_of_chars(l.as_slice(), e + 1, l.len());
                assert(hash@ =~= l@.skip(e + 1));
                return Some(hash);
            }
            assert(name@ =~= l@.take(e as int));
        }
        k += 1;
    }
    None
}

/// What the password check needs after the header and the password file
/// have been read: deny at once, or compare `crypt(password, hash)` with
/// the hash.
pub enum PasswordCheck {
    Deny,
    Verify { password: String, hash: String },
}

/// The decision of the password check for a file governed by a password
/// file: `content` is the file's text, `None` when it could not be read.
/// Bad or missing credentials, an unreadable file and an unknown user all
/// deny; otherwise the password is to be verified against the user's hash.
pub fn check_htpasswd(authorization: &str, content: Option<&str>) -> (r: PasswordCheck)
    ensures
        match (basic_credentials(authorization@), content) {
            (Some((user, pass)), Some(text)) => match htpasswd_hash(text@, user) {
                Some(h) => r matches PasswordCheck::Verify { password, hash } && password@ == pass
                    && hash@ == h,
                None => r is Deny,
            },
            _ => r is Deny,
        },
{
    let (user, pass) = match parse_basic_auth(authorization) {
        Some(c) => c,
        None => {
            return PasswordCheck::Deny;
        },
    };
    let text = match content {
        Some(t) => t,
        None => {
            return PasswordCheck::Deny;
        },
    };
    match htpasswd_lookup(text, user.as_str()) {
        Some(hash) => PasswordCheck::Verify { password: pass, hash },
        None => PasswordCheck::Deny,
    }
}

/// The outcome once the password has been checked.
pub fn verified_result(matched: bool) -> (r: AuthResult)
    ensures
        matched ==> r == AuthResult::Authorized,
        !matched ==> r == AuthResult::Unauthorized,
{
    if matched {
        AuthResult::Authorized
    } else {
        AuthResult::Unauthorized
    }
}

} // verus!
