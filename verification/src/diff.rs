//! Normalizers of the shadow-response comparison: temp-directory paths,
//! dynamic CGI ports and `PWD` values are rewritten before header values
//! and bodies are compared, and bodies are compared by SHA-256 digest.
//! Bodies go through a reversible Latin-1 mapping (byte to character) so
//! that distinct bytes stay distinct.

use vstd::prelude::*;
use vstd::string::*;
use crate::text::{chars_of, chars_equal, push_char, string_of_chars, next_char, sb, is_ws};
use crate::migrate::{is_timestamp, Divergence, Field, RequestContext};

verus! {

/// What may follow the literal head of a replacement pattern.
#[derive(Debug, Clone, Copy, PartialEq, Eq, Structural)]
pub enum Tail {
    /// One or more ASCII digits (`\d+`): a head without digits after it is
    /// left alone.
    Digits,
    /// Everything to the end (`.*`).
    Any,
    /// Everything up to the next newline (`[^\n]*`).
    NotNewline,
    /// Nothing: the head is replaced as a literal.
    Nothing,
}

pub open spec fn is_ascii_digit(c: char) -> bool {
    '0' <= c <= '9'
}

/// First index at or after `k` that is not an ASCII digit, or `h.len()`.
pub open spec fn digits_end(h: Seq<char>, k: int) -> int
    decreases h.len() - k,
{
    if k < 0 || k >= h.len() {
        h.len() as int
    } else if !is_ascii_digit(h[k]) {
        k
    } else {
        digits_end(h, k + 1)
    }
}

/// Where the tail that starts at `k` ends.
pub open spec fn tail_end(h: Seq<char>, k: int, tail: Tail) -> int {
    match tail {
        Tail::Digits => digits_end(h, k),
        Tail::Any => h.len() as int,
        Tail::NotNewline => next_char(h, k, '\n'),
        Tail::Nothing => k,
    }
}

/// `head` occurs at `i`.
pub open spec fn starts_at(h: Seq<char>, i: int, head: Seq<char>) -> bool {
    0 <= i && i + head.len() <= h.len() && h.subrange(i, i + head.len()) == head
}

pub proof fn lemma_digits_end_bounds(h: Seq<char>, k: int)
    requires
        0 <= k <= h.len(),
    ensures
        k <= digits_end(h, k) <= h.len(),
    decreases h.len() - k,
{
    if k < h.len() && is_ascii_digit(h[k]) {
        lemma_digits_end_bounds(h, k + 1);
    }
}

pub proof fn lemma_next_newline_bounds(h: Seq<char>, k: int)
    requires
        0 <= k <= h.len(),
    ensures
        k <= next_char(h, k, '\n') <= h.len(),
    decreases h.len() - k,
{
    if k < h.len() && h[k] != '\n' {
        lemma_next_newline_bounds(h, k + 1);
    }
}

pub proof fn lemma_tail_end_bounds(h: Seq<char>, k: int, tail: Tail)
    requires
        0 <= k <= h.len(),
    ensures
        k <= tail_end(h, k, tail) <= h.len(),
{
    match tail {
        Tail::Digits => lemma_digits_end_bounds(h, k),
        Tail::NotNewline => lemma_next_newline_bounds(h, k),
        _ => {},
    }
}

/// The text from `i` on with every occurrence of `head` and its tail
/// replaced, scanning left to right.
pub open spec fn replaced_from(h: Seq<char>, i: int, head: Seq<char>, tail: Tail, rep: Seq<char>) -> Seq<char>
    decreases h.len() - i,
{
    if i < 0 || i >= h.len() {
        Seq::empty()
    } else if head.len() > 0 && starts_at(h, i, head) {
        proof {
            lemma_tail_end_bounds(h, i + head.len(), tail);
        }
        let j = tail_end(h, i + head.len(), tail);
        if tail == Tail::Digits && j == i + head.len() {
            seq![h[i]] + replaced_from(h, i + 1, head, tail, rep)
        } else {
            rep + replaced_from(h, j, head, tail, rep)
        }
    } else {
        seq![h[i]] + replaced_from(h, i + 1, head, tail, rep)
    }
}

fn head_at(cs: &Vec<char>, i: usize, head: &[char]) -> (r: bool)
    requires
        i <= cs@.len(),
    ensures
        r == starts_at(cs@, i as int, head@),
{
    if head.len() > cs.len() - i {
        return false;
    }
    let mut k: usize = 0;
    while k < head.len()
        invariant
            k <= head@.len(),
            i + head@.len() <= cs@.len(),
            cs@.len() <= usize::MAX,
            forall|j: int| 0 <= j < k ==> cs@[i + j] == head@[j],
        decreases head@.len() - k,
    {
        if cs[i + k] != head[k] {
            assert(cs@.subrange(i as int, i + head@.len())[k as int] != head@[k as int]);
            return false;
        }
        k += 1;
    }
    assert(cs@.subrange(i as int, i + head@.len()) =~= head@);
    true
}

fn find_tail_end(cs: &Vec<char>, k: usize, tail: Tail) -> (r: usize)
    requires
        k <= cs@.len(),
    ensures
        r == tail_end(cs@, k as int, tail),
        k <= r <= cs@.len(),
{
    proof {
        lemma_tail_end_bounds(cs@, k as int, tail);
    }
    match tail {
        Tail::Digits => {
            let mut j = k;
            while j < cs.len() && '0' <= cs[j] && cs[j] <= '9'
                invariant
                    k <= j <= cs@.len(),
                    digits_end(cs@, k as int) == digits_end(cs@, j as int),
                decreases cs@.len() - j,
            {
                j += 1;
            }
            j
        },
        Tail::Any => cs.len(),
        Tail::NotNewline => crate::text::find_char(cs.as_slice(), k, '\n'),
        Tail::Nothing => k,
    }
}

/// Replaces each occurrence of `head` followed by its `tail` with
/// `replacement`, left to right; a `Digits` tail must have a digit.
pub fn regex_replace(haystack: &str, head: &str, tail: Tail, replacement: &str) -> (r: String)
    requires
        head@.len() > 0,
    ensures
        r@ == replaced_from(haystack@, 0, head@, tail, replacement@),
{
    let cs = chars_of(haystack);
    let hd = chars_of(head);
    let mut out = String::new();
    let mut i: usize = 0;
    while i < cs.len()
        invariant
            i <= cs@.len(),
            cs@ == haystack@,
            hd@ == head@,
            hd@.len() > 0,
            replaced_from(cs@, 0, hd@, tail, replacement@) == out@ + replaced_from(cs@, i as int, hd@, tail, replacement@),
        decreases cs@.len() - i,
    {
        let ghost o = out@;
        if head_at(&cs, i, hd.as_slice()) {
            let j = find_tail_end(&cs, i + hd.len(), tail);
            if tail == Tail::Digits && j == i + hd.len() {
                push_char(&mut out, cs[i]);
                assert(out@ + replaced_from(cs@, i + 1, hd@, tail, replacement@) =~= o + (seq![cs@[i as int]]
                    + replaced_from(cs@, i + 1, hd@, tail, replacement@)));
                i += 1;
            } else {
                out.append(replacement);
                assert(out@ + replaced_from(cs@, j as int, hd@, tail, replacement@) =~= o + (replacement@
                    + replaced_from(cs@, j as int, hd@, tail, replacement@)));
                i = j;
            }
        } else {
            push_char(&mut out, cs[i]);
            assert(out@ + replaced_from(cs@, i + 1, hd@, tail, replacement@) =~= o + (seq![cs@[i as int]]
                + replaced_from(cs@, i + 1, hd@, tail, replacement@)));
            i += 1;
        }
    }
    assert(out@ + Seq::<char>::empty() =~= out@);
    out
}

/// The dynamic ports in CGI output rewritten to `PORT`.
pub open spec fn cgi_output_normalized(v: Seq<char>) -> Seq<char> {
    let v = replaced_from(v, 0, "SERVER_PORT="@, Tail::Digits, "SERVER_PORT=PORT"@);
    let v = replaced_from(v, 0, "HTTP_HOST=127.0.0.1:"@, Tail::Digits, "HTTP_HOST=127.0.0.1:PORT"@);
    let v = replaced_from(v, 0, "Host: 127.0.0.1:"@, Tail::Digits, "Host: 127.0.0.1:PORT"@);
    replaced_from(v, 0, "Host=127.0.0.1:"@, Tail::Digits, "Host=127.0.0.1:PORT"@)
}

proof fn lemma_nonempty_literals()
    ensures
        "SERVER_PORT="@.len() > 0,
        "HTTP_HOST=127.0.0.1:"@.len() > 0,
        "Host: 127.0.0.1:"@.len() > 0,
        "Host=127.0.0.1:"@.len() > 0,
        "PWD=/"@.len() > 0,
{
    reveal_strlit("SERVER_PORT=");
    reveal_strlit("HTTP_HOST=127.0.0.1:");
    reveal_strlit("Host: 127.0.0.1:");
    reveal_strlit("Host=127.0.0.1:");
    reveal_strlit("PWD=/");
}

/// Rewrites the dynamic `SERVER_PORT`, `HTTP_HOST` and `Host` ports of CGI
/// output (each `\d+` after its literal head) to `PORT`.
pub fn normalize_cgi_output(value: &str) -> (r: String)
    ensures
        r@ == cgi_output_normalized(value@),
{
    proof {
        lemma_nonempty_literals();
    }
    let v = regex_replace(value, "SERVER_PORT=", Tail::Digits, "SERVER_PORT=PORT");
    let v = regex_replace(v.as_str(), "HTTP_HOST=127.0.0.1:", Tail::Digits, "HTTP_HOST=127.0.0.1:PORT");
    let v = regex_replace(v.as_str(), "Host: 127.0.0.1:", Tail::Digits, "Host: 127.0.0.1:PORT");
    regex_replace(v.as_str(), "Host=127.0.0.1:", Tail::Digits, "Host=127.0.0.1:PORT")
}

/// The `PWD` rewrite: `PWD=/` and the rest of its line become
/// `PWD=NORMALIZED` (the working directory differs between servers).
pub open spec fn pwd_normalized(v: Seq<char>) -> Seq<char> {
    replaced_from(v, 0, "PWD=/"@, Tail::NotNewline, "PWD=NORMALIZED"@)
}

pub fn normalize_pwd(value: &str) -> (r: String)
    ensures
        r@ == pwd_normalized(value@),
{
    proof {
        lemma_nonempty_literals();
    }
    regex_replace(value, "PWD=/", Tail::NotNewline, "PWD=NORMALIZED")
}

// ---------------------------------------------------------------- temp paths

/// The number of UTF-8 bytes of a character.
pub open spec fn utf8_width(c: char) -> int {
    if (c as u32) < 0x80 {
        1
    } else if (c as u32) < 0x800 {
        2
    } else if (c as u32) < 0x10000 {
        3
    } else {
        4
    }
}

/// A character of an identifier run: ASCII letter or digit, or `_`.
pub open spec fn ident_char(c: char) -> bool {
    ('a' <= c <= 'z') || ('A' <= c <= 'Z') || ('0' <= c <= '9') || c == '_'
}

/// ASCII whitespace: space, tab, newline, form feed, carriage return.
pub open spec fn ascii_ws(c: char) -> bool {
    c == ' ' || c == '\t' || c == '\n' || c == '\x0C' || c == '\r'
}

/// First index at or after `k` that is not an identifier character.
pub open spec fn ident_end(h: Seq<char>, k: int) -> int
    decreases h.len() - k,
{
    if k < 0 || k >= h.len() {
        h.len() as int
    } else if !ident_char(h[k]) {
        k
    } else {
        ident_end(h, k + 1)
    }
}

/// First index at or after `k` holding `/` or ASCII whitespace.
pub open spec fn segment_end(h: Seq<char>, k: int) -> int
    decreases h.len() - k,
{
    if k < 0 || k >= h.len() {
        h.len() as int
    } else if h[k] == '/' || ascii_ws(h[k]) {
        k
    } else {
        segment_end(h, k + 1)
    }
}

pub open spec fn golden_prefix() -> Seq<char> {
    seq!['/', 't', 'm', 'p', '/', 't', 'h', 't', 't', 'p', 'd', '_', 'g', 'o', 'l', 'd', 'e', 'n', '_']
}

pub open spec fn diff_prefix() -> Seq<char> {
    seq!['/', 't', 'm', 'p', '/', 't', 'h', 't', 't', 'p', 'd', '_', 'd', 'i', 'f', 'f', '_']
}

pub open spec fn pytest_prefix() -> Seq<char> {
    seq!['/', 't', 'm', 'p', '/', 'p', 'y', 't', 'e', 's', 't', '-']
}

pub proof fn lemma_ident_end_bounds(h: Seq<char>, k: int)
    requires
        0 <= k <= h.len(),
    ensures
        k <= ident_end(h, k) <= h.len(),
    decreases h.len() - k,
{
    if k < h.len() && ident_char(h[k]) {
        lemma_ident_end_bounds(h, k + 1);
    }
}

pub proof fn lemma_segment_end_bounds(h: Seq<char>, k: int)
    requires
        0 <= k <= h.len(),
    ensures
        k <= segment_end(h, k) <= h.len(),
    decreases h.len() - k,
{
    if k < h.len() && !(h[k] == '/' || ascii_ws(h[k])) {
        lemma_segment_end_bounds(h, k + 1);
    }
}

/// The temp-directory paths of `h[i..]` rewritten: `/tmp/thttpd_golden_*`
/// and `/tmp/thttpd_diff_*` (the prefix with the identifier run after it)
/// become `/tmp/thttpd_NORMALIZED`, and `/tmp/pytest-*` up to the next `/`
/// or whitespace becomes `/tmp/pytest_NORMALIZED`.
pub open spec fn paths_from(h: Seq<char>, i: int) -> Seq<char>
    decreases h.len() - i,
{
    if i < 0 || i >= h.len() {
        Seq::empty()
    } else if starts_at(h, i, golden_prefix()) {
        proof {
            lemma_ident_end_bounds(h, i + 19);
        }
        "/tmp/thttpd_NORMALIZED"@ + paths_from(h, ident_end(h, i + 19))
    } else if starts_at(h, i, diff_prefix()) {
        proof {
            lemma_ident_end_bounds(h, i + 17);
        }
        "/tmp/thttpd_NORMALIZED"@ + paths_from(h, ident_end(h, i + 17))
    } else if starts_at(h, i, pytest_prefix()) {
        proof {
            lemma_segment_end_bounds(h, i + 12);
        }
        "/tmp/pytest_NORMALIZED"@ + paths_from(h, segment_end(h, i + 12))
    } else {
        seq![h[i]] + paths_from(h, i + 1)
    }
}

/// Rewrites temp-directory paths to fixed placeholders.
pub fn normalize_paths(value: &str) -> (r: String)
    ensures
        r@ == paths_from(value@, 0),
{
    let cs = chars_of(value);
    let golden: [char; 19] = ['/', 't', 'm', 'p', '/', 't', 'h', 't', 't', 'p', 'd', '_', 'g', 'o', 'l', 'd', 'e', 'n', '_'];
    let diff: [char; 17] = ['/', 't', 'm', 'p', '/', 't', 'h', 't', 't', 'p', 'd', '_', 'd', 'i', 'f', 'f', '_'];
    let pytest: [char; 12] = ['/', 't', 'm', 'p', '/', 'p', 'y', 't', 'e', 's', 't', '-'];
    assert(golden@ =~= golden_prefix());
    assert(diff@ =~= diff_prefix());
    assert(pytest@ =~= pytest_prefix());
    let mut out = String::new();
    let mut i: usize = 0;
    while i < cs.len()
        invariant
            i <= cs@.len(),
            cs@ == value@,
            golden@ == golden_prefix(),
            diff@ == diff_prefix(),
            pytest@ == pytest_prefix(),
            paths_from(cs@, 0) == out@ + paths_from(cs@, i as int),
        decreases cs@.len() - i,
    {
        let ghost o = out@;
        let n = cs.len();
        if head_at(&cs, i, golden.as_slice()) {
            out.append("/tmp/thttpd_NORMALIZED");
            let mut k = i + 19;
            while k < n && (('a' <= cs[k] && cs[k] <= 'z') || ('A' <= cs[k] && cs[k] <= 'Z') || ('0' <= cs[k] && cs[k] <= '9') || cs[k] == '_')
                invariant
                    i + 19 <= k <= n == cs@.len(),
                    ident_end(cs@, i + 19) == ident_end(cs@, k as int),
                decreases n - k,
            {
                k += 1;
            }
            assert(out@ + paths_from(cs@, k as int) =~= o + ("/tmp/thttpd_NORMALIZED"@
                + paths_from(cs@, k as int)));
            i = k;
        } else if head_at(&cs, i, diff.as_slice()) {
            out.append("/tmp/thttpd_NORMALIZED");
            let mut k = i + 17;
            while k < n && (('a' <= cs[k] && cs[k] <= 'z') || ('A' <= cs[k] && cs[k] <= 'Z') || ('0' <= cs[k] && cs[k] <= '9') || cs[k] == '_')
                invariant
                    i + 17 <= k <= n == cs@.len(),
                    ident_end(cs@, i + 17) == ident_end(cs@, k as int),
                decreases n - k,
            {
                k += 1;
            }
            assert(out@ + paths_from(cs@, k as int) =~= o + ("/tmp/thttpd_NORMALIZED"@
                + paths_from(cs@, k as int)));
            i = k;
        } else if head_at(&cs, i, pytest.as_slice()) {
            out.append("/tmp/pytest_NORMALIZED");
            let mut k = i + 12;
            while k < n && !(cs[k] == '/' || cs[k] == ' ' || cs[k] == '\t' || cs[k] == '\n' || cs[k] == '\x0C' || cs[k] == '\r')
                invariant
                    i + 12 <= k <= n == cs@.len(),
                    segment_end(cs@, i + 12) == segment_end(cs@, k as int),
                decreases n - k,
            {
                k += 1;
            }
            assert(out@ + paths_from(cs@, k as int) =~= o + ("/tmp/pytest_NORMALIZED"@
                + paths_from(cs@, k as int)));
            i = k;
        } else {
            push_char(&mut out, cs[i]);
            assert(out@ + paths_from(cs@, i + 1) =~= o + (seq![cs@[i as int]]
                + paths_from(cs@, i + 1)));
            i += 1;
        }
    }
    assert(out@ + Seq::<char>::empty() =~= out@);
    out
}

// ---------------------------------------------------------------- values and bodies

/// The full normalization of a header value or body text: paths, then CGI
/// ports, then `PWD`.
pub open spec fn value_normalized(v: Seq<char>) -> Seq<char> {
    pwd_normalized(cgi_output_normalized(paths_from(v, 0)))
}

/// Normalizes a header value (all normalizers composed).
pub fn normalize_value(value: &str) -> (r: String)
    ensures
        r@ == value_normalized(value@),
{
    let p = normalize_paths(value);
    let c = normalize_cgi_output(p.as_str());
    normalize_pwd(c.as_str())
}

/// The headers whose values are compared by shape when they are dates.
pub open spec fn is_timestamp_header(name: Seq<char>) -> bool {
    name == "date"@ || name == "last-modified"@
}

/// A header value as compared: a date in a date header is only its shape.
pub open spec fn header_value_normalized(name: Seq<char>, value: Seq<char>) -> Seq<char> {
    if is_timestamp_header(name) && crate::migrate::timestamp_shape(vstd::utf8::encode_utf8(value)) {
        "<timestamp>"@
    } else {
        value_normalized(value)
    }
}

/// Normalizes a header value under its (lower-case) name.
pub fn normalize_header_value(name: &str, value: &str) -> (r: String)
    ensures
        r@ == header_value_normalized(name@, value@),
{
    proof {
        crate::text::lemma_str_valid(value);
    }
    let n = chars_of(name);
    let stamp_header = chars_equal(n.as_slice(), "date") || chars_equal(n.as_slice(), "last-modified");
    if stamp_header && is_timestamp(value) {
        "<timestamp>".to_owned()
    } else {
        normalize_value(value)
    }
}

/// Bytes read as Latin-1: each byte becomes the character with its number.
pub open spec fn latin1_chars(b: Seq<u8>) -> Seq<char> {
    Seq::new(b.len(), |i: int| b[i] as char)
}

/// Characters back to bytes: each character's number, cut to its low byte.
pub open spec fn latin1_bytes(s: Seq<char>) -> Seq<u8> {
    Seq::new(s.len(), |i: int| ((s[i] as u32) % 256) as u8)
}

/// Maps every byte to its character, so the text normalizers can run over
/// any body without merging distinct bytes.
pub fn bytes_to_latin1(bytes: &[u8]) -> (r: String)
    ensures
        r@ == latin1_chars(bytes@),
{
    let mut out = String::new();
    let mut i: usize = 0;
    while i < bytes.len()
        invariant
            i <= bytes@.len(),
            out@ == latin1_chars(bytes@.take(i as int)),
        decreases bytes@.len() - i,
    {
        push_char(&mut out, bytes[i] as char);
        i += 1;
        assert(out@ =~= latin1_chars(bytes@.take(i as int)));
    }
    assert(bytes@.take(i as int) =~= bytes@);
    out
}

/// The inverse of `bytes_to_latin1` (characters above 0xff keep their low
/// byte).
pub fn latin1_to_bytes(s: &str) -> (r: Vec<u8>)
    ensures
        r@ == latin1_bytes(s@),
{
    let cs = chars_of(s);
    let mut out: Vec<u8> = Vec::new();
    let mut i: usize = 0;
    while i < cs.len()
        invariant
            i <= cs@.len(),
            cs@ == s@,
            out@ == latin1_bytes(cs@.take(i as int)),
        decreases cs@.len() - i,
    {
        let cp = cs[i] as u32;
        out.push((cp % 256) as u8);
        i += 1;
        assert(out@ =~= latin1_bytes(cs@.take(i as int)));
    }
    assert(cs@.take(i as int) =~= cs@);
    out
}

/// Latin-1 reading loses nothing: mapping back gives the bytes.
pub proof fn law_latin1_round_trip(b: Seq<u8>)
    ensures
        latin1_bytes(latin1_chars(b)) == b,
{
    assert forall|i: int| 0 <= i < b.len() implies #[trigger] latin1_bytes(latin1_chars(b))[i] == b[i] by {
        let c = b[i] as char;
        assert((c as u32) == b[i] as u32);
    }
    assert(latin1_bytes(latin1_chars(b)) =~= b);
}

/// What the SHA-256 digest of `sha2` gives for the bytes.
pub uninterp spec fn sha256_of(data: Seq<u8>) -> Seq<u8>;

/// Calls `sha2::Sha256::digest`; the digest is named, with its documented
/// size of 32 bytes.
#[verifier::external_body]
fn sha256(data: &[u8]) -> (r: Vec<u8>)
    ensures
        r@ == sha256_of(data@),
        r@.len() == 32,
{
    <sha2::Sha256 as sha2::Digest>::digest(data).to_vec()
}

/// A nibble as a lower-case hex digit.
pub open spec fn hex_digit(n: u8) -> char {
    if n < 10 { (48 + n) as char } else { (87 + n) as char }
}

/// Bytes as lower-case hex text, two digits a byte.
pub open spec fn hex_text(b: Seq<u8>) -> Seq<char>
    decreases b.len(),
{
    if b.len() == 0 {
        Seq::empty()
    } else {
        hex_text(b.drop_last()) + seq![hex_digit(b.last() / 16), hex_digit(b.last() % 16)]
    }
}

fn hex_char(n: u8) -> (r: char)
    requires
        n < 16,
    ensures
        r == hex_digit(n),
{
    if n < 10 { (48 + n) as char } else { (87 + n) as char }
}

/// Lower-case hex text of bytes.
pub fn hex_encode(bytes: &[u8]) -> (r: String)
    ensures
        r@ == hex_text(bytes@),
{
    let mut out = String::new();
    let mut i: usize = 0;
    while i < bytes.len()
        invariant
            i <= bytes@.len(),
            out@ == hex_text(bytes@.take(i as int)),
        decreases bytes@.len() - i,
    {
        let b = bytes[i];
        push_char(&mut out, hex_char(b / 16));
        push_char(&mut out, hex_char(b % 16));
        assert(bytes@.take(i + 1).drop_last() =~= bytes@.take(i as int));
        i += 1;
        assert(out@ =~= hex_text(bytes@.take(i as int)));
    }
    assert(bytes@.take(i as int) =~= bytes@);
    out
}

/// The hex SHA-256 of some bytes.
pub fn sha256_hex(data: &[u8]) -> (r: String)
    ensures
        r@ == hex_text(sha256_of(data@)),
{
    let d = sha256(data);
    hex_encode(d.as_slice())
}

/// A body as compared: read as Latin-1, normalized, mapped back to bytes.
pub open spec fn body_normalized(b: Seq<u8>) -> Seq<u8> {
    latin1_bytes(value_normalized(latin1_chars(b)))
}

/// Normalizes a body through the Latin-1 mapping.
pub fn normalize_body_bytes(body: &[u8]) -> (r: Vec<u8>)
    ensures
        r@ == body_normalized(body@),
{
    let text = bytes_to_latin1(body);
    let n = normalize_value(text.as_str());
    latin1_to_bytes(n.as_str())
}

/// The digest a body is compared by: hex SHA-256 of its normalized bytes.
pub fn body_digest(body: &[u8]) -> (r: String)
    ensures
        r@ == hex_text(sha256_of(body_normalized(body@))),
{
    let n = normalize_body_bytes(body);
    sha256_hex(n.as_slice())
}

// ---------------------------------------------------------------- headers

/// Text order: by character number, a proper prefix first (the order of
/// `String`, as UTF-8 keeps character order).
pub open spec fn text_lt(a: Seq<char>, b: Seq<char>) -> bool
    decreases a.len(),
{
    if a.len() == 0 {
        b.len() > 0
    } else if b.len() == 0 {
        false
    } else if a[0] != b[0] {
        (a[0] as u32) < (b[0] as u32)
    } else {
        text_lt(a.drop_first(), b.drop_first())
    }
}

/// Text order is transitive.
pub proof fn lemma_text_lt_trans(a: Seq<char>, b: Seq<char>, c: Seq<char>)
    requires
        text_lt(a, b),
        text_lt(b, c),
    ensures
        text_lt(a, c),
    decreases a.len(),
{
    if a.len() > 0 && b.len() > 0 && c.len() > 0 && a[0] == b[0] && b[0] == c[0] {
        lemma_text_lt_trans(a.drop_first(), b.drop_first(), c.drop_first());
    }
}

/// Two different texts are ordered one way or the other, and never both.
pub proof fn lemma_text_lt_total(a: Seq<char>, b: Seq<char>)
    ensures
        a != b ==> (text_lt(a, b) || text_lt(b, a)),
        !(text_lt(a, b) && text_lt(b, a)),
        !text_lt(a, a),
    decreases a.len(),
{
    if a.len() > 0 && b.len() > 0 && a[0] == b[0] {
        lemma_text_lt_total(a.drop_first(), b.drop_first());
        if a.drop_first() == b.drop_first() {
            assert(a =~= seq![a[0]] + a.drop_first());
            assert(b =~= seq![b[0]] + b.drop_first());
        }
    } else if a.len() == 0 && b.len() == 0 {
        assert(a =~= b);
    } else if a.len() > 0 && b.len() > 0 {
        let u = a[0] as u32;
        if u == b[0] as u32 {
            vstd::utf8::char_u32_cast(a[0], u);
            vstd::utf8::char_u32_cast(b[0], u);
        }
    }
    if a.len() > 0 {
        lemma_text_lt_total(a.drop_first(), a.drop_first());
    }
}

/// `x` put into a sorted list before the first element not below it.
pub open spec fn insert_text(s: Seq<Seq<char>>, x: Seq<char>) -> Seq<Seq<char>>
    decreases s.len(),
{
    if s.len() == 0 || !text_lt(s[0], x) {
        seq![x] + s
    } else {
        seq![s[0]] + insert_text(s.drop_first(), x)
    }
}

/// A list sorted by inserting its elements in turn.
pub open spec fn sort_texts(s: Seq<Seq<char>>) -> Seq<Seq<char>>
    decreases s.len(),
{
    if s.len() == 0 {
        Seq::empty()
    } else {
        insert_text(sort_texts(s.drop_last()), s.last())
    }
}

/// The distinct elements of a list, sorted.
pub open spec fn sorted_set(s: Seq<Seq<char>>) -> Seq<Seq<char>>
    decreases s.len(),
{
    if s.len() == 0 {
        Seq::empty()
    } else {
        let r = sorted_set(s.drop_last());
        if r.contains(s.last()) { r } else { insert_text(r, s.last()) }
    }
}

pub open spec fn header_key(h: (String, String)) -> Seq<char> {
    crate::text::lower_chars(h.0@)
}

/// The normalized values of the headers named `key` (case-insensitively),
/// in their order.
pub open spec fn values_of(h: Seq<(String, String)>, key: Seq<char>) -> Seq<Seq<char>>
    decreases h.len(),
{
    if h.len() == 0 {
        Seq::empty()
    } else {
        let rest = values_of(h.drop_last(), key);
        if header_key(h.last()) == key {
            rest.push(header_value_normalized(key, h.last().1@))
        } else {
            rest
        }
    }
}

pub open spec fn keys_of(h: Seq<(String, String)>) -> Seq<Seq<char>> {
    h.map_values(|p: (String, String)| header_key(p))
}

/// A header name whose normalized values differ: missing on one side, or
/// a different collection of values (their order does not count).
pub open spec fn header_mismatch(e: Seq<(String, String)>, a: Seq<(String, String)>, key: Seq<char>) -> bool {
    values_of(e, key).len() == 0 || values_of(a, key).len() == 0 || sort_texts(values_of(e, key))
        != sort_texts(values_of(a, key))
}

/// The mismatching names among `keys[k..]`, in order.
pub open spec fn mismatches_from(e: Seq<(String, String)>, a: Seq<(String, String)>, keys: Seq<Seq<char>>, k: int) -> Seq<Seq<char>>
    decreases keys.len() - k,
{
    if k < 0 || k >= keys.len() {
        Seq::empty()
    } else if header_mismatch(e, a, keys[k]) {
        seq![keys[k]] + mismatches_from(e, a, keys, k + 1)
    } else {
        mismatches_from(e, a, keys, k + 1)
    }
}

/// The header names, in text order and without repeats, whose normalized
/// values differ between the two responses.
pub open spec fn header_mismatches(e: Seq<(String, String)>, a: Seq<(String, String)>) -> Seq<Seq<char>> {
    mismatches_from(e, a, sorted_set(keys_of(e) + keys_of(a)), 0)
}

pub(crate) fn text_less(a: &Vec<char>, b: &Vec<char>) -> (r: bool)
    ensures
        r == text_lt(a@, b@),
{
    let mut i: usize = 0;
    assert(a@.skip(0) =~= a@);
    assert(b@.skip(0) =~= b@);
    while i < a.len() && i < b.len() && a[i] == b[i]
        invariant
            i <= a@.len(),
            i <= b@.len(),
            text_lt(a@, b@) == text_lt(a@.skip(i as int), b@.skip(i as int)),
        decreases a@.len() - i,
    {
        assert(a@.skip(i as int).drop_first() =~= a@.skip(i + 1));
        assert(b@.skip(i as int).drop_first() =~= b@.skip(i + 1));
        i += 1;
    }
    if i == a.len() {
        assert(a@.skip(i as int).len() == 0);
        i < b.len()
    } else if i == b.len() {
        false
    } else {
        assert(a@.skip(i as int)[0] == a@[i as int]);
        assert(b@.skip(i as int)[0] == b@[i as int]);
        (a[i] as u32) < (b[i] as u32)
    }
}

pub open spec fn char_lists(v: Seq<Vec<char>>) -> Seq<Seq<char>> {
    v.map_values(|x: Vec<char>| x@)
}

fn insert_sorted_text(v: &mut Vec<Vec<char>>, x: Vec<char>)
    ensures
        char_lists(final(v)@) == insert_text(char_lists(old(v)@), x@),
{
    let ghost s = char_lists(v@);
    let mut p: usize = 0;
    assert(char_lists(v@).skip(0) =~= s);
    assert(s.take(0) + insert_text(s.skip(0), x@) =~= insert_text(s, x@));
    while p < v.len() && text_less(&v[p], &x)
        invariant
            p <= v@.len(),
            char_lists(v@) == s,
            insert_text(s, x@) == s.take(p as int) + insert_text(s.skip(p as int), x@),
        decreases v@.len() - p,
    {
        assert(s.skip(p as int)[0] == s[p as int]);
        assert(s.skip(p as int).drop_first() =~= s.skip(p + 1));
        assert(s.take(p + 1) =~= s.take(p as int).push(s[p as int]));
        assert(s.take(p as int) + insert_text(s.skip(p as int), x@) =~= s.take(p + 1) + insert_text(s.skip(p + 1), x@));
        p += 1;
    }
    proof {
        if p < s.len() {
            assert(s.skip(p as int)[0] == s[p as int]);
        }
        assert(insert_text(s.skip(p as int), x@) == seq![x@] + s.skip(p as int));
    }
    v.insert(p, x);
    assert(char_lists(v@) =~= s.take(p as int) + (seq![x@] + s.skip(p as int)));
}

fn same_chars(a: &Vec<char>, b: &Vec<char>) -> (r: bool)
    ensures
        r == (a@ == b@),
{
    if a.len() != b.len() {
        return false;
    }
    let mut i: usize = 0;
    while i < a.len()
        invariant
            i <= a@.len(),
            a@.len() == b@.len(),
            forall|j: int| 0 <= j < i ==> a@[j] == b@[j],
        decreases a@.len() - i,
    {
        if a[i] != b[i] {
            return false;
        }
        i += 1;
    }
    assert(a@ =~= b@);
    true
}

fn contains_text(v: &Vec<Vec<char>>, x: &Vec<char>) -> (r: bool)
    ensures
        r == char_lists(v@).contains(x@),
{
    let mut i: usize = 0;
    while i < v.len()
        invariant
            i <= v@.len(),
            forall|j: int| 0 <= j < i ==> char_lists(v@)[j] != x@,
        decreases v@.len() - i,
    {
        assert(char_lists(v@)[i as int] == v@[i as int]@);
        if same_chars(&v[i], x) {
            assert(char_lists(v@)[i as int] == x@);
            return true;
        }
        i += 1;
    }
    proof {
        if char_lists(v@).contains(x@) {
            let k = choose|k: int| 0 <= k < char_lists(v@).len() && char_lists(v@)[k] == x@;
            assert(k < i);
        }
    }
    false
}

fn key_list(h: &[(String, String)]) -> (r: Vec<Vec<char>>)
    ensures
        char_lists(r@) == keys_of(h@),
{
    let mut out: Vec<Vec<char>> = Vec::new();
    let mut i: usize = 0;
    while i < h.len()
        invariant
            i <= h@.len(),
            char_lists(out@) == keys_of(h@).take(i as int),
        decreases h@.len() - i,
    {
        let k = crate::text::lowercase_chars(h[i].0.as_str());
        assert(k@ == keys_of(h@)[i as int]);
        let ghost o = char_lists(out@);
        out.push(k);
        assert(char_lists(out@) =~= o.push(k@));
        i += 1;
        assert(char_lists(out@) =~= keys_of(h@).take(i as int));
    }
    assert(keys_of(h@).take(i as int) =~= keys_of(h@));
    out
}

fn sorted_keys(e: &[(String, String)], a: &[(String, String)]) -> (r: Vec<Vec<char>>)
    ensures
        char_lists(r@) == sorted_set(keys_of(e@) + keys_of(a@)),
{
    let mut all = key_list(e);
    let mut more = key_list(a);
    let ghost ke = char_lists(all@);
    let ghost ka = char_lists(more@);
    all.append(&mut more);
    let ghost ks = char_lists(all@);
    assert(ks =~= ke + ka);
    let mut out: Vec<Vec<char>> = Vec::new();
    let mut i: usize = 0;
    while i < all.len()
        invariant
            i <= all@.len(),
            ks == char_lists(all@),
            char_lists(out@) == sorted_set(ks.take(i as int)),
        decreases all@.len() - i,
    {
        let x = all[i].clone();
        assert(x@ == ks[i as int]);
        assert(ks.take(i + 1).drop_last() =~= ks.take(i as int));
        if !contains_text(&out, &x) {
            insert_sorted_text(&mut out, x);
        }
        i += 1;
    }
    assert(ks.take(i as int) =~= ks);
    out
}

fn text_string(cs: &Vec<char>) -> (r: String)
    ensures
        r@ == cs@,
{
    let r = string_of_chars(cs.as_slice(), 0, cs.len());
    assert(cs@.subrange(0, cs@.len() as int) =~= cs@);
    r
}

fn values_for(h: &[(String, String)], key: &Vec<char>) -> (r: Vec<Vec<char>>)
    ensures
        char_lists(r@) == values_of(h@, key@),
{
    let key_text = text_string(key);
    let mut out: Vec<Vec<char>> = Vec::new();
    let mut i: usize = 0;
    while i < h.len()
        invariant
            i <= h@.len(),
            key_text@ == key@,
            char_lists(out@) == values_of(h@.take(i as int), key@),
        decreases h@.len() - i,
    {
        let k = crate::text::lowercase_chars(h[i].0.as_str());
        assert(h@.take(i + 1).drop_last() =~= h@.take(i as int));
        assert(h@.take(i + 1).last() == h@[i as int]);
        if same_chars(&k, key) {
            let v = normalize_header_value(key_text.as_str(), h[i].1.as_str());
            out.push(chars_of(v.as_str()));
            assert(char_lists(out@) =~= values_of(h@.take(i + 1), key@));
        }
        i += 1;
    }
    assert(h@.take(i as int) =~= h@);
    out
}

fn sorted_values(v: Vec<Vec<char>>) -> (r: Vec<Vec<char>>)
    ensures
        char_lists(r@) == sort_texts(char_lists(v@)),
{
    let ghost vs = char_lists(v@);
    let mut out: Vec<Vec<char>> = Vec::new();
    let mut i: usize = 0;
    while i < v.len()
        invariant
            i <= v@.len(),
            vs == char_lists(v@),
            char_lists(out@) == sort_texts(vs.take(i as int)),
        decreases v@.len() - i,
    {
        let x = v[i].clone();
        assert(x@ == vs[i as int]);
        assert(vs.take(i + 1).drop_last() =~= vs.take(i as int));
        insert_sorted_text(&mut out, x);
        i += 1;
    }
    assert(vs.take(i as int) =~= vs);
    out
}

fn lists_equal(a: &Vec<Vec<char>>, b: &Vec<Vec<char>>) -> (r: bool)
    ensures
        r == (char_lists(a@) == char_lists(b@)),
{
    if a.len() != b.len() {
        assert(char_lists(a@).len() != char_lists(b@).len());
        return false;
    }
    let mut i: usize = 0;
    while i < a.len()
        invariant
            i <= a@.len(),
            a@.len() == b@.len(),
            forall|j: int| 0 <= j < i ==> char_lists(a@)[j] == char_lists(b@)[j],
        decreases a@.len() - i,
    {
        if !same_chars(&a[i], &b[i]) {
            assert(char_lists(a@)[i as int] != char_lists(b@)[i as int]);
            return false;
        }
        i += 1;
    }
    assert(char_lists(a@) =~= char_lists(b@));
    true
}

pub open spec fn strings_view(v: Seq<String>) -> Seq<Seq<char>> {
    v.map_values(|s: String| s@)
}

/// The header names whose normalized values differ, in text order.
pub fn mismatched_headers(expected: &[(String, String)], actual: &[(String, String)]) -> (r: Vec<String>)
    ensures
        strings_view(r@) == header_mismatches(expected@, actual@),
{
    let keys = sorted_keys(expected, actual);
    let ghost ks = char_lists(keys@);
    let mut out: Vec<String> = Vec::new();
    let mut k: usize = 0;
    assert(ks.skip(0) =~= ks);
    while k < keys.len()
        invariant
            k <= keys@.len(),
            ks == char_lists(keys@),
            mismatches_from(expected@, actual@, ks, 0) == strings_view(out@) + mismatches_from(expected@, actual@, ks, k as int),
        decreases keys@.len() - k,
    {
        let key = &keys[k];
        assert(key@ == ks[k as int]);
        let e = values_for(expected, key);
        let a = values_for(actual, key);
        let mismatch = if e.len() == 0 || a.len() == 0 {
            true
        } else {
            let se = sorted_values(e);
            let sa = sorted_values(a);
            !lists_equal(&se, &sa)
        };
        if mismatch {
            let ghost o = strings_view(out@);
            out.push(text_string(key));
            assert(strings_view(out@) =~= o.push(ks[k as int]));
            assert(strings_view(out@) + mismatches_from(expected@, actual@, ks, k + 1) =~= o + (seq![ks[k as int]]
                + mismatches_from(expected@, actual@, ks, k + 1)));
        }
        k += 1;
    }
    assert(strings_view(out@) + Seq::<Seq<char>>::empty() =~= strings_view(out@));
    out
}

/// Pieces joined with `, `.
pub open spec fn joined(parts: Seq<Seq<char>>) -> Seq<char>
    decreases parts.len(),
{
    if parts.len() == 0 {
        Seq::empty()
    } else if parts.len() == 1 {
        parts[0]
    } else {
        joined(parts.drop_last()) + ", "@ + parts.last()
    }
}

fn join_names(names: &Vec<String>) -> (r: String)
    ensures
        r@ == joined(strings_view(names@)),
{
    if names.len() == 0 {
        return String::new();
    }
    let mut out = names[0].clone();
    let mut i: usize = 1;
    while i < names.len()
        invariant
            1 <= i <= names@.len(),
            out@ == joined(strings_view(names@).take(i as int)),
        decreases names@.len() - i,
    {
        out.append(", ");
        out.append(names[i].as_str());
        assert(strings_view(names@).take(i + 1).drop_last() =~= strings_view(names@).take(i as int));
        i += 1;
    }
    assert(strings_view(names@).take(i as int) =~= strings_view(names@));
    out
}

/// A divergence as values: field, expected, actual, truncated.
pub open spec fn div_view(d: Divergence) -> (Field, Seq<char>, Seq<char>, bool) {
    (d.field, d.expected@, d.actual@, d.truncated)
}

pub open spec fn divs_view(v: Seq<Divergence>) -> Seq<(Field, Seq<char>, Seq<char>, bool)> {
    v.map_values(|d: Divergence| div_view(d))
}

/// The divergences between a primary and a shadow response, in order: the
/// status; a truncated body (the comparison was partial); the headers whose
/// normalized values differ; the body's normalized digest when neither side
/// was truncated.
pub open spec fn divergences(
    ps: u16, ph: Seq<(String, String)>, pb: Seq<u8>, pt: bool,
    ss: u16, sh: Seq<(String, String)>, sb: Seq<u8>, st: bool,
) -> Seq<(Field, Seq<char>, Seq<char>, bool)> {
    let status = if ps != ss {
        seq![(Field::Status, crate::text::ascii_chars(crate::text::dec(ps as nat)), crate::text::ascii_chars(crate::text::dec(ss as nat)), false)]
    } else {
        Seq::empty()
    };
    let trunc = if pt || st {
        seq![(Field::Body, "full body"@, "truncated at cap"@, true)]
    } else {
        Seq::empty()
    };
    let m = header_mismatches(ph, sh);
    let headers = if m.len() > 0 {
        seq![(Field::Headers, "matching normalized headers"@, joined(m), false)]
    } else {
        Seq::empty()
    };
    let eh = hex_text(sha256_of(body_normalized(pb)));
    let ah = hex_text(sha256_of(body_normalized(sb)));
    let body = if !pt && !st && eh != ah {
        seq![(Field::Body, eh, ah, false)]
    } else {
        Seq::empty()
    };
    status + trunc + headers + body
}

/// Compares a primary and a shadow response under the normalized profile;
/// every divergence carries the request's path and method.
pub fn diff_responses(
    primary_status: u16,
    primary_headers: &[(String, String)],
    primary_body: &[u8],
    primary_truncated: bool,
    shadow_status: u16,
    shadow_headers: &[(String, String)],
    shadow_body: &[u8],
    shadow_truncated: bool,
    ctx: &RequestContext,
    _max_body_bytes: usize,
) -> (r: Vec<Divergence>)
    ensures
        divs_view(r@) == divergences(
            primary_status, primary_headers@, primary_body@, primary_truncated,
            shadow_status, shadow_headers@, shadow_body@, shadow_truncated,
        ),
        forall|i: int| 0 <= i < r@.len() ==> #[trigger] r@[i].path == ctx.path && r@[i].method == ctx.method,
{
    let mut out: Vec<Divergence> = Vec::new();
    if primary_status != shadow_status {
        out.push(Divergence::new(
            Field::Status,
            crate::text::decimal_text(primary_status as u64),
            crate::text::decimal_text(shadow_status as u64),
            ctx,
        ));
    }
    let ghost s1 = divs_view(out@);
    if primary_truncated || shadow_truncated {
        let mut d = Divergence::new(Field::Body, "full body".to_owned(), "truncated at cap".to_owned(), ctx);
        d.truncated = true;
        out.push(d);
    }
    let ghost s2 = divs_view(out@);
    let names = mismatched_headers(primary_headers, shadow_headers);
    if names.len() > 0 {
        out.push(Divergence::new(
            Field::Headers,
            "matching normalized headers".to_owned(),
            join_names(&names),
            ctx,
        ));
    }
    let ghost s3 = divs_view(out@);
    if !primary_truncated && !shadow_truncated {
        let eh = body_digest(primary_body);
        let ah = body_digest(shadow_body);
        let ec = chars_of(eh.as_str());
        let ac = chars_of(ah.as_str());
        if !same_chars(&ec, &ac) {
            out.push(Divergence::new(Field::Body, eh, ah, ctx));
        }
    }
    assert(divs_view(out@) =~= divergences(
        primary_status, primary_headers@, primary_body@, primary_truncated,
        shadow_status, shadow_headers@, shadow_body@, shadow_truncated,
    ));
    out
}

proof fn lemma_insert_text_members(s: Seq<Seq<char>>, x: Seq<char>, y: Seq<char>)
    requires
        insert_text(s, x).contains(y),
    ensures
        s.contains(y) || y == x,
    decreases s.len(),
{
    if s.len() == 0 || !text_lt(s[0], x) {
        let r = seq![x] + s;
        let k = choose|k: int| 0 <= k < r.len() && r[k] == y;
        if k > 0 {
            assert(s[k - 1] == y);
        }
    } else {
        let rest = insert_text(s.drop_first(), x);
        let r = seq![s[0]] + rest;
        let k = choose|k: int| 0 <= k < r.len() && r[k] == y;
        if k == 0 {
            assert(s[0] == y);
        } else {
            assert(rest[k - 1] == y);
            lemma_insert_text_members(s.drop_first(), x, y);
            if s.drop_first().contains(y) {
                let j = choose|j: int| 0 <= j < s.drop_first().len() && s.drop_first()[j] == y;
                assert(s[j + 1] == y);
            }
        }
    }
}

proof fn lemma_sorted_set_members(s: Seq<Seq<char>>, y: Seq<char>)
    requires
        sorted_set(s).contains(y),
    ensures
        s.contains(y),
    decreases s.len(),
{
    let r = sorted_set(s.drop_last());
    if !r.contains(s.last()) && insert_text(r, s.last()).contains(y) {
        lemma_insert_text_members(r, s.last(), y);
    }
    if r.contains(y) {
        lemma_sorted_set_members(s.drop_last(), y);
        let j = choose|j: int| 0 <= j < s.drop_last().len() && s.drop_last()[j] == y;
        assert(s[j] == y);
    } else {
        assert(s[s.len() - 1] == y);
    }
}

proof fn lemma_values_present(h: Seq<(String, String)>, key: Seq<char>)
    requires
        keys_of(h).contains(key),
    ensures
        values_of(h, key).len() > 0,
    decreases h.len(),
{
    if header_key(h.last()) != key {
        let j = choose|j: int| 0 <= j < keys_of(h).len() && keys_of(h)[j] == key;
        assert(j != h.len() - 1);
        assert(keys_of(h.drop_last())[j] == key);
        lemma_values_present(h.drop_last(), key);
    }
}

proof fn lemma_no_mismatch_with_itself(h: Seq<(String, String)>, keys: Seq<Seq<char>>, k: int)
    requires
        0 <= k <= keys.len(),
        forall|i: int| 0 <= i < keys.len() ==> keys_of(h).contains(#[trigger] keys[i]),
    ensures
        mismatches_from(h, h, keys, k) == Seq::<Seq<char>>::empty(),
    decreases keys.len() - k,
{
    if k < keys.len() {
        lemma_values_present(h, keys[k]);
        lemma_no_mismatch_with_itself(h, keys, k + 1);
    }
}

/// A response compared with itself shows no divergence (when neither copy
/// was truncated): equal statuses, the same normalized header values under
/// every name, and equal body digests.
pub proof fn law_identical_responses_agree(status: u16, headers: Seq<(String, String)>, body: Seq<u8>)
    ensures
        divergences(status, headers, body, false, status, headers, body, false).len() == 0,
{
    let keys = sorted_set(keys_of(headers) + keys_of(headers));
    assert forall|i: int| 0 <= i < keys.len() implies keys_of(headers).contains(#[trigger] keys[i]) by {
        assert(keys.contains(keys[i]));
        lemma_sorted_set_members(keys_of(headers) + keys_of(headers), keys[i]);
        let all = keys_of(headers) + keys_of(headers);
        let j = choose|j: int| 0 <= j < all.len() && all[j] == keys[i];
        if j < keys_of(headers).len() {
            assert(keys_of(headers)[j] == keys[i]);
        } else {
            assert(keys_of(headers)[j - keys_of(headers).len()] == keys[i]);
        }
    }
    lemma_no_mismatch_with_itself(headers, keys, 0);
}

/// Drift is flagged: a status that differs is reported first, and when
/// neither body was cut at the cap, bodies whose normalized digests differ
/// are reported last.
pub proof fn law_drift_is_flagged(
    ps: u16, ph: Seq<(String, String)>, pb: Seq<u8>, pt: bool,
    ss: u16, sh: Seq<(String, String)>, sb: Seq<u8>, st: bool,
)
    ensures
        ps != ss ==> divergences(ps, ph, pb, pt, ss, sh, sb, st).len() > 0
            && divergences(ps, ph, pb, pt, ss, sh, sb, st)[0].0 == Field::Status,
        !pt && !st && hex_text(sha256_of(body_normalized(pb))) != hex_text(sha256_of(body_normalized(sb)))
            ==> divergences(ps, ph, pb, pt, ss, sh, sb, st).len() > 0
            && divergences(ps, ph, pb, pt, ss, sh, sb, st).last().0 == Field::Body,
{
}

} // verus!
