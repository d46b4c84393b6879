//! The header rules of the proxy hop: which headers are per-hop and are
//! not passed on (RFC 7230 §6.1, and those named in `Connection`), the
//! headers of a request rebuilt for a backend, and the framing of a
//! mirrored request whose body was capped.
//!
//! A header block is a list of (name, value) pairs in the order of the
//! message; a value that is not visible ASCII text is `None`.

use vstd::prelude::*;
use crate::text::{
    chars_of, lower_chars, lowercase_chars, chars_equal, split_chars, split_on, trim_chars, trim_ws,
    string_of_chars, concat3, sb, parse_int_spec, decimal_text, dec, ascii_chars,
};
use crate::migrate::{Divergence, Field, RequestContext};

verus! {

/// The hop-by-hop header names, lower case.
pub open spec fn hop_names() -> Seq<Seq<char>> {
    seq![
        "connection"@,
        "keep-alive"@,
        "proxy-authenticate"@,
        "proxy-authorization"@,
        "te"@,
        "trailer"@,
        "transfer-encoding"@,
        "upgrade"@,
    ]
}

/// A name of the fixed hop-by-hop set, compared without regard to ASCII case.
pub open spec fn hop_by_hop(name: Seq<char>) -> bool {
    hop_names().contains(lower_chars(name))
}

/// Whether a header is hop-by-hop by name alone.
pub fn is_hop_by_hop(name: &str) -> (r: bool)
    ensures
        r == hop_by_hop(name@),
{
    let l = lowercase_chars(name);
    let s = l.as_slice();
    let r = chars_equal(s, "connection") || chars_equal(s, "keep-alive") || chars_equal(s, "proxy-authenticate")
        || chars_equal(s, "proxy-authorization") || chars_equal(s, "te") || chars_equal(s, "trailer")
        || chars_equal(s, "transfer-encoding") || chars_equal(s, "upgrade");
    proof {
        let h = hop_names();
        if r {
            if l@ == "connection"@ {
                assert(h[0] == l@);
            } else if l@ == "keep-alive"@ {
                assert(h[1] == l@);
            } else if l@ == "proxy-authenticate"@ {
                assert(h[2] == l@);
            } else if l@ == "proxy-authorization"@ {
                assert(h[3] == l@);
            } else if l@ == "te"@ {
                assert(h[4] == l@);
            } else if l@ == "trailer"@ {
                assert(h[5] == l@);
            } else if l@ == "transfer-encoding"@ {
                assert(h[6] == l@);
            } else {
                assert(h[7] == l@);
            }
        } else {
            assert forall|i: int| 0 <= i < h.len() implies h[i] != l@ by {
                if i == 0 {
                } else if i == 1 {
                } else if i == 2 {
                } else if i == 3 {
                } else if i == 4 {
                } else if i == 5 {
                } else if i == 6 {
                } else {
                }
            }
        }
    }
    r
}

/// The tokens of one `Connection` value, from piece `k` of its
/// comma-separated pieces on: each trimmed and lower-cased, empty ones
/// dropped.
pub open spec fn tokens_of_pieces(p: Seq<Seq<char>>, k: int) -> Seq<Seq<char>>
    decreases p.len() - k,
{
    if k < 0 || k >= p.len() {
        Seq::empty()
    } else {
        let t = lower_chars(trim_ws(p[k]));
        if t.len() > 0 {
            seq![t] + tokens_of_pieces(p, k + 1)
        } else {
            tokens_of_pieces(p, k + 1)
        }
    }
}

/// The tokens named by the `Connection` headers among the first `n`
/// headers, in order.
pub open spec fn connection_tokens_upto(h: Seq<(String, Option<String>)>, n: int) -> Seq<Seq<char>>
    decreases n,
{
    if n <= 0 || n > h.len() {
        Seq::empty()
    } else {
        let rest = connection_tokens_upto(h, n - 1);
        let e = h[n - 1];
        if e.0@ == "connection"@ && e.1 is Some {
            rest + tokens_of_pieces(split_on(e.1.unwrap()@, ','), 0)
        } else {
            rest
        }
    }
}

pub open spec fn connection_tokens(h: Seq<(String, Option<String>)>) -> Seq<Seq<char>> {
    connection_tokens_upto(h, h.len() as int)
}

/// A header that passes a proxy hop: neither hop-by-hop by name nor named
/// (in lower case) by a `Connection` header of the block.
pub open spec fn passes_hop(h: Seq<(String, Option<String>)>, name: Seq<char>) -> bool {
    !hop_by_hop(name) && !connection_tokens(h).contains(lower_chars(name))
}

/// The headers among the first `n` that pass a hop, in order.
pub open spec fn kept_upto(h: Seq<(String, Option<String>)>, n: int) -> Seq<(String, Option<String>)>
    decreases n,
{
    if n <= 0 || n > h.len() {
        Seq::empty()
    } else {
        let rest = kept_upto(h, n - 1);
        if passes_hop(h, h[n - 1].0@) {
            rest.push(h[n - 1])
        } else {
            rest
        }
    }
}

pub open spec fn kept(h: Seq<(String, Option<String>)>) -> Seq<(String, Option<String>)> {
    kept_upto(h, h.len() as int)
}

/// A header as text: a value that is not text becomes empty.
pub open spec fn header_text(e: (String, Option<String>)) -> (Seq<char>, Seq<char>) {
    (e.0@, match e.1 {
        Some(v) => v@,
        None => Seq::empty(),
    })
}

pub open spec fn pairs_text(h: Seq<(String, String)>) -> Seq<(Seq<char>, Seq<char>)> {
    h.map_values(|e: (String, String)| (e.0@, e.1@))
}

fn same_chars(a: &[char], b: &[char]) -> (r: bool)
    ensures
        r == (a@ == b@),
{
    if a.len() != b.len() {
        return false;
    }
    let mut i: usize = 0;
    while i < a.len()
        invariant
            a@.len() == b@.len(),
            i <= a@.len(),
            forall|j: int| 0 <= j < i ==> a@[j] == b@[j],
        decreases a@.len() - i,
    {
        if a[i] != b[i] {
            return false;
        }
        i += 1;
    }
    assert(a@ =~= b@);
    true
}

fn value_tokens(v: &str) -> (r: Vec<Vec<char>>)
    ensures
        r@.len() == tokens_of_pieces(split_on(v@, ','), 0).len(),
        forall|i: int| 0 <= i < r@.len() ==> #[trigger] r@[i]@ == tokens_of_pieces(split_on(v@, ','), 0)[i],
{
    let cs = chars_of(v);
    let pieces = split_chars(cs.as_slice(), ',');
    let ghost p = split_on(v@, ',');
    let mut out: Vec<Vec<char>> = Vec::new();
    let mut k: usize = pieces.len();
    // Built from the back, so that each step prepends.
    let mut rev: Vec<Vec<char>> = Vec::new();
    while k > 0
        invariant
            k <= pieces@.len() == p.len(),
            forall|i: int| 0 <= i < pieces@.len() ==> #[trigger] pieces@[i]@ == p[i],
            rev@.len() == tokens_of_pieces(p, k as int).len(),
            forall|i: int| 0 <= i < rev@.len() ==> #[trigger] rev@[i]@ == tokens_of_pieces(p, k as int)[rev@.len() - 1 - i],
        decreases k,
    {
        k -= 1;
        let trimmed = trim_chars(pieces[k].as_slice());
        let s = string_of_chars(trimmed.as_slice(), 0, trimmed.len());
        assert(s@ =~= trimmed@);
        let t = lowercase_chars(s.as_str());
        let ghost before = rev@;
        let ghost tail = tokens_of_pieces(p, k + 1);
        if t.len() > 0 {
            rev.push(t);
            proof {
                assert(tokens_of_pieces(p, k as int) == seq![t@] + tail);
                assert forall|i: int| 0 <= i < rev@.len() implies #[trigger] rev@[i]@ == tokens_of_pieces(p, k as int)[rev@.len() - 1 - i] by {
                    if i < before.len() {
                        assert(rev@[i] == before[i]);
                    }
                }
            }
        } else {
            assert(tokens_of_pieces(p, k as int) == tail);
        }
    }
    let n = rev.len();
    let mut j: usize = 0;
    while j < n
        invariant
            j <= n == rev@.len() == tokens_of_pieces(p, 0).len(),
            forall|i: int| 0 <= i < rev@.len() ==> #[trigger] rev@[i]@ == tokens_of_pieces(p, 0)[rev@.len() - 1 - i],
            out@.len() == j,
            forall|i: int| 0 <= i < j ==> #[trigger] out@[i]@ == tokens_of_pieces(p, 0)[i],
        decreases n - j,
    {
        let t = &rev[n - 1 - j];
        let c = crate::text::copy_chars(t.as_slice(), 0, t.len());
        assert(c@ =~= t@);
        out.push(c);
        j += 1;
    }
    out
}

/// The `Connection` tokens of a header block, in order.
fn tokens_of(h: &[(String, Option<String>)]) -> (r: Vec<Vec<char>>)
    ensures
        r@.len() == connection_tokens(h@).len(),
        forall|i: int| 0 <= i < r@.len() ==> #[trigger] r@[i]@ == connection_tokens(h@)[i],
{
    let mut out: Vec<Vec<char>> = Vec::new();
    let mut n: usize = 0;
    while n < h.len()
        invariant
            n <= h@.len(),
            out@.len() == connection_tokens_upto(h@, n as int).len(),
            forall|i: int| 0 <= i < out@.len() ==> #[trigger] out@[i]@ == connection_tokens_upto(h@, n as int)[i],
        decreases h@.len() - n,
    {
        let ghost before = out@;
        let ghost prev = connection_tokens_upto(h@, n as int);
        let name = chars_of(h[n].0.as_str());
        if chars_equal(name.as_slice(), "connection") {
            match &h[n].1 {
                Some(v) => {
                    let ts = value_tokens(v.as_str());
                    let ghost add = tokens_of_pieces(split_on(v@, ','), 0);
                    let mut j: usize = 0;
                    while j < ts.len()
                        invariant
                            j <= ts@.len() == add.len(),
                            forall|i: int| 0 <= i < ts@.len() ==> #[trigger] ts@[i]@ == add[i],
                            out@.len() == prev.len() + j,
                            forall|i: int| 0 <= i < out@.len() ==> #[trigger] out@[i]@ == (prev + add)[i],
                        decreases ts@.len() - j,
                    {
                        let c = crate::text::copy_chars(ts[j].as_slice(), 0, ts[j].len());
                        assert(c@ =~= ts@[j as int]@);
                        out.push(c);
                        j += 1;
                    }
                    assert(connection_tokens_upto(h@, n + 1) == prev + add);
                },
                None => {
                    assert(connection_tokens_upto(h@, n + 1) == prev);
                },
            }
        } else {
            assert(connection_tokens_upto(h@, n + 1) == prev);
        }
        n += 1;
    }
    out
}

fn passes(tokens: &Vec<Vec<char>>, name: &str, ghost_h: Ghost<Seq<(String, Option<String>)>>) -> (r: bool)
    requires
        tokens@.len() == connection_tokens(ghost_h@).len(),
        forall|i: int| 0 <= i < tokens@.len() ==> #[trigger] tokens@[i]@ == connection_tokens(ghost_h@)[i],
    ensures
        r == passes_hop(ghost_h@, name@),
{
    if is_hop_by_hop(name) {
        return false;
    }
    let l = lowercase_chars(name);
    let ghost ts = connection_tokens(ghost_h@);
    let mut i: usize = 0;
    while i < tokens.len()
        invariant
            i <= tokens@.len() == ts.len(),
            ts == connection_tokens(ghost_h@),
            l@ == lower_chars(name@),
            forall|j: int| 0 <= j < tokens@.len() ==> #[trigger] tokens@[j]@ == ts[j],
            forall|j: int| 0 <= j < i ==> ts[j] != l@,
        decreases tokens@.len() - i,
    {
        if same_chars(tokens[i].as_slice(), l.as_slice()) {
            assert(ts[i as int] == lower_chars(name@));
            assert(ts.contains(lower_chars(name@)));
            return false;
        }
        i += 1;
    }
    true
}

/// The headers to forward to the next hop: those that pass it, in order,
/// each value as text (empty where it is not text).
pub fn forwarded_headers(headers: &[(String, Option<String>)]) -> (r: Vec<(String, String)>)
    ensures
        pairs_text(r@) == kept(headers@).map_values(|e: (String, Option<String>)| header_text(e)),
{
    let tokens = tokens_of(headers);
    let mut out: Vec<(String, String)> = Vec::new();
    let mut n: usize = 0;
    while n < headers.len()
        invariant
            n <= headers@.len(),
            tokens@.len() == connection_tokens(headers@).len(),
            forall|i: int| 0 <= i < tokens@.len() ==> #[trigger] tokens@[i]@ == connection_tokens(headers@)[i],
            pairs_text(out@) == kept_upto(headers@, n as int).map_values(|e: (String, Option<String>)| header_text(e)),
        decreases headers@.len() - n,
    {
        let ghost before = out@;
        if passes(&tokens, headers[n].0.as_str(), Ghost(headers@)) {
            let name = concat3(headers[n].0.as_str(), "", "");
            let value = match &headers[n].1 {
                Some(v) => concat3(v.as_str(), "", ""),
                None => String::new(),
            };
            proof {
                reveal_strlit("");
            }
            out.push((name, value));
            assert(pairs_text(out@) =~= pairs_text(before).push(header_text(headers@[n as int])));
        }
        assert(kept_upto(headers@, n + 1).map_values(|e: (String, Option<String>)| header_text(e)) =~= if passes_hop(headers@, headers@[n as int].0@) {
            kept_upto(headers@, n as int).map_values(|e: (String, Option<String>)| header_text(e)).push(header_text(headers@[n as int]))
        } else {
            kept_upto(headers@, n as int).map_values(|e: (String, Option<String>)| header_text(e))
        });
        n += 1;
    }
    out
}

/// Drops the headers of a response that do not pass a hop (those named
/// by its `Connection` headers, then the hop-by-hop set), keeping the order
/// of the rest.
pub fn strip_hop_by_hop(headers: &mut Vec<(String, Option<String>)>)
    ensures
        final(headers)@ == kept(old(headers)@),
{
    let tokens = tokens_of(headers.as_slice());
    let ghost h = headers@;
    // Taken from the back; the kept ones gather in reverse.
    let mut rev: Vec<(String, Option<String>)> = Vec::new();
    while headers.len() > 0
        invariant
            headers@.len() <= h.len(),
            headers@ == h.take(headers@.len() as int),
            tokens@.len() == connection_tokens(h).len(),
            forall|i: int| 0 <= i < tokens@.len() ==> #[trigger] tokens@[i]@ == connection_tokens(h)[i],
            kept(h) == kept_upto(h, headers@.len() as int) + rev@.reverse(),
        decreases headers@.len(),
    {
        let ghost m = headers@.len() as int;
        let ghost before = rev@;
        let e = headers.pop().unwrap();
        assert(e == h[m - 1]);
        assert(headers@ =~= h.take(m - 1));
        if passes(&tokens, e.0.as_str(), Ghost(h)) {
            rev.push(e);
            assert(rev@.reverse() =~= seq![h[m - 1]] + before.reverse());
            assert(kept_upto(h, m) == kept_upto(h, m - 1).push(h[m - 1]));
            assert(kept(h) =~= kept_upto(h, m - 1) + rev@.reverse());
        } else {
            assert(kept_upto(h, m) == kept_upto(h, m - 1));
        }
    }
    assert(kept_upto(h, 0) =~= Seq::<(String, Option<String>)>::empty());
    assert(kept(h) =~= rev@.reverse());
    let mut out: Vec<(String, Option<String>)> = Vec::new();
    while rev.len() > 0
        invariant
            kept(h) == out@ + rev@.reverse(),
        decreases rev@.len(),
    {
        let ghost before = rev@;
        let e = rev.pop().unwrap();
        assert(before.reverse() =~= seq![e] + rev@.reverse());
        out.push(e);
        assert(kept(h) =~= out@ + rev@.reverse());
    }
    assert(out@ =~= kept(h));
    *headers = out;
}

proof fn lemma_kept_pass(h: Seq<(String, Option<String>)>, n: int)
    ensures
        forall|i: int| 0 <= i < kept_upto(h, n).len() ==> !hop_by_hop(#[trigger] kept_upto(h, n)[i].0@),
    decreases n,
{
    if 0 < n <= h.len() {
        lemma_kept_pass(h, n - 1);
        let rest = kept_upto(h, n - 1);
        let k = kept_upto(h, n);
        assert forall|i: int| 0 <= i < k.len() implies !hop_by_hop(#[trigger] k[i].0@) by {
            if i < rest.len() {
                assert(k[i] == rest[i]);
            } else {
                assert(passes_hop(h, h[n - 1].0@));
            }
        }
    }
}

proof fn lemma_no_hop_no_tokens(g: Seq<(String, Option<String>)>, n: int)
    requires
        forall|i: int| 0 <= i < g.len() ==> !hop_by_hop(#[trigger] g[i].0@),
    ensures
        connection_tokens_upto(g, n) == Seq::<Seq<char>>::empty(),
    decreases n,
{
    if 0 < n <= g.len() {
        lemma_no_hop_no_tokens(g, n - 1);
        if g[n - 1].0@ == "connection"@ {
            reveal_strlit("connection");
            assert(lower_chars(g[n - 1].0@) =~= "connection"@);
            assert(hop_names()[0] == lower_chars(g[n - 1].0@));
            assert(hop_by_hop(g[n - 1].0@));
        }
    }
}

proof fn lemma_kept_identity(g: Seq<(String, Option<String>)>, n: int)
    requires
        0 <= n <= g.len(),
        forall|i: int| 0 <= i < g.len() ==> !hop_by_hop(#[trigger] g[i].0@),
        connection_tokens(g) == Seq::<Seq<char>>::empty(),
    ensures
        kept_upto(g, n) == g.take(n),
    decreases n,
{
    if n > 0 {
        lemma_kept_identity(g, n - 1);
        assert(!connection_tokens(g).contains(lower_chars(g[n - 1].0@)));
        assert(g.take(n) =~= g.take(n - 1).push(g[n - 1]));
    } else {
        assert(g.take(0) =~= Seq::<(String, Option<String>)>::empty());
    }
}

/// Stripping the per-hop headers twice leaves what stripping once left: no
/// header that passes one hop is per-hop, and no `Connection` header is left
/// to name any.
pub proof fn law_strip_is_idempotent(h: Seq<(String, Option<String>)>)
    ensures
        kept(kept(h)) == kept(h),
{
    let g = kept(h);
    lemma_kept_pass(h, h.len() as int);
    lemma_no_hop_no_tokens(g, g.len() as int);
    lemma_kept_identity(g, g.len() as int);
    assert(g.take(g.len() as int) =~= g);
}

// ---------------------------------------------------------------- requests to a backend

pub open spec fn is_host_name(name: Seq<char>) -> bool {
    lower_chars(name) == "host"@
}

/// The first `n` headers less the hop-by-hop ones, in order.
pub open spec fn end_to_end_upto(h: Seq<(String, String)>, n: int) -> Seq<(Seq<char>, Seq<char>)>
    decreases n,
{
    if n <= 0 || n > h.len() {
        Seq::empty()
    } else {
        let rest = end_to_end_upto(h, n - 1);
        if hop_by_hop(h[n - 1].0@) {
            rest
        } else {
            rest.push((h[n - 1].0@, h[n - 1].1@))
        }
    }
}

/// The headers of a request rebuilt for a backend: the end-to-end headers,
/// the client's `Host` among them, and `Host: <backend address>` added at
/// the end only when the client sent no `Host`.
pub open spec fn backend_headers(h: Seq<(String, String)>, addr: Seq<char>) -> Seq<(Seq<char>, Seq<char>)> {
    let k = end_to_end_upto(h, h.len() as int);
    if exists|i: int| 0 <= i < k.len() && #[trigger] is_host_name(k[i].0) {
        k
    } else {
        k.push(("host"@, addr))
    }
}

fn copy_string(s: &str) -> (r: String)
    ensures
        r@ == s@,
{
    let r = concat3(s, "", "");
    proof {
        reveal_strlit("");
    }
    r
}

/// The headers to send with a request forwarded to `backend_addr`.
pub fn backend_request_headers(headers: &[(String, String)], backend_addr: &str) -> (r: Vec<(String, String)>)
    ensures
        pairs_text(r@) == backend_headers(headers@, backend_addr@),
{
    let mut out: Vec<(String, String)> = Vec::new();
    let mut had_host = false;
    let mut n: usize = 0;
    while n < headers.len()
        invariant
            n <= headers@.len(),
            pairs_text(out@) == end_to_end_upto(headers@, n as int),
            had_host == exists|i: int| 0 <= i < out@.len() && #[trigger] is_host_name(pairs_text(out@)[i].0),
        decreases headers@.len() - n,
    {
        let ghost before = pairs_text(out@);
        let name = headers[n].0.as_str();
        if !is_hop_by_hop(name) {
            let l = lowercase_chars(name);
            let is_host = chars_equal(l.as_slice(), "host");
            out.push((copy_string(name), copy_string(headers[n].1.as_str())));
            assert(pairs_text(out@) =~= before.push((headers@[n as int].0@, headers@[n as int].1@)));
            proof {
                let k = pairs_text(out@);
                if had_host || is_host {
                    if is_host {
                        assert(is_host_name(k[k.len() - 1].0));
                    } else {
                        let i = choose|i: int| 0 <= i < before.len() && #[trigger] is_host_name(before[i].0);
                        assert(k[i] == before[i]);
                        assert(is_host_name(k[i].0));
                    }
                } else {
                    assert forall|i: int| 0 <= i < k.len() implies !#[trigger] is_host_name(k[i].0) by {
                        if i < before.len() {
                            assert(k[i] == before[i]);
                        }
                    }
                }
            }
            had_host = had_host || is_host;
        }
        n += 1;
    }
    if !had_host {
        let ghost before = pairs_text(out@);
        out.push((copy_string("host"), copy_string(backend_addr)));
        assert(pairs_text(out@) =~= before.push(("host"@, backend_addr@)));
    }
    out
}

/// The absolute URI of a request forwarded to `backend_addr`: the
/// address, then the client's path and query (`/` when it has none).
pub fn backend_uri(backend_addr: &str, path_and_query: Option<&str>) -> (r: String)
    ensures
        r@ == "http://"@ + backend_addr@ + (match path_and_query {
            Some(pq) => pq@,
            None => "/"@,
        }),
{
    match path_and_query {
        Some(pq) => concat3("http://", backend_addr, pq),
        None => concat3("http://", backend_addr, "/"),
    }
}

// ---------------------------------------------------------------- mirrored requests

pub open spec fn is_framing_name(name: Seq<char>) -> bool {
    lower_chars(name) == "content-length"@ || lower_chars(name) == "transfer-encoding"@
}

/// The first `n` headers less `Content-Length` and `Transfer-Encoding`.
pub open spec fn unframed_upto(h: Seq<(String, String)>, n: int) -> Seq<(Seq<char>, Seq<char>)>
    decreases n,
{
    if n <= 0 || n > h.len() {
        Seq::empty()
    } else {
        let rest = unframed_upto(h, n - 1);
        if is_framing_name(h[n - 1].0@) {
            rest
        } else {
            rest.push((h[n - 1].0@, h[n - 1].1@))
        }
    }
}

/// The headers of a mirrored request whose body was cut to `body_len`
/// bytes: every `Content-Length` and `Transfer-Encoding` dropped, and one
/// `Content-Length` giving the length of the body that is sent.
pub fn shadow_headers_for_body(headers: Vec<(String, String)>, body_len: usize) -> (r: Vec<(String, String)>)
    ensures
        pairs_text(r@) == unframed_upto(headers@, headers@.len() as int).push(
            ("content-length"@, ascii_chars(dec(body_len as nat))),
        ),
{
    let mut out: Vec<(String, String)> = Vec::new();
    let mut n: usize = 0;
    while n < headers.len()
        invariant
            n <= headers@.len(),
            pairs_text(out@) == unframed_upto(headers@, n as int),
        decreases headers@.len() - n,
    {
        let ghost before = pairs_text(out@);
        let name = headers[n].0.as_str();
        let l = lowercase_chars(name);
        if !(chars_equal(l.as_slice(), "content-length") || chars_equal(l.as_slice(), "transfer-encoding")) {
            out.push((copy_string(name), copy_string(headers[n].1.as_str())));
            assert(pairs_text(out@) =~= before.push((headers@[n as int].0@, headers@[n as int].1@)));
        }
        n += 1;
    }
    let ghost before = pairs_text(out@);
    let len_text = decimal_text(body_len as u64);
    out.push((copy_string("content-length"), len_text));
    assert(pairs_text(out@) =~= before.push(("content-length"@, ascii_chars(dec(body_len as nat)))));
    out
}

// ---------------------------------------------------------------- request ids

pub open spec fn is_request_id_name(name: Seq<char>) -> bool {
    lower_chars(name) == "x-request-id"@
}

/// The first `n` headers less any `X-Request-Id`.
pub open spec fn without_request_id_upto(h: Seq<(String, String)>, n: int) -> Seq<(Seq<char>, Seq<char>)>
    decreases n,
{
    if n <= 0 || n > h.len() {
        Seq::empty()
    } else {
        let rest = without_request_id_upto(h, n - 1);
        if is_request_id_name(h[n - 1].0@) {
            rest
        } else {
            rest.push((h[n - 1].0@, h[n - 1].1@))
        }
    }
}

/// The headers with the proxy's request id: any `X-Request-Id` dropped, and
/// one `x-request-id` with the given id added at the end.
pub fn with_request_id(headers: &[(String, String)], request_id: &str) -> (r: Vec<(String, String)>)
    ensures
        pairs_text(r@) == without_request_id_upto(headers@, headers@.len() as int).push(
            ("x-request-id"@, request_id@),
        ),
{
    let mut out: Vec<(String, String)> = Vec::new();
    let mut n: usize = 0;
    while n < headers.len()
        invariant
            n <= headers@.len(),
            pairs_text(out@) == without_request_id_upto(headers@, n as int),
        decreases headers@.len() - n,
    {
        let ghost before = pairs_text(out@);
        let name = headers[n].0.as_str();
        let l = lowercase_chars(name);
        if !chars_equal(l.as_slice(), "x-request-id") {
            out.push((copy_string(name), copy_string(headers[n].1.as_str())));
            assert(pairs_text(out@) =~= before.push((headers@[n as int].0@, headers@[n as int].1@)));
        }
        n += 1;
    }
    let ghost before = pairs_text(out@);
    out.push((copy_string("x-request-id"), copy_string(request_id)));
    assert(pairs_text(out@) =~= before.push(("x-request-id"@, request_id@)));
    out
}

/// Whether a backend's answer counts as a success for its breaker: any
/// status but a server error (5xx).
pub fn backend_succeeded(status: u16) -> (r: bool)
    ensures
        r == !(500 <= status <= 599),
{
    !(500 <= status && status <= 599)
}

/// What became of a mirrored request.
pub enum ShadowOutcome {
    /// Nothing was sent: the primary backend of the decision is not
    /// routable.
    NotRoutable,
    /// The request to the shadow failed; the text says why.
    RequestFailed(String),
    /// The shadow answered with this status, but its body could not be
    /// read; the text says why.
    BodyFailed(u16, String),
    /// The shadow answered with this status and its body was read.
    Answered(u16),
}

/// The outcome recorded against the shadow backend's breaker: nothing when
/// the primary was not routable (that is no fault of the shadow), a failure
/// when the request or the body read failed, and for an answer whether its
/// status is not a server error.
pub open spec fn shadow_record(o: ShadowOutcome) -> Option<bool> {
    match o {
        ShadowOutcome::NotRoutable => None,
        ShadowOutcome::RequestFailed(_) => Some(false),
        ShadowOutcome::BodyFailed(_, _) => Some(false),
        ShadowOutcome::Answered(s) => Some(!(500 <= s <= 599)),
    }
}

/// The divergence reported when the shadow gave no answer to compare, as
/// field, expected and actual text; an answer is compared instead.
pub open spec fn shadow_failure(o: ShadowOutcome) -> Option<(Field, Seq<char>, Seq<char>)> {
    match o {
        ShadowOutcome::NotRoutable => Some((Field::ConnectionLifecycle, "ok"@, "error: backend not routable"@)),
        ShadowOutcome::RequestFailed(e) => Some(
            (Field::ConnectionLifecycle, "ok"@, "error: backend request failed: "@ + e@),
        ),
        ShadowOutcome::BodyFailed(_, e) => Some(
            (Field::ConnectionLifecycle, "complete response body"@, "body read error: "@ + e@),
        ),
        ShadowOutcome::Answered(_) => None,
    }
}

/// Whether a shadow outcome is recorded against the shadow backend's
/// breaker, and as what.
pub fn shadow_breaker_record(o: &ShadowOutcome) -> (r: Option<bool>)
    ensures
        r == shadow_record(*o),
{
    match o {
        ShadowOutcome::NotRoutable => None,
        ShadowOutcome::RequestFailed(_) => Some(false),
        ShadowOutcome::BodyFailed(_, _) => Some(false),
        ShadowOutcome::Answered(s) => Some(backend_succeeded(*s)),
    }
}

/// The divergence for a shadow that gave no answer to compare, for the
/// request in `ctx`; `None` for an answer.
pub fn shadow_failure_divergence(o: &ShadowOutcome, ctx: &RequestContext) -> (r: Option<Divergence>)
    ensures
        match shadow_failure(*o) {
            Some((f, e, a)) => r matches Some(d) && d.field == f && d.expected@ == e && d.actual@ == a
                && d.path == ctx.path && d.method == ctx.method && !d.truncated,
            None => r is None,
        },
{
    proof {
        reveal_strlit("");
    }
    match o {
        ShadowOutcome::NotRoutable => Some(
            Divergence::new(Field::ConnectionLifecycle, copy_string("ok"), copy_string("error: backend not routable"), ctx),
        ),
        ShadowOutcome::RequestFailed(e) => Some(
            Divergence::new(
                Field::ConnectionLifecycle,
                copy_string("ok"),
                concat3("error: backend request failed: ", e.as_str(), ""),
                ctx,
            ),
        ),
        ShadowOutcome::BodyFailed(_, e) => Some(
            Divergence::new(
                Field::ConnectionLifecycle,
                copy_string("complete response body"),
                concat3("body read error: ", e.as_str(), ""),
                ctx,
            ),
        ),
        ShadowOutcome::Answered(_) => None,
    }
}

} // verus!
