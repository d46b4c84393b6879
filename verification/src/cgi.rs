//! CGI: recognising non-parsed-header scripts and building the environment
//! handed to a script, in the order legacy CGI programs expect.

use vstd::prelude::*;
use vstd::string::*;
use crate::text::{ascii_chars, ascii_string, dec, dec_int, push_dec, push_dec_i64, lemma_dec_ascii, chars_of, decimal_text, path_file_name, file_name_of};

verus! {

/// A file name that marks a non-parsed-header script.
pub open spec fn nph_name(n: Seq<char>) -> bool {
    n.len() >= 4 && n.take(4) == seq!['n', 'p', 'h', '-']
}

/// Whether a file name starts with `nph-`.
pub fn is_nph_file_name(name: &str) -> (r: bool)
    ensures
        r == nph_name(name@),
{
    let cs = chars_of(name);
    let r = cs.len() >= 4 && cs[0] == 'n' && cs[1] == 'p' && cs[2] == 'h' && cs[3] == '-';
    proof {
        if cs@.len() >= 4 {
            if r {
                assert(cs@.take(4) =~= seq!['n', 'p', 'h', '-']);
            } else {
                assert(cs@.take(4)[0] == cs@[0] && cs@.take(4)[1] == cs@[1] && cs@.take(4)[2]
                    == cs@[2] && cs@.take(4)[3] == cs@[3]);
            }
        }
    }
    r
}

/// Whether a CGI script is a non-parsed-header script: its file name starts
/// with `nph-`.
pub fn is_nph_script(script_path: &str) -> (r: bool)
    ensures
        r == (path_file_name(script_path@) matches Some(n) && nph_name(n)),
{
    match file_name_of(script_path) {
        Some(name) => is_nph_file_name(name.as_str()),
        None => false,
    }
}

/// CGI execution context. The request headers are (name, value) pairs;
/// a lookup takes the first pair with the name.
pub struct CgiContext {
    pub server_software: String,
    pub server_name: String,
    pub gateway_interface: String,
    pub server_protocol: String,
    pub server_port: u16,
    pub request_method: String,
    pub script_name: String,
    pub query_string: String,
    pub remote_addr: String,
    pub content_type: Option<String>,
    pub content_length: Option<i64>,
    pub http_headers: Vec<(String, String)>,
    pub path_info: Option<String>,
    pub path_translated: Option<String>,
    pub remote_user: Option<String>,
    pub auth_type: Option<String>,
}

/// The value of the first header named `name`.
pub open spec fn header_value(h: Seq<(String, String)>, name: Seq<char>) -> Option<Seq<char>>
    decreases h.len(),
{
    if h.len() == 0 {
        None
    } else if h[0].0@ == name {
        Some(h[0].1@)
    } else {
        header_value(h.drop_first(), name)
    }
}

fn lookup_header(h: &Vec<(String, String)>, name: &str) -> (r: Option<String>)
    ensures
        r is Some <==> header_value(h@, name@) is Some,
        r is Some ==> r.unwrap()@ == header_value(h@, name@).unwrap(),
{
    let target = chars_of(name);
    let mut i: usize = 0;
    assert(h@.skip(0) =~= h@);
    while i < h.len()
        invariant
            i <= h@.len(),
            target@ == name@,
            header_value(h@, name@) == header_value(h@.skip(i as int), name@),
        decreases h@.len() - i,
    {
        let key = chars_of(h[i].0.as_str());
        let mut same = key.len() == target.len();
        let mut k: usize = 0;
        while same && k < key.len()
            invariant
                key@.len() == target@.len() || !same,
                k <= key@.len(),
                same ==> forall|j: int| 0 <= j < k ==> key@[j] == target@[j],
                !same ==> key@ != target@,
            decreases key@.len() - k,
        {
            if key[k] != target[k] {
                same = false;
            }
            k += 1;
        }
        if same {
            assert(key@ =~= target@);
        }
        let ghost t = h@.skip(i as int);
        assert(t[0] == h@[i as int]);
        assert(t.drop_first() =~= h@.skip(i + 1));
        if same {
            return Some(h[i].1.clone());
        }
        i += 1;
    }
    None
}

/// Appends `(name, value)` when the value is there.
pub open spec fn push_opt(
    env: Seq<(Seq<char>, Seq<char>)>,
    name: Seq<char>,
    value: Option<Seq<char>>,
) -> Seq<(Seq<char>, Seq<char>)> {
    match value {
        Some(v) => env.push((name, v)),
        None => env,
    }
}

pub open spec fn opt_view(s: Option<String>) -> Option<Seq<char>> {
    match s {
        Some(v) => Some(v@),
        None => None,
    }
}

/// The request headers passed on, in the fixed order, with their variable
/// names.
pub open spec fn header_vars(h: Seq<(String, String)>) -> Seq<(Seq<char>, Seq<char>)> {
    let e0 = Seq::<(Seq<char>, Seq<char>)>::empty();
    let e1 = push_opt(e0, "HTTP_REFERER"@, header_value(h, "Referer"@));
    let e2 = push_opt(e1, "HTTP_USER_AGENT"@, header_value(h, "User-Agent"@));
    let e3 = push_opt(e2, "HTTP_ACCEPT"@, header_value(h, "Accept"@));
    let e4 = push_opt(e3, "HTTP_ACCEPT_ENCODING"@, header_value(h, "Accept-Encoding"@));
    let e5 = push_opt(e4, "HTTP_ACCEPT_LANGUAGE"@, header_value(h, "Accept-Language"@));
    let e6 = push_opt(e5, "HTTP_COOKIE"@, header_value(h, "Cookie"@));
    push_opt(e6, "HTTP_HOST"@, header_value(h, "Host"@))
}

/// The variables before the request headers.
pub open spec fn cgi_env_head(ctx: CgiContext, script: Seq<char>) -> Seq<(Seq<char>, Seq<char>)> {
    let base = seq![
        ("PATH"@, "/usr/local/bin:/usr/ucb:/bin:/usr/bin"@),
        ("SERVER_SOFTWARE"@, ctx.server_software@),
        ("SERVER_NAME"@, ctx.server_name@),
        ("GATEWAY_INTERFACE"@, ctx.gateway_interface@),
        ("SERVER_PROTOCOL"@, ctx.server_protocol@),
        ("SERVER_PORT"@, ascii_chars(dec(ctx.server_port as nat))),
        ("REQUEST_METHOD"@, ctx.request_method@),
    ];
    let e1 = push_opt(base, "PATH_INFO"@, opt_view(ctx.path_info));
    let e2 = push_opt(e1, "PATH_TRANSLATED"@, opt_view(ctx.path_translated));
    let e3 = e2.push(("SCRIPT_NAME"@, script));
    let e4 = if ctx.query_string@.len() > 0 {
        e3.push(("QUERY_STRING"@, ctx.query_string@))
    } else {
        e3
    };
    let e5 = e4.push(("REMOTE_ADDR"@, ctx.remote_addr@));
    let e6 = push_opt(e5, "AUTH_TYPE"@, opt_view(ctx.auth_type));
    push_opt(e6, "REMOTE_USER"@, opt_view(ctx.remote_user))
}

/// The variables after the request headers.
pub open spec fn cgi_env_tail(ctx: CgiContext, pattern: Seq<char>) -> Seq<(Seq<char>, Seq<char>)> {
    let e9 = push_opt(Seq::empty(), "CONTENT_TYPE"@, opt_view(ctx.content_type));
    let e10 = match ctx.content_length {
        Some(n) => e9.push(("CONTENT_LENGTH"@, ascii_chars(dec_int(n as int)))),
        None => e9,
    };
    e10.push(("CGI_PATTERN"@, pattern))
}

/// The CGI environment, in the order of the legacy `make_envp()`.
pub open spec fn cgi_env(ctx: CgiContext, script: Seq<char>, pattern: Seq<char>) -> Seq<
    (Seq<char>, Seq<char>),
> {
    cgi_env_head(ctx, script) + header_vars(ctx.http_headers@) + cgi_env_tail(ctx, pattern)
}

/// The environment as text pairs.
pub open spec fn env_view(env: Seq<(String, String)>) -> Seq<(Seq<char>, Seq<char>)> {
    env.map_values(|p: (String, String)| (p.0@, p.1@))
}

fn push_pair(env: &mut Vec<(String, String)>, name: &str, value: String)
    ensures
        env_view(final(env)@) == env_view(old(env)@).push((name@, value@)),
{
    env.push((name.to_owned(), value));
    assert(env_view(env@) =~= env_view(old(env)@).push((name@, value@)));
}

fn push_opt_pair(env: &mut Vec<(String, String)>, name: &str, value: &Option<String>)
    ensures
        env_view(final(env)@) == push_opt(env_view(old(env)@), name@, opt_view(*value)),
{
    match value {
        Some(v) => push_pair(env, name, v.clone()),
        None => {},
    }
}

fn push_header_var(env: &mut Vec<(String, String)>, var: &str, h: &Vec<(String, String)>, header: &str)
    ensures
        env_view(final(env)@) == push_opt(env_view(old(env)@), var@, header_value(h@, header@)),
{
    match lookup_header(h, header) {
        Some(v) => push_pair(env, var, v),
        None => {},
    }
}

fn signed_text(n: i64) -> (r: String)
    ensures
        r@ == ascii_chars(dec_int(n as int)),
{
    let mut v: Vec<u8> = Vec::new();
    push_dec_i64(&mut v, n);
    proof {
        let m: nat = if n < 0 { (-n) as nat } else { n as nat };
        lemma_dec_ascii(m);
        if n < 0 {
            crate::text::lemma_ascii_concat(seq![45u8], dec(m));
        }
    }
    assert(v@ =~= dec_int(n as int));
    ascii_string(v.as_slice())
}

fn env_head(ctx: &CgiContext, script_path: &str) -> (r: Vec<(String, String)>)
    ensures
        env_view(r@) == cgi_env_head(*ctx, script_path@),
{
    let mut env: Vec<(String, String)> = Vec::new();
    push_pair(&mut env, "PATH", "/usr/local/bin:/usr/ucb:/bin:/usr/bin".to_owned());
    push_pair(&mut env, "SERVER_SOFTWARE", ctx.server_software.clone());
    push_pair(&mut env, "SERVER_NAME", ctx.server_name.clone());
    push_pair(&mut env, "GATEWAY_INTERFACE", ctx.gateway_interface.clone());
    push_pair(&mut env, "SERVER_PROTOCOL", ctx.server_protocol.clone());
    push_pair(&mut env, "SERVER_PORT", decimal_text(ctx.server_port as u64));
    push_pair(&mut env, "REQUEST_METHOD", ctx.request_method.clone());
    assert(env_view(env@) =~= seq![
        ("PATH"@, "/usr/local/bin:/usr/ucb:/bin:/usr/bin"@),
        ("SERVER_SOFTWARE"@, ctx.server_software@),
        ("SERVER_NAME"@, ctx.server_name@),
        ("GATEWAY_INTERFACE"@, ctx.gateway_interface@),
        ("SERVER_PROTOCOL"@, ctx.server_protocol@),
        ("SERVER_PORT"@, ascii_chars(dec(ctx.server_port as nat))),
        ("REQUEST_METHOD"@, ctx.request_method@),
    ]);
    push_opt_pair(&mut env, "PATH_INFO", &ctx.path_info);
    push_opt_pair(&mut env, "PATH_TRANSLATED", &ctx.path_translated);
    push_pair(&mut env, "SCRIPT_NAME", script_path.to_owned());
    if ctx.query_string.as_str().unicode_len() > 0 {
        push_pair(&mut env, "QUERY_STRING", ctx.query_string.clone());
    }
    push_pair(&mut env, "REMOTE_ADDR", ctx.remote_addr.clone());
    push_opt_pair(&mut env, "AUTH_TYPE", &ctx.auth_type);
    push_opt_pair(&mut env, "REMOTE_USER", &ctx.remote_user);
    env
}

fn push_header_vars(env: &mut Vec<(String, String)>, h: &Vec<(String, String)>)
    ensures
        env_view(final(env)@) == env_view(old(env)@) + header_vars(h@),
{
    push_header_var(env, "HTTP_REFERER", h, "Referer");
    push_header_var(env, "HTTP_USER_AGENT", h, "User-Agent");
    push_header_var(env, "HTTP_ACCEPT", h, "Accept");
    push_header_var(env, "HTTP_ACCEPT_ENCODING", h, "Accept-Encoding");
    push_header_var(env, "HTTP_ACCEPT_LANGUAGE", h, "Accept-Language");
    push_header_var(env, "HTTP_COOKIE", h, "Cookie");
    push_header_var(env, "HTTP_HOST", h, "Host");
    assert(env_view(final(env)@) =~= env_view(old(env)@) + header_vars(h@));
}

fn push_env_tail(env: &mut Vec<(String, String)>, ctx: &CgiContext, cgi_pattern: &str)
    ensures
        env_view(final(env)@) == env_view(old(env)@) + cgi_env_tail(*ctx, cgi_pattern@),
{
    push_opt_pair(env, "CONTENT_TYPE", &ctx.content_type);
    match ctx.content_length {
        Some(n) => push_pair(env, "CONTENT_LENGTH", signed_text(n)),
        None => {},
    }
    push_pair(env, "CGI_PATTERN", cgi_pattern.to_owned());
    assert(env_view(final(env)@) =~= env_view(old(env)@) + cgi_env_tail(*ctx, cgi_pattern@));
}

/// Build the CGI environment variables in the order of the legacy
/// `make_envp()`.
pub fn build_envp(ctx: &CgiContext, script_path: &str, cgi_pattern: &str) -> (r: Vec<(String, String)>)
    ensures
        env_view(r@) == cgi_env(*ctx, script_path@, cgi_pattern@),
{
    let mut env = env_head(ctx, script_path);
    push_header_vars(&mut env, &ctx.http_headers);
    push_env_tail(&mut env, ctx, cgi_pattern);
    env
}

// ---------------------------------------------------------------- addresses

/// Index of the last `c` in `s[..k]`, or -1.
pub open spec fn last_index_of(s: Seq<char>, c: char, k: int) -> int
    decreases k,
{
    if k <= 0 || k > s.len() {
        -1
    } else if s[k - 1] == c {
        k - 1
    } else {
        last_index_of(s, c, k - 1)
    }
}

/// The text before the last `:` (`str::rsplit_once(':')`), or all of it
/// when there is none.
pub open spec fn before_last_colon(s: Seq<char>) -> Seq<char> {
    let k = last_index_of(s, ':', s.len() as int);
    if k < 0 {
        s
    } else {
        s.take(k)
    }
}

/// Leading `c`s dropped (`trim_start_matches`).
pub open spec fn drop_leading(s: Seq<char>, c: char) -> Seq<char>
    decreases s.len(),
{
    if s.len() > 0 && s[0] == c {
        drop_leading(s.drop_first(), c)
    } else {
        s
    }
}

/// Trailing `c`s dropped (`trim_end_matches`).
pub open spec fn drop_trailing(s: Seq<char>, c: char) -> Seq<char>
    decreases s.len(),
{
    if s.len() > 0 && s.last() == c {
        drop_trailing(s.drop_last(), c)
    } else {
        s
    }
}

/// The address a CGI program sees as the client's: the first
/// `X-Forwarded-For` address when there is one, else the peer address
/// without its port and brackets, an IPv4-mapped IPv6 address shown as
/// IPv4.
pub open spec fn cgi_remote_addr_of(xff: Seq<char>, peer: Seq<char>) -> Seq<char> {
    if xff.len() > 0 {
        xff
    } else {
        let a = drop_trailing(drop_leading(before_last_colon(peer), '['), ']');
        if a.len() >= 7 && a.take(7) == "::ffff:"@ {
            a.skip(7)
        } else {
            a
        }
    }
}

fn last_colon(cs: &[char]) -> (r: Option<usize>)
    ensures
        match r {
            Some(k) => k < cs@.len() && last_index_of(cs@, ':', cs@.len() as int) == k as int,
            None => last_index_of(cs@, ':', cs@.len() as int) < 0,
        },
{
    let mut k = cs.len();
    while k > 0 && cs[k - 1] != ':'
        invariant
            k <= cs@.len(),
            last_index_of(cs@, ':', cs@.len() as int) == last_index_of(cs@, ':', k as int),
        decreases k,
    {
        k -= 1;
    }
    if k == 0 {
        None
    } else {
        Some(k - 1)
    }
}

fn before_colon_chars(cs: &[char]) -> (r: Vec<char>)
    ensures
        r@ == before_last_colon(cs@),
{
    match last_colon(cs) {
        Some(k) => {
            let r = crate::text::copy_chars(cs, 0, k);
            assert(r@ =~= cs@.take(k as int));
            r
        },
        None => crate::text::copy_chars(cs, 0, cs.len()),
    }
}

/// The host of a `Host` value without its port (the text before its last
/// `:`).
pub fn host_without_port(host: &str) -> (r: String)
    ensures
        r@ == before_last_colon(host@),
{
    let cs = chars_of(host);
    let b = before_colon_chars(cs.as_slice());
    let r = crate::text::string_of_chars(b.as_slice(), 0, b.len());
    assert(r@ =~= b@);
    r
}

/// The client address for the CGI environment.
pub fn cgi_remote_addr(x_forwarded_for: &str, peer_addr: &str) -> (r: String)
    ensures
        r@ == cgi_remote_addr_of(x_forwarded_for@, peer_addr@),
{
    let xs = chars_of(x_forwarded_for);
    if xs.len() > 0 {
        let r = crate::text::string_of_chars(xs.as_slice(), 0, xs.len());
        assert(r@ =~= xs@);
        return r;
    }
    let cs = chars_of(peer_addr);
    let b = before_colon_chars(cs.as_slice());
    let mut lo: usize = 0;
    assert(b@.skip(0) =~= b@);
    while lo < b.len() && b[lo] == '['
        invariant
            lo <= b@.len(),
            drop_leading(b@, '[') == drop_leading(b@.skip(lo as int), '['),
        decreases b@.len() - lo,
    {
        assert(b@.skip(lo as int).drop_first() =~= b@.skip(lo + 1));
        lo += 1;
    }
    let ghost t = b@.skip(lo as int);
    assert(lo == b@.len() ==> t =~= Seq::<char>::empty());
    assert(drop_leading(b@, '[') == t);
    let mut hi: usize = b.len();
    while hi > lo && b[hi - 1] == ']'
        invariant
            lo <= hi <= b@.len(),
            drop_trailing(t, ']') == drop_trailing(b@.subrange(lo as int, hi as int), ']'),
        decreases hi,
    {
        assert(b@.subrange(lo as int, hi as int).drop_last() =~= b@.subrange(lo as int, hi - 1));
        hi -= 1;
    }
    assert(t =~= b@.subrange(lo as int, b@.len() as int));
    let ghost a = b@.subrange(lo as int, hi as int);
    assert(hi == lo ==> a =~= Seq::<char>::empty());
    assert(drop_trailing(a, ']') == a);
    let is_mapped = hi - lo >= 7 && b[lo] == ':' && b[lo + 1] == ':' && b[lo + 2] == 'f' && b[lo + 3] == 'f'
        && b[lo + 4] == 'f' && b[lo + 5] == 'f' && b[lo + 6] == ':';
    proof {
        reveal_strlit("::ffff:");
        if hi - lo >= 7 {
            if is_mapped {
                assert(a.take(7) =~= "::ffff:"@);
            } else {
                assert(a.take(7) != "::ffff:"@) by {
                    if a.take(7) == "::ffff:"@ {
                        assert(a.take(7)[0] == ':');
                        assert(a.take(7)[1] == ':');
                        assert(a.take(7)[2] == 'f');
                        assert(a.take(7)[3] == 'f');
                        assert(a.take(7)[4] == 'f');
                        assert(a.take(7)[5] == 'f');
                        assert(a.take(7)[6] == ':');
                    }
                }
            }
        }
    }
    let start = if is_mapped { lo + 7 } else { lo };
    let r = crate::text::string_of_chars(b.as_slice(), start, hi);
    assert(r@ =~= cgi_remote_addr_of(x_forwarded_for@, peer_addr@));
    r
}

// ---------------------------------------------------------------- environment laws

/// No variable of `env` is named `n`.
pub open spec fn lacks_name(env: Seq<(Seq<char>, Seq<char>)>, n: Seq<char>) -> bool {
    forall|i: int| 0 <= i < env.len() ==> (#[trigger] env[i]).0 != n
}

proof fn lemma_push_opt_contains(s: Seq<(Seq<char>, Seq<char>)>, n: Seq<char>, v: Option<Seq<char>>, x: (Seq<char>, Seq<char>))
    requires
        s.contains(x),
    ensures
        push_opt(s, n, v).contains(x),
{
    let i = choose|i: int| 0 <= i < s.len() && s[i] == x;
    assert(push_opt(s, n, v)[i] == x);
}

proof fn lemma_push_contains(s: Seq<(Seq<char>, Seq<char>)>, y: (Seq<char>, Seq<char>), x: (Seq<char>, Seq<char>))
    requires
        s.contains(x),
    ensures
        s.push(y).contains(x),
{
    let i = choose|i: int| 0 <= i < s.len() && s[i] == x;
    assert(s.push(y)[i] == x);
}

proof fn lemma_concat_contains(a: Seq<(Seq<char>, Seq<char>)>, b: Seq<(Seq<char>, Seq<char>)>, x: (Seq<char>, Seq<char>))
    ensures
        a.contains(x) ==> (a + b).contains(x),
        b.contains(x) ==> (a + b).contains(x),
{
    if a.contains(x) {
        let i = choose|i: int| 0 <= i < a.len() && a[i] == x;
        assert((a + b)[i] == x);
    }
    if b.contains(x) {
        let i = choose|i: int| 0 <= i < b.len() && b[i] == x;
        assert((a + b)[a.len() + i] == x);
    }
}

proof fn lemma_pushed_contains(s: Seq<(Seq<char>, Seq<char>)>, y: (Seq<char>, Seq<char>))
    ensures
        s.push(y).contains(y),
{
    assert(s.push(y)[s.len() as int] == y);
}

/// A variable in the head of the environment is in the whole of it.
proof fn lemma_head_to_env(ctx: CgiContext, script: Seq<char>, pattern: Seq<char>, x: (Seq<char>, Seq<char>))
    requires
        cgi_env_head(ctx, script).contains(x),
    ensures
        cgi_env(ctx, script, pattern).contains(x),
{
    let h = cgi_env_head(ctx, script);
    lemma_concat_contains(h, header_vars(ctx.http_headers@), x);
    lemma_concat_contains(h + header_vars(ctx.http_headers@), cgi_env_tail(ctx, pattern), x);
}

/// What the environment of a CGI request holds: the script's name, the
/// client's address, the method, the protocol, the port in decimal, the
/// CGI pattern; the path info, translated path, user, auth type and
/// content type when there are some; and the query string exactly when
/// it is not empty (an empty one sets no `QUERY_STRING` at all).
pub proof fn law_cgi_env_variables(ctx: CgiContext, script: Seq<char>, pattern: Seq<char>)
    ensures
        ({
            let env = cgi_env(ctx, script, pattern);
            &&& ctx.query_string@.len() > 0 ==> env.contains(("QUERY_STRING"@, ctx.query_string@))
            &&& ctx.query_string@.len() == 0 ==> lacks_name(env, "QUERY_STRING"@)
            &&& env.contains(("SCRIPT_NAME"@, script))
            &&& env.contains(("REMOTE_ADDR"@, ctx.remote_addr@))
            &&& env.contains(("REQUEST_METHOD"@, ctx.request_method@))
            &&& env.contains(("SERVER_PROTOCOL"@, ctx.server_protocol@))
            &&& env.contains(("SERVER_PORT"@, ascii_chars(dec(ctx.server_port as nat))))
            &&& env.contains(("CGI_PATTERN"@, pattern))
            &&& (ctx.path_info matches Some(p) ==> env.contains(("PATH_INFO"@, p@)))
            &&& (ctx.path_translated matches Some(p) ==> env.contains(("PATH_TRANSLATED"@, p@)))
            &&& (ctx.remote_user matches Some(u) ==> env.contains(("REMOTE_USER"@, u@)))
            &&& (ctx.auth_type matches Some(a) ==> env.contains(("AUTH_TYPE"@, a@)))
            &&& (ctx.content_type matches Some(t) ==> env.contains(("CONTENT_TYPE"@, t@)))
        }),
{
    let base = seq![
        ("PATH"@, "/usr/local/bin:/usr/ucb:/bin:/usr/bin"@),
        ("SERVER_SOFTWARE"@, ctx.server_software@),
        ("SERVER_NAME"@, ctx.server_name@),
        ("GATEWAY_INTERFACE"@, ctx.gateway_interface@),
        ("SERVER_PROTOCOL"@, ctx.server_protocol@),
        ("SERVER_PORT"@, ascii_chars(dec(ctx.server_port as nat))),
        ("REQUEST_METHOD"@, ctx.request_method@),
    ];
    let e1 = push_opt(base, "PATH_INFO"@, opt_view(ctx.path_info));
    let e2 = push_opt(e1, "PATH_TRANSLATED"@, opt_view(ctx.path_translated));
    let e3 = e2.push(("SCRIPT_NAME"@, script));
    let e4 = if ctx.query_string@.len() > 0 {
        e3.push(("QUERY_STRING"@, ctx.query_string@))
    } else {
        e3
    };
    let e5 = e4.push(("REMOTE_ADDR"@, ctx.remote_addr@));
    let e6 = push_opt(e5, "AUTH_TYPE"@, opt_view(ctx.auth_type));
    let h = push_opt(e6, "REMOTE_USER"@, opt_view(ctx.remote_user));
    assert(h == cgi_env_head(ctx, script));
    let env = cgi_env(ctx, script, pattern);
    let hv = header_vars(ctx.http_headers@);
    let tl = cgi_env_tail(ctx, pattern);
    assert(env == h + hv + tl);

    // Carries a variable present in `base`, `e1`, ... on to the head.
    assert forall|x: (Seq<char>, Seq<char>)| e4.contains(x) implies #[trigger] env.contains(x) by {
        lemma_push_contains(e4, ("REMOTE_ADDR"@, ctx.remote_addr@), x);
        lemma_push_opt_contains(e5, "AUTH_TYPE"@, opt_view(ctx.auth_type), x);
        lemma_push_opt_contains(e6, "REMOTE_USER"@, opt_view(ctx.remote_user), x);
        lemma_head_to_env(ctx, script, pattern, x);
    }
    assert forall|x: (Seq<char>, Seq<char>)| e2.contains(x) implies #[trigger] e4.contains(x) by {
        lemma_push_contains(e2, ("SCRIPT_NAME"@, script), x);
        if ctx.query_string@.len() > 0 {
            lemma_push_contains(e3, ("QUERY_STRING"@, ctx.query_string@), x);
        }
    }
    assert forall|x: (Seq<char>, Seq<char>)| base.contains(x) implies #[trigger] e2.contains(x) by {
        lemma_push_opt_contains(base, "PATH_INFO"@, opt_view(ctx.path_info), x);
        lemma_push_opt_contains(e1, "PATH_TRANSLATED"@, opt_view(ctx.path_translated), x);
    }
    assert(base[4] == ("SERVER_PROTOCOL"@, ctx.server_protocol@));
    assert(base[5] == ("SERVER_PORT"@, ascii_chars(dec(ctx.server_port as nat))));
    assert(base[6] == ("REQUEST_METHOD"@, ctx.request_method@));
    assert(base.contains(("SERVER_PROTOCOL"@, ctx.server_protocol@)));
    assert(base.contains(("SERVER_PORT"@, ascii_chars(dec(ctx.server_port as nat)))));
    assert(base.contains(("REQUEST_METHOD"@, ctx.request_method@)));
    assert(e2.contains(("SERVER_PROTOCOL"@, ctx.server_protocol@)));
    assert(e2.contains(("SERVER_PORT"@, ascii_chars(dec(ctx.server_port as nat)))));
    assert(e2.contains(("REQUEST_METHOD"@, ctx.request_method@)));
    assert(e4.contains(("SERVER_PROTOCOL"@, ctx.server_protocol@)));
    assert(e4.contains(("SERVER_PORT"@, ascii_chars(dec(ctx.server_port as nat)))));
    assert(e4.contains(("REQUEST_METHOD"@, ctx.request_method@)));
    if let Some(p) = ctx.path_info {
        lemma_pushed_contains(base, ("PATH_INFO"@, p@));
        lemma_push_opt_contains(e1, "PATH_TRANSLATED"@, opt_view(ctx.path_translated), ("PATH_INFO"@, p@));
        assert(e4.contains(("PATH_INFO"@, p@)));
    }
    if let Some(p) = ctx.path_translated {
        lemma_pushed_contains(e1, ("PATH_TRANSLATED"@, p@));
        assert(e4.contains(("PATH_TRANSLATED"@, p@)));
    }
    lemma_pushed_contains(e2, ("SCRIPT_NAME"@, script));
    if ctx.query_string@.len() > 0 {
        lemma_push_contains(e3, ("QUERY_STRING"@, ctx.query_string@), ("SCRIPT_NAME"@, script));
        lemma_pushed_contains(e3, ("QUERY_STRING"@, ctx.query_string@));
        assert(e4.contains(("QUERY_STRING"@, ctx.query_string@)));
    }
    assert(e4.contains(("SCRIPT_NAME"@, script)));
    lemma_pushed_contains(e4, ("REMOTE_ADDR"@, ctx.remote_addr@));
    lemma_push_opt_contains(e5, "AUTH_TYPE"@, opt_view(ctx.auth_type), ("REMOTE_ADDR"@, ctx.remote_addr@));
    lemma_push_opt_contains(e6, "REMOTE_USER"@, opt_view(ctx.remote_user), ("REMOTE_ADDR"@, ctx.remote_addr@));
    lemma_head_to_env(ctx, script, pattern, ("REMOTE_ADDR"@, ctx.remote_addr@));
    if let Some(a) = ctx.auth_type {
        lemma_pushed_contains(e5, ("AUTH_TYPE"@, a@));
        lemma_push_opt_contains(e6, "REMOTE_USER"@, opt_view(ctx.remote_user), ("AUTH_TYPE"@, a@));
        lemma_head_to_env(ctx, script, pattern, ("AUTH_TYPE"@, a@));
    }
    if let Some(u) = ctx.remote_user {
        lemma_pushed_contains(e6, ("REMOTE_USER"@, u@));
        lemma_head_to_env(ctx, script, pattern, ("REMOTE_USER"@, u@));
    }
    // The tail: content type, content length, pattern.
    let t9 = push_opt(Seq::empty(), "CONTENT_TYPE"@, opt_view(ctx.content_type));
    let t10 = match ctx.content_length {
        Some(n) => t9.push(("CONTENT_LENGTH"@, ascii_chars(dec_int(n as int)))),
        None => t9,
    };
    assert(tl == t10.push(("CGI_PATTERN"@, pattern)));
    lemma_pushed_contains(t10, ("CGI_PATTERN"@, pattern));
    lemma_concat_contains(h + hv, tl, ("CGI_PATTERN"@, pattern));
    if let Some(t) = ctx.content_type {
        assert(t9[0] == ("CONTENT_TYPE"@, t@));
        assert(t9.contains(("CONTENT_TYPE"@, t@)));
        if let Some(n) = ctx.content_length {
            lemma_push_contains(t9, ("CONTENT_LENGTH"@, ascii_chars(dec_int(n as int))), ("CONTENT_TYPE"@, t@));
        }
        lemma_push_contains(t10, ("CGI_PATTERN"@, pattern), ("CONTENT_TYPE"@, t@));
        lemma_concat_contains(h + hv, tl, ("CONTENT_TYPE"@, t@));
    }
    if ctx.query_string@.len() == 0 {
        lemma_no_query_name(ctx, script, pattern);
    }
}

/// Without a query string no variable is named `QUERY_STRING`: every
/// other variable's name starts with another letter.
proof fn lemma_no_query_name(ctx: CgiContext, script: Seq<char>, pattern: Seq<char>)
    requires
        ctx.query_string@.len() == 0,
    ensures
        lacks_name(cgi_env(ctx, script, pattern), "QUERY_STRING"@),
{
    reveal_strlit("QUERY_STRING");
    reveal_strlit("PATH");
    reveal_strlit("SERVER_SOFTWARE");
    reveal_strlit("SERVER_NAME");
    reveal_strlit("GATEWAY_INTERFACE");
    reveal_strlit("SERVER_PROTOCOL");
    reveal_strlit("SERVER_PORT");
    reveal_strlit("REQUEST_METHOD");
    reveal_strlit("PATH_INFO");
    reveal_strlit("PATH_TRANSLATED");
    reveal_strlit("SCRIPT_NAME");
    reveal_strlit("REMOTE_ADDR");
    reveal_strlit("AUTH_TYPE");
    reveal_strlit("REMOTE_USER");
    reveal_strlit("HTTP_REFERER");
    reveal_strlit("HTTP_USER_AGENT");
    reveal_strlit("HTTP_ACCEPT");
    reveal_strlit("HTTP_ACCEPT_ENCODING");
    reveal_strlit("HTTP_ACCEPT_LANGUAGE");
    reveal_strlit("HTTP_COOKIE");
    reveal_strlit("HTTP_HOST");
    reveal_strlit("CONTENT_TYPE");
    reveal_strlit("CONTENT_LENGTH");
    reveal_strlit("CGI_PATTERN");
    let env = cgi_env(ctx, script, pattern);
    assert forall|i: int| 0 <= i < env.len() implies (#[trigger] env[i]).0.len() > 0 && env[i].0[0] != 'Q' by {
    }
}

} // verus!
