//! Validation of the migration proxy's configuration: backend addresses
//! must be `host:port` authorities, some backend must carry weight, and
//! shadow mode must name two distinct, known backends. The listen
//! addresses are parsed as socket addresses by the caller, who hands over
//! the parse errors.

use vstd::prelude::*;
use vstd::string::*;
use crate::text::{chars_of, chars_equal, is_ws, char_is_ws};
use crate::migrate::{BackendConfig, RoutingConfig, RoutingMode, host_port, split_host_port};

verus! {

/// What parsing `text` as a `hyper::Uri` reports: `None` when it parses,
/// else the error's message.
pub uninterp spec fn uri_error(text: Seq<char>) -> Option<Seq<char>>;

pub open spec fn opt_text(o: Option<String>) -> Option<Seq<char>> {
    match o {
        Some(s) => Some(s@),
        None => None,
    }
}

/// Calls `str::parse::<hyper::Uri>` and keeps the error's message; the
/// outcome is named, the URI grammar not restated.
#[verifier::external_body]
fn uri_parse_error(text: &str) -> (r: Option<String>)
    ensures
        opt_text(r) == uri_error(text@),
{
    text.parse::<hyper::Uri>().err().map(|e| e.to_string())
}

/// A `://` in the text.
pub open spec fn has_scheme(a: Seq<char>) -> bool {
    exists|i: int| 0 <= i && i + 2 < a.len() && #[trigger] a[i] == ':' && a[i + 1] == '/' && a[i + 2] == '/'
}

/// A `/`, `?` or `#` in the text.
pub open spec fn has_path_part(a: Seq<char>) -> bool {
    exists|i: int| 0 <= i < a.len() && (#[trigger] a[i] == '/' || a[i] == '?' || a[i] == '#')
}

pub open spec fn has_ws(a: Seq<char>) -> bool {
    exists|i: int| 0 <= i < a.len() && is_ws(#[trigger] a[i])
}

pub open spec fn all_ascii_digits(a: Seq<char>) -> bool {
    forall|i: int| 0 <= i < a.len() ==> '0' <= #[trigger] a[i] <= '9'
}

/// The checks of a backend address that come before the URI probe; `None`
/// when all pass.
pub open spec fn address_shape_error(a: Seq<char>) -> Option<Seq<char>> {
    if a.len() == 0 {
        Some("address is empty"@)
    } else if has_scheme(a) {
        Some("remove the scheme; expected host:port, not a full URL"@)
    } else if has_path_part(a) {
        Some("remove the path/query/fragment; expected host:port"@)
    } else if has_ws(a) {
        Some("address must not contain whitespace"@)
    } else if host_port(a).0.len() == 0 {
        Some("address must include a host"@)
    } else {
        match host_port(a).1 {
            None => Some("address must include a port (e.g. 127.0.0.1:8081), got '"@ + a + "'"@),
            Some(p) => if p.len() == 0 || !all_ascii_digits(p) {
                Some("address port must be numeric, got '"@ + a + "'"@)
            } else {
                None
            },
        }
    }
}

/// The error of a backend address, if any: the shape checks, then whether
/// `http://{address}/` is a URI.
pub open spec fn address_error(a: Seq<char>) -> Option<Seq<char>> {
    match address_shape_error(a) {
        Some(e) => Some(e),
        None => match uri_error("http://"@ + a + "/"@) {
            Some(e) => Some("invalid host:port '"@ + a + "': "@ + e),
            None => None,
        },
    }
}

fn scan_scheme(cs: &Vec<char>) -> (r: bool)
    ensures
        r == has_scheme(cs@),
{
    let mut i: usize = 0;
    while i < cs.len() && cs.len() - i > 2
        invariant
            i <= cs@.len(),
            forall|j: int| 0 <= j < i && j + 2 < cs@.len() ==> !(#[trigger] cs@[j] == ':' && cs@[j + 1] == '/' && cs@[j + 2] == '/'),
        decreases cs@.len() - i,
    {
        if cs[i] == ':' && cs[i + 1] == '/' && cs[i + 2] == '/' {
            return true;
        }
        i += 1;
    }
    false
}

fn scan_path_part(cs: &Vec<char>) -> (r: bool)
    ensures
        r == has_path_part(cs@),
{
    let mut i: usize = 0;
    while i < cs.len()
        invariant
            i <= cs@.len(),
            forall|j: int| 0 <= j < i ==> !(cs@[j] == '/' || cs@[j] == '?' || cs@[j] == '#'),
        decreases cs@.len() - i,
    {
        if cs[i] == '/' || cs[i] == '?' || cs[i] == '#' {
            return true;
        }
        i += 1;
    }
    false
}

fn scan_ws(cs: &Vec<char>) -> (r: bool)
    ensures
        r == has_ws(cs@),
{
    let mut i: usize = 0;
    while i < cs.len()
        invariant
            i <= cs@.len(),
            forall|j: int| 0 <= j < i ==> !is_ws(cs@[j]),
        decreases cs@.len() - i,
    {
        if char_is_ws(cs[i]) {
            return true;
        }
        i += 1;
    }
    false
}

fn all_digits(cs: &Vec<char>) -> (r: bool)
    ensures
        r == all_ascii_digits(cs@),
{
    let mut i: usize = 0;
    while i < cs.len()
        invariant
            i <= cs@.len(),
            forall|j: int| 0 <= j < i ==> '0' <= #[trigger] cs@[j] <= '9',
        decreases cs@.len() - i,
    {
        if !('0' <= cs[i] && cs[i] <= '9') {
            return false;
        }
        i += 1;
    }
    true
}

fn quoted(prefix: &str, a: &str) -> (r: String)
    ensures
        r@ == prefix@ + a@ + "'"@,
{
    let mut m = prefix.to_owned();
    m.append(a);
    m.append("'");
    m
}

/// The shape checks of a backend address.
pub fn check_address_shape(address: &str) -> (r: Option<String>)
    ensures
        opt_text(r) == address_shape_error(address@),
{
    let cs = chars_of(address);
    if cs.len() == 0 {
        return Some("address is empty".to_owned());
    }
    if scan_scheme(&cs) {
        return Some("remove the scheme; expected host:port, not a full URL".to_owned());
    }
    if scan_path_part(&cs) {
        return Some("remove the path/query/fragment; expected host:port".to_owned());
    }
    if scan_ws(&cs) {
        return Some("address must not contain whitespace".to_owned());
    }
    let (host, port) = split_host_port(address);
    if host.as_str().unicode_len() == 0 {
        return Some("address must include a host".to_owned());
    }
    match port {
        None => Some(quoted("address must include a port (e.g. 127.0.0.1:8081), got '", address)),
        Some(p) => {
            let pc = chars_of(p.as_str());
            if pc.len() == 0 || !all_digits(&pc) {
                Some(quoted("address port must be numeric, got '", address))
            } else {
                None
            }
        },
    }
}

/// The error of a backend address once the URI probe has reported
/// (`uri_error` is the probe's error message, if any).
pub fn address_verdict(address: &str, shape: Option<String>, uri_error: Option<String>) -> (r: Option<String>)
    ensures
        opt_text(r) == match opt_text(shape) {
            Some(e) => Some(e),
            None => match opt_text(uri_error) {
                Some(e) => Some("invalid host:port '"@ + address@ + "': "@ + e),
                None => None,
            },
        },
{
    match shape {
        Some(e) => Some(e),
        None => match uri_error {
            Some(e) => {
                let mut m = "invalid host:port '".to_owned();
                m.append(address);
                m.append("': ");
                m.append(e.as_str());
                Some(m)
            },
            None => None,
        },
    }
}

/// Checks that a backend address is a `host:port` authority; the error
/// message says what is wrong.
pub fn validate_backend_address(address: &str) -> (r: Result<(), String>)
    ensures
        match address_error(address@) {
            Some(e) => r matches Err(m) && m@ == e,
            None => r is Ok,
        },
{
    let shape = check_address_shape(address);
    let uri = if shape.is_none() {
        let mut probe = "http://".to_owned();
        probe.append(address);
        probe.append("/");
        uri_parse_error(probe.as_str())
    } else {
        None
    };
    match address_verdict(address, shape, uri) {
        Some(m) => Err(m),
        None => Ok(()),
    }
}

pub open spec fn backend_names(bs: Seq<(String, BackendConfig)>) -> Seq<Seq<char>> {
    bs.map_values(|b: (String, BackendConfig)| b.0@)
}

/// The first backend whose address has an error, with that error.
pub open spec fn first_bad_address(bs: Seq<(String, BackendConfig)>) -> Option<(Seq<char>, Seq<char>)>
    decreases bs.len(),
{
    if bs.len() == 0 {
        None
    } else {
        match address_error(bs[0].1.address@) {
            Some(e) => Some((bs[0].0@, e)),
            None => first_bad_address(bs.drop_first()),
        }
    }
}

/// The shadow-mode errors of a routing configuration.
pub open spec fn shadow_error(bs: Seq<(String, BackendConfig)>, routing: RoutingConfig) -> Option<Seq<char>> {
    if routing.mode != RoutingMode::Shadow {
        None
    } else {
        match (routing.primary_backend, routing.shadow_backend) {
            (None, _) => Some("routing.mode = shadow requires routing.primary_backend"@),
            (_, None) => Some("routing.mode = shadow requires routing.shadow_backend"@),
            (Some(p), Some(s)) => if p@ == s@ {
                Some("routing.primary_backend and routing.shadow_backend must differ"@)
            } else if !backend_names(bs).contains(p@) {
                Some("routing.primary_backend names an unknown backend"@)
            } else if !backend_names(bs).contains(s@) {
                Some("routing.shadow_backend names an unknown backend"@)
            } else {
                None
            },
        }
    }
}

/// What validation reports, in the order the checks are made: no backend;
/// a backend address; no weight; shadow mode; the listen address; the
/// metrics listen address (the last two as parse errors from the caller).
pub open spec fn config_error(bs: Seq<(String, BackendConfig)>, routing: RoutingConfig, listen: Option<Seq<char>>, metrics: Option<Seq<char>>) -> Option<Seq<char>> {
    if bs.len() == 0 {
        Some("at least one backend required"@)
    } else if first_bad_address(bs) is Some {
        let (name, e) = first_bad_address(bs).unwrap();
        Some("backends."@ + name + ".address must be host:port (e.g. 127.0.0.1:8081): "@ + e)
    } else if !(exists|i: int| 0 <= i < bs.len() && #[trigger] bs[i].1.weight > 0) {
        Some("at least one backend must have weight > 0"@)
    } else if shadow_error(bs, routing) is Some {
        shadow_error(bs, routing)
    } else if listen is Some {
        Some("listen must be host:port, e.g. 127.0.0.1:8080: "@ + listen.unwrap())
    } else if metrics is Some {
        Some("metrics.listen must be host:port, e.g. 127.0.0.1:9100: "@ + metrics.unwrap())
    } else {
        None
    }
}

fn has_backend(bs: &[(String, BackendConfig)], name: &String) -> (r: bool)
    ensures
        r == backend_names(bs@).contains(name@),
{
    let mut i: usize = 0;
    while i < bs.len()
        invariant
            i <= bs@.len(),
            forall|j: int| 0 <= j < i ==> backend_names(bs@)[j] != name@,
        decreases bs@.len() - i,
    {
        let cs = chars_of(bs[i].0.as_str());
        if chars_equal(cs.as_slice(), name.as_str()) {
            assert(backend_names(bs@)[i as int] == name@);
            return true;
        }
        i += 1;
    }
    proof {
        if backend_names(bs@).contains(name@) {
            let k = choose|k: int| 0 <= k < backend_names(bs@).len() && backend_names(bs@)[k] == name@;
            assert(k < i);
        }
    }
    false
}

fn check_shadow(bs: &[(String, BackendConfig)], routing: &RoutingConfig) -> (r: Option<String>)
    ensures
        opt_text(r) == shadow_error(bs@, *routing),
{
    if routing.mode != RoutingMode::Shadow {
        return None;
    }
    let p = match &routing.primary_backend {
        Some(p) => p,
        None => {
            return Some("routing.mode = shadow requires routing.primary_backend".to_owned());
        },
    };
    let s = match &routing.shadow_backend {
        Some(s) => s,
        None => {
            return Some("routing.mode = shadow requires routing.shadow_backend".to_owned());
        },
    };
    let pc = chars_of(p.as_str());
    if chars_equal(pc.as_slice(), s.as_str()) {
        return Some("routing.primary_backend and routing.shadow_backend must differ".to_owned());
    }
    if !has_backend(bs, p) {
        return Some("routing.primary_backend names an unknown backend".to_owned());
    }
    if !has_backend(bs, s) {
        return Some("routing.shadow_backend names an unknown backend".to_owned());
    }
    None
}

/// Validates a proxy configuration: `backends` are the configured backends
/// (name and settings, in the order they are checked), `listen_error` and
/// `metrics_listen_error` the errors of parsing the two listen addresses as
/// socket addresses, if any.
pub fn validate(
    backends: &[(String, BackendConfig)],
    routing: &RoutingConfig,
    listen_error: Option<String>,
    metrics_listen_error: Option<String>,
) -> (r: Result<(), String>)
    ensures
        match config_error(backends@, *routing, opt_text(listen_error), opt_text(metrics_listen_error)) {
            Some(e) => r matches Err(m) && m@ == e,
            None => r is Ok,
        },
{
    if backends.len() == 0 {
        return Err("at least one backend required".to_owned());
    }
    let mut k: usize = 0;
    assert(backends@.skip(0) =~= backends@);
    while k < backends.len()
        invariant
            k <= backends@.len(),
            first_bad_address(backends@) == first_bad_address(backends@.skip(k as int)),
        decreases backends@.len() - k,
    {
        assert(backends@.skip(k as int)[0] == backends@[k as int]);
        assert(backends@.skip(k as int).drop_first() =~= backends@.skip(k + 1));
        match validate_backend_address(backends[k].1.address.as_str()) {
            Err(e) => {
                let mut m = "backends.".to_owned();
                m.append(backends[k].0.as_str());
                m.append(".address must be host:port (e.g. 127.0.0.1:8081): ");
                m.append(e.as_str());
                return Err(m);
            },
            Ok(()) => {},
        }
        k += 1;
    }
    assert(backends@.skip(k as int) =~= Seq::<(String, BackendConfig)>::empty());
    let mut any = false;
    let mut w: usize = 0;
    while w < backends.len()
        invariant
            w <= backends@.len(),
            any == exists|j: int| 0 <= j < w && #[trigger] backends@[j].1.weight > 0,
        decreases backends@.len() - w,
    {
        if backends[w].1.weight > 0 {
            any = true;
        }
        w += 1;
    }
    if !any {
        return Err("at least one backend must have weight > 0".to_owned());
    }
    match check_shadow(backends, routing) {
        Some(e) => {
            return Err(e);
        },
        None => {},
    }
    match listen_error {
        Some(e) => {
            let mut m = "listen must be host:port, e.g. 127.0.0.1:8080: ".to_owned();
            m.append(e.as_str());
            return Err(m);
        },
        None => {},
    }
    match metrics_listen_error {
        Some(e) => {
            let mut m = "metrics.listen must be host:port, e.g. 127.0.0.1:9100: ".to_owned();
            m.append(e.as_str());
            Err(m)
        },
        None => Ok(()),
    }
}

} // verus!
