//! HTTP request methods.

use vstd::prelude::*;
use crate::text::{sb, bytes_eq};

verus! {

/// HTTP request method.
#[derive(Debug, Clone, Copy, PartialEq, Eq, Structural)]
pub enum Method {
    Get,
    Head,
    Post,
    Unknown,
}

/// The method that a method name (as bytes) denotes.
pub open spec fn method_of(b: Seq<u8>) -> Method {
    if b == seq![71u8, 69u8, 84u8] {
        Method::Get
    } else if b == seq![72u8, 69u8, 65u8, 68u8] {
        Method::Head
    } else if b == seq![80u8, 79u8, 83u8, 84u8] {
        Method::Post
    } else {
        Method::Unknown
    }
}

/// The name of a method.
pub open spec fn method_name(m: Method) -> Seq<char> {
    match m {
        Method::Get => seq!['G', 'E', 'T'],
        Method::Head => seq!['H', 'E', 'A', 'D'],
        Method::Post => seq!['P', 'O', 'S', 'T'],
        Method::Unknown => seq!['U', 'N', 'K', 'N', 'O', 'W', 'N'],
    }
}

/// The method named by a byte string (exact, case-sensitive match).
pub fn method_from_bytes(b: &[u8]) -> (m: Method)
    ensures
        m == method_of(b@),
{
    let get: [u8; 3] = [71u8, 69u8, 84u8];
    let head: [u8; 4] = [72u8, 69u8, 65u8, 68u8];
    let post: [u8; 4] = [80u8, 79u8, 83u8, 84u8];
    assert(get@ =~= seq![71u8, 69u8, 84u8]);
    assert(head@ =~= seq![72u8, 69u8, 65u8, 68u8]);
    assert(post@ =~= seq![80u8, 79u8, 83u8, 84u8]);
    if bytes_eq(b, &get) {
        Method::Get
    } else if bytes_eq(b, &head) {
        Method::Head
    } else if bytes_eq(b, &post) {
        Method::Post
    } else {
        Method::Unknown
    }
}

impl Method {
    /// Parse a method from its string representation.
    pub fn parse(s: &str) -> (m: Method)
        ensures
            m == method_of(sb(s)),
    {
        method_from_bytes(s.as_bytes())
    }

    /// Returns the method as a string.
    pub fn as_str(&self) -> (r: &'static str)
        ensures
            r@ == method_name(*self),
    {
        match self {
            Method::Get => {
                proof { reveal_strlit("GET"); }
                "GET"
            },
            Method::Head => {
                proof { reveal_strlit("HEAD"); }
                "HEAD"
            },
            Method::Post => {
                proof { reveal_strlit("POST"); }
                "POST"
            },
            Method::Unknown => {
                proof { reveal_strlit("UNKNOWN"); }
                "UNKNOWN"
            },
        }
    }
}

/// Law: parsing a method's name gives the method back, and only the exact
/// (case-sensitive) names `GET`, `HEAD` and `POST` parse to a known method.
pub proof fn law_method_name_round_trip(m: Method, b: Seq<u8>)
    ensures
        method_of(method_name(m).map_values(|c: char| c as u8)) == m,
        method_of(b) != Method::Unknown <==> (b == seq![71u8, 69u8, 84u8] || b == seq![72u8, 69u8, 65u8, 68u8]
            || b == seq![80u8, 79u8, 83u8, 84u8]),
{
    let bytes = method_name(m).map_values(|c: char| c as u8);
    match m {
        Method::Get => assert(bytes =~= seq![71u8, 69u8, 84u8]),
        Method::Head => assert(bytes =~= seq![72u8, 69u8, 65u8, 68u8]),
        Method::Post => assert(bytes =~= seq![80u8, 79u8, 83u8, 84u8]),
        Method::Unknown => {
            assert(bytes.len() == 7);
        },
    }
}

} // verus!
