//! Byte and text primitives shared by the whole library: decimal numbers,
//! ASCII strings, UTF-8 conversions and small sequence helpers.

use vstd::prelude::*;
use vstd::string::*;
use vstd::utf8::*;

verus! {

broadcast use vstd::utf8::group_utf8_lib;

/// The characters that `String::from_utf8_lossy` gives for a byte sequence.
pub uninterp spec fn utf8_lossy(bytes: Seq<u8>) -> Seq<char>;

/// Reading of each byte as the character with the same number.
pub open spec fn ascii_chars(bytes: Seq<u8>) -> Seq<char> {
    Seq::new(bytes.len(), |i: int| bytes[i] as char)
}

/// Every byte is below 0x80.
pub open spec fn all_ascii(bytes: Seq<u8>) -> bool {
    forall|i: int| 0 <= i < bytes.len() ==> #[trigger] bytes[i] < 0x80
}

/// The UTF-8 bytes of a string slice.
pub open spec fn sb(s: &str) -> Seq<u8> {
    s.spec_bytes()
}

/// The UTF-8 bytes of an owned string.
pub open spec fn stb(s: String) -> Seq<u8> {
    encode_utf8(s@)
}

/// Calls `String::from_utf8_lossy`. Its documentation promises that valid
/// UTF-8 input comes back unchanged; on invalid input the result is only
/// named (`utf8_lossy`), nothing more is claimed of it.
#[verifier::external_body]
fn lossy_string(bytes: &[u8]) -> (s: String)
    ensures
        s@ == utf8_lossy(bytes@),
        valid_utf8(bytes@) ==> s@ == decode_utf8(bytes@),
{
    String::from_utf8_lossy(bytes).into_owned()
}

/// `String::from_utf8_lossy` of the bytes, as a string.
pub fn string_from_lossy(bytes: &[u8]) -> (s: String)
    ensures
        s@ == utf8_lossy(bytes@),
        valid_utf8(bytes@) ==> s@ == decode_utf8(bytes@),
        valid_utf8(bytes@) ==> stb(s) == bytes@,
{
    lossy_string(bytes)
}

/// Builds a string from bytes that are valid UTF-8.
pub fn string_from_utf8(bytes: &[u8]) -> (s: String)
    requires
        valid_utf8(bytes@),
    ensures
        s@ == decode_utf8(bytes@),
        stb(s) == bytes@,
{
    lossy_string(bytes)
}

pub proof fn lemma_ascii_encode(bytes: Seq<u8>)
    requires
        all_ascii(bytes),
    ensures
        is_ascii_chars(ascii_chars(bytes)),
        encode_utf8(ascii_chars(bytes)) == bytes,
        valid_utf8(bytes),
        decode_utf8(bytes) == ascii_chars(bytes),
{
    let c = ascii_chars(bytes);
    assert forall|i: int| 0 <= i < c.len() implies '\0' <= #[trigger] c[i] <= '\u{7f}' by {
        assert(bytes[i] < 0x80);
        assert((bytes[i] as char) as u32 == bytes[i] as u32);
    }
    is_ascii_chars_encode_utf8(c);
    assert forall|i: int| 0 <= i < bytes.len() implies #[trigger] encode_utf8(c)[i] == bytes[i] by {
        assert(c[i] as u8 == encode_utf8(c)[i]);
    }
    assert(encode_utf8(c) =~= bytes);
}

/// Builds a string from ASCII bytes.
pub fn ascii_string(bytes: &[u8]) -> (s: String)
    requires
        all_ascii(bytes@),
    ensures
        s@ == ascii_chars(bytes@),
        stb(s) == bytes@,
{
    proof { lemma_ascii_encode(bytes@); }
    lossy_string(bytes)
}

pub proof fn lemma_str_valid(s: &str)
    ensures
        valid_utf8(sb(s)),
        decode_utf8(sb(s)) == s@,
{
}

pub proof fn lemma_string_valid(s: String)
    ensures
        valid_utf8(stb(s)),
        decode_utf8(stb(s)) == s@,
{
}

/// The bytes of a string slice, in a vector.
pub fn str_to_vec(s: &str) -> (v: Vec<u8>)
    ensures
        v@ == sb(s),
{
    let b = s.as_bytes();
    let mut v: Vec<u8> = Vec::new();
    let mut i: usize = 0;
    while i < b.len()
        invariant
            i <= b@.len(),
            v@ == b@.subrange(0, i as int),
        decreases b@.len() - i,
    {
        v.push(b[i]);
        i += 1;
    }
    assert(v@ == b@);
    v
}

/// Appends a slice to a vector.
pub fn push_all(out: &mut Vec<u8>, b: &[u8])
    ensures
        final(out)@ == old(out)@ + b@,
{
    let mut i: usize = 0;
    while i < b.len()
        invariant
            i <= b@.len(),
            out@ == old(out)@ + b@.subrange(0, i as int),
        decreases b@.len() - i,
    {
        out.push(b[i]);
        i += 1;
    }
    assert(b@.subrange(0, b@.len() as int) == b@);
}

/// Appends the UTF-8 bytes of a string slice to a vector.
pub fn push_str(out: &mut Vec<u8>, s: &str)
    ensures
        final(out)@ == old(out)@ + sb(s),
{
    push_all(out, s.as_bytes());
}

/// A copy of a byte range of a slice.
pub fn slice_range(b: &[u8], lo: usize, hi: usize) -> (v: Vec<u8>)
    requires
        lo <= hi <= b@.len(),
    ensures
        v@ == b@.subrange(lo as int, hi as int),
{
    let mut v: Vec<u8> = Vec::new();
    let mut i: usize = lo;
    while i < hi
        invariant
            lo <= i <= hi <= b@.len(),
            v@ == b@.subrange(lo as int, i as int),
        decreases hi - i,
    {
        v.push(b[i]);
        i += 1;
    }
    v
}

// ---------------------------------------------------------------- decimals

/// `'0'..='9'`
pub open spec fn is_digit(b: u8) -> bool {
    48 <= b <= 57
}

pub open spec fn all_digits(b: Seq<u8>) -> bool {
    forall|i: int| 0 <= i < b.len() ==> is_digit(#[trigger] b[i])
}

/// The number that a run of decimal digits denotes.
pub open spec fn digits_value(b: Seq<u8>) -> nat
    decreases b.len(),
{
    if b.len() == 0 {
        0
    } else {
        digits_value(b.drop_last()) * 10 + (b.last() - 48) as nat
    }
}

/// What Rust's `str::parse` gives for an integer type with range `lo..=hi`:
/// an optional `+` (or `-` when `lo < 0`), then one or more decimal digits,
/// and a value within the range.
pub open spec fn parse_int_spec(b: Seq<u8>, lo: int, hi: int) -> Option<int> {
    let neg = b.len() > 0 && b[0] == 45u8 && lo < 0;
    let signed = b.len() > 0 && (b[0] == 43u8 || neg);
    let d = if signed { b.drop_first() } else { b };
    if d.len() == 0 || !all_digits(d) {
        None
    } else {
        let v: int = if neg { -digits_value(d) } else { digits_value(d) as int };
        if lo <= v <= hi { Some(v) } else { None }
    }
}

proof fn lemma_digits_value_step(b: Seq<u8>, i: int)
    requires
        0 <= i < b.len(),
    ensures
        digits_value(b.subrange(0, i + 1)) == digits_value(b.subrange(0, i)) * 10 + (b[i] - 48) as nat,
{
    assert(b.subrange(0, i + 1).drop_last() =~= b.subrange(0, i));
}

proof fn lemma_digits_value_mono(b: Seq<u8>, i: int)
    requires
        0 <= i <= b.len(),
        all_digits(b),
    ensures
        digits_value(b.subrange(0, i)) <= digits_value(b),
    decreases b.len() - i,
{
    if i < b.len() {
        lemma_digits_value_mono(b, i + 1);
        lemma_digits_value_step(b, i);
    } else {
        assert(b.subrange(0, i) =~= b);
    }
}

/// Parses an unsigned run of digits, `None` when a byte is not a digit,
/// the run is empty, or the value exceeds `u64::MAX`.
fn parse_digits(b: &[u8], lo: usize) -> (r: Option<u64>)
    requires
        lo <= b@.len(),
    ensures
        ({
            let d = b@.subrange(lo as int, b@.len() as int);
            match r {
                Some(v) => d.len() > 0 && all_digits(d) && v == digits_value(d),
                None => d.len() == 0 || !all_digits(d) || digits_value(d) > u64::MAX,
            }
        }),
{
    let ghost d = b@.subrange(lo as int, b@.len() as int);
    if lo == b.len() {
        return None;
    }
    let mut v: u64 = 0;
    let mut i: usize = lo;
    while i < b.len()
        invariant
            lo <= i <= b@.len(),
            d == b@.subrange(lo as int, b@.len() as int),
            all_digits(d.subrange(0, i - lo)),
            v == digits_value(d.subrange(0, i - lo)),
        decreases b@.len() - i,
    {
        let c = b[i];
        if c < 48 || c > 57 {
            assert(d[i - lo] == c);
            return None;
        }
        proof { lemma_digits_value_step(d, i - lo); }
        let dv = (c - 48) as u64;
        if v > (u64::MAX - dv) / 10 {
            proof {
                assert(all_digits(d.subrange(0, i - lo + 1)));
                if all_digits(d) {
                    lemma_digits_value_mono(d, i - lo + 1);
                }
                assert(v * 10 + dv > u64::MAX) by (nonlinear_arith)
                    requires v > (u64::MAX - dv) / 10, dv <= 9;
            }
            return None;
        }
        assert(v * 10 + dv <= u64::MAX) by (nonlinear_arith)
            requires v <= (u64::MAX - dv) / 10, dv <= 9;
        v = v * 10 + dv;
        i += 1;
        assert(all_digits(d.subrange(0, i - lo))) by {
            assert forall|k: int| 0 <= k < i - lo implies is_digit(#[trigger] d.subrange(0, i - lo)[k]) by {
                if k < i - lo - 1 {
                    assert(d.subrange(0, i - lo)[k] == d.subrange(0, i - lo - 1)[k]);
                }
            }
        }
    }
    assert(d.subrange(0, b@.len() - lo) =~= d);
    Some(v)
}

/// Rust's integer parsing (`str::parse`) for a type with range `lo..=hi`,
/// given as bytes.
pub fn parse_int(b: &[u8], lo: i128, hi: i128) -> (r: Option<i128>)
    requires
        -0x1_0000_0000_0000_0000 < lo <= 0 <= hi < 0x1_0000_0000_0000_0000,
    ensures
        r == (match parse_int_spec(b@, lo as int, hi as int) {
            Some(v) => Some(v as i128),
            None => None::<i128>,
        }),
{
    let neg = b.len() > 0 && b[0] == 45u8 && lo < 0;
    let signed = b.len() > 0 && (b[0] == 43u8 || neg);
    let start: usize = if signed { 1 } else { 0 };
    proof {
        if signed {
            assert(b@.subrange(1, b@.len() as int) =~= b@.drop_first());
        } else {
            assert(b@.subrange(0, b@.len() as int) =~= b@);
        }
    }
    match parse_digits(b, start) {
        None => None,
        Some(m) => {
            let v: i128 = if neg { -(m as i128) } else { m as i128 };
            if lo <= v && v <= hi {
                Some(v)
            } else {
                None
            }
        }
    }
}

pub open spec fn int_or_none<T>(r: Option<int>, f: spec_fn(int) -> T) -> Option<T> {
    match r {
        Some(v) => Some(f(v)),
        None => None,
    }
}

/// `s.parse::<u16>()`, as an option.
pub fn parse_u16(b: &[u8]) -> (r: Option<u16>)
    ensures
        r == int_or_none(parse_int_spec(b@, 0, u16::MAX as int), |v: int| v as u16),
{
    match parse_int(b, 0, 0xffff) {
        Some(v) => Some(v as u16),
        None => None,
    }
}

/// `s.parse::<u32>()`, as an option.
pub fn parse_u32(b: &[u8]) -> (r: Option<u32>)
    ensures
        r == int_or_none(parse_int_spec(b@, 0, u32::MAX as int), |v: int| v as u32),
{
    match parse_int(b, 0, 0xffff_ffff) {
        Some(v) => Some(v as u32),
        None => None,
    }
}

/// `s.parse::<i32>()`, as an option.
pub fn parse_i32(b: &[u8]) -> (r: Option<i32>)
    ensures
        r == int_or_none(parse_int_spec(b@, i32::MIN as int, i32::MAX as int), |v: int| v as i32),
{
    match parse_int(b, -0x8000_0000, 0x7fff_ffff) {
        Some(v) => Some(v as i32),
        None => None,
    }
}

/// `s.parse::<i64>()`, as an option.
pub fn parse_i64(b: &[u8]) -> (r: Option<i64>)
    ensures
        r == int_or_none(parse_int_spec(b@, i64::MIN as int, i64::MAX as int), |v: int| v as i64),
{
    match parse_int(b, -0x8000_0000_0000_0000, 0x7fff_ffff_ffff_ffff) {
        Some(v) => Some(v as i64),
        None => None,
    }
}

/// Decimal digits of a natural number, without leading zeros.
pub open spec fn dec(n: nat) -> Seq<u8>
    decreases n,
{
    if n < 10 {
        seq![(48 + n) as u8]
    } else {
        dec(n / 10).push((48 + n % 10) as u8)
    }
}

/// Decimal text of an integer, with a leading `-` when negative.
pub open spec fn dec_int(n: int) -> Seq<u8> {
    if n < 0 {
        seq![45u8] + dec((-n) as nat)
    } else {
        dec(n as nat)
    }
}

/// `n` copies of byte `c`.
pub open spec fn repeat_byte(c: u8, n: int) -> Seq<u8> {
    Seq::new(if n < 0 { 0 } else { n as nat }, |_i: int| c)
}

/// `format!("{:0w$}", n)`: decimal digits padded with zeros on the left.
pub open spec fn dec_zero_pad(n: nat, w: int) -> Seq<u8> {
    repeat_byte(48u8, w - dec(n).len()) + dec(n)
}

/// `format!("{:>w$}", s)`: right aligned in a field of spaces.
pub open spec fn pad_left(s: Seq<u8>, w: int) -> Seq<u8> {
    repeat_byte(32u8, w - s.len()) + s
}

pub proof fn lemma_dec_ascii(n: nat)
    ensures
        all_ascii(dec(n)),
        all_digits(dec(n)),
        dec(n).len() >= 1,
        digits_value(dec(n)) == n,
    decreases n,
{
    if n >= 10 {
        lemma_dec_ascii(n / 10);
        assert(dec(n).drop_last() =~= dec(n / 10));
        assert(n == (n / 10) * 10 + n % 10);
        assert(dec(n).last() == (48 + n % 10) as u8);
        assert((dec(n).last() - 48) as nat == n % 10);
    } else {
        assert(dec(n).drop_last() =~= Seq::<u8>::empty());
        assert(digits_value(Seq::<u8>::empty()) == 0);
        assert((dec(n).last() - 48) as nat == n);
    }
}

pub proof fn lemma_dec_len_bound(n: nat, k: nat)
    requires
        n < vstd::arithmetic::power::pow(10, k) ,
        k >= 1,
    ensures
        dec(n).len() <= k,
    decreases k,
{
    vstd::arithmetic::power::lemma_pow_positive(10, k);
    if n >= 10 {
        vstd::arithmetic::power::lemma_pow_positive(10, (k - 1) as nat);
        assert(vstd::arithmetic::power::pow(10, k) == 10 * vstd::arithmetic::power::pow(10, (k - 1) as nat)) by {
            vstd::arithmetic::power::lemma_pow_adds(10, 1, (k - 1) as nat);
            vstd::arithmetic::power::lemma_pow1(10);
        }
        assert(k >= 2) by {
            if k == 1 {
                vstd::arithmetic::power::lemma_pow1(10);
            }
        }
        lemma_dec_len_bound(n / 10, (k - 1) as nat);
    }
}

/// Appends the decimal digits of `n`.
pub fn push_dec(out: &mut Vec<u8>, n: u64)
    ensures
        final(out)@ == old(out)@ + dec(n as nat),
    decreases n,
{
    if n >= 10 {
        push_dec(out, n / 10);
    }
    out.push((48 + n % 10) as u8);
    proof {
        if n >= 10 {
            assert(final(out)@ =~= old(out)@ + dec(n as nat));
        } else {
            assert(final(out)@ =~= old(out)@ + dec(n as nat));
        }
    }
}

/// Appends the decimal text of a signed number.
pub fn push_dec_i64(out: &mut Vec<u8>, n: i64)
    ensures
        final(out)@ == old(out)@ + dec_int(n as int),
{
    if n < 0 {
        out.push(45u8);
        let m: u64 = if n == i64::MIN { 0x8000_0000_0000_0000u64 } else { (-n) as u64 };
        push_dec(out, m);
        assert(final(out)@ =~= old(out)@ + dec_int(n as int));
    } else {
        push_dec(out, n as u64);
    }
}

/// Appends `n` zero-padded to width `w`.
pub fn push_dec_pad0(out: &mut Vec<u8>, n: u64, w: usize)
    ensures
        final(out)@ == old(out)@ + dec_zero_pad(n as nat, w as int),
{
    let mut digits: Vec<u8> = Vec::new();
    push_dec(&mut digits, n);
    assert(digits@ =~= dec(n as nat));
    let mut k: usize = digits.len();
    let ghost start = out@;
    while k < w
        invariant
            digits.len() <= k,
            k <= w || k == digits.len(),
            out@ == start + repeat_byte(48u8, k - digits@.len()),
        decreases w - k,
    {
        out.push(48u8);
        k += 1;
        assert(out@ =~= start + repeat_byte(48u8, k - digits@.len()));
    }
    push_all(out, digits.as_slice());
    proof {
        assert(repeat_byte(48u8, k - digits@.len()) =~= repeat_byte(48u8, w - dec(n as nat).len()));
        assert(final(out)@ =~= old(out)@ + dec_zero_pad(n as nat, w as int));
    }
}

/// Appends `s` right aligned in a field of width `w`.
pub fn push_pad_left(out: &mut Vec<u8>, s: &[u8], w: usize)
    ensures
        final(out)@ == old(out)@ + pad_left(s@, w as int),
{
    let mut k: usize = s.len();
    let ghost start = out@;
    while k < w
        invariant
            s@.len() <= k,
            k <= w || k == s@.len(),
            out@ == start + repeat_byte(32u8, k - s@.len()),
        decreases w - k,
    {
        out.push(32u8);
        k += 1;
        assert(out@ =~= start + repeat_byte(32u8, k - s@.len()));
    }
    push_all(out, s);
    proof {
        assert(repeat_byte(32u8, k - s@.len()) =~= repeat_byte(32u8, w - s@.len()));
    }
}

// ---------------------------------------------------------------- sequences

/// Index of the first occurrence of `pat` in `b` at or after `from`.
pub open spec fn occurs_at(b: Seq<u8>, pat: Seq<u8>, i: int) -> bool {
    0 <= i && i + pat.len() <= b.len() && b.subrange(i, i + pat.len()) == pat
}

pub open spec fn is_first_occurrence(b: Seq<u8>, pat: Seq<u8>, i: int) -> bool {
    occurs_at(b, pat, i) && forall|j: int| 0 <= j < i ==> !occurs_at(b, pat, j)
}

pub open spec fn contains_seq(b: Seq<u8>, pat: Seq<u8>) -> bool {
    exists|i: int| occurs_at(b, pat, i)
}

/// Does `pat` occur at position `i` of `b`?
pub fn matches_at(b: &[u8], pat: &[u8], i: usize) -> (r: bool)
    ensures
        r == occurs_at(b@, pat@, i as int),
{
    if i > b.len() || pat.len() > b.len() - i {
        return false;
    }
    let mut k: usize = 0;
    while k < pat.len()
        invariant
            i + pat@.len() <= b@.len(),
            b@.len() == b.len(),
            pat@.len() == pat.len(),
            k <= pat@.len(),
            forall|j: int| 0 <= j < k ==> b@[i + j] == pat@[j],
        decreases pat@.len() - k,
    {
        if b[i + k] != pat[k] {
            assert(b@.subrange(i as int, i + pat@.len())[k as int] != pat@[k as int]);
            return false;
        }
        k += 1;
    }
    assert(b@.subrange(i as int, i + pat@.len()) =~= pat@);
    true
}

/// Position of the first occurrence of `pat` in `b`.
pub fn find_seq(b: &[u8], pat: &[u8]) -> (r: Option<usize>)
    ensures
        match r {
            Some(i) => is_first_occurrence(b@, pat@, i as int),
            None => !contains_seq(b@, pat@),
        },
{
    let mut i: usize = 0;
    loop
        invariant
            i <= b@.len(),
            forall|j: int| 0 <= j < i ==> !occurs_at(b@, pat@, j),
        ensures
            forall|j: int| 0 <= j <= b@.len() ==> !occurs_at(b@, pat@, j),
        decreases b@.len() - i,
    {
        if matches_at(b, pat, i) {
            return Some(i);
        }
        if i == b.len() {
            break;
        }
        i += 1;
    }
    None
}

/// Does the byte `c` occur in `b`?
pub fn contains_byte(b: &[u8], c: u8) -> (r: bool)
    ensures
        r == b@.contains(c),
{
    let mut i: usize = 0;
    while i < b.len()
        invariant
            i <= b@.len(),
            forall|j: int| 0 <= j < i ==> b@[j] != c,
        decreases b@.len() - i,
    {
        if b[i] == c {
            assert(b@[i as int] == c);
            return true;
        }
        i += 1;
    }
    false
}

/// Are two byte slices equal?
pub fn bytes_eq(a: &[u8], b: &[u8]) -> (r: bool)
    ensures
        r == (a@ == b@),
{
    if a.len() != b.len() {
        return false;
    }
    let mut i: usize = 0;
    while i < a.len()
        invariant
            a@.len() == b@.len(),
            i <= a@.len(),
            forall|j: int| 0 <= j < i ==> a@[j] == b@[j],
        decreases a@.len() - i,
    {
        if a[i] != b[i] {
            return false;
        }
        i += 1;
    }
    assert(a@ =~= b@);
    true
}

/// Does `b` start with `p`?
pub fn starts_with(b: &[u8], p: &[u8]) -> (r: bool)
    ensures
        r == (p@.len() <= b@.len() && b@.subrange(0, p@.len() as int) == p@),
{
    matches_at(b, p, 0)
}

/// ASCII lower-casing of a byte.
pub open spec fn lower(c: u8) -> u8 {
    if 65 <= c <= 90 { (c + 32) as u8 } else { c }
}

pub open spec fn lower_seq(b: Seq<u8>) -> Seq<u8> {
    Seq::new(b.len(), |i: int| lower(b[i]))
}

pub fn to_lower_byte(c: u8) -> (r: u8)
    ensures
        r == lower(c),
{
    if 65 <= c && c <= 90 { c + 32 } else { c }
}

/// ASCII lower-casing of a byte sequence (`to_ascii_lowercase`).
pub fn to_lower_vec(b: &[u8]) -> (r: Vec<u8>)
    ensures
        r@ == lower_seq(b@),
{
    let mut r: Vec<u8> = Vec::new();
    let mut i: usize = 0;
    while i < b.len()
        invariant
            i <= b@.len(),
            r@ == lower_seq(b@.subrange(0, i as int)),
        decreases b@.len() - i,
    {
        r.push(to_lower_byte(b[i]));
        i += 1;
        assert(r@ =~= lower_seq(b@.subrange(0, i as int)));
    }
    assert(b@.subrange(0, b@.len() as int) =~= b@);
    r
}

/// ASCII case-insensitive equality (`eq_ignore_ascii_case`).
pub fn eq_ignore_case(a: &[u8], b: &[u8]) -> (r: bool)
    ensures
        r == (lower_seq(a@) == lower_seq(b@)),
{
    let la = to_lower_vec(a);
    let lb = to_lower_vec(b);
    bytes_eq(la.as_slice(), lb.as_slice())
}

// ---------------------------------------------------------------- searching

/// Index of the first `c` in `b`, or -1.
pub open spec fn find_byte(b: Seq<u8>, c: u8) -> int
    decreases b.len(),
{
    if b.len() == 0 {
        -1
    } else if b[0] == c {
        0
    } else {
        let r = find_byte(b.drop_first(), c);
        if r < 0 { -1 } else { r + 1 }
    }
}

pub proof fn lemma_find_byte(b: Seq<u8>, c: u8)
    ensures
        -1 <= find_byte(b, c) < b.len(),
        find_byte(b, c) == -1 <==> !b.contains(c),
        find_byte(b, c) >= 0 ==> b[find_byte(b, c)] == c,
        forall|j: int| 0 <= j < find_byte(b, c) ==> b[j] != c,
    decreases b.len(),
{
    if b.len() > 0 && b[0] != c {
        lemma_find_byte(b.drop_first(), c);
        let r = find_byte(b.drop_first(), c);
        if r < 0 {
            assert forall|j: int| 0 <= j < b.len() implies b[j] != c by {
                if j > 0 {
                    assert(b[j] == b.drop_first()[j - 1]);
                }
            }
        } else {
            assert forall|j: int| 0 <= j < r + 1 implies b[j] != c by {
                if j > 0 {
                    assert(b[j] == b.drop_first()[j - 1]);
                }
            }
        }
        if b.contains(c) {
            let j = choose|j: int| 0 <= j < b.len() && b[j] == c;
            assert(b.drop_first()[j - 1] == c);
        }
    } else if b.len() > 0 {
        assert(b[0] == c);
    }
}

/// First index at or after `start` holding `c`, or `b.len()`.
pub fn find_byte_from(b: &[u8], c: u8, start: usize) -> (r: usize)
    requires
        start <= b@.len(),
    ensures
        start <= r <= b@.len(),
        r < b@.len() ==> b@[r as int] == c,
        forall|j: int| start <= j < r ==> b@[j] != c,
{
    let mut i = start;
    while i < b.len()
        invariant
            start <= i <= b@.len(),
            forall|j: int| start <= j < i ==> b@[j] != c,
        decreases b@.len() - i,
    {
        if b[i] == c {
            return i;
        }
        i += 1;
    }
    i
}

pub proof fn lemma_find_from(b: Seq<u8>, c: u8, start: int, r: int)
    requires
        0 <= start <= r <= b.len(),
        r < b.len() ==> b[r] == c,
        forall|j: int| start <= j < r ==> b[j] != c,
    ensures
        ({
            let s = b.subrange(start, b.len() as int);
            if r == b.len() {
                find_byte(s, c) == -1
            } else {
                find_byte(s, c) == r - start
            }
        }),
{
    let s = b.subrange(start, b.len() as int);
    lemma_find_byte(s, c);
    let k = find_byte(s, c);
    if r == b.len() {
        if s.contains(c) {
            let j = choose|j: int| 0 <= j < s.len() && s[j] == c;
            assert(b[start + j] == c);
        }
    } else {
        assert(s[r - start] == c);
        if k == -1 {
            assert(s.contains(c));
        } else if k < r - start {
            assert(b[start + k] == c);
        } else if k > r - start {
            assert(s[r - start] != c);
        }
    }
}


/// Splitting valid UTF-8 around an ASCII byte leaves valid UTF-8 on both sides.
pub proof fn lemma_ascii_split(b: Seq<u8>, i: int)
    requires
        valid_utf8(b),
        0 <= i < b.len(),
        b[i] < 0x80,
    ensures
        valid_utf8(b.subrange(0, i)),
        valid_utf8(b.subrange(i + 1, b.len() as int)),
{
    is_char_boundary_iff_is_leading_byte(b, i);
    valid_utf8_split(b, i);
    let c = b.subrange(i, b.len() as int);
    assert(c[0] == b[i]);
    assert(pop_first_scalar(c) =~= b.subrange(i + 1, b.len() as int));
}

// ---------------------------------------------------------------- byte maps

/// Each byte of `b` replaced by `f` of it.
pub open spec fn flat_map_bytes(b: Seq<u8>, f: spec_fn(u8) -> Seq<u8>) -> Seq<u8>
    decreases b.len(),
{
    if b.len() == 0 {
        Seq::empty()
    } else {
        flat_map_bytes(b.drop_last(), f) + f(b.last())
    }
}

/// `f` keeps non-ASCII bytes and maps ASCII bytes to ASCII text.
pub open spec fn ascii_escape(f: spec_fn(u8) -> Seq<u8>) -> bool {
    forall|c: u8| #![trigger f(c)] (c >= 0x80 ==> f(c) == seq![c]) && (c < 0x80 ==> all_ascii(f(c)))
}

pub proof fn lemma_flat_map_concat(a: Seq<u8>, b: Seq<u8>, f: spec_fn(u8) -> Seq<u8>)
    ensures
        flat_map_bytes(a + b, f) == flat_map_bytes(a, f) + flat_map_bytes(b, f),
    decreases b.len(),
{
    if b.len() == 0 {
        assert(a + b =~= a);
        assert(flat_map_bytes(a, f) + Seq::<u8>::empty() =~= flat_map_bytes(a, f));
    } else {
        lemma_flat_map_concat(a, b.drop_last(), f);
        assert((a + b).drop_last() =~= a + b.drop_last());
        assert((a + b).last() == b.last());
        assert(flat_map_bytes(a + b, f) =~= flat_map_bytes(a, f) + flat_map_bytes(b, f));
    }
}

proof fn lemma_flat_map_high(b: Seq<u8>, f: spec_fn(u8) -> Seq<u8>)
    requires
        ascii_escape(f),
        forall|i: int| 0 <= i < b.len() ==> #[trigger] b[i] >= 0x80,
    ensures
        flat_map_bytes(b, f) == b,
    decreases b.len(),
{
    if b.len() > 0 {
        lemma_flat_map_high(b.drop_last(), f);
        assert(b.last() >= 0x80);
        assert(f(b.last()) == seq![b.last()]);
        assert(b.drop_last().push(b.last()) =~= b);
    }
}

/// An ASCII escape of valid UTF-8 is valid UTF-8.
pub proof fn lemma_flat_map_valid(b: Seq<u8>, f: spec_fn(u8) -> Seq<u8>)
    requires
        ascii_escape(f),
        valid_utf8(b),
    ensures
        valid_utf8(flat_map_bytes(b, f)),
    decreases b.len(),
{
    if b.len() > 0 {
        let n = length_of_first_scalar(b);
        let head = b.subrange(0, n);
        let rest = b.subrange(n, b.len() as int);
        assert(rest == pop_first_scalar(b));
        assert(head + rest =~= b);
        lemma_flat_map_concat(head, rest, f);
        lemma_flat_map_valid(rest, f);
        if n == 1 {
            assert(head =~= seq![b[0]]);
            assert(head.drop_last() =~= Seq::<u8>::empty());
            assert(head.last() == b[0]);
            assert(flat_map_bytes(Seq::<u8>::empty(), f) == Seq::<u8>::empty());
            assert(Seq::<u8>::empty() + f(b[0]) =~= f(b[0]));
            assert(flat_map_bytes(head, f) == f(b[0]));
            lemma_ascii_encode(f(b[0]));
        } else {
            assert(is_char_boundary(b, n)) by {
                reveal_with_fuel(is_char_boundary, 2);
                is_char_boundary_start_end_of_seq(rest);
            }
            valid_utf8_split(b, n);
            assert forall|i: int| 0 <= i < head.len() implies #[trigger] head[i] >= 0x80 by {
                utf8_byte_ranges_bitwise(head[i]);
            }
            lemma_flat_map_high(head, f);
        }
        valid_utf8_concat(flat_map_bytes(head, f), flat_map_bytes(rest, f));
    }
}

/// Replaces every (non-overlapping, leftmost-first) occurrence of `pat` in
/// `h` by `rep`, as `str::replace` does.
pub open spec fn replace_all(h: Seq<u8>, pat: Seq<u8>, rep: Seq<u8>) -> Seq<u8>
    decreases h.len(),
{
    if h.len() == 0 {
        Seq::empty()
    } else if pat.len() > 0 && pat.len() <= h.len() && h.subrange(0, pat.len() as int) == pat {
        rep + replace_all(h.skip(pat.len() as int), pat, rep)
    } else {
        seq![h[0]] + replace_all(h.drop_first(), pat, rep)
    }
}

/// `str::replace` on bytes.
pub fn replace_all_exec(h: &[u8], pat: &[u8], rep: &[u8]) -> (r: Vec<u8>)
    requires
        pat@.len() > 0,
    ensures
        r@ == replace_all(h@, pat@, rep@),
{
    let mut out: Vec<u8> = Vec::new();
    let mut i: usize = 0;
    assert(h@.skip(0) =~= h@);
    while i < h.len()
        invariant
            i <= h@.len(),
            pat@.len() > 0,
            replace_all(h@, pat@, rep@) == out@ + replace_all(h@.skip(i as int), pat@, rep@),
        decreases h@.len() - i,
    {
        let ghost s = h@.skip(i as int);
        if matches_at(h, pat, i) {
            assert(s.subrange(0, pat@.len() as int) =~= h@.subrange(i as int, i + pat@.len()));
            assert(s.skip(pat@.len() as int) =~= h@.skip(i + pat@.len()));
            push_all(&mut out, rep);
            i += pat.len();
            assert(replace_all(h@, pat@, rep@) == out@ + replace_all(h@.skip(i as int), pat@, rep@));
        } else {
            proof {
                if pat@.len() <= s.len() && s.subrange(0, pat@.len() as int) == pat@ {
                    assert(s.subrange(0, pat@.len() as int) =~= h@.subrange(i as int, i + pat@.len()));
                }
            }
            assert(s[0] == h@[i as int]);
            out.push(h[i]);
            assert(s.drop_first() =~= h@.skip(i + 1));
            i += 1;
            assert(replace_all(h@, pat@, rep@) == out@ + replace_all(h@.skip(i as int), pat@, rep@));
        }
    }
    assert(replace_all(h@.skip(i as int), pat@, rep@) =~= Seq::<u8>::empty());
    assert(out@ + Seq::<u8>::empty() =~= out@);
    out
}

// ---------------------------------------------------------------- characters

/// Calls `String::push`, which appends one character to the string.
#[verifier::external_body]
pub(crate) fn push_char(s: &mut String, c: char)
    ensures
        final(s)@ == old(s)@.push(c),
{
    s.push(c);
}

/// The characters of a string slice, in a vector.
pub fn chars_of(s: &str) -> (v: Vec<char>)
    ensures
        v@ == s@,
{
    let mut v: Vec<char> = Vec::new();
    for c in it: s.chars()
        invariant
            it.seq() == s@,
            v@ == it.seq().take(it.index() as int),
    {
        v.push(c);
    }
    assert(v@ =~= s@);
    v
}

/// A string made of the characters `cs[lo..hi]`.
pub fn string_of_chars(cs: &[char], lo: usize, hi: usize) -> (s: String)
    requires
        lo <= hi <= cs@.len(),
    ensures
        s@ == cs@.subrange(lo as int, hi as int),
{
    let mut s = String::new();
    let mut i: usize = lo;
    while i < hi
        invariant
            lo <= i <= hi <= cs@.len(),
            s@ == cs@.subrange(lo as int, i as int),
        decreases hi - i,
    {
        push_char(&mut s, cs[i]);
        i += 1;
        assert(s@ =~= cs@.subrange(lo as int, i as int));
    }
    s
}

/// `char::is_whitespace`: the characters with the Unicode `White_Space`
/// property.
pub open spec fn is_ws(c: char) -> bool {
    let n = c as u32;
    ||| 9 <= n <= 13
    ||| n == 32
    ||| n == 0x85
    ||| n == 0xA0
    ||| n == 0x1680
    ||| 0x2000 <= n <= 0x200A
    ||| n == 0x2028
    ||| n == 0x2029
    ||| n == 0x202F
    ||| n == 0x205F
    ||| n == 0x3000
}

pub fn char_is_ws(c: char) -> (r: bool)
    ensures
        r == is_ws(c),
{
    let n = c as u32;
    (9 <= n && n <= 13) || n == 32 || n == 0x85 || n == 0xA0 || n == 0x1680 || (0x2000 <= n && n
        <= 0x200A) || n == 0x2028 || n == 0x2029 || n == 0x202F || n == 0x205F || n == 0x3000
}

/// First index at or after `k` of a whitespace character, or `s.len()`.
pub open spec fn next_ws(s: Seq<char>, k: int) -> int
    decreases s.len() - k,
{
    if k < 0 || k >= s.len() {
        s.len() as int
    } else if is_ws(s[k]) {
        k
    } else {
        next_ws(s, k + 1)
    }
}

/// First index at or after `k` of a character that is not whitespace, or
/// `s.len()`.
pub open spec fn next_non_ws(s: Seq<char>, k: int) -> int
    decreases s.len() - k,
{
    if k < 0 || k >= s.len() {
        s.len() as int
    } else if !is_ws(s[k]) {
        k
    } else {
        next_non_ws(s, k + 1)
    }
}

/// First index at or after `k` of the character `c`, or `s.len()`.
pub open spec fn next_char(s: Seq<char>, k: int, c: char) -> int
    decreases s.len() - k,
{
    if k < 0 || k >= s.len() {
        s.len() as int
    } else if s[k] == c {
        k
    } else {
        next_char(s, k + 1, c)
    }
}

/// First index at or after `k` of a character other than `c`, or `s.len()`.
pub open spec fn next_other(s: Seq<char>, k: int, c: char) -> int
    decreases s.len() - k,
{
    if k < 0 || k >= s.len() {
        s.len() as int
    } else if s[k] != c {
        k
    } else {
        next_other(s, k + 1, c)
    }
}

pub fn find_ws(cs: &[char], k: usize) -> (r: usize)
    requires
        k <= cs@.len(),
    ensures
        r == next_ws(cs@, k as int),
        k <= r <= cs@.len(),
{
    let mut i = k;
    while i < cs.len()
        invariant
            k <= i <= cs@.len(),
            next_ws(cs@, k as int) == next_ws(cs@, i as int),
        decreases cs@.len() - i,
    {
        if char_is_ws(cs[i]) {
            return i;
        }
        i += 1;
    }
    i
}

pub fn find_non_ws(cs: &[char], k: usize) -> (r: usize)
    requires
        k <= cs@.len(),
    ensures
        r == next_non_ws(cs@, k as int),
        k <= r <= cs@.len(),
{
    let mut i = k;
    while i < cs.len()
        invariant
            k <= i <= cs@.len(),
            next_non_ws(cs@, k as int) == next_non_ws(cs@, i as int),
        decreases cs@.len() - i,
    {
        if !char_is_ws(cs[i]) {
            return i;
        }
        i += 1;
    }
    i
}

pub fn find_char(cs: &[char], k: usize, c: char) -> (r: usize)
    requires
        k <= cs@.len(),
    ensures
        r == next_char(cs@, k as int, c),
        k <= r <= cs@.len(),
{
    let mut i = k;
    while i < cs.len()
        invariant
            k <= i <= cs@.len(),
            next_char(cs@, k as int, c) == next_char(cs@, i as int, c),
        decreases cs@.len() - i,
    {
        if cs[i] == c {
            return i;
        }
        i += 1;
    }
    i
}

pub fn find_other(cs: &[char], k: usize, c: char) -> (r: usize)
    requires
        k <= cs@.len(),
    ensures
        r == next_other(cs@, k as int, c),
        k <= r <= cs@.len(),
{
    let mut i = k;
    while i < cs.len()
        invariant
            k <= i <= cs@.len(),
            next_other(cs@, k as int, c) == next_other(cs@, i as int, c),
        decreases cs@.len() - i,
    {
        if cs[i] != c {
            return i;
        }
        i += 1;
    }
    i
}

/// A copy of `cs[lo..hi]`.
pub fn copy_chars(cs: &[char], lo: usize, hi: usize) -> (v: Vec<char>)
    requires
        lo <= hi <= cs@.len(),
    ensures
        v@ == cs@.subrange(lo as int, hi as int),
{
    let mut v: Vec<char> = Vec::new();
    let mut i: usize = lo;
    while i < hi
        invariant
            lo <= i <= hi <= cs@.len(),
            v@ == cs@.subrange(lo as int, i as int),
        decreases hi - i,
    {
        v.push(cs[i]);
        i += 1;
    }
    v
}

/// `s.parse::<i64>()` of the text made of the characters `cs[lo..hi]`.
pub fn parse_i64_chars(cs: &[char], lo: usize, hi: usize) -> (r: Option<i64>)
    requires
        lo <= hi <= cs@.len(),
    ensures
        r == int_or_none(
            parse_int_spec(encode_utf8(cs@.subrange(lo as int, hi as int)), i64::MIN as int, i64::MAX as int),
            |v: int| v as i64,
        ),
{
    let s = string_of_chars(cs, lo, hi);
    parse_i64(s.as_str().as_bytes())
}

pub proof fn lemma_ascii_concat(a: Seq<u8>, b: Seq<u8>)
    requires
        all_ascii(a),
        all_ascii(b),
    ensures
        all_ascii(a + b),
{
    assert forall|i: int| 0 <= i < (a + b).len() implies #[trigger] (a + b)[i] < 0x80 by {
        if i < a.len() {
            assert((a + b)[i] == a[i]);
        } else {
            assert((a + b)[i] == b[i - a.len()]);
        }
    }
}

pub proof fn lemma_zero_pad_ascii(n: nat, w: int)
    ensures
        all_ascii(dec_zero_pad(n, w)),
{
    lemma_dec_ascii(n);
    lemma_ascii_concat(repeat_byte(48u8, w - dec(n).len()), dec(n));
}

pub proof fn lemma_next_ws_bounds(s: Seq<char>, k: int)
    requires
        0 <= k <= s.len(),
    ensures
        k <= next_ws(s, k) <= s.len(),
        k < s.len() && !is_ws(s[k]) ==> next_ws(s, k) > k,
        next_ws(s, k) < s.len() ==> is_ws(s[next_ws(s, k)]),
    decreases s.len() - k,
{
    if k < s.len() {
        lemma_next_ws_bounds(s, k + 1);
    }
}

pub proof fn lemma_next_non_ws_bounds(s: Seq<char>, k: int)
    requires
        0 <= k <= s.len(),
    ensures
        k <= next_non_ws(s, k) <= s.len(),
        next_non_ws(s, k) < s.len() ==> !is_ws(s[next_non_ws(s, k)]),
    decreases s.len() - k,
{
    if k < s.len() {
        lemma_next_non_ws_bounds(s, k + 1);
    }
}

pub proof fn lemma_next_char_bounds(s: Seq<char>, k: int, c: char)
    requires
        0 <= k <= s.len(),
    ensures
        k <= next_char(s, k, c) <= s.len(),
        next_char(s, k, c) < s.len() ==> s[next_char(s, k, c)] == c,
    decreases s.len() - k,
{
    if k < s.len() {
        lemma_next_char_bounds(s, k + 1, c);
    }
}

/// End (exclusive) of the text before the trailing whitespace of `s[..k]`.
pub open spec fn end_non_ws(s: Seq<char>, k: int) -> int
    decreases k,
{
    if k <= 0 || k > s.len() {
        0
    } else if !is_ws(s[k - 1]) {
        k
    } else {
        end_non_ws(s, k - 1)
    }
}

/// `str::trim`: without leading and trailing whitespace.
pub open spec fn trim_ws(s: Seq<char>) -> Seq<char> {
    let a = next_non_ws(s, 0);
    if a >= s.len() {
        Seq::empty()
    } else {
        s.subrange(a, end_non_ws(s, s.len() as int))
    }
}

/// `str::split_whitespace` of `s[k..]`.
pub open spec fn words_from(s: Seq<char>, k: int) -> Seq<Seq<char>>
    decreases s.len() - k,
{
    if k < 0 || k > s.len() {
        Seq::empty()
    } else {
        let a = next_non_ws(s, k);
        if a >= s.len() {
            Seq::empty()
        } else {
            proof {
                lemma_next_non_ws_bounds(s, k);
                lemma_next_ws_bounds(s, a);
            }
            let b = next_ws(s, a);
            seq![s.subrange(a, b)] + words_from(s, b)
        }
    }
}

/// `str::split_whitespace`: the maximal runs of non-whitespace characters.
pub open spec fn words(s: Seq<char>) -> Seq<Seq<char>> {
    words_from(s, 0)
}

/// `str::split(c)` of `s[k..]`: the pieces between the separators, empty
/// ones included.
pub open spec fn split_from(s: Seq<char>, k: int, c: char) -> Seq<Seq<char>>
    decreases s.len() - k,
{
    if k < 0 || k > s.len() {
        Seq::empty()
    } else {
        proof {
            lemma_next_char_bounds(s, k, c);
        }
        let e = next_char(s, k, c);
        if e >= s.len() {
            seq![s.subrange(k, s.len() as int)]
        } else {
            seq![s.subrange(k, e)] + split_from(s, e + 1, c)
        }
    }
}

/// `str::split(c)`.
pub open spec fn split_on(s: Seq<char>, c: char) -> Seq<Seq<char>> {
    split_from(s, 0, c)
}

fn end_of_text(cs: &[char], k: usize) -> (r: usize)
    requires
        k <= cs@.len(),
    ensures
        r == end_non_ws(cs@, k as int),
        r <= k,
{
    let mut i = k;
    while i > 0
        invariant
            i <= k <= cs@.len(),
            end_non_ws(cs@, k as int) == end_non_ws(cs@, i as int),
        decreases i,
    {
        if !char_is_ws(cs[i - 1]) {
            return i;
        }
        i -= 1;
    }
    0
}

/// `str::trim` on characters.
pub fn trim_chars(cs: &[char]) -> (r: Vec<char>)
    ensures
        r@ == trim_ws(cs@),
{
    let a = find_non_ws(cs, 0);
    if a >= cs.len() {
        return Vec::new();
    }
    let b = end_of_text(cs, cs.len());
    proof {
        lemma_next_non_ws_bounds(cs@, 0);
        lemma_end_non_ws_ge(cs@, cs@.len() as int, a as int);
    }
    copy_chars(cs, a, b)
}

proof fn lemma_end_non_ws_ge(s: Seq<char>, k: int, a: int)
    requires
        0 <= a < k <= s.len(),
        !is_ws(s[a]),
    ensures
        a < end_non_ws(s, k) <= k,
    decreases k,
{
    if is_ws(s[k - 1]) {
        lemma_end_non_ws_ge(s, k - 1, a);
    }
}

/// `str::split_whitespace` on characters.
pub fn words_of(cs: &[char]) -> (r: Vec<Vec<char>>)
    ensures
        r@.len() == words(cs@).len(),
        forall|i: int| 0 <= i < r@.len() ==> #[trigger] r@[i]@ == words(cs@)[i],
{
    let mut out: Vec<Vec<char>> = Vec::new();
    let ghost mut done: Seq<Seq<char>> = Seq::empty();
    let mut k: usize = 0;
    loop
        invariant
            k <= cs@.len(),
            words(cs@) == done + words_from(cs@, k as int),
            out@.len() == done.len(),
            forall|i: int| 0 <= i < out@.len() ==> #[trigger] out@[i]@ == done[i],
        ensures
            words(cs@) == done,
            out@.len() == done.len(),
            forall|i: int| 0 <= i < out@.len() ==> #[trigger] out@[i]@ == done[i],
        decreases cs@.len() - k,
    {
        let a = find_non_ws(cs, k);
        if a >= cs.len() {
            assert(words_from(cs@, k as int) =~= Seq::<Seq<char>>::empty());
            assert(done + Seq::<Seq<char>>::empty() =~= done);
            break;
        }
        let b = find_ws(cs, a);
        proof {
            lemma_next_ws_bounds(cs@, a as int);
        }
        let w = copy_chars(cs, a, b);
        out.push(w);
        proof {
            assert(words_from(cs@, k as int) == seq![cs@.subrange(a as int, b as int)] + words_from(cs@, b as int));
            done = done.push(cs@.subrange(a as int, b as int));
            assert(words(cs@) =~= done + words_from(cs@, b as int));
        }
        k = b;
    }
    out
}

/// `str::split(c)` on characters.
pub fn split_chars(cs: &[char], c: char) -> (r: Vec<Vec<char>>)
    ensures
        r@.len() == split_on(cs@, c).len(),
        forall|i: int| 0 <= i < r@.len() ==> #[trigger] r@[i]@ == split_on(cs@, c)[i],
{
    let mut out: Vec<Vec<char>> = Vec::new();
    let ghost mut done: Seq<Seq<char>> = Seq::empty();
    let mut k: usize = 0;
    loop
        invariant_except_break
            split_on(cs@, c) == done + split_from(cs@, k as int, c),
        invariant
            k <= cs@.len(),
            out@.len() == done.len(),
            forall|i: int| 0 <= i < out@.len() ==> #[trigger] out@[i]@ == done[i],
        ensures
            split_on(cs@, c) == done,
            out@.len() == done.len(),
            forall|i: int| 0 <= i < out@.len() ==> #[trigger] out@[i]@ == done[i],
        decreases cs@.len() - k,
    {
        let e = find_char(cs, k, c);
        let piece = copy_chars(cs, k, e);
        out.push(piece);
        proof {
            done = done.push(cs@.subrange(k as int, e as int));
        }
        if e >= cs.len() {
            assert(split_from(cs@, k as int, c) == seq![cs@.subrange(k as int, cs@.len() as int)]);
            assert(split_on(cs@, c) =~= done);
            break;
        }
        assert(split_from(cs@, k as int, c) == seq![cs@.subrange(k as int, e as int)] + split_from(cs@, e + 1, c));
        assert(split_on(cs@, c) =~= done + split_from(cs@, e + 1, c));
        k = e + 1;
    }
    out
}

/// The integer that the text of `cs` denotes, as `str::parse` reads it for
/// a type with range `lo..=hi`.
pub open spec fn parse_chars_spec(cs: Seq<char>, lo: int, hi: int) -> Option<int> {
    parse_int_spec(encode_utf8(cs), lo, hi)
}

/// `str::parse` for an integer type with range `lo..=hi`, on characters.
pub fn parse_int_chars(cs: &[char], lo: i128, hi: i128) -> (r: Option<i128>)
    requires
        -0x1_0000_0000_0000_0000 < lo <= 0 <= hi < 0x1_0000_0000_0000_0000,
    ensures
        r == (match parse_chars_spec(cs@, lo as int, hi as int) {
            Some(v) => Some(v as i128),
            None => None::<i128>,
        }),
{
    let s = string_of_chars(cs, 0, cs.len());
    assert(cs@.subrange(0, cs@.len() as int) =~= cs@);
    parse_int(s.as_str().as_bytes(), lo, hi)
}

// ---------------------------------------------------------------- reading back

pub proof fn lemma_ascii_chars_concat(a: Seq<u8>, b: Seq<u8>)
    ensures
        ascii_chars(a + b) == ascii_chars(a) + ascii_chars(b),
{
    assert(ascii_chars(a + b) =~= ascii_chars(a) + ascii_chars(b));
}

/// A run with no whitespace in it.
pub open spec fn no_ws(s: Seq<char>) -> bool {
    forall|i: int| 0 <= i < s.len() ==> !is_ws(#[trigger] s[i])
}

proof fn lemma_next_ws_shift(p: Seq<char>, b: Seq<char>, k: int)
    requires
        0 <= k <= b.len(),
    ensures
        next_ws(p + b, p.len() + k) == p.len() + next_ws(b, k),
        next_non_ws(p + b, p.len() + k) == p.len() + next_non_ws(b, k),
    decreases b.len() - k,
{
    if k < b.len() {
        assert((p + b)[p.len() + k] == b[k]);
        lemma_next_ws_shift(p, b, k + 1);
    }
}

proof fn lemma_words_shift(p: Seq<char>, b: Seq<char>, k: int)
    requires
        0 <= k <= b.len(),
    ensures
        words_from(p + b, p.len() + k) == words_from(b, k),
    decreases b.len() - k,
{
    let s = p + b;
    lemma_next_ws_shift(p, b, k);
    let a = next_non_ws(b, k);
    lemma_next_non_ws_bounds(b, k);
    if a < b.len() {
        lemma_next_ws_bounds(b, a);
        lemma_next_ws_shift(p, b, a);
        let e = next_ws(b, a);
        assert(s.subrange(p.len() + a, p.len() + e) =~= b.subrange(a, e));
        lemma_words_shift(p, b, e);
    }
}

proof fn lemma_next_ws_run(s: Seq<char>, k: int, n: int)
    requires
        0 <= k,
        k + n <= s.len(),
        0 <= n,
        forall|i: int| k <= i < k + n ==> !is_ws(#[trigger] s[i]),
        k + n == s.len() || is_ws(s[k + n]),
    ensures
        next_ws(s, k) == k + n,
    decreases n,
{
    if n > 0 {
        lemma_next_ws_run(s, k + 1, n - 1);
    }
}

/// A word followed by a space and more text: the word comes first.
pub proof fn lemma_words_cons(a: Seq<char>, b: Seq<char>)
    requires
        a.len() > 0,
        no_ws(a),
    ensures
        words(a + seq![' '] + b) == seq![a] + words(b),
{
    let p = a + seq![' '];
    let s = p + b;
    assert(s[0] == a[0]);
    assert forall|i: int| 0 <= i < a.len() implies !is_ws(#[trigger] s[i]) by {
        assert(s[i] == a[i]);
    }
    assert(s[a.len() as int] == ' ');
    lemma_next_ws_run(s, 0, a.len() as int);
    assert(s.subrange(0, a.len() as int) =~= a);
    assert(is_ws(' '));
    assert(words_from(s, a.len() as int) == words_from(s, a.len() + 1int));
    lemma_words_shift(p, b, 0);
    assert(a + seq![' '] + b == s);
}

/// A single word.
pub proof fn lemma_words_single(a: Seq<char>)
    requires
        a.len() > 0,
        no_ws(a),
    ensures
        words(a) == seq![a],
{
    lemma_next_ws_run(a, 0, a.len() as int);
    assert(a.subrange(0, a.len() as int) =~= a);
    assert(words_from(a, a.len() as int) == Seq::<Seq<char>>::empty());
}

proof fn lemma_next_char_shift(p: Seq<char>, b: Seq<char>, k: int, c: char)
    requires
        0 <= k <= b.len(),
    ensures
        next_char(p + b, p.len() + k, c) == p.len() + next_char(b, k, c),
    decreases b.len() - k,
{
    if k < b.len() {
        assert((p + b)[p.len() + k] == b[k]);
        lemma_next_char_shift(p, b, k + 1, c);
    }
}

proof fn lemma_split_shift(p: Seq<char>, b: Seq<char>, k: int, c: char)
    requires
        0 <= k <= b.len(),
    ensures
        split_from(p + b, p.len() + k, c) == split_from(b, k, c),
    decreases b.len() - k,
{
    let s = p + b;
    lemma_next_char_shift(p, b, k, c);
    lemma_next_char_bounds(b, k, c);
    let e = next_char(b, k, c);
    if e < b.len() {
        assert(s.subrange(p.len() + k, p.len() + e) =~= b.subrange(k, e));
        lemma_split_shift(p, b, e + 1, c);
    } else {
        assert(s.subrange(p.len() + k, s.len() as int) =~= b.subrange(k, b.len() as int));
    }
}

proof fn lemma_next_char_run(s: Seq<char>, k: int, n: int, c: char)
    requires
        0 <= k,
        0 <= n,
        k + n <= s.len(),
        forall|i: int| k <= i < k + n ==> #[trigger] s[i] != c,
        k + n == s.len() || s[k + n] == c,
    ensures
        next_char(s, k, c) == k + n,
    decreases n,
{
    if n > 0 {
        lemma_next_char_run(s, k + 1, n - 1, c);
    }
}

/// A piece without the separator, then the separator and more text.
pub proof fn lemma_split_cons(a: Seq<char>, b: Seq<char>, c: char)
    requires
        !a.contains(c),
    ensures
        split_on(a + seq![c] + b, c) == seq![a] + split_on(b, c),
{
    let p = a + seq![c];
    let s = p + b;
    assert forall|i: int| 0 <= i < a.len() implies #[trigger] s[i] != c by {
        assert(s[i] == a[i]);
    }
    assert(s[a.len() as int] == c);
    lemma_next_char_run(s, 0, a.len() as int, c);
    assert(s.subrange(0, a.len() as int) =~= a);
    lemma_split_shift(p, b, 0, c);
    assert(a + seq![c] + b == s);
}

/// Characters before the first `c` from `k` on are not `c`.
pub proof fn lemma_next_char_first(s: Seq<char>, k: int, c: char)
    requires
        0 <= k <= s.len(),
    ensures
        forall|i: int| k <= i < next_char(s, k, c) ==> s[i] != c,
    decreases s.len() - k,
{
    if k < s.len() {
        lemma_next_char_first(s, k + 1, c);
    }
}

/// Splitting is never empty.
pub proof fn lemma_split_nonempty(s: Seq<char>, c: char)
    ensures
        split_on(s, c).len() >= 1,
{
    lemma_next_char_bounds(s, 0, c);
}

/// A separator and a last piece without it add that piece at the end.
pub proof fn lemma_split_snoc(x: Seq<char>, b: Seq<char>, c: char)
    requires
        !b.contains(c),
    ensures
        split_on(x + seq![c] + b, c) == split_on(x, c) + seq![b],
    decreases x.len(),
{
    if !x.contains(c) {
        lemma_split_cons(x, b, c);
        lemma_split_single(x, c);
        lemma_split_single(b, c);
    } else {
        lemma_next_char_bounds(x, 0, c);
        lemma_next_char_first(x, 0, c);
        let j = next_char(x, 0, c);
        if j >= x.len() {
            let i = choose|i: int| 0 <= i < x.len() && x[i] == c;
            assert(false);
        }
        let a = x.take(j);
        let y = x.skip(j + 1);
        assert(!a.contains(c));
        assert(x =~= a + seq![c] + y);
        assert(x + seq![c] + b =~= a + seq![c] + (y + seq![c] + b));
        lemma_split_cons(a, y + seq![c] + b, c);
        lemma_split_cons(a, y, c);
        lemma_split_snoc(y, b, c);
        assert(seq![a] + (split_on(y, c) + seq![b]) =~= (seq![a] + split_on(y, c)) + seq![b]);
    }
}

/// A piece without the separator.
pub proof fn lemma_split_single(a: Seq<char>, c: char)
    requires
        !a.contains(c),
    ensures
        split_on(a, c) == seq![a],
{
    lemma_next_char_run(a, 0, a.len() as int, c);
    assert(a.subrange(0, a.len() as int) =~= a);
}

proof fn lemma_digits_leading_zeros(z: Seq<u8>, d: Seq<u8>)
    requires
        forall|i: int| 0 <= i < z.len() ==> #[trigger] z[i] == 48u8,
    ensures
        digits_value(z + d) == digits_value(d),
    decreases d.len() + z.len(),
{
    if d.len() > 0 {
        assert((z + d).drop_last() =~= z + d.drop_last());
        lemma_digits_leading_zeros(z, d.drop_last());
    } else if z.len() > 0 {
        assert(z + d =~= z);
        assert(z.drop_last() + d =~= z.drop_last());
        lemma_digits_leading_zeros(z.drop_last(), d);
    } else {
        assert(z + d =~= d);
    }
}

/// Zero-padded decimal text reads back as the number.
pub proof fn lemma_parse_zero_pad(n: nat, w: int, lo: int, hi: int)
    requires
        lo <= 0,
        n <= hi,
    ensures
        parse_int_spec(dec_zero_pad(n, w), lo, hi) == Some(n as int),
        all_ascii(dec_zero_pad(n, w)),
        dec_zero_pad(n, w).len() > 0,
        all_digits(dec_zero_pad(n, w)),
{
    lemma_dec_ascii(n);
    let z = repeat_byte(48u8, w - dec(n).len());
    let t = dec_zero_pad(n, w);
    lemma_digits_leading_zeros(z, dec(n));
    assert forall|i: int| 0 <= i < t.len() implies is_digit(#[trigger] t[i]) by {
        if i >= z.len() {
            assert(t[i] == dec(n)[i - z.len()]);
        }
    }
    lemma_zero_pad_ascii(n, w);
}

/// Decimal text reads back as the number.
pub proof fn lemma_parse_dec(n: nat, lo: int, hi: int)
    requires
        lo <= 0,
        n <= hi,
    ensures
        parse_int_spec(dec(n), lo, hi) == Some(n as int),
{
    lemma_dec_ascii(n);
}

/// The bytes of an ASCII string are its characters, one byte each.
pub proof fn lemma_ascii_literal(s: &str)
    requires
        is_ascii_chars(s@),
    ensures
        sb(s).len() == s@.len(),
        forall|i: int| 0 <= i < s@.len() ==> #[trigger] sb(s)[i] == s@[i] as u8,
        ascii_chars(sb(s)) == s@,
        all_ascii(sb(s)),
{
    is_ascii_chars_encode_utf8(s@);
    assert forall|i: int| 0 <= i < s@.len() implies #[trigger] ascii_chars(sb(s))[i] == s@[i] by {
        assert(sb(s)[i] == s@[i] as u8);
        assert(s@[i] <= '\u{7f}');
        let ch = s@[i];
        assert((ch as u8) as char == ch);
    }
    assert(ascii_chars(sb(s)) =~= s@);
    assert forall|i: int| 0 <= i < sb(s).len() implies #[trigger] sb(s)[i] < 0x80 by {
        assert(s@[i] <= '\u{7f}');
    }
}


/// Whether the characters `cs` spell the string `lit`.
pub fn chars_equal(cs: &[char], lit: &str) -> (r: bool)
    ensures
        r == (cs@ == lit@),
{
    let l = chars_of(lit);
    if cs.len() != l.len() {
        return false;
    }
    let mut i: usize = 0;
    while i < cs.len()
        invariant
            cs@.len() == l@.len(),
            l@ == lit@,
            i <= cs@.len(),
            forall|j: int| 0 <= j < i ==> cs@[j] == l@[j],
        decreases cs@.len() - i,
    {
        if cs[i] != l[i] {
            return false;
        }
        i += 1;
    }
    assert(cs@ =~= lit@);
    true
}

/// ASCII lower-casing of one character.
pub open spec fn lower_char(c: char) -> char {
    if 'A' <= c <= 'Z' {
        ((c as u32) + 32) as char
    } else {
        c
    }
}

/// `str::to_ascii_lowercase` on characters.
pub open spec fn lower_chars(s: Seq<char>) -> Seq<char> {
    Seq::new(s.len(), |i: int| lower_char(s[i]))
}

/// `str::to_ascii_lowercase`, as characters.
pub fn lowercase_chars(s: &str) -> (r: Vec<char>)
    ensures
        r@ == lower_chars(s@),
{
    let cs = chars_of(s);
    let mut out: Vec<char> = Vec::new();
    let mut i: usize = 0;
    while i < cs.len()
        invariant
            i <= cs@.len(),
            cs@ == s@,
            out@ == lower_chars(cs@.take(i as int)),
        decreases cs@.len() - i,
    {
        let c = cs[i];
        let l = if 'A' <= c && c <= 'Z' { ((c as u32) + 32) as u8 as char } else { c };
        out.push(l);
        i += 1;
        assert(out@ =~= lower_chars(cs@.take(i as int)));
    }
    assert(cs@.take(i as int) =~= cs@);
    out
}

/// The names of a path's components as `Path::components` reads them: the
/// pieces between `/`s, repeated and trailing separators and `.` pieces
/// normalized away.
pub open spec fn path_pieces(p: Seq<char>) -> Seq<Seq<char>> {
    split_on(p, '/').filter(normal_piece())
}

/// A piece between `/`s that names a component: not empty and not `.`.
pub open spec fn normal_piece() -> spec_fn(Seq<char>) -> bool {
    |x: Seq<char>| x.len() > 0 && x != "."@
}

/// The pieces of a path that `path_pieces` names, in order.
pub fn path_components(cs: &[char]) -> (r: Vec<Vec<char>>)
    ensures
        r@.len() == path_pieces(cs@).len(),
        forall|i: int| 0 <= i < r@.len() ==> #[trigger] r@[i]@ == path_pieces(cs@)[i],
{
    let parts = split_chars(cs, '/');
    let ghost all = split_on(cs@, '/');
    let ghost keep = normal_piece();
    let mut out: Vec<Vec<char>> = Vec::new();
    let ghost mut g: Seq<Seq<char>> = Seq::empty();
    let mut i: usize = 0;
    while i < parts.len()
        invariant
            keep == normal_piece(),
            all == split_on(cs@, '/'),
            parts@.len() == all.len(),
            forall|k: int| 0 <= k < parts@.len() ==> #[trigger] parts@[k]@ == all[k],
            i <= parts@.len(),
            g == all.take(i as int).filter(keep),
            out@.len() == g.len(),
            forall|k: int| 0 <= k < out@.len() ==> #[trigger] out@[k]@ == g[k],
        decreases parts@.len() - i,
    {
        let piece = &parts[i];
        let dot = chars_equal(piece.as_slice(), ".");
        proof {
            reveal_strlit(".");
            reveal(Seq::filter);
            assert(piece@ == all[i as int]);
            assert(all.take(i + 1).drop_last() =~= all.take(i as int));
            assert(all.take(i + 1).last() == all[i as int]);
            assert(keep(all[i as int]) == (piece@.len() > 0 && !dot));
            assert(all.take(i + 1).filter(keep) == (if keep(all[i as int]) {
                all.take(i as int).filter(keep).push(all[i as int])
            } else {
                all.take(i as int).filter(keep)
            }));
        }
        if piece.len() > 0 && !dot {
            out.push(piece.clone());
            proof {
                g = g.push(all[i as int]);
            }
        }
        i += 1;
    }
    assert(all.take(parts@.len() as int) =~= all);
    assert(g == path_pieces(cs@));
    out
}

/// What `Path::file_name` gives for a path: its last component, or `None`
/// when there is none (the path ends in `..`, or is empty or the root).
pub open spec fn path_file_name(p: Seq<char>) -> Option<Seq<char>> {
    let k = path_pieces(p);
    if k.len() == 0 || k.last() == ".."@ {
        None
    } else {
        Some(k.last())
    }
}

/// Calls `Path::file_name` (and turns the name back into text, which is
/// lossless for a path made from a `&str`): the final component of the
/// path, `None` when it ends in `..` or has no normal component. The
/// contract restates the component rules that `std::path` documents
/// (repeated separators and `.` pieces are dropped).
#[verifier::external_body]
pub(crate) fn file_name_of(p: &str) -> (r: Option<String>)
    ensures
        r is Some <==> path_file_name(p@) is Some,
        r is Some ==> r.unwrap()@ == path_file_name(p@).unwrap(),
{
    std::path::Path::new(p).file_name().map(|n| n.to_string_lossy().into_owned())
}

/// Calls `std::str::from_utf8`, which succeeds exactly when the bytes are
/// valid UTF-8.
#[verifier::external_body]
pub(crate) fn check_utf8(b: &[u8]) -> (r: bool)
    ensures
        r == valid_utf8(b@),
{
    std::str::from_utf8(b).is_ok()
}

/// `str::trim_end` on characters.
pub fn trim_end_chars(cs: &[char]) -> (r: Vec<char>)
    ensures
        r@ == cs@.take(end_non_ws(cs@, cs@.len() as int)),
{
    let e = end_of_text(cs, cs.len());
    let r = copy_chars(cs, 0, e);
    assert(r@ =~= cs@.take(e as int));
    r
}

/// The decimal text of a number, as a string.
pub fn decimal_text(n: u64) -> (r: String)
    ensures
        r@ == ascii_chars(dec(n as nat)),
{
    let mut v: Vec<u8> = Vec::new();
    push_dec(&mut v, n);
    proof {
        lemma_dec_ascii(n as nat);
    }
    assert(v@ =~= dec(n as nat));
    ascii_string(v.as_slice())
}

/// A string made of three pieces.
pub fn concat3(a: &str, b: &str, c: &str) -> (r: String)
    ensures
        r@ == a@ + b@ + c@,
{
    let mut r = a.to_owned();
    r.append(b);
    r.append(c);
    r
}

/// The text of the `k`th line as `str::lines` gives it: a carriage return
/// before the newline is not part of it.
pub open spec fn raw_line(pieces: Seq<Seq<char>>, k: int) -> Seq<char> {
    let p = pieces[k];
    if k + 1 < pieces.len() && p.len() > 0 && p.last() == '\r' {
        p.drop_last()
    } else {
        p
    }
}

/// The lines of a text as `str::lines` gives them: split at each newline,
/// a carriage return before a newline dropped, no empty line after a final
/// newline.
pub open spec fn lines_of(s: Seq<char>) -> Seq<Seq<char>> {
    let p = split_on(s, '\n');
    let n = if p.len() > 0 && p.last().len() == 0 { p.len() - 1 } else { p.len() as int };
    Seq::new(n as nat, |k: int| raw_line(p, k))
}

/// The Unicode lower-case form of a text.
pub uninterp spec fn lowercase_of(s: Seq<char>) -> Seq<char>;

/// Calls `str::to_lowercase` (lower case by the Unicode `Lowercase`
/// property, which takes tables to state): its result is named, not stated.
#[verifier::external_body]
pub(crate) fn lowercase(s: &str) -> (r: String)
    ensures
        r@ == lowercase_of(s@),
{
    s.to_lowercase()
}

pub proof fn lemma_str_bytes(s: &str)
    ensures
        sb(s) == encode_utf8(s@),
{
    lemma_str_valid(s);
    vstd::utf8::decode_utf8_encode_utf8(sb(s));
}

/// Whether `a` starts with `p`.
pub fn chars_start_with(a: &[char], p: &[char]) -> (r: bool)
    ensures
        r == (p@.len() <= a@.len() && a@.take(p@.len() as int) == p@),
{
    if p.len() > a.len() {
        return false;
    }
    let mut i: usize = 0;
    while i < p.len()
        invariant
            i <= p@.len() <= a@.len(),
            a@.take(i as int) == p@.take(i as int),
        decreases p@.len() - i,
    {
        if a[i] != p[i] {
            assert(a@.take(p@.len() as int)[i as int] != p@[i as int]);
            return false;
        }
        assert(a@.take(i + 1) =~= a@.take(i as int).push(a@[i as int]));
        assert(p@.take(i + 1) =~= p@.take(i as int).push(p@[i as int]));
        i += 1;
    }
    assert(p@.take(p@.len() as int) =~= p@);
    true
}

/// The `k`th piece as a line: a carriage return before the newline
/// dropped.
pub fn line_string(pieces: &Vec<Vec<char>>, k: usize) -> (s: String)
    requires
        k < pieces@.len(),
    ensures
        s@ == raw_line(pieces@.map_values(|p: Vec<char>| p@), k as int),
{
    let ghost ps = pieces@.map_values(|p: Vec<char>| p@);
    let piece = &pieces[k];
    let n: usize = piece.len();
    let last = k == pieces.len() - 1;
    let text = if !last && n > 0 && piece[n - 1] == '\r' {
        string_of_chars(piece.as_slice(), 0, n - 1)
    } else {
        string_of_chars(piece.as_slice(), 0, n)
    };
    assert(ps[k as int] == piece@);
    assert(text@ =~= raw_line(ps, k as int));
    text
}

} // verus!
