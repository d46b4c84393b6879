//! URL utilities: percent-decoding and path normalization.

use vstd::prelude::*;
use vstd::utf8::*;
use crate::text::{
    sb, stb, utf8_lossy, string_from_lossy, string_from_utf8, find_byte, lemma_find_byte,
    find_byte_from, lemma_find_from, lemma_ascii_split, find_seq, contains_seq, occurs_at,
    push_all, lemma_str_valid,
};

verus! {

/// An ASCII hex digit.
pub open spec fn is_hex(b: u8) -> bool {
    (48 <= b <= 57) || (97 <= b <= 102) || (65 <= b <= 70)
}

/// The value of an ASCII hex digit.
pub open spec fn hex_val(b: u8) -> u8 {
    if 48 <= b <= 57 {
        (b - 48) as u8
    } else if 97 <= b <= 102 {
        (b - 97 + 10) as u8
    } else {
        (b - 65 + 10) as u8
    }
}

/// Percent-decoding of bytes: `%XX` with two hex digits becomes that byte,
/// `+` becomes a space, every other byte (a stray `%` included) is kept.
pub open spec fn pdecode(b: Seq<u8>) -> Seq<u8>
    decreases b.len(),
{
    if b.len() == 0 {
        Seq::empty()
    } else if b[0] == 37u8 && b.len() > 2 && is_hex(b[1]) && is_hex(b[2]) {
        seq![(hex_val(b[1]) * 16 + hex_val(b[2])) as u8] + pdecode(b.skip(3))
    } else if b[0] == 43u8 {
        seq![32u8] + pdecode(b.drop_first())
    } else {
        seq![b[0]] + pdecode(b.drop_first())
    }
}

/// Decode a single ASCII hex nibble to its 0..=15 value, or `None` if not hex.
pub fn from_hex(b: u8) -> (r: Option<u8>)
    ensures
        r == (if is_hex(b) { Some(hex_val(b)) } else { None::<u8> }),
{
    if 48 <= b && b <= 57 {
        Some(b - 48)
    } else if 97 <= b && b <= 102 {
        Some(b - 97 + 10)
    } else if 65 <= b && b <= 70 {
        Some(b - 65 + 10)
    } else {
        None
    }
}

/// Percent-decode a byte string (see [`pdecode`]).
pub fn percent_decode_bytes(bytes: &[u8]) -> (r: Vec<u8>)
    ensures
        r@ == pdecode(bytes@),
{
    let mut result: Vec<u8> = Vec::new();
    let mut i: usize = 0;
    assert(bytes@.skip(0) =~= bytes@);
    while i < bytes.len()
        invariant
            i <= bytes@.len(),
            pdecode(bytes@) == result@ + pdecode(bytes@.skip(i as int)),
        decreases bytes@.len() - i,
    {
        let ghost s = bytes@.skip(i as int);
        let c = bytes[i];
        assert(s[0] == c);
        if c == 37u8 && bytes.len() - i > 2 {
            let hi = from_hex(bytes[i + 1]);
            let lo = from_hex(bytes[i + 2]);
            assert(s[1] == bytes@[i + 1] && s[2] == bytes@[i + 2]);
            if hi.is_some() && lo.is_some() {
                let h = hi.unwrap();
                let l = lo.unwrap();
                result.push(h * 16 + l);
                assert(s.skip(3) =~= bytes@.skip(i + 3));
                i += 3;
                assert(pdecode(bytes@) == result@ + pdecode(bytes@.skip(i as int)));
            } else {
                result.push(c);
                assert(s.drop_first() =~= bytes@.skip(i + 1));
                i += 1;
                assert(pdecode(bytes@) == result@ + pdecode(bytes@.skip(i as int)));
            }
        } else if c == 43u8 {
            result.push(32u8);
            assert(s.drop_first() =~= bytes@.skip(i + 1));
            i += 1;
            assert(pdecode(bytes@) == result@ + pdecode(bytes@.skip(i as int)));
        } else {
            result.push(c);
            assert(s.drop_first() =~= bytes@.skip(i + 1));
            i += 1;
            assert(pdecode(bytes@) == result@ + pdecode(bytes@.skip(i as int)));
        }
    }
    assert(pdecode(bytes@.skip(i as int)) =~= Seq::<u8>::empty());
    assert(result@ + Seq::<u8>::empty() =~= result@);
    result
}

/// Percent-decode a URL-encoded string. Malformed escapes are kept literally,
/// `+` becomes a space, and the decoded bytes are read as UTF-8 with
/// `String::from_utf8_lossy`.
pub fn percent_decode(input: &str) -> (s: String)
    ensures
        s@ == utf8_lossy(pdecode(sb(input))),
        valid_utf8(pdecode(sb(input))) ==> stb(s) == pdecode(sb(input)),
{
    let r = percent_decode_bytes(input.as_bytes());
    string_from_lossy(r.as_slice())
}

// ---------------------------------------------------------------- paths

/// Pieces of `b` between occurrences of `c` (as `str::split` gives them).
pub open spec fn split_parts(b: Seq<u8>, c: u8) -> Seq<Seq<u8>>
    decreases b.len(),
{
    let i = find_byte(b, c);
    if i < 0 || i >= b.len() {
        seq![b]
    } else {
        seq![b.subrange(0, i)] + split_parts(b.subrange(i + 1, b.len() as int), c)
    }
}

/// `.` as bytes.
pub open spec fn dot() -> Seq<u8> {
    seq![46u8]
}

/// `..` as bytes.
pub open spec fn dotdot() -> Seq<u8> {
    seq![46u8, 46u8]
}

/// One step of path resolution: skip empty and `.`, pop on `..` (failing
/// at the root), push anything else.
pub open spec fn resolve_step(st: Option<Seq<Seq<u8>>>, x: Seq<u8>) -> Option<Seq<Seq<u8>>> {
    match st {
        None => None,
        Some(s) => if x.len() == 0 || x == dot() {
            Some(s)
        } else if x == dotdot() {
            if s.len() == 0 { None } else { Some(s.drop_last()) }
        } else {
            Some(s.push(x))
        },
    }
}

/// Resolution of a list of path components, left to right.
pub open spec fn resolve(parts: Seq<Seq<u8>>) -> Option<Seq<Seq<u8>>>
    decreases parts.len(),
{
    if parts.len() == 0 {
        Some(Seq::empty())
    } else {
        resolve_step(resolve(parts.drop_last()), parts.last())
    }
}

/// `/c1/c2/.../cn`.
pub open spec fn slash_join(st: Seq<Seq<u8>>) -> Seq<u8>
    decreases st.len(),
{
    if st.len() == 0 {
        Seq::empty()
    } else {
        slash_join(st.drop_last()) + seq![47u8] + st.last()
    }
}

/// What `normalize_path` gives for the bytes of a path.
pub open spec fn normalize_spec(b: Seq<u8>) -> Option<Seq<u8>> {
    if contains_seq(b, seq![47u8, 47u8]) {
        None
    } else {
        match resolve(split_parts(b, 47u8)) {
            None => None,
            Some(st) => Some(if st.len() == 0 { seq![47u8] } else { slash_join(st) }),
        }
    }
}

proof fn lemma_resolve_push(parts: Seq<Seq<u8>>, x: Seq<u8>)
    ensures
        resolve(parts.push(x)) == resolve_step(resolve(parts), x),
{
    assert(parts.push(x).drop_last() =~= parts);
}

proof fn lemma_resolve_none_extends(a: Seq<Seq<u8>>, b: Seq<Seq<u8>>)
    requires
        resolve(a) is None,
    ensures
        resolve(a + b) is None,
    decreases b.len(),
{
    if b.len() == 0 {
        assert(a + b =~= a);
    } else {
        lemma_resolve_none_extends(a, b.drop_last());
        assert((a + b).drop_last() =~= a + b.drop_last());
    }
}

/// A byte range of `b` holding valid UTF-8.
pub open spec fn good_range(b: Seq<u8>, r: (usize, usize)) -> bool {
    r.0 <= r.1 <= b.len() && valid_utf8(b.subrange(r.0 as int, r.1 as int))
}

/// Ghost view of a stack of byte ranges of `b`.
pub open spec fn ranges_view(b: Seq<u8>, rs: Seq<(usize, usize)>) -> Seq<Seq<u8>> {
    Seq::new(rs.len(), |i: int| b.subrange(rs[i].0 as int, rs[i].1 as int))
}

/// Normalize a URL path: resolve `.` and `..` components, reject traversal
/// above root and paths containing `//`. Returns `None` when rejected.
pub fn normalize_path(path: &str) -> (r: Option<String>)
    ensures
        match r {
            None => normalize_spec(sb(path)) is None,
            Some(s) => normalize_spec(sb(path)) == Some(stb(s)),
        },
{
    let b = path.as_bytes();
    let ghost bl = b@.len() as int;
    let dbl: [u8; 2] = [47u8, 47u8];
    assert(dbl@ =~= seq![47u8, 47u8]);
    if find_seq(b, &dbl).is_some() {
        return None;
    }
    proof { lemma_str_valid(path); }
    let mut stack: Vec<(usize, usize)> = Vec::new();
    let mut start: usize = 0;
    let ghost mut done: Seq<Seq<u8>> = Seq::empty();
    assert(b@.subrange(0, bl) =~= b@);
    loop
        invariant_except_break
            valid_utf8(b@.subrange(start as int, bl)),
            split_parts(b@, 47u8) == done + split_parts(b@.subrange(start as int, bl), 47u8),
        invariant
            start <= b@.len(),
            bl == b@.len(),
            b@ == sb(path),
            resolve(done) == Some(ranges_view(b@, stack@)),
            forall|k: int| 0 <= k < stack@.len() ==> good_range(b@, #[trigger] stack@[k]),
            !contains_seq(b@, seq![47u8, 47u8]),
        ensures
            split_parts(b@, 47u8) == done,
        decreases bl - start,
    {
        let ghost s = b@.subrange(start as int, bl);
        let idx = find_byte_from(b, 47u8, start);
        proof {
            lemma_find_from(b@, 47u8, start as int, idx as int);
            assert(s.subrange(0, idx - start) =~= b@.subrange(start as int, idx as int));
            if idx < b.len() {
                assert(s.subrange(idx - start + 1, s.len() as int) =~= b@.subrange(idx + 1, bl));
                lemma_ascii_split(s, idx - start);
            } else {
                assert(s =~= b@.subrange(start as int, idx as int));
            }
        }
        let ghost piece = b@.subrange(start as int, idx as int);
        assert(valid_utf8(piece));
        let ghost rest_parts = if idx < b.len() {
            split_parts(b@.subrange(idx + 1, bl), 47u8)
        } else {
            Seq::<Seq<u8>>::empty()
        };
        assert(split_parts(s, 47u8) =~= seq![piece] + rest_parts);
        let ghost old_view = ranges_view(b@, stack@);
        let len = idx - start;
        let is_dot = len == 1 && b[start] == 46u8;
        let is_dotdot = len == 2 && b[start] == 46u8 && b[start + 1] == 46u8;
        proof {
            lemma_resolve_push(done, piece);
            if len == 1 {
                assert(is_dot == (piece == dot())) by {
                    if piece == dot() {
                        assert(piece[0] == 46u8);
                    }
                    if is_dot {
                        assert(piece =~= dot());
                    }
                }
            } else {
                assert(piece != dot()) by {
                    assert(dot().len() == 1);
                }
            }
            if len == 2 {
                assert(is_dotdot == (piece == dotdot())) by {
                    if piece == dotdot() {
                        assert(piece[0] == 46u8 && piece[1] == 46u8);
                    }
                    if is_dotdot {
                        assert(piece =~= dotdot());
                    }
                }
            } else {
                assert(piece != dotdot()) by {
                    assert(dotdot().len() == 2);
                }
            }
        }
        if len == 0 || is_dot {
        } else if is_dotdot {
            if stack.len() == 0 {
                proof {
                    lemma_resolve_none_extends(done.push(piece), rest_parts);
                    assert(done.push(piece) + rest_parts =~= done + split_parts(s, 47u8));
                }
                return None;
            }
            let ghost old_stack = stack@;
            stack.pop();
            assert(ranges_view(b@, stack@) =~= old_view.drop_last());
            assert forall|k: int| 0 <= k < stack@.len() implies good_range(b@, #[trigger] stack@[k]) by {
                assert(stack@[k] == old_stack[k]);
            }
        } else {
            let ghost old_stack = stack@;
            stack.push((start, idx));
            assert(ranges_view(b@, stack@) =~= old_view.push(piece));
            assert forall|k: int| 0 <= k < stack@.len() implies good_range(b@, #[trigger] stack@[k]) by {
                if k < old_stack.len() {
                    assert(stack@[k] == old_stack[k]);
                } else {
                    assert(stack@[k] == (start, idx));
                }
            }
        }
        proof {
            done = done.push(piece);
        }
        if idx == b.len() {
            assert(split_parts(b@, 47u8) =~= done);
            break;
        }
        assert(done + rest_parts =~= done.drop_last() + split_parts(s, 47u8));
        start = idx + 1;
    }
    let ghost st = ranges_view(b@, stack@);
    let mut out: Vec<u8> = Vec::new();
    if stack.len() == 0 {
        out.push(47u8);
        assert(out@ =~= seq![47u8]);
        proof { crate::text::lemma_ascii_encode(out@); }
    } else {
        let mut k: usize = 0;
        while k < stack.len()
            invariant
                k <= stack@.len(),
                st == ranges_view(b@, stack@),
                out@ == slash_join(st.take(k as int)),
                valid_utf8(out@),
                forall|j: int| 0 <= j < stack@.len() ==> good_range(b@, #[trigger] stack@[j]),
            decreases stack@.len() - k,
        {
            let (lo, hi) = stack[k];
            assert(good_range(b@, stack@[k as int]));
            let ghost before = out@;
            out.push(47u8);
            let piece = crate::text::slice_range(b, lo, hi);
            push_all(&mut out, piece.as_slice());
            proof {
                assert(st.take(k + 1).drop_last() =~= st.take(k as int));
                assert(st.take(k + 1).last() == b@.subrange(lo as int, hi as int));
                assert(out@ =~= before + seq![47u8] + b@.subrange(lo as int, hi as int));
                crate::text::lemma_ascii_encode(seq![47u8]);
                valid_utf8_concat(before, seq![47u8]);
                valid_utf8_concat(before + seq![47u8], b@.subrange(lo as int, hi as int));
            }
            k += 1;
        }
        assert(st.take(stack@.len() as int) =~= st);
    }
    let s = string_from_utf8(out.as_slice());
    Some(s)
}

/// Law: a resolved path never holds an empty, `.` or `..` component, and no
/// component holds `/`.
pub proof fn law_resolved_components_are_plain(b: Seq<u8>)
    ensures
        resolve(split_parts(b, 47u8)) matches Some(st) ==> forall|k: int|
            0 <= k < st.len() ==> plain_component(#[trigger] st[k]),
{
    lemma_split_parts_no_sep(b);
    lemma_resolve_plain(split_parts(b, 47u8));
}

pub open spec fn plain_component(x: Seq<u8>) -> bool {
    x.len() > 0 && x != dot() && x != dotdot() && !x.contains(47u8)
}

proof fn lemma_split_parts_no_sep(b: Seq<u8>)
    ensures
        forall|k: int| 0 <= k < split_parts(b, 47u8).len() ==> !(#[trigger] split_parts(b, 47u8)[k]).contains(47u8),
    decreases b.len(),
{
    lemma_find_byte(b, 47u8);
    let i = find_byte(b, 47u8);
    if i >= 0 && i < b.len() {
        let rest = b.subrange(i + 1, b.len() as int);
        lemma_split_parts_no_sep(rest);
        let head = b.subrange(0, i);
        assert forall|k: int| 0 <= k < split_parts(b, 47u8).len() implies !(#[trigger] split_parts(b, 47u8)[k]).contains(47u8) by {
            if k == 0 {
                if head.contains(47u8) {
                    let j = choose|j: int| 0 <= j < head.len() && #[trigger] head[j] == 47u8;
                    assert(b[j] == 47u8);
                }
            } else {
                assert(split_parts(b, 47u8)[k] == split_parts(rest, 47u8)[k - 1]);
            }
        }
    }
}

proof fn lemma_resolve_plain(parts: Seq<Seq<u8>>)
    requires
        forall|k: int| 0 <= k < parts.len() ==> !(#[trigger] parts[k]).contains(47u8),
    ensures
        resolve(parts) matches Some(st) ==> forall|k: int| 0 <= k < st.len() ==> plain_component(#[trigger] st[k]),
    decreases parts.len(),
{
    if parts.len() > 0 {
        let init = parts.drop_last();
        assert forall|k: int| 0 <= k < init.len() implies !(#[trigger] init[k]).contains(47u8) by {
            assert(init[k] == parts[k]);
        }
        lemma_resolve_plain(init);
        assert(!parts.last().contains(47u8)) by {
            assert(parts.last() == parts[parts.len() - 1]);
        }
    }
}

/// No two `/` in a row.
pub open spec fn single_slashes(b: Seq<u8>) -> bool {
    forall|k: int| 0 <= k < b.len() - 1 ==> !(#[trigger] b[k] == 47u8 && b[k + 1] == 47u8)
}

proof fn lemma_split_parts_append(a: Seq<u8>, x: Seq<u8>)
    requires
        !x.contains(47u8),
    ensures
        split_parts(a + seq![47u8] + x, 47u8) == split_parts(a, 47u8) + seq![x],
    decreases a.len(),
{
    let b = a + seq![47u8] + x;
    lemma_find_byte(a, 47u8);
    lemma_find_byte(b, 47u8);
    lemma_find_byte(x, 47u8);
    let j = find_byte(a, 47u8);
    if j < 0 {
        assert(b[a.len() as int] == 47u8);
        let i = find_byte(b, 47u8);
        if i < a.len() {
            assert(b[i] == a[i]);
            assert(a.contains(47u8));
        }
        assert(b.subrange(0, a.len() as int) =~= a);
        assert(b.subrange(a.len() as int + 1, b.len() as int) =~= x);
        assert(split_parts(x, 47u8) == seq![x]);
        assert(split_parts(a, 47u8) == seq![a]);
    } else {
        let i = find_byte(b, 47u8);
        assert(b[j] == a[j]);
        if i < j {
            assert(b[i] == a[i]);
        }
        assert(i == j);
        let a2 = a.subrange(j + 1, a.len() as int);
        assert(b.subrange(0, j) =~= a.subrange(0, j));
        assert(b.subrange(j + 1, b.len() as int) =~= a2 + seq![47u8] + x);
        lemma_split_parts_append(a2, x);
        assert(split_parts(a, 47u8) == seq![a.subrange(0, j)] + split_parts(a2, 47u8));
        assert(seq![a.subrange(0, j)] + (split_parts(a2, 47u8) + seq![x]) =~= (seq![a.subrange(0, j)]
            + split_parts(a2, 47u8)) + seq![x]);
    }
}

proof fn lemma_slash_join_parts(st: Seq<Seq<u8>>)
    requires
        forall|k: int| 0 <= k < st.len() ==> plain_component(#[trigger] st[k]),
    ensures
        split_parts(slash_join(st), 47u8) == seq![Seq::<u8>::empty()] + st,
        resolve(seq![Seq::<u8>::empty()] + st) == Some(st),
        single_slashes(slash_join(st)),
        st.len() > 0 ==> slash_join(st).len() > 0 && slash_join(st)[0] == 47u8 && slash_join(st).last() != 47u8,
    decreases st.len(),
{
    if st.len() == 0 {
        lemma_find_byte(Seq::<u8>::empty(), 47u8);
        assert(split_parts(Seq::<u8>::empty(), 47u8) == seq![Seq::<u8>::empty()]);
        assert(seq![Seq::<u8>::empty()] + st =~= seq![Seq::<u8>::empty()]);
        assert(seq![Seq::<u8>::empty()].drop_last() =~= Seq::<Seq<u8>>::empty());
        assert(resolve(Seq::<Seq<u8>>::empty()) == Some(Seq::<Seq<u8>>::empty()));
        assert(st =~= Seq::<Seq<u8>>::empty());
        assert(resolve(seq![Seq::<u8>::empty()]) == resolve_step(resolve(Seq::<Seq<u8>>::empty()), Seq::<u8>::empty()));
    } else {
        let init = st.drop_last();
        let x = st.last();
        assert(plain_component(st[st.len() - 1]));
        assert forall|k: int| 0 <= k < init.len() implies plain_component(#[trigger] init[k]) by {
            assert(init[k] == st[k]);
        }
        lemma_slash_join_parts(init);
        let a = slash_join(init);
        lemma_split_parts_append(a, x);
        assert(seq![Seq::<u8>::empty()] + init + seq![x] =~= seq![Seq::<u8>::empty()] + st);
        let p = seq![Seq::<u8>::empty()] + st;
        assert(p.drop_last() =~= seq![Seq::<u8>::empty()] + init);
        assert(p.last() == x);
        assert(resolve(p) == resolve_step(resolve(p.drop_last()), p.last()));
        assert(x != dot() && x != dotdot() && x.len() > 0);
        assert(init.push(x) =~= st);
        let b = slash_join(st);
        assert(b == a + seq![47u8] + x);
        assert forall|k: int| 0 <= k < b.len() - 1 implies !(#[trigger] b[k] == 47u8 && b[k + 1] == 47u8) by {
            if k < a.len() - 1 {
                assert(b[k] == a[k] && b[k + 1] == a[k + 1]);
            } else if k == a.len() - 1 {
                assert(b[k] == a.last());
            } else if k == a.len() {
                assert(b[k + 1] == x[0]);
                assert(x.contains(x[0]));
            } else {
                assert(b[k] == x[k - a.len() - 1]);
                assert(x.contains(x[k - a.len() - 1]));
            }
        }
        assert(b.last() == x.last());
        assert(x.contains(x.last()));
        if init.len() == 0 {
            assert(a =~= Seq::<u8>::empty());
        }
        assert(b[0] == 47u8) by {
            if init.len() > 0 {
                assert(b[0] == a[0]);
            }
        }
    }
}

/// Law: normalizing twice changes nothing: a normalized path is its own
/// normalization; it is `/` or `/c1/.../cn` with plain components, so it
/// holds no `//` and no `.` or `..` component.
pub proof fn law_normalize_idempotent(b: Seq<u8>)
    ensures
        normalize_spec(b) matches Some(s) ==> normalize_spec(s) == Some(s) && s.len() > 0 && s[0] == 47u8
            && single_slashes(s),
{
    if let Some(s) = normalize_spec(b) {
        law_resolved_components_are_plain(b);
        let st = resolve(split_parts(b, 47u8))->0;
        lemma_slash_join_parts(st);
        if st.len() == 0 {
            let one = seq![47u8];
            lemma_find_byte(one, 47u8);
            assert(one.subrange(0, 0) =~= Seq::<u8>::empty());
            assert(one.subrange(1, 1) =~= Seq::<u8>::empty());
            lemma_find_byte(Seq::<u8>::empty(), 47u8);
            assert(split_parts(one, 47u8) =~= seq![Seq::<u8>::empty(), Seq::<u8>::empty()]);
            let ps = seq![Seq::<u8>::empty(), Seq::<u8>::empty()];
            assert(ps.drop_last() =~= seq![Seq::<u8>::empty()]);
            assert(seq![Seq::<u8>::empty()] =~= seq![Seq::<u8>::empty()] + st);
            assert(!contains_seq(one, seq![47u8, 47u8]));
        } else {
            assert(!contains_seq(s, seq![47u8, 47u8])) by {
                if contains_seq(s, seq![47u8, 47u8]) {
                    let i = choose|i: int| occurs_at(s, seq![47u8, 47u8], i);
                    assert(s.subrange(i, i + 2)[0] == s[i]);
                    assert(s.subrange(i, i + 2)[1] == s[i + 1]);
                }
            }
        }
    }
}

/// The depth that components reach: one down for each plain component,
/// one up for each `..`, none for empty and `.` components.
pub open spec fn depth(parts: Seq<Seq<u8>>) -> int
    decreases parts.len(),
{
    if parts.len() == 0 {
        0
    } else {
        let x = parts.last();
        depth(parts.drop_last()) + (if x == dotdot() {
            -1int
        } else if x.len() == 0 || x == dot() {
            0int
        } else {
            1int
        })
    }
}

#[verifier::spinoff_prover]
proof fn lemma_resolve_depth(parts: Seq<Seq<u8>>)
    ensures
        resolve(parts) is None <==> exists|k: int| 0 <= k <= parts.len() && #[trigger] depth(parts.take(k)) < 0,
        resolve(parts) matches Some(st) ==> st.len() == depth(parts),
    decreases parts.len(),
{
    assert(parts.take(parts.len() as int) =~= parts);
    if parts.len() == 0 {
        assert forall|k: int| 0 <= k <= parts.len() implies #[trigger] depth(parts.take(k)) >= 0 by {
            assert(parts.take(k) =~= Seq::<Seq<u8>>::empty());
        }
    } else {
        let init = parts.drop_last();
        let x = parts.last();
        lemma_resolve_depth(init);
        assert forall|k: int| 0 <= k <= init.len() implies #[trigger] parts.take(k) == init.take(k) by {
            assert(parts.take(k) =~= init.take(k));
        }
        let step: int = if x == dotdot() {
            -1int
        } else if x.len() == 0 || x == dot() {
            0int
        } else {
            1int
        };
        assert(depth(parts) == depth(init) + step);
        assert(resolve(parts) == resolve_step(resolve(init), x));
        match resolve(init) {
            None => {
                let k = choose|k: int| 0 <= k <= init.len() && #[trigger] depth(init.take(k)) < 0;
                assert(parts.take(k) == init.take(k));
                assert(resolve(parts) is None);
            },
            Some(st0) => {
                assert(st0.len() == depth(init));
                assert forall|k: int| 0 <= k <= init.len() implies #[trigger] depth(init.take(k)) >= 0 by {}
                if x == dotdot() && st0.len() == 0 {
                    assert(resolve(parts) is None);
                    assert(depth(parts.take(parts.len() as int)) < 0);
                } else {
                    if x == dotdot() {
                        assert(resolve(parts) == Some(st0.drop_last()));
                    } else if x.len() == 0 || x == dot() {
                        assert(resolve(parts) == Some(st0));
                    } else {
                        assert(resolve(parts) == Some(st0.push(x)));
                    }
                    assert(depth(parts) >= 0);
                    assert forall|k: int| 0 <= k <= parts.len() implies #[trigger] depth(parts.take(k)) >= 0 by {
                        if k <= init.len() {
                            assert(parts.take(k) == init.take(k));
                        } else {
                            assert(parts.take(k) =~= parts);
                        }
                    }
                }
            },
        }
    }
}

/// Law: normalizing gives `None` exactly when the path holds `//` or some
/// prefix of its `/`-separated components climbs above the root (more `..`
/// than plain components so far); otherwise the result has one component
/// per level of the final depth.
pub proof fn law_normalize_none_iff(b: Seq<u8>)
    ensures
        normalize_spec(b) is None <==> (contains_seq(b, seq![47u8, 47u8]) || exists|k: int|
            0 <= k <= split_parts(b, 47u8).len() && #[trigger] depth(split_parts(b, 47u8).take(k)) < 0),
        resolve(split_parts(b, 47u8)) matches Some(st) ==> st.len() == depth(split_parts(b, 47u8)),
{
    lemma_resolve_depth(split_parts(b, 47u8));
}

/// How many components are plain names (not empty, `.` or `..`).
pub open spec fn plain_count(parts: Seq<Seq<u8>>) -> int
    decreases parts.len(),
{
    if parts.len() == 0 {
        0
    } else {
        plain_count(parts.drop_last()) + (if parts.last().len() == 0 || parts.last() == dot() || parts.last()
            == dotdot() {
            0int
        } else {
            1int
        })
    }
}

/// How many components are `..`.
pub open spec fn up_count(parts: Seq<Seq<u8>>) -> int
    decreases parts.len(),
{
    if parts.len() == 0 {
        0
    } else {
        up_count(parts.drop_last()) + (if parts.last() == dotdot() { 1int } else { 0int })
    }
}

proof fn lemma_depth_counts(parts: Seq<Seq<u8>>)
    ensures
        depth(parts) == plain_count(parts) - up_count(parts),
    decreases parts.len(),
{
    if parts.len() > 0 {
        lemma_depth_counts(parts.drop_last());
        assert(dotdot().len() == 2);
    }
}

/// Law: normalizing gives `None` exactly when the path holds `//` or, for
/// some `k`, more of its first `k` `/`-separated components are `..` than
/// are plain names.
pub proof fn law_normalize_none_iff_counts(b: Seq<u8>)
    ensures
        normalize_spec(b) is None <==> (contains_seq(b, seq![47u8, 47u8]) || exists|k: int|
            0 <= k <= split_parts(b, 47u8).len() && #[trigger] up_count(split_parts(b, 47u8).take(k))
                > plain_count(split_parts(b, 47u8).take(k))),
{
    let ps = split_parts(b, 47u8);
    law_normalize_none_iff(b);
    assert forall|k: int| 0 <= k <= ps.len() implies (#[trigger] depth(ps.take(k)) < 0 <==> up_count(ps.take(k))
        > plain_count(ps.take(k))) by {
        lemma_depth_counts(ps.take(k));
    }
    if exists|k: int| 0 <= k <= ps.len() && #[trigger] depth(ps.take(k)) < 0 {
        let k = choose|k: int| 0 <= k <= ps.len() && #[trigger] depth(ps.take(k)) < 0;
        assert(up_count(ps.take(k)) > plain_count(ps.take(k)));
    }
    if exists|k: int| 0 <= k <= ps.len() && #[trigger] up_count(ps.take(k)) > plain_count(ps.take(k)) {
        let k = choose|k: int| 0 <= k <= ps.len() && #[trigger] up_count(ps.take(k)) > plain_count(ps.take(k));
        assert(depth(ps.take(k)) < 0);
    }
}

} // verus!
