//! Shell-style glob matching: `*` matches a run of bytes without `/`,
//! `**` any run of bytes, `?` one byte, and `|` separates alternatives.

use vstd::prelude::*;
use crate::text::{sb, find_byte, lemma_find_byte, find_byte_from, lemma_find_from};

verus! {

/// No `/` byte.
pub open spec fn no_slash(s: Seq<u8>) -> bool {
    !s.contains(47u8)
}

/// Does the single pattern `p` (no alternation) match all of `f`?
pub open spec fn glob(p: Seq<u8>, f: Seq<u8>) -> bool
    decreases p.len(), 0int,
{
    if p.len() == 0 {
        f.len() == 0
    } else if p[0] == 63u8 {
        f.len() > 0 && glob(p.drop_first(), f.drop_first())
    } else if p[0] == 42u8 {
        if p.len() > 1 && p[1] == 42u8 {
            star_from(p.skip(2), f, 0, false)
        } else {
            star_from(p.skip(1), f, 0, true)
        }
    } else {
        f.len() > 0 && f[0] == p[0] && glob(p.drop_first(), f.drop_first())
    }
}

/// Does `rest` match `f[k..]` for some split point at or after `k`, where
/// the skipped bytes `f[k..split]` hold no `/` when `seg` is set?
pub open spec fn star_from(rest: Seq<u8>, f: Seq<u8>, k: int, seg: bool) -> bool
    decreases rest.len(), f.len() + 1 - k,
{
    if k < 0 || k > f.len() {
        false
    } else {
        glob(rest, f.skip(k)) || (k < f.len() && !(seg && f[k] == 47u8) && star_from(rest, f, k + 1, seg))
    }
}

/// Does some `|`-separated alternative of `p` match `f`?
pub open spec fn alt_match(p: Seq<u8>, f: Seq<u8>) -> bool
    decreases p.len(),
{
    let i = find_byte(p, 124u8);
    if i < 0 || i >= p.len() {
        glob(p, f)
    } else {
        glob(p.subrange(0, i), f) || alt_match(p.subrange(i + 1, p.len() as int), f)
    }
}

/// Matches the pattern bytes `p[ps..pe]` against `f[fs..]`.
fn match_single(p: &[u8], ps: usize, pe: usize, f: &[u8], fs: usize) -> (r: bool)
    requires
        ps <= pe <= p@.len(),
        fs <= f@.len(),
    ensures
        r == glob(p@.subrange(ps as int, pe as int), f@.subrange(fs as int, f@.len() as int)),
    decreases pe - ps,
{
    let ghost fl = f@.len() as int;
    let mut pi = ps;
    let mut fi = fs;
    while pi < pe
        invariant
            ps <= pi <= pe <= p@.len(),
            fs <= fi <= f@.len(),
            fl == f@.len(),
            glob(p@.subrange(ps as int, pe as int), f@.subrange(fs as int, fl)) == glob(
                p@.subrange(pi as int, pe as int),
                f@.subrange(fi as int, fl),
            ),
        decreases pe - pi,
    {
        let ghost ps0 = p@.subrange(pi as int, pe as int);
        let ghost fs0 = f@.subrange(fi as int, fl);
        let c = p[pi];
        assert(ps0[0] == c);
        if c == 63u8 {
            if fi >= f.len() {
                return false;
            }
            assert(ps0.drop_first() =~= p@.subrange(pi + 1, pe as int));
            assert(fs0.drop_first() =~= f@.subrange(fi + 1, fl));
            pi += 1;
            fi += 1;
        } else if c == 42u8 {
            let double = pi + 1 < pe && p[pi + 1] == 42u8;
            let seg = !double;
            if double {
                assert(ps0[1] == 42u8);
                pi += 2;
                assert(ps0.skip(2) =~= p@.subrange(pi as int, pe as int));
            } else {
                pi += 1;
                assert(ps0.skip(1) =~= p@.subrange(pi as int, pe as int));
            }
            let ghost rest = p@.subrange(pi as int, pe as int);
            assert(glob(ps0, fs0) == star_from(rest, fs0, 0, seg));
            let mut t = fi;
            loop
                invariant
                    fi <= t <= f@.len(),
                    ps < pi <= pe <= p@.len(),
                    fl == f@.len(),
                    rest == p@.subrange(pi as int, pe as int),
                    fs0 == f@.subrange(fi as int, fl),
                    glob(p@.subrange(ps as int, pe as int), f@.subrange(fs as int, fl))
                        == star_from(rest, fs0, t - fi, seg),
                decreases f@.len() - t,
            {
                let m = match_single(p, pi, pe, f, t);
                assert(fs0.skip(t - fi) =~= f@.subrange(t as int, fl));
                if m {
                    return true;
                }
                if t == f.len() {
                    return false;
                }
                if seg && f[t] == 47u8 {
                    assert(fs0[t - fi] == 47u8);
                    return false;
                }
                assert(fs0[t - fi] == f@[t as int]);
                t += 1;
            }
        } else {
            if fi >= f.len() || c != f[fi] {
                return false;
            }
            assert(ps0.drop_first() =~= p@.subrange(pi + 1, pe as int));
            assert(fs0.drop_first() =~= f@.subrange(fi + 1, fl));
            pi += 1;
            fi += 1;
        }
    }
    assert(p@.subrange(pi as int, pe as int).len() == 0);
    fi == f.len()
}

/// Does `c` occur in `b[from..]`?
fn contains_byte_from(b: &[u8], c: u8, from: usize) -> (r: bool)
    requires
        from <= b@.len(),
    ensures
        r == (exists|j: int| from <= j < b@.len() && b@[j] == c),
{
    let i = find_byte_from(b, c, from);
    i < b.len()
}

/// Match a shell-style glob pattern against a filename.
///
/// Supports: `*` (any bytes except `/`), `**` (any bytes including `/`),
/// `?` (single byte), `|` (alternation — OR of sub-patterns).
pub fn match_pattern(pattern: &str, filename: &str) -> (r: bool)
    ensures
        r == alt_match(sb(pattern), sb(filename)),
{
    let p = pattern.as_bytes();
    let f = filename.as_bytes();
    let ghost fl = f@.len() as int;
    assert(p@ == sb(pattern) && f@ == sb(filename));
    let mut start: usize = 0;
    assert(p@.subrange(0, p@.len() as int) =~= p@);
    assert(f@.subrange(0, fl) =~= f@);
    loop
        invariant
            start <= p@.len(),
            fl == f@.len(),
            f@.subrange(0, fl) == f@,
            p@ == sb(pattern) && f@ == sb(filename),
            alt_match(p@, f@) == alt_match(p@.subrange(start as int, p@.len() as int), f@),
        decreases p@.len() - start,
    {
        let ghost s = p@.subrange(start as int, p@.len() as int);
        let idx = find_byte_from(p, 124u8, start);
        proof {
            lemma_find_from(p@, 124u8, start as int, idx as int);
            assert(s.subrange(0, idx - start) =~= p@.subrange(start as int, idx as int));
            if idx < p.len() {
                assert(s.subrange(idx - start + 1, s.len() as int) =~= p@.subrange(idx + 1, p@.len() as int));
            } else {
                assert(s =~= p@.subrange(start as int, idx as int));
            }
        }
        let m = match_single(p, start, idx, f, 0);
        assert(m == glob(s.subrange(0, idx - start), f@) || idx == p.len());
        if m {
            if idx == p.len() {
                assert(alt_match(s, f@) == glob(s, f@));
            } else {
                assert(alt_match(s, f@) == (glob(s.subrange(0, idx - start), f@)
                    || alt_match(s.subrange(idx - start + 1, s.len() as int), f@)));
            }
            return true;
        }
        if idx == p.len() {
            assert(alt_match(s, f@) == glob(s, f@));
            return false;
        }
        assert(alt_match(s, f@) == (glob(s.subrange(0, idx - start), f@)
            || alt_match(s.subrange(idx - start + 1, s.len() as int), f@)));
        start = idx + 1;
    }
}

/// A pattern free of `*`, `?` and `|` matches exactly the filename equal to it.
pub proof fn lemma_literal_pattern(p: Seq<u8>, f: Seq<u8>)
    requires
        !p.contains(42u8),
        !p.contains(63u8),
    ensures
        glob(p, f) <==> p == f,
    decreases p.len(),
{
    if p.len() > 0 {
        assert(p[0] != 42u8 && p[0] != 63u8) by {
            assert(p.contains(p[0]));
        }
        let q = p.drop_first();
        assert(!q.contains(42u8)) by {
            if q.contains(42u8) {
                let j = choose|j: int| 0 <= j < q.len() && q[j] == 42u8;
                assert(p[j + 1] == 42u8);
            }
        }
        assert(!q.contains(63u8)) by {
            if q.contains(63u8) {
                let j = choose|j: int| 0 <= j < q.len() && q[j] == 63u8;
                assert(p[j + 1] == 63u8);
            }
        }
        if f.len() > 0 {
            lemma_literal_pattern(q, f.drop_first());
            if p == f {
                assert(q =~= f.drop_first());
            }
            if f[0] == p[0] && q == f.drop_first() {
                assert forall|i: int| 0 <= i < p.len() implies p[i] == f[i] by {
                    if i > 0 {
                        assert(p[i] == q[i - 1]);
                        assert(f[i] == f.drop_first()[i - 1]);
                    }
                }
                assert(p =~= f);
            }
        }
    } else {
        if f.len() == 0 {
            assert(p =~= f);
        }
    }
}

proof fn lemma_star_empty_rest(f: Seq<u8>, k: int)
    requires
        0 <= k <= f.len(),
    ensures
        star_from(Seq::<u8>::empty(), f, k, false),
        star_from(Seq::<u8>::empty(), f, k, true) <==> no_slash(f.skip(k)),
    decreases f.len() - k,
{
    let e = Seq::<u8>::empty();
    if k < f.len() {
        lemma_star_empty_rest(f, k + 1);
        assert(f.skip(k).len() > 0);
        assert(f.skip(k)[0] == f[k]);
        assert(f.skip(k + 1) =~= f.skip(k).drop_first());
        let a = f.skip(k);
        let b = f.skip(k + 1);
        assert(no_slash(a) == (f[k] != 47u8 && no_slash(b))) by {
            if no_slash(a) {
                if f[k] == 47u8 {
                    assert(a[0] == 47u8);
                    assert(a.contains(47u8));
                }
                if b.contains(47u8) {
                    let j = choose|j: int| 0 <= j < b.len() && #[trigger] b[j] == 47u8;
                    assert(a[j + 1] == 47u8);
                    assert(a.contains(47u8));
                }
            }
            if f[k] != 47u8 && no_slash(b) {
                if a.contains(47u8) {
                    let j = choose|j: int| 0 <= j < a.len() && #[trigger] a[j] == 47u8;
                    if j == 0 {
                        assert(a[0] == f[k]);
                    } else {
                        assert(b[j - 1] == 47u8);
                        assert(b.contains(47u8));
                    }
                }
            }
        }
        assert(!glob(e, a));
    } else {
        assert(f.skip(k).len() == 0);
        assert(glob(e, f.skip(k)));
    }
}

/// Law: `**` alone matches every filename.
pub proof fn law_double_star_matches_everything(f: Seq<u8>)
    ensures
        glob(seq![42u8, 42u8], f),
{
    let p = seq![42u8, 42u8];
    assert(p.len() == 2 && p[0] == 42u8 && p[1] == 42u8);
    assert(p.skip(2) =~= Seq::<u8>::empty());
    lemma_star_empty_rest(f, 0);
}

/// Law: a lone `*` matches exactly the filenames without `/`.
pub proof fn law_single_star_stays_in_segment(f: Seq<u8>)
    ensures
        glob(seq![42u8], f) <==> no_slash(f),
{
    let p = seq![42u8];
    assert(p.len() == 1 && p[0] == 42u8);
    assert(p.skip(1) =~= Seq::<u8>::empty());
    lemma_star_empty_rest(f, 0);
    assert(f.skip(0) =~= f);
}

/// Law: a pattern without wildcards or alternation matches only itself.
pub proof fn law_literal_pattern_is_equality(p: Seq<u8>, f: Seq<u8>)
    requires
        !p.contains(42u8),
        !p.contains(63u8),
        !p.contains(124u8),
    ensures
        alt_match(p, f) <==> p == f,
{
    lemma_find_byte(p, 124u8);
    lemma_literal_pattern(p, f);
}

/// Law: alternation is disjunction — `a|rest` matches exactly when the first
/// alternative `a` (which holds no `|`) or some alternative of `rest` does.
pub proof fn law_alternation(a: Seq<u8>, rest: Seq<u8>, f: Seq<u8>)
    requires
        !a.contains(124u8),
    ensures
        alt_match(a + seq![124u8] + rest, f) <==> (glob(a, f) || alt_match(rest, f)),
{
    let p = a + seq![124u8] + rest;
    lemma_find_byte(p, 124u8);
    let i = find_byte(p, 124u8);
    assert(p[a.len() as int] == 124u8);
    assert(p.contains(124u8));
    if i < a.len() {
        assert(p[i] == a[i]);
        assert(a.contains(124u8));
    }
    assert(i == a.len());
    assert(p.subrange(0, i) =~= a);
    assert(p.subrange(i + 1, p.len() as int) =~= rest);
}

/// Law: alternation is disjunction — `p1|p2` matches exactly when `p1` or
/// `p2` matches, whatever alternatives either of them holds.
pub proof fn law_alternation_any(p1: Seq<u8>, p2: Seq<u8>, f: Seq<u8>)
    ensures
        alt_match(p1 + seq![124u8] + p2, f) <==> (alt_match(p1, f) || alt_match(p2, f)),
    decreases p1.len(),
{
    lemma_find_byte(p1, 124u8);
    let i = find_byte(p1, 124u8);
    if i < 0 {
        law_alternation(p1, p2, f);
    } else {
        let a = p1.subrange(0, i);
        let r1 = p1.subrange(i + 1, p1.len() as int);
        assert(!a.contains(124u8)) by {
            if a.contains(124u8) {
                let j = choose|j: int| 0 <= j < a.len() && a[j] == 124u8;
                assert(p1[j] == 124u8);
            }
        }
        assert(p1 + seq![124u8] + p2 =~= a + seq![124u8] + (r1 + seq![124u8] + p2));
        law_alternation(a, r1 + seq![124u8] + p2, f);
        law_alternation_any(r1, p2, f);
    }
}

} // verus!
