//! Bandwidth throttling: a table of rules, each a filename pattern with a
//! byte-rate limit, the rolling rate of what it has sent and the number of
//! transfers it is sharing its budget with.

use vstd::prelude::*;
use vstd::utf8::*;
use crate::text::{
    raw_line, line_string,
    sb, stb, chars_of, copy_chars, find_char, find_other, find_ws, find_non_ws, next_char,
    next_other, next_ws, next_non_ws, parse_i64_chars, parse_int_spec, push_char, int_or_none,
    split_on, split_chars, trim_ws, trim_chars, end_non_ws, trim_end_chars, string_of_chars,
};
use crate::glob::{alt_match, match_pattern};

verus! {

/// Throttle time constant (seconds): the period of the rolling average.
pub const THROTTLE_TIME: i64 = 2;

/// Maximum number of throttle rules that one connection is counted against.
pub const MAX_THROTTLE_NUMS: usize = 10;

/// CGI byte count constant: every CGI response counts as this many bytes.
pub const CGI_BYTECOUNT: i64 = 25000;

/// Sentinel meaning "no limit".
pub const THROTTLE_NOLIMIT: i64 = -1;

/// A single throttle rule: `pattern min-max` or `pattern max`.
#[derive(Debug, Clone, PartialEq, Eq)]
pub struct ThrottleEntry {
    pub pattern: String,
    pub max_limit: i64,
    pub min_limit: i64,
    pub rate: i64,
    pub bytes_since_avg: i64,
    pub num_sending: i64,
}

impl ThrottleEntry {
    /// A fresh rule with no traffic yet.
    pub fn new(pattern: String, max_limit: i64, min_limit: i64) -> (r: Self)
        ensures
            r.pattern == pattern,
            r.max_limit == max_limit,
            r.min_limit == min_limit,
            r.rate == 0,
            r.bytes_since_avg == 0,
            r.num_sending == 0,
    {
        ThrottleEntry { pattern, max_limit, min_limit, rate: 0, bytes_since_avg: 0, num_sending: 0 }
    }
}

/// An unparsable line of a throttle file.
#[derive(Debug, Clone, PartialEq, Eq)]
pub struct ThrottleParseError {
    pub line: String,
    pub line_number: usize,
}

/// Bandwidth throttle table.
pub struct ThrottleTable {
    pub entries: Vec<ThrottleEntry>,
}

/// Result of admitting a request against the throttle table.
#[derive(Debug, Clone, PartialEq, Eq)]
pub enum ThrottleDecision {
    /// No throttle rule matched: send without rate limiting.
    Unlimited,
    /// Admit the request; carry the matched rule indexes and the
    /// connection's effective max/min limits.
    Allow { tnums: Vec<usize>, max_limit: i64, min_limit: i64 },
    /// Reject: a matched rule is running above twice its maximum or below
    /// its minimum, and must not start a new transfer.
    Reject,
}

// ---------------------------------------------------------------- model

/// Division that rounds toward zero, as Rust's `/` on integers does.
pub open spec fn tdiv(a: int, b: int) -> int {
    if a >= 0 {
        a / b
    } else {
        -((-a) / b)
    }
}

/// Does rule `e` apply to the file `f`?
pub open spec fn entry_matches(e: ThrottleEntry, f: Seq<u8>) -> bool {
    alt_match(stb(e.pattern), f)
}

/// Indexes of the rules that apply to `f`, in table order.
pub open spec fn matched_indices(es: Seq<ThrottleEntry>, f: Seq<u8>) -> Seq<usize>
    decreases es.len(),
{
    if es.len() == 0 {
        Seq::empty()
    } else {
        let r = matched_indices(es.drop_last(), f);
        if entry_matches(es.last(), f) {
            r.push((es.len() - 1) as usize)
        } else {
            r
        }
    }
}

/// The rules a request is counted against: the first ten that apply.
pub open spec fn selected(es: Seq<ThrottleEntry>, f: Seq<u8>) -> Seq<usize> {
    let m = matched_indices(es, f);
    if m.len() > MAX_THROTTLE_NUMS {
        m.take(MAX_THROTTLE_NUMS as int)
    } else {
        m
    }
}

/// A rule that must not start a new transfer.
pub open spec fn out_of_band(e: ThrottleEntry) -> bool {
    e.rate > e.max_limit * 2 || e.rate < e.min_limit
}

/// Position in `sel` of the first rule out of band, or `sel.len()`.
pub open spec fn first_out_of_band(es: Seq<ThrottleEntry>, sel: Seq<usize>) -> nat
    decreases sel.len(),
{
    if sel.len() == 0 {
        0
    } else {
        let p = first_out_of_band(es, sel.drop_last());
        if p < sel.len() - 1 {
            p
        } else if out_of_band(es[sel.last() as int]) {
            (sel.len() - 1) as nat
        } else {
            sel.len()
        }
    }
}

/// A rule with a negative sender count set back to zero.
pub open spec fn clamped(e: ThrottleEntry) -> ThrottleEntry {
    ThrottleEntry { num_sending: if e.num_sending < 0 { 0 } else { e.num_sending }, ..e }
}

/// A rule after it admitted one more transfer.
pub open spec fn admitted(e: ThrottleEntry) -> ThrottleEntry {
    ThrottleEntry { num_sending: (clamped(e).num_sending + 1) as i64, ..e }
}

/// The rules at the indexes in `sel` with their sender counts clamped.
pub open spec fn clamped_at(es: Seq<ThrottleEntry>, sel: Seq<usize>) -> Seq<ThrottleEntry> {
    Seq::new(es.len(), |i: int| if sel.contains(i as usize) { clamped(es[i]) } else { es[i] })
}

/// The rules at the indexes in `sel` after each admitted one transfer.
pub open spec fn admitted_at(es: Seq<ThrottleEntry>, sel: Seq<usize>) -> Seq<ThrottleEntry> {
    Seq::new(es.len(), |i: int| if sel.contains(i as usize) { admitted(es[i]) } else { es[i] })
}

/// Folding step for a connection's maximum: the first value is taken as
/// it is, later ones keep the smaller.
pub open spec fn fold_lower(v: int, l: int) -> int {
    if v == THROTTLE_NOLIMIT {
        l
    } else if l < v {
        l
    } else {
        v
    }
}

/// Folding step for a connection's minimum: the first value is taken as
/// it is, later ones keep the larger.
pub open spec fn fold_upper(v: int, l: int) -> int {
    if v == THROTTLE_NOLIMIT {
        l
    } else if l > v {
        l
    } else {
        v
    }
}

/// Fair-share maximum of a connection admitted against `sel`.
pub open spec fn admitted_max(es: Seq<ThrottleEntry>, sel: Seq<usize>) -> int
    decreases sel.len(),
{
    if sel.len() == 0 {
        THROTTLE_NOLIMIT as int
    } else {
        let e = admitted(es[sel.last() as int]);
        fold_lower(admitted_max(es, sel.drop_last()), tdiv(e.max_limit as int, e.num_sending as int))
    }
}

/// Minimum of a connection admitted against `sel`.
pub open spec fn admitted_min(es: Seq<ThrottleEntry>, sel: Seq<usize>) -> int
    decreases sel.len(),
{
    if sel.len() == 0 {
        THROTTLE_NOLIMIT as int
    } else {
        fold_upper(admitted_min(es, sel.drop_last()), es[sel.last() as int].min_limit as int)
    }
}

/// The arithmetic of admission stays inside `i64`: twice the maximum of each rule that is checked,
/// one more sender for each rule that admits.
pub open spec fn admission_fits(es: Seq<ThrottleEntry>, f: Seq<u8>) -> bool {
    let sel = selected(es, f);
    let p = first_out_of_band(es, sel);
    forall|q: int|
        0 <= q < sel.len() ==> {
            let e = #[trigger] es[sel[q] as int];
            &&& (q <= p ==> i64::MIN <= e.max_limit * 2 <= i64::MAX)
            &&& (q < p ==> e.num_sending < i64::MAX)
        }
}

/// How often `x` occurs in `s`.
pub open spec fn count_of(s: Seq<usize>, x: int) -> nat
    decreases s.len(),
{
    if s.len() == 0 {
        0
    } else {
        count_of(s.drop_last(), x) + if s.last() == x { 1nat } else { 0nat }
    }
}

/// The rules after `clear(tnums)`.
pub open spec fn cleared(es: Seq<ThrottleEntry>, tnums: Seq<usize>) -> Seq<ThrottleEntry> {
    Seq::new(
        es.len(),
        |i: int| ThrottleEntry { num_sending: (es[i].num_sending - count_of(tnums, i)) as i64, ..es[i] },
    )
}

/// The rules after `add_bytes(tnums, n)`.
pub open spec fn with_bytes(es: Seq<ThrottleEntry>, tnums: Seq<usize>, n: int) -> Seq<
    ThrottleEntry,
> {
    Seq::new(
        es.len(),
        |i: int|
            ThrottleEntry {
                bytes_since_avg: (es[i].bytes_since_avg + n * count_of(tnums, i)) as i64,
                ..es[i]
            },
    )
}

/// Fair-share maximum recomputed from the current sender counts.
pub open spec fn share_of(es: Seq<ThrottleEntry>, tnums: Seq<usize>) -> int
    decreases tnums.len(),
{
    if tnums.len() == 0 {
        THROTTLE_NOLIMIT as int
    } else {
        let v = share_of(es, tnums.drop_last());
        let t = tnums.last() as int;
        if t < es.len() {
            let senders = if es[t].num_sending < 1 { 1 } else { es[t].num_sending as int };
            fold_lower(v, tdiv(es[t].max_limit as int, senders))
        } else {
            v
        }
    }
}

/// The rolling average of a rule after one period.
pub open spec fn next_rate(e: ThrottleEntry) -> int {
    tdiv(2 * e.rate + tdiv(e.bytes_since_avg as int, THROTTLE_TIME as int), 3)
}

/// The rolling-average arithmetic stays inside `i64`.
pub open spec fn rate_fits(e: ThrottleEntry) -> bool {
    &&& i64::MIN <= 2 * e.rate <= i64::MAX
    &&& i64::MIN <= 2 * e.rate + tdiv(e.bytes_since_avg as int, THROTTLE_TIME as int) <= i64::MAX
}

/// A rule after one period of the rolling average.
pub open spec fn averaged(e: ThrottleEntry) -> ThrottleEntry {
    ThrottleEntry { rate: next_rate(e) as i64, bytes_since_avg: 0, ..e }
}

// ---------------------------------------------------------------- lemmas

proof fn lemma_matched_bounds(es: Seq<ThrottleEntry>, f: Seq<u8>)
    requires
        es.len() <= usize::MAX,
    ensures
        forall|q: int|
            0 <= q < matched_indices(es, f).len() ==> #[trigger] matched_indices(es, f)[q]
                < es.len(),
        forall|q: int, r: int|
            #![trigger matched_indices(es, f)[q], matched_indices(es, f)[r]]
            0 <= q < r < matched_indices(es, f).len() ==> matched_indices(es, f)[q]
                < matched_indices(es, f)[r],
        matched_indices(es, f).len() <= es.len(),
    decreases es.len(),
{
    if es.len() > 0 {
        let d = es.drop_last();
        lemma_matched_bounds(d, f);
        let m = matched_indices(es, f);
        let dm = matched_indices(d, f);
        if entry_matches(es.last(), f) {
            assert(m =~= dm.push((es.len() - 1) as usize));
            assert forall|q: int, r: int| 0 <= q < r < m.len() implies m[q] < m[r] by {
                assert(m[q] == dm[q]);
                if r == dm.len() {
                    assert(dm[q] < d.len());
                } else {
                    assert(m[r] == dm[r]);
                    assert(dm[q] < dm[r]);
                }
            }
        } else {
            assert(m == dm);
        }
    }
}

/// The rules matched in a prefix of the table are a prefix of those matched
/// in the whole table.
proof fn lemma_matched_prefix(es: Seq<ThrottleEntry>, f: Seq<u8>, j: int)
    requires
        0 <= j <= es.len(),
    ensures
        matched_indices(es.subrange(0, j), f).len() <= matched_indices(es, f).len(),
        matched_indices(es.subrange(0, j), f) == matched_indices(es, f).take(
            matched_indices(es.subrange(0, j), f).len() as int,
        ),
    decreases es.len(),
{
    if j == es.len() {
        assert(es.subrange(0, j) =~= es);
        assert(matched_indices(es, f).take(matched_indices(es, f).len() as int) =~= matched_indices(
            es,
            f,
        ));
    } else {
        let d = es.drop_last();
        lemma_matched_prefix(d, f, j);
        assert(d.subrange(0, j) =~= es.subrange(0, j));
        let a = matched_indices(es.subrange(0, j), f);
        let m = matched_indices(d, f);
        assert(matched_indices(es, f).take(a.len() as int) =~= m.take(a.len() as int));
    }
}

/// Once a position below `k` is out of band, the answer no longer depends
/// on what follows; otherwise it is at least `k`.
proof fn lemma_first_out_of_band_prefix(es: Seq<ThrottleEntry>, s: Seq<usize>, k: int)
    requires
        0 <= k <= s.len(),
    ensures
        first_out_of_band(es, s.take(k)) <= k,
        first_out_of_band(es, s.take(k)) < k ==> first_out_of_band(es, s) == first_out_of_band(
            es,
            s.take(k),
        ),
        first_out_of_band(es, s.take(k)) == k ==> first_out_of_band(es, s) >= k,
    decreases s.len(),
{
    lemma_first_out_of_band_le(es, s.take(k));
    if k == s.len() {
        assert(s.take(k) =~= s);
    } else {
        lemma_first_out_of_band_prefix(es, s.drop_last(), k);
        assert(s.drop_last().take(k) =~= s.take(k));
        lemma_first_out_of_band_le(es, s.drop_last());
    }
}

proof fn lemma_first_out_of_band_le(es: Seq<ThrottleEntry>, s: Seq<usize>)
    ensures
        first_out_of_band(es, s) <= s.len(),
    decreases s.len(),
{
    if s.len() > 0 {
        lemma_first_out_of_band_le(es, s.drop_last());
    }
}

/// Does `x` occur among the first `j` items of `s`?
pub open spec fn occurs_before(s: Seq<usize>, j: int, x: int) -> bool {
    exists|q: int| 0 <= q < j && #[trigger] s[q] == x
}

proof fn lemma_count_push(s: Seq<usize>, t: usize, x: int)
    ensures
        count_of(s.push(t), x) == count_of(s, x) + if t == x { 1nat } else { 0nat },
{
    assert(s.push(t).drop_last() =~= s);
}

// ---------------------------------------------------------------- operations

impl ThrottleTable {
    pub fn new() -> (r: Self)
        ensures
            r.entries@ == Seq::<ThrottleEntry>::empty(),
    {
        ThrottleTable { entries: Vec::new() }
    }

    pub fn entries(&self) -> (r: &[ThrottleEntry])
        ensures
            r@ == self.entries@,
    {
        self.entries.as_slice()
    }

    /// Mutable access to the rules.
    pub fn entries_mut(&mut self) -> (r: &mut Vec<ThrottleEntry>)
        ensures
            *r == old(self).entries,
            final(self).entries == *final(r),
    {
        &mut self.entries
    }

    /// True when there are no throttle rules loaded.
    pub fn is_empty(&self) -> (r: bool)
        ensures
            r == (self.entries@.len() == 0),
    {
        self.entries.len() == 0
    }

    /// Admission decision for a new request: walk the rules that apply to
    /// the file (at most ten); reject the start when one of them runs above
    /// twice its maximum or below its minimum (undoing what this request
    /// counted so far), otherwise count the transfer against each of them
    /// and compute the connection's fair-share maximum and its minimum.
    pub fn check_request(&mut self, filename: &str) -> (d: ThrottleDecision)
        requires
            admission_fits(old(self).entries@, sb(filename)),
        ensures
            ({
                let es = old(self).entries@;
                let sel = selected(es, sb(filename));
                let p = first_out_of_band(es, sel);
                &&& sel.len() == 0 ==> d is Unlimited && final(self).entries@ == es
                &&& sel.len() > 0 && p < sel.len() ==> d is Reject && final(self).entries@
                    == clamped_at(es, sel.take(p as int))
                &&& sel.len() > 0 && p == sel.len() ==> (d matches ThrottleDecision::Allow {
                    tnums,
                    max_limit,
                    min_limit,
                } && tnums@ == sel && max_limit == admitted_max(es, sel) && min_limit
                    == admitted_min(es, sel) && final(self).entries@ == admitted_at(es, sel))
            }),
    {
        let ghost es = self.entries@;
        let ghost f = sb(filename);
        assert(es.len() == self.entries.len());
        proof {
            lemma_matched_bounds(es, f);
            lemma_first_out_of_band_le(es, selected(es, f));
        }
        if self.entries.len() == 0 {
            assert(matched_indices(es, f) =~= Seq::<usize>::empty());
            return ThrottleDecision::Unlimited;
        }
        let mut tnums: Vec<usize> = Vec::new();
        let mut max_limit: i64 = THROTTLE_NOLIMIT;
        let mut min_limit: i64 = THROTTLE_NOLIMIT;
        let mut idx: usize = 0;
        assert(es.subrange(0, 0) =~= Seq::<ThrottleEntry>::empty());
        assert(self.entries@ =~= admitted_at(es, tnums@));
        loop
            invariant_except_break
                es == old(self).entries@,
                es.len() <= usize::MAX,
                idx <= es.len(),
                self.entries@.len() == es.len(),
                f == sb(filename),
                admission_fits(es, f),
                tnums@ == matched_indices(es.subrange(0, idx as int), f),
                tnums@.len() <= MAX_THROTTLE_NUMS,
                forall|q: int| 0 <= q < tnums@.len() ==> #[trigger] tnums@[q] < idx,
                forall|q: int|
                    0 <= q < tnums@.len() ==> #[trigger] es[tnums@[q] as int].num_sending < i64::MAX,
                first_out_of_band(es, tnums@) == tnums@.len(),
                self.entries@ == admitted_at(es, tnums@),
                max_limit == admitted_max(es, tnums@),
                min_limit == admitted_min(es, tnums@),
            ensures
                self.entries@.len() == es.len(),
                tnums@ == selected(es, f),
                first_out_of_band(es, tnums@) == tnums@.len(),
                self.entries@ == admitted_at(es, tnums@),
                max_limit == admitted_max(es, tnums@),
                min_limit == admitted_min(es, tnums@),
            decreases es.len() - idx,
        {
            if idx == self.entries.len() {
                proof {
                    assert(es.subrange(0, idx as int) =~= es);
                }
                break;
            }
            if tnums.len() >= MAX_THROTTLE_NUMS {
                proof {
                    lemma_matched_prefix(es, f, idx as int);
                    let m = matched_indices(es, f);
                    assert(m.take(MAX_THROTTLE_NUMS as int) =~= tnums@);
                    if m.len() == MAX_THROTTLE_NUMS {
                        assert(m.take(MAX_THROTTLE_NUMS as int) =~= m);
                    }
                }
                break;
            }
            let ghost sub_next = es.subrange(0, idx + 1);
            proof {
                assert(sub_next.drop_last() =~= es.subrange(0, idx as int));
                assert(sub_next.last() == es[idx as int]);
                assert(!tnums@.contains(idx));
            }
            assert(self.entries@[idx as int] == es[idx as int]);
            if match_pattern(self.entries[idx].pattern.as_str(), filename) {
                assert(entry_matches(es[idx as int], f));
                let ghost next = tnums@.push(idx);
                assert(next == matched_indices(sub_next, f));
                proof {
                    lemma_matched_prefix(es, f, idx + 1);
                    lemma_matched_bounds(es, f);
                    let sel = selected(es, f);
                    assert(sel.take(next.len() as int) =~= next);
                    assert(next.drop_last() =~= tnums@);
                    lemma_first_out_of_band_prefix(es, sel, next.len() as int);
                    assert(sel.take(tnums@.len() as int) =~= tnums@);
                    lemma_first_out_of_band_prefix(es, sel, tnums@.len() as int);
                    assert(sel[tnums@.len() as int] == idx);
                    assert(first_out_of_band(es, next) == if out_of_band(es[idx as int]) {
                        tnums@.len()
                    } else {
                        next.len()
                    });
                }
                let rate = self.entries[idx].rate;
                let entry_max = self.entries[idx].max_limit;
                let entry_min = self.entries[idx].min_limit;
                if rate > entry_max * 2 || rate < entry_min {
                    proof {
                        lemma_matched_bounds(es.subrange(0, idx as int), f);
                    }
                    self.undo_admissions(&tnums, Ghost(es));
                    proof {
                        let sel = selected(es, f);
                        assert(sel.take(tnums@.len() as int) =~= tnums@);
                        assert(first_out_of_band(es, sel) == tnums@.len());
                        assert(sel.len() > tnums@.len());
                        assert(sel.take(first_out_of_band(es, sel) as int) == tnums@);
                        assert(self.entries@ == clamped_at(es, sel.take(first_out_of_band(es, sel) as int)));
                        assert(es == old(self).entries@);
                        assert(f == sb(filename));
                    }
                    return ThrottleDecision::Reject;
                }
                if self.entries[idx].num_sending < 0 {
                    self.entries[idx].num_sending = 0;
                }
                self.entries[idx].num_sending = self.entries[idx].num_sending + 1;
                tnums.push(idx);
                let senders = self.entries[idx].num_sending;
                let l = entry_max / senders;
                max_limit = if max_limit == THROTTLE_NOLIMIT {
                    l
                } else if l < max_limit {
                    l
                } else {
                    max_limit
                };
                min_limit = if min_limit == THROTTLE_NOLIMIT {
                    entry_min
                } else if entry_min > min_limit {
                    entry_min
                } else {
                    min_limit
                };
                proof {
                    assert(tnums@ == next);
                    assert(self.entries@ =~= admitted_at(es, tnums@));
                }
            } else {
                assert(matched_indices(sub_next, f) == tnums@);
            }
            idx += 1;
        }
        if tnums.len() == 0 {
            assert(self.entries@ =~= es);
            ThrottleDecision::Unlimited
        } else {
            ThrottleDecision::Allow { tnums, max_limit, min_limit }
        }
    }
}

impl ThrottleTable {
    /// Takes back one transfer from each rule in `tnums`, which all admitted
    /// one in this request.
    fn undo_admissions(&mut self, tnums: &Vec<usize>, Ghost(es): Ghost<Seq<ThrottleEntry>>)
        requires
            old(self).entries@ == admitted_at(es, tnums@),
            forall|q: int| 0 <= q < tnums@.len() ==> #[trigger] tnums@[q] < es.len(),
            forall|q: int|
                0 <= q < tnums@.len() ==> #[trigger] es[tnums@[q] as int].num_sending < i64::MAX,
            forall|q: int, r: int| 0 <= q < r < tnums@.len() ==> tnums@[q] < tnums@[r],
            es.len() <= usize::MAX,
        ensures
            final(self).entries@ == clamped_at(es, tnums@),
    {
        let mut j: usize = 0;
        while j < tnums.len()
            invariant
                j <= tnums@.len(),
                es.len() <= usize::MAX,
                self.entries@.len() == es.len(),
                forall|q: int| 0 <= q < tnums@.len() ==> #[trigger] tnums@[q] < es.len(),
                forall|q: int|
                    0 <= q < tnums@.len() ==> #[trigger] es[tnums@[q] as int].num_sending
                        < i64::MAX,
                forall|q: int, r: int| 0 <= q < r < tnums@.len() ==> tnums@[q] < tnums@[r],
                forall|i: int|
                    0 <= i < es.len() ==> #[trigger] self.entries@[i] == if occurs_before(
                        tnums@,
                        j as int,
                        i,
                    ) {
                        clamped(es[i])
                    } else if tnums@.contains(i as usize) {
                        admitted(es[i])
                    } else {
                        es[i]
                    },
            decreases tnums@.len() - j,
        {
            let t = tnums[j];
            proof {
                assert(tnums@.contains(t));
                assert(!occurs_before(tnums@, j as int, t as int)) by {
                    if occurs_before(tnums@, j as int, t as int) {
                        let q = choose|q: int| 0 <= q < j && #[trigger] tnums@[q] == t;
                        assert(tnums@[q] < tnums@[j as int]);
                    }
                }
                assert(self.entries@[t as int] == admitted(es[t as int]));
                assert(es[tnums@[j as int] as int].num_sending < i64::MAX);
            }
            self.entries[t].num_sending = self.entries[t].num_sending - 1;
            proof {
                assert forall|i: int| 0 <= i < es.len() implies #[trigger] self.entries@[i]
                    == if occurs_before(tnums@, j + 1, i) {
                    clamped(es[i])
                } else if tnums@.contains(i as usize) {
                    admitted(es[i])
                } else {
                    es[i]
                } by {
                    if occurs_before(tnums@, j + 1, i) && i != t {
                        let q = choose|q: int| 0 <= q < j + 1 && #[trigger] tnums@[q] == i;
                        assert(q < j);
                    }
                    if i == t {
                        assert(tnums@[j as int] == t);
                    }
                }
            }
            j += 1;
        }
        proof {
            assert forall|i: int| 0 <= i < es.len() implies occurs_before(tnums@, j as int, i)
                == tnums@.contains(i as usize) by {
                if tnums@.contains(i as usize) {
                    let q = choose|q: int| 0 <= q < tnums@.len() && tnums@[q] == i as usize;
                    assert(tnums@[q] == i);
                }
            }
            assert(self.entries@ =~= clamped_at(es, tnums@));
        }
    }
}

proof fn lemma_count_take(s: Seq<usize>, j: int, x: int)
    requires
        0 <= j <= s.len(),
    ensures
        count_of(s.take(j), x) <= count_of(s, x),
    decreases s.len(),
{
    if j == s.len() {
        assert(s.take(j) =~= s);
    } else {
        lemma_count_take(s.drop_last(), j, x);
        assert(s.drop_last().take(j) =~= s.take(j));
    }
}

proof fn lemma_count_step(s: Seq<usize>, j: int, x: int)
    requires
        0 <= j < s.len(),
    ensures
        count_of(s.take(j + 1), x) == count_of(s.take(j), x) + if s[j] == x { 1nat } else { 0nat },
{
    assert(s.take(j + 1) =~= s.take(j).push(s[j]));
    lemma_count_push(s.take(j), s[j], x);
}

proof fn lemma_scaled_between(b: int, n: int, c1: int, c2: int)
    requires
        0 <= c1 <= c2,
    ensures
        n >= 0 ==> b <= b + n * c1 <= b + n * c2,
        n < 0 ==> b + n * c2 <= b + n * c1 <= b,
{
    assert(n >= 0 ==> 0 <= n * c1 <= n * c2) by (nonlinear_arith)
        requires
            0 <= c1 <= c2,
    ;
    assert(n < 0 ==> n * c2 <= n * c1 <= 0) by (nonlinear_arith)
        requires
            0 <= c1 <= c2,
    ;
}

impl ThrottleTable {
    /// Takes one transfer back from each rule named in `tnums` (a closing
    /// connection); indexes past the table are ignored.
    pub fn clear(&mut self, tnums: &[usize])
        requires
            forall|i: int|
                0 <= i < old(self).entries@.len() ==> #[trigger] old(self).entries@[i].num_sending
                    - count_of(tnums@, i) >= i64::MIN,
        ensures
            final(self).entries@ == cleared(old(self).entries@, tnums@),
    {
        let ghost es = self.entries@;
        let mut j: usize = 0;
        assert(cleared(es, tnums@.take(0)) =~= es);
        while j < tnums.len()
            invariant
                j <= tnums@.len(),
                es == old(self).entries@,
                self.entries@ == cleared(es, tnums@.take(j as int)),
                forall|i: int|
                    0 <= i < es.len() ==> #[trigger] es[i].num_sending - count_of(tnums@, i)
                        >= i64::MIN,
            decreases tnums@.len() - j,
        {
            let t = tnums[j];
            proof {
                assert forall|i: int| 0 <= i < es.len() implies #[trigger] cleared(
                    es,
                    tnums@.take(j + 1),
                )[i] == if i == t {
                    ThrottleEntry { num_sending: (cleared(es, tnums@.take(j as int))[i].num_sending - 1) as i64, ..es[i] }
                } else {
                    cleared(es, tnums@.take(j as int))[i]
                } by {
                    lemma_count_step(tnums@, j as int, i);
                    lemma_count_take(tnums@, j + 1, i);
                }
            }
            if t < self.entries.len() {
                proof {
                    lemma_count_step(tnums@, j as int, t as int);
                    lemma_count_take(tnums@, j + 1, t as int);
                    assert(es[t as int].num_sending - count_of(tnums@, t as int) >= i64::MIN);
                }
                self.entries[t].num_sending = self.entries[t].num_sending - 1;
            }
            j += 1;
            assert(self.entries@ =~= cleared(es, tnums@.take(j as int)));
        }
        assert(tnums@.take(j as int) =~= tnums@);
    }

    /// Counts `n` sent bytes against each rule named in `tnums`; indexes
    /// past the table are ignored.
    pub fn add_bytes(&mut self, tnums: &[usize], n: i64)
        requires
            forall|i: int|
                0 <= i < old(self).entries@.len() ==> i64::MIN <= #[trigger] old(
                    self,
                ).entries@[i].bytes_since_avg + n * count_of(tnums@, i) <= i64::MAX,
        ensures
            final(self).entries@ == with_bytes(old(self).entries@, tnums@, n as int),
    {
        let ghost es = self.entries@;
        let mut j: usize = 0;
        assert forall|i: int| 0 <= i < es.len() implies #[trigger] with_bytes(es, tnums@.take(0), n as int)[i] == es[i] by {
            assert(count_of(tnums@.take(0), i) == 0);
            assert(n * 0 == 0);
        }
        assert(with_bytes(es, tnums@.take(0), n as int) =~= es);
        while j < tnums.len()
            invariant
                j <= tnums@.len(),
                es == old(self).entries@,
                self.entries@ == with_bytes(es, tnums@.take(j as int), n as int),
                forall|i: int|
                    0 <= i < es.len() ==> i64::MIN <= #[trigger] es[i].bytes_since_avg + n
                        * count_of(tnums@, i) <= i64::MAX,
            decreases tnums@.len() - j,
        {
            let t = tnums[j];
            proof {
                assert forall|i: int| 0 <= i < es.len() implies #[trigger] with_bytes(
                    es,
                    tnums@.take(j + 1),
                    n as int,
                )[i] == if i == t {
                    ThrottleEntry {
                        bytes_since_avg: (with_bytes(es, tnums@.take(j as int), n as int)[i].bytes_since_avg + n) as i64,
                        ..es[i]
                    }
                } else {
                    with_bytes(es, tnums@.take(j as int), n as int)[i]
                } by {
                    lemma_count_step(tnums@, j as int, i);
                    lemma_count_take(tnums@, j + 1, i);
                    lemma_count_take(tnums@, j as int, i);
                    lemma_scaled_between(
                        es[i].bytes_since_avg as int,
                        n as int,
                        count_of(tnums@.take(j as int), i) as int,
                        count_of(tnums@, i) as int,
                    );
                    lemma_scaled_between(
                        es[i].bytes_since_avg as int,
                        n as int,
                        count_of(tnums@.take(j + 1), i) as int,
                        count_of(tnums@, i) as int,
                    );
                    assert(n * count_of(tnums@.take(j + 1), i) == n * count_of(tnums@.take(j as int), i) + if i == t { n as int } else { 0 }) by (nonlinear_arith)
                        requires
                            count_of(tnums@.take(j + 1), i) == count_of(tnums@.take(j as int), i) + if i == t { 1nat } else { 0nat },
                    ;
                }
            }
            if t < self.entries.len() {
                proof {
                    lemma_count_step(tnums@, j as int, t as int);
                    lemma_count_take(tnums@, j + 1, t as int);
                    lemma_scaled_between(
                        es[t as int].bytes_since_avg as int,
                        n as int,
                        count_of(tnums@.take(j + 1), t as int) as int,
                        count_of(tnums@, t as int) as int,
                    );
                    lemma_count_take(tnums@, j as int, t as int);
                    lemma_scaled_between(
                        es[t as int].bytes_since_avg as int,
                        n as int,
                        count_of(tnums@.take(j as int), t as int) as int,
                        count_of(tnums@, t as int) as int,
                    );
                    assert(self.entries@[t as int].bytes_since_avg == es[t as int].bytes_since_avg
                        + n * count_of(tnums@.take(j as int), t as int));
                    assert(n * count_of(tnums@.take(j + 1), t as int) == n * count_of(tnums@.take(j as int), t as int) + n) by (nonlinear_arith)
                        requires
                            count_of(tnums@.take(j + 1), t as int) == count_of(tnums@.take(j as int), t as int) + 1,
                    ;
                    assert(es[t as int].bytes_since_avg + n * count_of(tnums@, t as int) <= i64::MAX);
                }
                self.entries[t].bytes_since_avg = self.entries[t].bytes_since_avg + n;
            }
            j += 1;
            assert(self.entries@ =~= with_bytes(es, tnums@.take(j as int), n as int));
        }
        assert(tnums@.take(j as int) =~= tnums@);
    }

    /// Recomputes a connection's fair-share maximum from the current sender
    /// count of each rule it is counted against; `THROTTLE_NOLIMIT` when
    /// there is none.
    pub fn fair_share_for(&self, tnums: &[usize]) -> (r: i64)
        ensures
            r == share_of(self.entries@, tnums@),
    {
        let ghost es = self.entries@;
        let mut max_limit: i64 = THROTTLE_NOLIMIT;
        let mut j: usize = 0;
        while j < tnums.len()
            invariant
                j <= tnums@.len(),
                es == self.entries@,
                max_limit == share_of(es, tnums@.take(j as int)),
            decreases tnums@.len() - j,
        {
            let t = tnums[j];
            assert(tnums@.take(j + 1).drop_last() =~= tnums@.take(j as int));
            if t < self.entries.len() {
                let ns = self.entries[t].num_sending;
                let senders: i64 = if ns < 1 { 1 } else { ns };
                let l = self.entries[t].max_limit / senders;
                max_limit = if max_limit == THROTTLE_NOLIMIT {
                    l
                } else if l < max_limit {
                    l
                } else {
                    max_limit
                };
            }
            j += 1;
        }
        assert(tnums@.take(j as int) =~= tnums@);
        max_limit
    }

    /// Advances the rolling average of every rule by one period.
    pub fn update_averages(&mut self)
        requires
            forall|i: int| 0 <= i < old(self).entries@.len() ==> rate_fits(#[trigger] old(self).entries@[i]),
        ensures
            final(self).entries@ == Seq::new(
                old(self).entries@.len(),
                |i: int| averaged(old(self).entries@[i]),
            ),
    {
        let ghost es = self.entries@;
        let mut i: usize = 0;
        while i < self.entries.len()
            invariant
                i <= es.len(),
                es == old(self).entries@,
                self.entries@.len() == es.len(),
                forall|k: int| 0 <= k < es.len() ==> rate_fits(#[trigger] es[k]),
                forall|k: int|
                    0 <= k < es.len() ==> #[trigger] self.entries@[k] == if k < i {
                        averaged(es[k])
                    } else {
                        es[k]
                    },
            decreases es.len() - i,
        {
            assert(self.entries@[i as int] == es[i as int]);
            Self::update_rate(&mut self.entries[i]);
            i += 1;
        }
        assert(self.entries@ =~= Seq::new(es.len(), |k: int| averaged(es[k])));
    }

    /// The rolling average: `(2 * rate + bytes / THROTTLE_TIME) / 3`, in
    /// integer arithmetic that rounds toward zero; the byte count restarts.
    pub fn update_rate(entry: &mut ThrottleEntry)
        requires
            rate_fits(*old(entry)),
        ensures
            *final(entry) == averaged(*old(entry)),
    {
        entry.rate = (2 * entry.rate + entry.bytes_since_avg / THROTTLE_TIME) / 3;
        entry.bytes_since_avg = 0;
    }

    /// Fair-share limit for a connection.
    pub fn fair_share(max_limit: i64, num_sending: i64) -> (r: i64)
        ensures
            r == if num_sending > 0 {
                tdiv(max_limit as int, num_sending as int)
            } else {
                max_limit as int
            },
    {
        if num_sending > 0 {
            max_limit / num_sending
        } else {
            max_limit
        }
    }

    /// The limits of the first rule that applies to the file, or
    /// `(THROTTLE_NOLIMIT, THROTTLE_NOLIMIT)`.
    pub fn check_throttles(&self, filename: &str) -> (r: (i64, i64))
        ensures
            ({
                let es = self.entries@;
                let m = matched_indices(es, sb(filename));
                &&& m.len() == 0 ==> r == (THROTTLE_NOLIMIT, THROTTLE_NOLIMIT)
                &&& m.len() > 0 ==> r == (es[m[0] as int].max_limit, es[m[0] as int].min_limit)
            }),
    {
        let ghost es = self.entries@;
        let ghost f = sb(filename);
        let mut idx: usize = 0;
        assert(es.subrange(0, 0) =~= Seq::<ThrottleEntry>::empty());
        while idx < self.entries.len()
            invariant
                idx <= es.len(),
                es == self.entries@,
                f == sb(filename),
                matched_indices(es.subrange(0, idx as int), f).len() == 0,
            decreases es.len() - idx,
        {
            let ghost sub_next = es.subrange(0, idx + 1);
            assert(sub_next.drop_last() =~= es.subrange(0, idx as int));
            if match_pattern(self.entries[idx].pattern.as_str(), filename) {
                proof {
                    lemma_matched_prefix(es, f, idx + 1);
                    assert(matched_indices(sub_next, f) =~= seq![idx]);
                    let m = matched_indices(es, f);
                    assert(m.take(1) == seq![idx]);
                    assert(m[0] == m.take(1)[0]);
                }
                return (self.entries[idx].max_limit, self.entries[idx].min_limit);
            }
            idx += 1;
        }
        assert(es.subrange(0, idx as int) =~= es);
        (THROTTLE_NOLIMIT, THROTTLE_NOLIMIT)
    }
}

impl Default for ThrottleTable {
    fn default() -> (r: Self)
        ensures
            r.entries@ == Seq::<ThrottleEntry>::empty(),
    {
        Self::new()
    }
}

// ---------------------------------------------------------------- laws

proof fn lemma_selected_sorted(es: Seq<ThrottleEntry>, f: Seq<u8>)
    requires
        es.len() <= usize::MAX,
    ensures
        forall|q: int| 0 <= q < selected(es, f).len() ==> #[trigger] selected(es, f)[q] < es.len(),
        forall|q: int, r: int|
            #![trigger selected(es, f)[q], selected(es, f)[r]]
            0 <= q < r < selected(es, f).len() ==> selected(es, f)[q] < selected(es, f)[r],
{
    lemma_matched_bounds(es, f);
    let m = matched_indices(es, f);
    let sel = selected(es, f);
    assert forall|q: int| 0 <= q < sel.len() implies sel[q] == m[q] by {}
}

proof fn lemma_count_sorted(s: Seq<usize>, x: int)
    requires
        forall|q: int, r: int| #![trigger s[q], s[r]] 0 <= q < r < s.len() ==> s[q] < s[r],
    ensures
        count_of(s, x) == if s.contains(x as usize) && 0 <= x <= usize::MAX { 1nat } else { 0nat },
    decreases s.len(),
{
    if s.len() > 0 {
        let d = s.drop_last();
        assert forall|q: int, r: int| #![trigger d[q], d[r]] 0 <= q < r < d.len() implies d[q] < d[r] by {
            assert(s[q] < s[r]);
        }
        lemma_count_sorted(d, x);
        if s.last() == x {
            assert(!d.contains(x as usize)) by {
                if d.contains(x as usize) {
                    let q = choose|q: int| 0 <= q < d.len() && d[q] == x as usize;
                    assert(s[q] < s[s.len() - 1]);
                }
            }
            assert(s[s.len() - 1] == x as usize);
        } else {
            if s.contains(x as usize) && 0 <= x <= usize::MAX {
                let q = choose|q: int| 0 <= q < s.len() && s[q] == x as usize;
                assert(d[q] == x as usize);
            }
            if d.contains(x as usize) {
                let q = choose|q: int| 0 <= q < d.len() && d[q] == x as usize;
                assert(s[q] == x as usize);
            }
        }
    }
}

/// Closing a connection undoes its admission: after `check_request`
/// admitted a request against the rules `sel`, `clear(sel)` gives back the
/// table as it was (when no sender count was negative before).
pub proof fn law_clear_undoes_admission(es: Seq<ThrottleEntry>, f: Seq<u8>)
    requires
        es.len() <= usize::MAX,
        admission_fits(es, f),
        selected(es, f).len() > 0,
        first_out_of_band(es, selected(es, f)) == selected(es, f).len(),
        forall|i: int| 0 <= i < es.len() ==> #[trigger] es[i].num_sending >= 0,
    ensures
        cleared(admitted_at(es, selected(es, f)), selected(es, f)) == es,
{
    let sel = selected(es, f);
    lemma_selected_sorted(es, f);
    let a = admitted_at(es, sel);
    let c = cleared(a, sel);
    assert forall|i: int| 0 <= i < es.len() implies #[trigger] c[i] == es[i] by {
        lemma_count_sorted(sel, i);
        if sel.contains(i as usize) {
            let q = choose|q: int| 0 <= q < sel.len() && sel[q] == i as usize;
            assert(es[sel[q] as int].num_sending < i64::MAX);
        }
    }
    assert(c =~= es);
}

/// A refused request leaves the table as it was (when no sender count was
/// negative before).
pub proof fn law_reject_keeps_table(es: Seq<ThrottleEntry>, f: Seq<u8>)
    requires
        selected(es, f).len() > 0,
        first_out_of_band(es, selected(es, f)) < selected(es, f).len(),
        forall|i: int| 0 <= i < es.len() ==> #[trigger] es[i].num_sending >= 0,
    ensures
        clamped_at(es, selected(es, f).take(first_out_of_band(es, selected(es, f)) as int)) == es,
{
    let sel = selected(es, f);
    let c = clamped_at(es, sel.take(first_out_of_band(es, sel) as int));
    assert forall|i: int| 0 <= i < es.len() implies #[trigger] c[i] == es[i] by {}
    assert(c =~= es);
}

proof fn lemma_share_of_admitted(es: Seq<ThrottleEntry>, a: Seq<ThrottleEntry>, s: Seq<usize>)
    requires
        a.len() == es.len(),
        forall|q: int| 0 <= q < s.len() ==> #[trigger] s[q] < es.len(),
        forall|q: int|
            0 <= q < s.len() ==> #[trigger] a[s[q] as int] == admitted(es[s[q] as int]),
        forall|q: int| 0 <= q < s.len() ==> #[trigger] es[s[q] as int].num_sending < i64::MAX,
    ensures
        share_of(a, s) == admitted_max(es, s),
    decreases s.len(),
{
    if s.len() > 0 {
        let d = s.drop_last();
        assert forall|q: int| 0 <= q < d.len() implies #[trigger] d[q] < es.len() by {
            assert(s[q] < es.len());
        }
        assert forall|q: int| 0 <= q < d.len() implies #[trigger] a[d[q] as int] == admitted(es[d[q] as int]) by {
            assert(a[s[q] as int] == admitted(es[s[q] as int]));
        }
        assert forall|q: int| 0 <= q < d.len() implies #[trigger] es[d[q] as int].num_sending < i64::MAX by {
            assert(es[s[q] as int].num_sending < i64::MAX);
        }
        lemma_share_of_admitted(es, a, d);
        let t = s.last() as int;
        assert(s[s.len() - 1] < es.len());
        assert(a[t] == admitted(es[t]));
        assert(es[s[s.len() - 1] as int].num_sending < i64::MAX);
    }
}

/// Right after an admission, recomputing the connection's fair share from
/// the sender counts gives the maximum that the admission reported.
pub proof fn law_fair_share_after_admission(es: Seq<ThrottleEntry>, f: Seq<u8>)
    requires
        es.len() <= usize::MAX,
        admission_fits(es, f),
        first_out_of_band(es, selected(es, f)) == selected(es, f).len(),
    ensures
        share_of(admitted_at(es, selected(es, f)), selected(es, f)) == admitted_max(
            es,
            selected(es, f),
        ),
{
    let sel = selected(es, f);
    lemma_selected_sorted(es, f);
    let a = admitted_at(es, sel);
    assert forall|q: int| 0 <= q < sel.len() implies #[trigger] a[sel[q] as int] == admitted(
        es[sel[q] as int],
    ) by {
        assert(sel.contains(sel[q]));
    }
    lemma_share_of_admitted(es, a, sel);
}

// ---------------------------------------------------------------- rule file

/// `str::replace("|/", "|")` on characters.
pub open spec fn replace_bar_slash(s: Seq<char>) -> Seq<char>
    decreases s.len(),
{
    if s.len() == 0 {
        Seq::empty()
    } else if s.len() >= 2 && s[0] == '|' && s[1] == '/' {
        seq!['|'] + replace_bar_slash(s.skip(2))
    } else {
        seq![s[0]] + replace_bar_slash(s.drop_first())
    }
}

/// The `i64` that a run of characters denotes, as `str::parse` reads it.
pub open spec fn parse_i64_text(t: Seq<char>) -> Option<int> {
    parse_int_spec(encode_utf8(t), i64::MIN as int, i64::MAX as int)
}

/// The limits of a rate token: `min-max`, or `max` with a minimum of 0.
pub open spec fn rate_limits(tok: Seq<char>) -> Option<(int, int)> {
    let dash = next_char(tok, 0, '-');
    if dash < tok.len() {
        match (parse_i64_text(tok.take(dash)), parse_i64_text(tok.skip(dash + 1))) {
            (Some(mn), Some(mx)) => Some((mn, mx)),
            _ => None,
        }
    } else {
        match parse_i64_text(tok) {
            Some(mx) => Some((0, mx)),
            None => None,
        }
    }
}

/// A line of the throttle file: a pattern (quoted, or up to the first
/// whitespace), then a rate token. The pattern loses its leading slashes
/// and each `|/` becomes `|`. Gives the pattern, the maximum and the minimum.
pub open spec fn throttle_line(line: Seq<char>) -> Option<(Seq<char>, i64, i64)> {
    let quoted = line.len() > 0 && line[0] == '"';
    let pstart: int = if quoted { 1 } else { 0 };
    let pend = if quoted { next_char(line, 1, '"') } else { next_ws(line, 0) };
    if pend >= line.len() {
        None
    } else {
        let raw = line.subrange(pstart, pend);
        let pattern = replace_bar_slash(raw.skip(next_other(raw, 0, '/')));
        let rs = next_non_ws(line, pend + 1);
        let tok = line.subrange(rs, next_ws(line, rs));
        match rate_limits(tok) {
            Some((mn, mx)) => if pattern.len() == 0 {
                None
            } else {
                Some((pattern, mx as i64, mn as i64))
            },
            None => None,
        }
    }
}

/// `replace_bar_slash` of `cs[lo..]`, as a string.
fn collapse_bar_slash(cs: &[char], lo: usize) -> (r: String)
    requires
        lo <= cs@.len(),
    ensures
        r@ == replace_bar_slash(cs@.skip(lo as int)),
{
    let mut out = String::new();
    let mut i: usize = lo;
    while i < cs.len()
        invariant
            lo <= i <= cs@.len(),
            replace_bar_slash(cs@.skip(lo as int)) == out@ + replace_bar_slash(cs@.skip(i as int)),
        decreases cs@.len() - i,
    {
        let ghost t = cs@.skip(i as int);
        if i + 1 < cs.len() && cs[i] == '|' && cs[i + 1] == '/' {
            assert(t.skip(2) =~= cs@.skip(i + 2));
            push_char(&mut out, '|');
            i += 2;
        } else {
            assert(t.drop_first() =~= cs@.skip(i + 1));
            push_char(&mut out, cs[i]);
            i += 1;
        }
    }
    assert(replace_bar_slash(cs@.skip(i as int)) =~= Seq::<char>::empty());
    assert(out@ + Seq::<char>::empty() =~= out@);
    out
}

/// Parses one line of the throttle file; `None` when it is unparsable.
pub fn parse_line(line: &str) -> (r: Option<ThrottleEntry>)
    ensures
        match r {
            Some(e) => throttle_line(line@) == Some((e.pattern@, e.max_limit, e.min_limit))
                && e.rate == 0 && e.bytes_since_avg == 0 && e.num_sending == 0,
            None => throttle_line(line@) is None,
        },
{
    let cs = chars_of(line);
    let quoted = cs.len() > 0 && cs[0] == '"';
    let pstart: usize = if quoted { 1 } else { 0 };
    let pend = if quoted { find_char(cs.as_slice(), 1, '"') } else { find_ws(cs.as_slice(), 0) };
    if pend >= cs.len() {
        return None;
    }
    let raw = copy_chars(cs.as_slice(), pstart, pend);
    let strip = find_other(raw.as_slice(), 0, '/');
    let pattern = collapse_bar_slash(raw.as_slice(), strip);
    let rs = find_non_ws(cs.as_slice(), pend + 1);
    let te = find_ws(cs.as_slice(), rs);
    let tok = copy_chars(cs.as_slice(), rs, te);
    let dash = find_char(tok.as_slice(), 0, '-');
    let (min_limit, max_limit) = if dash < tok.len() {
        let mn = match parse_i64_chars(tok.as_slice(), 0, dash) {
            Some(v) => v,
            None => {
                assert(tok@.subrange(0, dash as int) =~= tok@.take(dash as int));
                return None;
            },
        };
        let mx = match parse_i64_chars(tok.as_slice(), dash + 1, tok.len()) {
            Some(v) => v,
            None => {
                assert(tok@.subrange(dash + 1, tok@.len() as int) =~= tok@.skip(dash + 1));
                return None;
            },
        };
        assert(tok@.subrange(0, dash as int) =~= tok@.take(dash as int));
        assert(tok@.subrange(dash + 1, tok@.len() as int) =~= tok@.skip(dash + 1));
        (mn, mx)
    } else {
        assert(tok@.subrange(0, tok@.len() as int) =~= tok@);
        match parse_i64_chars(tok.as_slice(), 0, tok.len()) {
            Some(v) => (0i64, v),
            None => {
                return None;
            },
        }
    };
    if pattern.as_str().unicode_len() == 0 {
        return None;
    }
    Some(ThrottleEntry::new(pattern, max_limit, min_limit))
}

// ---------------------------------------------------------------- the throttle file

/// End of `s[..k]` once trailing spaces, tabs, newlines and carriage
/// returns are dropped.
pub open spec fn strip4_end(s: Seq<char>, k: int) -> int
    decreases k,
{
    if k <= 0 || k > s.len() {
        0
    } else if s[k - 1] == ' ' || s[k - 1] == '\t' || s[k - 1] == '\n' || s[k - 1] == '\r' {
        strip4_end(s, k - 1)
    } else {
        k
    }
}

/// What one line of the throttle file gives: nothing (blank or comment),
/// an entry, or an unparsable line.
pub enum FileLine {
    Skip,
    Entry((Seq<char>, i64, i64)),
    Bad,
}

/// The meaning of a line: trailing spaces, tabs and line ends dropped, then
/// a comment from `#` on cut off; a line left blank is skipped.
pub open spec fn file_line(raw: Seq<char>) -> FileLine {
    let line = raw.take(strip4_end(raw, raw.len() as int));
    let h = next_char(line, 0, '#');
    let text = if h < line.len() {
        let t = line.take(h);
        t.take(end_non_ws(t, t.len() as int))
    } else {
        line
    };
    if (h < line.len() && trim_ws(line.take(h)).len() == 0) || (h >= line.len() && line.len() == 0) {
        FileLine::Skip
    } else {
        match throttle_line(text) {
            Some(e) => FileLine::Entry(e),
            None => FileLine::Bad,
        }
    }
}

/// The entries and the unparsable lines (number from one, text) of
/// `pieces[k..]`.
pub open spec fn load_from(pieces: Seq<Seq<char>>, k: int) -> (Seq<(Seq<char>, i64, i64)>, Seq<(int, Seq<char>)>)
    decreases pieces.len() - k,
{
    if k < 0 || k >= pieces.len() {
        (Seq::empty(), Seq::empty())
    } else {
        let rest = load_from(pieces, k + 1);
        match file_line(pieces[k]) {
            FileLine::Skip => rest,
            FileLine::Entry(e) => (seq![e] + rest.0, rest.1),
            FileLine::Bad => (rest.0, seq![(k + 1, raw_line(pieces, k))] + rest.1),
        }
    }
}

pub open spec fn entry_triples(es: Seq<ThrottleEntry>) -> Seq<(Seq<char>, i64, i64)> {
    es.map_values(|e: ThrottleEntry| (e.pattern@, e.max_limit, e.min_limit))
}

pub open spec fn all_fresh(es: Seq<ThrottleEntry>) -> bool {
    forall|i: int| 0 <= i < es.len() ==> #[trigger] es[i].rate == 0 && es[i].bytes_since_avg == 0
        && es[i].num_sending == 0
}

fn strip4(cs: &[char]) -> (r: Vec<char>)
    ensures
        r@ == cs@.take(strip4_end(cs@, cs@.len() as int)),
{
    let mut k = cs.len();
    while k > 0 && (cs[k - 1] == ' ' || cs[k - 1] == '\t' || cs[k - 1] == '\n' || cs[k - 1] == '\r')
        invariant
            k <= cs@.len(),
            strip4_end(cs@, cs@.len() as int) == strip4_end(cs@, k as int),
        decreases k,
    {
        k -= 1;
    }
    let r = copy_chars(cs, 0, k);
    assert(r@ =~= cs@.take(k as int));
    r
}

/// What a line of the throttle file gives.
fn read_file_line(raw: &[char]) -> (r: Option<Option<ThrottleEntry>>)
    ensures
        match file_line(raw@) {
            FileLine::Skip => r is None,
            FileLine::Entry(t) => r matches Some(Some(e)) && (e.pattern@, e.max_limit, e.min_limit) == t
                && e.rate == 0 && e.bytes_since_avg == 0 && e.num_sending == 0,
            FileLine::Bad => r matches Some(None),
        },
{
    let line = strip4(raw);
    let h = find_char(line.as_slice(), 0, '#');
    if h < line.len() {
        let t = copy_chars(line.as_slice(), 0, h);
        assert(t@ =~= line@.take(h as int));
        let tt = trim_chars(t.as_slice());
        if tt.len() == 0 {
            return None;
        }
        let text = trim_end_chars(t.as_slice());
        let s = string_of_chars(text.as_slice(), 0, text.len());
        assert(s@ =~= text@);
        Some(parse_line(s.as_str()))
    } else {
        if line.len() == 0 {
            return None;
        }
        let s = string_of_chars(line.as_slice(), 0, line.len());
        assert(s@ =~= line@);
        Some(parse_line(s.as_str()))
    }
}

/// The unparsable lines as numbers and texts.
pub open spec fn bad_lines(b: Seq<(usize, String)>) -> Seq<(int, Seq<char>)> {
    b.map_values(|p: (usize, String)| (p.0 as int, p.1@))
}

impl ThrottleTable {
    /// Reads the text of a throttle file: the table of its entries, and the
    /// unparsable lines (numbered from one, with their text) for the caller
    /// to report. Blank lines and comments are skipped.
    #[verifier::spinoff_prover]
    #[verifier::rlimit(40)]
    pub fn load_text(content: &str) -> (r: (ThrottleTable, Vec<(usize, String)>))
        ensures
            entry_triples(r.0.entries@) == load_from(split_on(content@, '\n'), 0).0,
            bad_lines(r.1@) == load_from(split_on(content@, '\n'), 0).1,
            all_fresh(r.0.entries@),
    {
        let cs = chars_of(content);
        let pieces = split_chars(cs.as_slice(), '\n');
        let ghost ps = split_on(content@, '\n');
        assert(pieces@.map_values(|p: Vec<char>| p@) =~= ps);
        let ghost want = load_from(ps, 0);
        let mut entries: Vec<ThrottleEntry> = Vec::new();
        let mut bad: Vec<(usize, String)> = Vec::new();
        let mut k: usize = 0;
        assert(entry_triples(entries@) =~= Seq::empty());
        assert(bad_lines(bad@) =~= Seq::empty());
        while k < pieces.len()
            invariant
                k <= pieces@.len(),
                pieces@.map_values(|p: Vec<char>| p@) == ps,
                want == load_from(ps, 0),
                want.0 == entry_triples(entries@) + load_from(ps, k as int).0,
                want.1 == bad_lines(bad@) + load_from(ps, k as int).1,
                all_fresh(entries@),
            decreases pieces@.len() - k,
        {
            let piece = &pieces[k];
            assert(piece@ == ps[k as int]);
            let ghost rest = load_from(ps, k + 1);
            let ghost cur = load_from(ps, k as int);
            match read_file_line(piece.as_slice()) {
                None => {
                    assert(cur == rest);
                },
                Some(Some(e)) => {
                    let ghost old_e = entry_triples(entries@);
                    entries.push(e);
                    assert(entry_triples(entries@) =~= old_e.push((e.pattern@, e.max_limit, e.min_limit)));
                    assert(cur.0 =~= seq![(e.pattern@, e.max_limit, e.min_limit)] + rest.0);
                    assert(want.0 =~= entry_triples(entries@) + rest.0);
                    assert(cur.1 == rest.1);
                },
                Some(None) => {
                    let text = line_string(&pieces, k);
                    let ghost old_b = bad_lines(bad@);
                    bad.push((k + 1, text));
                    assert(bad_lines(bad@) =~= old_b.push((k + 1, raw_line(ps, k as int))));
                    assert(cur.1 =~= seq![(k + 1, raw_line(ps, k as int))] + rest.1);
                    assert(want.1 =~= bad_lines(bad@) + rest.1);
                    assert(cur.0 == rest.0);
                },
            }
            k += 1;
        }
        assert(load_from(ps, k as int).0 =~= Seq::empty());
        assert(want.0 =~= entry_triples(entries@));
        assert(want.1 =~= bad_lines(bad@));
        (ThrottleTable { entries }, bad)
    }
}

} // verus!
