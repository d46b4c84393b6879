//! Weighted request routing across healthy backends. Active-active and
//! canary modes pick a candidate by weighted random draw; shadow mode always
//! serves the configured primary and mirrors to the shadow backend.
//! Candidates are enumerated without side effects; only the backend that is
//! actually picked claims a half-open probe.

use vstd::prelude::*;
use vstd::string::*;
use crate::circuit::{Breaker, BreakerView, admitted, routable};
use crate::health::BackendHealth;
use crate::migrate::{Health, RoutingConfig, RoutingMode};
use crate::text::{chars_of, chars_equal};

verus! {

/// A backend of the pool: its name, routing weight, health and breaker.
pub struct PoolBackend {
    pub name: String,
    pub weight: u32,
    pub health: BackendHealth,
    pub breaker: Breaker,
}

/// Where a request goes: the index of the serving backend and, in shadow
/// mode, of the backend that receives the mirrored request.
#[derive(Debug, Clone, Copy, PartialEq, Eq)]
pub struct RouteChoice {
    pub backend: usize,
    pub shadow: Option<usize>,
}

/// A backend may be picked in active-active or canary mode: healthy enough,
/// with weight, and its breaker lets it be considered.
pub open spec fn is_candidate(b: PoolBackend, now: u64) -> bool {
    b.health.health != Health::Unhealthy && b.weight > 0 && routable(b.breaker@, now)
}

/// The sum of the weights of `s[..k]`.
pub open spec fn weight_sum(s: Seq<u32>, k: int) -> int
    decreases k,
{
    if k <= 0 || k > s.len() {
        0
    } else {
        weight_sum(s, k - 1) + s[k - 1]
    }
}

/// The weighted pick: the first index whose running weight passes `pick`,
/// or the last index when none does.
pub open spec fn weighted_index(weights: Seq<u32>, pick: int) -> int
    recommends
        weights.len() > 0,
{
    if exists|i: int| 0 <= i < weights.len() && pick < #[trigger] weight_sum(weights, i + 1) {
        choose|i: int|
            0 <= i < weights.len() && pick < #[trigger] weight_sum(weights, i + 1) && forall|j: int|
                0 <= j < i ==> pick >= #[trigger] weight_sum(weights, j + 1)
    } else {
        weights.len() - 1
    }
}

proof fn lemma_weight_sum_mono(s: Seq<u32>, i: int, j: int)
    requires
        0 <= i <= j <= s.len(),
    ensures
        weight_sum(s, i) <= weight_sum(s, j),
    decreases j - i,
{
    if i < j {
        lemma_weight_sum_mono(s, i, j - 1);
    }
}

/// Selects by weight: `pick` is a draw below the sum of the weights.
pub fn select_weighted(weights: &[u32], pick: u32) -> (r: usize)
    requires
        weights@.len() > 0,
        weight_sum(weights@, weights@.len() as int) <= u32::MAX,
    ensures
        r < weights@.len(),
        r == weighted_index(weights@, pick as int),
{
    let mut acc: u32 = 0;
    let mut i: usize = 0;
    while i < weights.len()
        invariant
            i <= weights@.len(),
            acc == weight_sum(weights@, i as int),
            weight_sum(weights@, weights@.len() as int) <= u32::MAX,
            forall|j: int| 0 <= j < i ==> pick >= #[trigger] weight_sum(weights@, j + 1),
        decreases weights@.len() - i,
    {
        proof {
            lemma_weight_sum_mono(weights@, i + 1, weights@.len() as int);
        }
        acc = acc + weights[i];
        if pick < acc {
            proof {
                let w = weights@;
                assert(pick < weight_sum(w, i + 1));
                let k = choose|k: int|
                    0 <= k < w.len() && pick < #[trigger] weight_sum(w, k + 1) && forall|j: int|
                        0 <= j < k ==> pick >= #[trigger] weight_sum(w, j + 1);
                if k < i {
                    assert(pick >= weight_sum(w, k + 1));
                } else if k > i {
                    assert(pick >= weight_sum(w, i + 1));
                }
            }
            return i;
        }
        i += 1;
    }
    weights.len() - 1
}

/// Calls `rand::rng().random_range(0..total)`: a uniform draw below `total`.
/// Only the range of the draw is stated.
#[verifier::external_body]
fn random_below(total: u32) -> (r: u32)
    requires
        total > 0,
    ensures
        r < total,
{
    rand::Rng::random_range(&mut rand::rng(), 0..total)
}

/// The index of the first backend with a name.
pub open spec fn index_of(pool: Seq<PoolBackend>, name: Seq<char>) -> Option<int> {
    if exists|i: int| 0 <= i < pool.len() && #[trigger] pool[i].name@ == name {
        Some(choose|i: int| 0 <= i < pool.len() && #[trigger] pool[i].name@ == name && forall|j: int|
            0 <= j < i ==> pool[j].name@ != name)
    } else {
        None
    }
}

fn find_backend(pool: &Vec<PoolBackend>, name: &String) -> (r: Option<usize>)
    ensures
        match r {
            Some(i) => index_of(pool@, name@) == Some(i as int) && i < pool@.len(),
            None => index_of(pool@, name@) is None,
        },
{
    let mut i: usize = 0;
    while i < pool.len()
        invariant
            i <= pool@.len(),
            forall|j: int| 0 <= j < i ==> pool@[j].name@ != name@,
        decreases pool@.len() - i,
    {
        let cs = chars_of(pool[i].name.as_str());
        if chars_equal(cs.as_slice(), name.as_str()) {
            proof {
                let k = choose|k: int| 0 <= k < pool@.len() && #[trigger] pool@[k].name@ == name@
                    && forall|j: int| 0 <= j < k ==> pool@[j].name@ != name@;
                if k < i {
                } else if k > i {
                    assert(pool@[i as int].name@ == name@);
                }
            }
            return Some(i);
        }
        i += 1;
    }
    None
}

/// The breakers of a pool.
pub open spec fn breakers(pool: Seq<PoolBackend>) -> Seq<BreakerView> {
    pool.map_values(|b: PoolBackend| b.breaker@)
}

/// The pool with one backend's breaker admitted at `now`; names, weights
/// and health unchanged.
pub open spec fn after_admit(old: Seq<PoolBackend>, new: Seq<PoolBackend>, i: int, now: u64) -> bool {
    &&& new.len() == old.len()
    &&& forall|j: int| 0 <= j < old.len() ==> #[trigger] new[j].name@ == old[j].name@
        && new[j].weight == old[j].weight && new[j].health == old[j].health
    &&& forall|j: int| 0 <= j < old.len() && j != i ==> #[trigger] new[j].breaker@ == old[j].breaker@
    &&& new[i].breaker@ == admitted(old[i].breaker@, now).0
}

fn claim(pool: &mut Vec<PoolBackend>, i: usize, now: u64) -> (ok: bool)
    requires
        i < old(pool)@.len(),
    ensures
        after_admit(old(pool)@, final(pool)@, i as int, now),
        same_backends(old(pool)@, final(pool)@),
        ok == admitted(old(pool)@[i as int].breaker@, now).1,
{
    let mut b = pool.remove(i);
    let ok = b.breaker.try_admit(now);
    pool.insert(i, b);
    proof {
        assert forall|j: int| 0 <= j < old(pool)@.len() && j != i implies #[trigger] pool@[j].breaker@
            == old(pool)@[j].breaker@ by {
            assert(pool@[j] == old(pool)@[j]);
        }
        assert forall|j: int| 0 <= j < old(pool)@.len() implies #[trigger] pool@[j].name@
            == old(pool)@[j].name@ && pool@[j].weight == old(pool)@[j].weight && pool@[j].health
            == old(pool)@[j].health by {
            if j != i {
                assert(pool@[j] == old(pool)@[j]);
            }
        }
    }
    ok
}

fn candidate(b: &PoolBackend, now: u64) -> (r: bool)
    ensures
        r == is_candidate(*b, now),
{
    b.health.is_routable() && b.weight > 0 && b.breaker.can_route(now)
}

/// The total weight of a pool.
pub open spec fn pool_weight(pool: Seq<PoolBackend>) -> int {
    weight_sum(pool.map_values(|b: PoolBackend| b.weight), pool.len() as int)
}

proof fn lemma_subset_weight(pool: Seq<PoolBackend>, idx: Seq<usize>, k: int)
    requires
        0 <= k <= idx.len(),
        forall|a: int, b: int| 0 <= a < b < idx.len() ==> idx[a] < idx[b],
        forall|a: int| 0 <= a < idx.len() ==> #[trigger] idx[a] < pool.len(),
    ensures
        weight_sum(idx.map_values(|i: usize| pool[i as int].weight), k) <= weight_sum(
            pool.map_values(|b: PoolBackend| b.weight),
            if k == 0 { 0 } else { idx[k - 1] + 1 },
        ),
    decreases k,
{
    let ws = pool.map_values(|b: PoolBackend| b.weight);
    let cs = idx.map_values(|i: usize| pool[i as int].weight);
    if k > 0 {
        lemma_subset_weight(pool, idx, k - 1);
        let prev_end: int = if k - 1 == 0 { 0 } else { idx[k - 2] + 1 };
        lemma_weight_sum_mono(ws, prev_end, idx[k - 1] as int);
        assert(cs[k - 1] == ws[idx[k - 1] as int]);
    }
}

/// The pool keeps every backend's name, weight and health.
pub open spec fn same_backends(old: Seq<PoolBackend>, new: Seq<PoolBackend>) -> bool {
    &&& new.len() == old.len()
    &&& forall|j: int| 0 <= j < old.len() ==> #[trigger] new[j].name@ == old[j].name@
        && new[j].weight == old[j].weight && new[j].health == old[j].health
}

/// Shadow mode: the primary serves when it is in the pool, routable and its
/// breaker admits it; the mirror goes to the shadow backend when that is
/// another routable backend whose breaker admits it.
pub open spec fn shadow_primary_ok(pool: Seq<PoolBackend>, routing: RoutingConfig, now: u64) -> bool {
    routing.primary_backend matches Some(p) && index_of(pool, p@) matches Some(i)
        && pool[i].health.health != Health::Unhealthy && routable(pool[i].breaker@, now)
}

proof fn lemma_same_backends_trans(a: Seq<PoolBackend>, b: Seq<PoolBackend>, c: Seq<PoolBackend>)
    requires
        same_backends(a, b),
        same_backends(b, c),
    ensures
        same_backends(a, c),
{
    assert forall|j: int| 0 <= j < a.len() implies #[trigger] c[j].name@ == a[j].name@ && c[j].weight
        == a[j].weight && c[j].health == a[j].health by {
        assert(b[j].name@ == a[j].name@);
        assert(b[j].weight == a[j].weight);
        assert(b[j].health == a[j].health);
        assert(c[j].name@ == b[j].name@);
        assert(c[j].weight == b[j].weight);
        assert(c[j].health == b[j].health);
    }
}

/// Two pools whose backends have the same names in the same places find a
/// name at the same place.
proof fn lemma_index_of_same_names(a: Seq<PoolBackend>, b: Seq<PoolBackend>, x: Seq<char>)
    requires
        a.len() == b.len(),
        forall|j: int| 0 <= j < a.len() ==> #[trigger] a[j].name@ == b[j].name@,
    ensures
        index_of(a, x) == index_of(b, x),
{
    if exists|i: int| 0 <= i < a.len() && #[trigger] a[i].name@ == x {
        let i = choose|i: int| 0 <= i < a.len() && #[trigger] a[i].name@ == x;
        assert(b[i].name@ == x);
        let ia = choose|k: int| 0 <= k < a.len() && #[trigger] a[k].name@ == x && forall|j: int|
            0 <= j < k ==> a[j].name@ != x;
        let ib = choose|k: int| 0 <= k < b.len() && #[trigger] b[k].name@ == x && forall|j: int|
            0 <= j < k ==> b[j].name@ != x;
        lemma_first_name(a, x, i);
        lemma_first_name(b, x, i);
        if ia < ib {
            assert(b[ia].name@ == a[ia].name@);
        } else if ib < ia {
            assert(a[ib].name@ == b[ib].name@);
        }
    } else {
        assert forall|i: int| 0 <= i < b.len() implies #[trigger] b[i].name@ != x by {
            assert(a[i].name@ == b[i].name@);
        }
    }
}

/// A name present in a pool has a first place.
proof fn lemma_first_name(a: Seq<PoolBackend>, x: Seq<char>, i: int)
    requires
        0 <= i < a.len(),
        a[i].name@ == x,
    ensures
        exists|k: int| 0 <= k < a.len() && #[trigger] a[k].name@ == x && forall|j: int| 0 <= j < k ==> a[j].name@ != x,
    decreases i,
{
    if exists|j: int| 0 <= j < i && #[trigger] a[j].name@ == x {
        let j = choose|j: int| 0 <= j < i && #[trigger] a[j].name@ == x;
        lemma_first_name(a, x, j);
    } else {
        assert(forall|j: int| 0 <= j < i ==> a[j].name@ != x);
    }
}

/// The backend that shadow mode would mirror to, next to the primary at
/// `i`: the configured shadow backend, when it is in the pool, is not the
/// primary (by name), is not unhealthy and its breaker lets it be
/// considered.
pub open spec fn mirror_target(pool: Seq<PoolBackend>, routing: RoutingConfig, i: int, now: u64) -> Option<int> {
    match routing.shadow_backend {
        Some(sn) => match index_of(pool, sn@) {
            Some(s) => if pool[s].name@ != pool[i].name@ && pool[s].health.health != Health::Unhealthy
                && routable(pool[s].breaker@, now) {
                Some(s)
            } else {
                None
            },
            None => None,
        },
        None => None,
    }
}

/// The mirror chosen: the target, when its breaker admits it.
pub open spec fn mirror_choice(pool: Seq<PoolBackend>, routing: RoutingConfig, i: int, now: u64) -> Option<int> {
    match mirror_target(pool, routing, i, now) {
        Some(s) => if admitted(pool[s].breaker@, now).1 {
            Some(s)
        } else {
            None
        },
        None => None,
    }
}

/// The mirror of shadow mode, next to the primary at index `i`: the
/// target's breaker is asked to admit it (and changes as admission says),
/// and the target is the mirror when it is admitted; with no target the
/// pool stays as it is.
fn mirror(pool: &mut Vec<PoolBackend>, routing: &RoutingConfig, i: usize, now: u64) -> (r: Option<usize>)
    requires
        i < old(pool)@.len(),
    ensures
        same_backends(old(pool)@, final(pool)@),
        r matches Some(s) ==> s < old(pool)@.len(),
        match mirror_target(old(pool)@, *routing, i as int, now) {
            Some(s) => after_admit(old(pool)@, final(pool)@, s, now),
            None => final(pool)@ == old(pool)@,
        },
        match r {
            Some(s) => mirror_choice(old(pool)@, *routing, i as int, now) == Some(s as int),
            None => mirror_choice(old(pool)@, *routing, i as int, now) is None,
        },
{
    let sn = match &routing.shadow_backend {
        Some(sn) => sn,
        None => {
            return None;
        },
    };
    let s = match find_backend(pool, sn) {
        Some(s) => s,
        None => {
            return None;
        },
    };
    let same = {
        let a = chars_of(pool[s].name.as_str());
        chars_equal(a.as_slice(), pool[i].name.as_str())
    };
    if !same && pool[s].health.is_routable() && pool[s].breaker.can_route(now) {
        if claim(pool, s, now) {
            return Some(s);
        }
    }
    None
}

/// The breakers after shadow mode routes to the primary at `i`: the
/// primary's breaker admitted at `now`, then the mirror target's, if there
/// is one; every other breaker as it was.
pub open spec fn shadow_breakers_after(pool: Seq<PoolBackend>, routing: RoutingConfig, i: int, now: u64) -> Seq<BreakerView> {
    let b1 = breakers(pool).update(i, admitted(pool[i].breaker@, now).0);
    match mirror_target(pool, routing, i, now) {
        Some(s) => b1.update(s, admitted(pool[s].breaker@, now).0),
        None => b1,
    }
}

fn decide_shadow(pool: &mut Vec<PoolBackend>, routing: &RoutingConfig, now: u64) -> (r: Option<RouteChoice>)
    ensures
        same_backends(old(pool)@, final(pool)@),
        r matches Some(c) ==> breakers(final(pool)@) == shadow_breakers_after(
            old(pool)@,
            *routing,
            c.backend as int,
            now,
        ),
        r is None ==> breakers(final(pool)@) == breakers(old(pool)@),
        r is Some <==> shadow_primary_ok(old(pool)@, *routing, now),
        r matches Some(c) ==> (routing.primary_backend matches Some(p) && index_of(old(pool)@, p@)
            == Some(c.backend as int)),
        r matches Some(c) ==> shadow_view(c.shadow) == mirror_choice(old(pool)@, *routing, c.backend as int, now),
{
    let name = match &routing.primary_backend {
        Some(n) => n,
        None => {
            return None;
        },
    };
    let i = match find_backend(pool, name) {
        Some(i) => i,
        None => {
            return None;
        },
    };
    if !pool[i].health.is_routable() || !pool[i].breaker.can_route(now) {
        return None;
    }
    let ghost p0 = pool@;
    let first = claim(pool, i, now);
    if !first {
        proof {
            assert(admitted(p0[i as int].breaker@, now).0 == p0[i as int].breaker@);
            assert(breakers(pool@) =~= breakers(p0));
        }
        return None;
    }
    let ghost p1 = pool@;
    let shadow = mirror(pool, routing, i, now);
    proof {
        lemma_same_backends_trans(p0, p1, pool@);
        lemma_mirror_after_primary(p0, p1, *routing, i as int, now);
        lemma_mirror_target_same(p0, p1, *routing, i as int, now);
        let want = shadow_breakers_after(p0, *routing, i as int, now);
        assert forall|j: int| 0 <= j < p0.len() implies #[trigger] breakers(pool@)[j] == want[j] by {
            match mirror_target(p0, *routing, i as int, now) {
                Some(t) => {
                    if j == t {
                    } else if j == i {
                    } else {
                    }
                },
                None => {},
            }
        }
        assert(breakers(pool@) =~= want);
    }
    Some(RouteChoice { backend: i, shadow })
}

pub open spec fn shadow_view(s: Option<usize>) -> Option<int> {
    match s {
        Some(v) => Some(v as int),
        None => None,
    }
}

/// Admitting the primary does not change which mirror is chosen.
proof fn lemma_mirror_target_same(p0: Seq<PoolBackend>, p1: Seq<PoolBackend>, routing: RoutingConfig, i: int, now: u64)
    requires
        0 <= i < p0.len(),
        same_backends(p0, p1),
        forall|j: int| 0 <= j < p0.len() && j != i ==> #[trigger] p1[j].breaker@ == p0[j].breaker@,
    ensures
        mirror_target(p1, routing, i, now) == mirror_target(p0, routing, i, now),
        mirror_target(p0, routing, i, now) matches Some(s) ==> 0 <= s < p0.len() && s != i
            && p1[s].breaker@ == p0[s].breaker@,
{
    if routing.shadow_backend is Some {
        let sn = routing.shadow_backend.unwrap();
        assert forall|j: int| 0 <= j < p0.len() implies #[trigger] p0[j].name@ == p1[j].name@ by {
            assert(p1[j].name@ == p0[j].name@);
        }
        lemma_index_of_same_names(p0, p1, sn@);
        lemma_index_of_range(p0, sn@);
        let o = index_of(p0, sn@);
        assert(index_of(p1, sn@) == o);
        if o is Some {
            let s = o.unwrap();
            let n0 = p0[s].name@;
            let n1 = p1[s].name@;
            assert(n0 == n1);
            assert(p0[i].name@ == p1[i].name@);
            assert(p0[s].health == p1[s].health);
            if n0 != p0[i].name@ {
                assert(s != i);
                assert(p1[s].breaker@ == p0[s].breaker@);
            }
            let c0 = p0[s].name@ != p0[i].name@ && p0[s].health.health != Health::Unhealthy && routable(p0[s].breaker@, now);
            let c1 = p1[s].name@ != p1[i].name@ && p1[s].health.health != Health::Unhealthy && routable(p1[s].breaker@, now);
            assert(c0 == c1);
            assert(mirror_target(p0, routing, i, now) == (if c0 { Some(s) } else { None::<int> }));
            assert(mirror_target(p1, routing, i, now) == (if c1 { Some(s) } else { None::<int> }));
        }
    }
}

proof fn lemma_index_of_range(p: Seq<PoolBackend>, x: Seq<char>)
    ensures
        index_of(p, x) matches Some(s) ==> 0 <= s < p.len() && p[s].name@ == x,
{
    if exists|i: int| 0 <= i < p.len() && #[trigger] p[i].name@ == x {
        let i = choose|i: int| 0 <= i < p.len() && #[trigger] p[i].name@ == x;
        lemma_first_name(p, x, i);
    }
}

/// Admitting the primary does not change which mirror is chosen.
proof fn lemma_mirror_after_primary(p0: Seq<PoolBackend>, p1: Seq<PoolBackend>, routing: RoutingConfig, i: int, now: u64)
    requires
        0 <= i < p0.len(),
        after_admit(p0, p1, i, now),
    ensures
        mirror_choice(p1, routing, i, now) == mirror_choice(p0, routing, i, now),
{
    assert(same_backends(p0, p1));
    lemma_mirror_target_same(p0, p1, routing, i, now);
}

/// The candidates among `pool[..k]`, by index, in pool order.
pub open spec fn candidates_upto(pool: Seq<PoolBackend>, now: u64, k: int) -> Seq<usize>
    decreases k,
{
    if k <= 0 || k > pool.len() {
        Seq::empty()
    } else {
        let r = candidates_upto(pool, now, k - 1);
        if is_candidate(pool[k - 1], now) {
            r.push((k - 1) as usize)
        } else {
            r
        }
    }
}

/// The candidates of the pool, by index, in pool order.
pub open spec fn candidates(pool: Seq<PoolBackend>, now: u64) -> Seq<usize> {
    candidates_upto(pool, now, pool.len() as int)
}

/// The weights of the candidates, in the same order.
pub open spec fn candidate_weights(pool: Seq<PoolBackend>, now: u64) -> Seq<u32> {
    candidates(pool, now).map_values(|i: usize| pool[i as int].weight)
}

/// The total weight of the candidates: the range a draw is taken from.
pub open spec fn candidate_total(pool: Seq<PoolBackend>, now: u64) -> int {
    weight_sum(candidate_weights(pool, now), candidates(pool, now).len() as int)
}

proof fn lemma_candidates_upto(pool: Seq<PoolBackend>, now: u64, k: int)
    requires
        0 <= k <= pool.len(),
        pool.len() <= usize::MAX,
    ensures
        ({
            let c = candidates_upto(pool, now, k);
            &&& forall|a: int| 0 <= a < c.len() ==> #[trigger] c[a] < k
            &&& forall|a: int, b: int| 0 <= a < b < c.len() ==> c[a] < c[b]
            &&& forall|a: int| 0 <= a < c.len() ==> is_candidate(pool[#[trigger] c[a] as int], now)
            &&& forall|j: int| 0 <= j < k && is_candidate(#[trigger] pool[j], now) ==> c.contains(j as usize)
        }),
    decreases k,
{
    if k > 0 {
        lemma_candidates_upto(pool, now, k - 1);
        let r = candidates_upto(pool, now, k - 1);
        let c = candidates_upto(pool, now, k);
        if is_candidate(pool[k - 1], now) {
            assert(c == r.push((k - 1) as usize));
            assert forall|j: int| 0 <= j < k && is_candidate(#[trigger] pool[j], now) implies c.contains(j as usize) by {
                if j < k - 1 {
                    let a = choose|a: int| 0 <= a < r.len() && r[a] == j as usize;
                    assert(c[a] == j as usize);
                } else {
                    assert(c[c.len() - 1] == j as usize);
                }
            }
        }
    }
}

/// The candidates of the pool, in pool order.
fn candidate_list(pool: &Vec<PoolBackend>, now: u64) -> (c: Vec<usize>)
    ensures
        c@ == candidates(pool@, now),
        forall|a: int| 0 <= a < c@.len() ==> #[trigger] c@[a] < pool@.len(),
        forall|a: int, b: int| 0 <= a < b < c@.len() ==> c@[a] < c@[b],
        forall|a: int| 0 <= a < c@.len() ==> is_candidate(pool@[#[trigger] c@[a] as int], now),
        forall|j: int| 0 <= j < pool@.len() && is_candidate(#[trigger] pool@[j], now) ==> c@.contains(j as usize),
{
    let mut cands: Vec<usize> = Vec::new();
    let mut k: usize = 0;
    while k < pool.len()
        invariant
            k <= pool@.len(),
            cands@ == candidates_upto(pool@, now, k as int),
        decreases pool@.len() - k,
    {
        if candidate(&pool[k], now) {
            cands.push(k);
        }
        k += 1;
    }
    proof {
        lemma_candidates_upto(pool@, now, pool@.len() as int);
    }
    cands
}

/// The weights of the listed backends, and their total.
fn weights_of(pool: &Vec<PoolBackend>, cands: &Vec<usize>) -> (r: (Vec<u32>, u32))
    requires
        forall|a: int| 0 <= a < cands@.len() ==> #[trigger] cands@[a] < pool@.len(),
        forall|a: int, b: int| 0 <= a < b < cands@.len() ==> cands@[a] < cands@[b],
        pool_weight(pool@) <= u32::MAX,
    ensures
        r.0@ == cands@.map_values(|i: usize| pool@[i as int].weight),
        r.1 == weight_sum(r.0@, r.0@.len() as int),
{
    let mut weights: Vec<u32> = Vec::new();
    let mut t: usize = 0;
    while t < cands.len()
        invariant
            t <= cands@.len(),
            weights@ == cands@.take(t as int).map_values(|i: usize| pool@[i as int].weight),
            forall|a: int| 0 <= a < cands@.len() ==> #[trigger] cands@[a] < pool@.len(),
        decreases cands@.len() - t,
    {
        weights.push(pool[cands[t]].weight);
        assert(cands@.take(t + 1).map_values(|i: usize| pool@[i as int].weight) =~= weights@);
        t += 1;
    }
    assert(cands@.take(t as int) =~= cands@);
    proof {
        if cands@.len() > 0 {
            lemma_subset_weight(pool@, cands@, cands@.len() as int);
            lemma_weight_sum_mono(
                pool@.map_values(|b: PoolBackend| b.weight),
                cands@[cands@.len() - 1] + 1,
                pool@.len() as int,
            );
        }
    }
    let mut total: u32 = 0;
    let mut u: usize = 0;
    while u < weights.len()
        invariant
            u <= weights@.len(),
            total == weight_sum(weights@, u as int),
            weight_sum(weights@, weights@.len() as int) <= u32::MAX,
        decreases weights@.len() - u,
    {
        proof {
            lemma_weight_sum_mono(weights@, u + 1, weights@.len() as int);
        }
        total = total + weights[u];
        u += 1;
    }
    (weights, total)
}

/// Active-active and canary with a given draw: the candidate that the draw
/// `pick` falls on, by weight, among the candidates in pool order, is
/// admitted and chosen; `None` when there is no candidate.
pub fn decide_weighted_with(pool: &mut Vec<PoolBackend>, now: u64, pick: u32) -> (r: Option<RouteChoice>)
    requires
        pool_weight(old(pool)@) <= u32::MAX,
        candidates(old(pool)@, now).len() > 0 ==> pick < candidate_total(old(pool)@, now),
    ensures
        same_backends(old(pool)@, final(pool)@),
        match r {
            Some(c) => c.shadow is None && c.backend < old(pool)@.len()
                && c.backend == candidates(old(pool)@, now)[weighted_index(candidate_weights(old(pool)@, now), pick as int)]
                && is_candidate(old(pool)@[c.backend as int], now)
                && after_admit(old(pool)@, final(pool)@, c.backend as int, now),
            None => candidates(old(pool)@, now).len() == 0
                && (forall|j: int| 0 <= j < old(pool)@.len() ==> !is_candidate(#[trigger] old(pool)@[j], now))
                && final(pool)@ == old(pool)@,
        },
{
    let cands = candidate_list(pool, now);
    if cands.len() == 0 {
        proof {
            assert forall|j: int| 0 <= j < pool@.len() implies !is_candidate(#[trigger] pool@[j], now) by {
                if is_candidate(pool@[j], now) {
                    assert(cands@.contains(j as usize));
                }
            }
        }
        return None;
    }
    let (weights, _total) = weights_of(pool, &cands);
    let sel = select_weighted(weights.as_slice(), pick);
    let b = cands[sel];
    proof {
        crate::circuit::law_routable_iff_admitted(pool@[b as int].breaker@, now);
    }
    let ok = claim(pool, b, now);
    if ok {
        Some(RouteChoice { backend: b, shadow: None })
    } else {
        assert(false);
        None
    }
}

/// Active-active and canary: a draw below the candidates' total weight,
/// then the candidate it falls on (see `decide_weighted_with`).
#[verifier::spinoff_prover]
fn decide_weighted(pool: &mut Vec<PoolBackend>, now: u64) -> (r: Option<RouteChoice>)
    requires
        pool_weight(old(pool)@) <= u32::MAX,
    ensures
        same_backends(old(pool)@, final(pool)@),
        match r {
            Some(c) => c.shadow is None && c.backend < old(pool)@.len() && is_candidate(old(pool)@[c.backend as int], now)
                && after_admit(old(pool)@, final(pool)@, c.backend as int, now)
                && exists|pick: int| 0 <= pick < candidate_total(old(pool)@, now) && c.backend
                    == candidates(old(pool)@, now)[weighted_index(candidate_weights(old(pool)@, now), pick)],
            None => forall|j: int| 0 <= j < old(pool)@.len() ==> !is_candidate(#[trigger] old(pool)@[j], now),
        },
{
    let cands = candidate_list(pool, now);
    if cands.len() == 0 {
        proof {
            assert forall|j: int| 0 <= j < pool@.len() implies !is_candidate(#[trigger] pool@[j], now) by {
                if is_candidate(pool@[j], now) {
                    assert(cands@.contains(j as usize));
                }
            }
        }
        return None;
    }
    let (weights, total) = weights_of(pool, &cands);
    if total == 0 {
        // Every candidate has weight, so this does not happen.
        assert(weights@[0] == pool@[cands@[0] as int].weight);
        assert(is_candidate(pool@[cands@[0] as int], now));
        assert(weight_sum(weights@, 0) == 0);
        assert(weight_sum(weights@, 1) == weights@[0]);
        assert(weight_sum(weights@, 1) <= weight_sum(weights@, weights@.len() as int)) by {
            lemma_weight_sum_mono(weights@, 1, weights@.len() as int);
        }
        assert(false);
        return None;
    }
    assert(weights@ == candidate_weights(pool@, now));
    assert(total == candidate_total(pool@, now));
    let pick = random_below(total);
    let ghost p0 = pool@;
    let r = decide_weighted_with(pool, now, pick);
    proof {
        if r is Some {
            let c = r.unwrap();
            assert(0 <= pick as int && (pick as int) < candidate_total(p0, now) && c.backend
                == candidates(p0, now)[weighted_index(candidate_weights(p0, now), pick as int)]);
        }
    }
    r
}

/// Decides where a request goes. In shadow mode the primary serves when it
/// exists, is routable and its breaker admits it; the shadow backend gets
/// the mirror when it is another routable backend whose breaker admits it.
/// Otherwise a number is drawn below the candidates' total weight and the
/// candidate (routable, with weight, breaker allowing) it falls on by
/// weight is admitted; `None` when there is no candidate. Names,
/// weights and health stay; only the chosen backends' breakers change.
pub fn decide(pool: &mut Vec<PoolBackend>, routing: &RoutingConfig, now: u64) -> (r: Option<RouteChoice>)
    requires
        pool_weight(old(pool)@) <= u32::MAX,
    ensures
        same_backends(old(pool)@, final(pool)@),
        routing.mode == RoutingMode::Shadow ==> (r is Some <==> shadow_primary_ok(old(pool)@, *routing, now)),
        routing.mode == RoutingMode::Shadow ==> (r matches Some(c) ==> (routing.primary_backend matches Some(p)
            && index_of(old(pool)@, p@) == Some(c.backend as int))),
        routing.mode == RoutingMode::Shadow ==> (r matches Some(c) ==> shadow_view(c.shadow) == mirror_choice(
            old(pool)@,
            *routing,
            c.backend as int,
            now,
        )),
        routing.mode == RoutingMode::Shadow ==> (r matches Some(c) ==> breakers(final(pool)@)
            == shadow_breakers_after(old(pool)@, *routing, c.backend as int, now)),
        routing.mode == RoutingMode::Shadow ==> (r is None ==> breakers(final(pool)@) == breakers(old(pool)@)),
        routing.mode != RoutingMode::Shadow ==> match r {
            Some(c) => c.shadow is None && c.backend < old(pool)@.len() && is_candidate(old(pool)@[c.backend as int], now)
                && after_admit(old(pool)@, final(pool)@, c.backend as int, now)
                && exists|pick: int| 0 <= pick < candidate_total(old(pool)@, now) && c.backend
                    == candidates(old(pool)@, now)[weighted_index(candidate_weights(old(pool)@, now), pick)],
            None => forall|j: int| 0 <= j < old(pool)@.len() ==> !is_candidate(#[trigger] old(pool)@[j], now),
        },
{
    if routing.mode == RoutingMode::Shadow {
        decide_shadow(pool, routing, now)
    } else {
        decide_weighted(pool, now)
    }
}

} // verus!
