//! Live weight changes and rollback: each command is planned over the
//! backend pool, then applied to the pool and to the configured backends
//! together (nothing changes when the plan fails). Rollback is semantic:
//! the target gets weight 100 and every other backend 0; in shadow mode it
//! also becomes the live backend.

use vstd::prelude::*;
use vstd::string::*;
use crate::text::{chars_of, chars_equal};
use crate::migrate::{BackendConfig, RoutingConfig, RoutingMode};
use crate::router::PoolBackend;

verus! {

pub open spec fn names_of(pool: Seq<(String, u32)>) -> Seq<Seq<char>> {
    pool.map_values(|b: (String, u32)| b.0@)
}

/// The index of the first entry of `updates` that names a backend, if any.
pub open spec fn update_for(updates: Seq<(String, u32)>, name: Seq<char>) -> Option<u32>
    decreases updates.len(),
{
    if updates.len() == 0 {
        None
    } else if updates[0].0@ == name {
        Some(updates[0].1)
    } else {
        update_for(updates.drop_first(), name)
    }
}

/// The weight a backend would have after the update.
pub open spec fn prospective(pool: Seq<(String, u32)>, updates: Seq<(String, u32)>, i: int) -> u32 {
    match update_for(updates, pool[i].0@) {
        Some(w) => w,
        None => pool[i].1,
    }
}

/// The first update naming no backend of the pool, if any.
pub open spec fn first_unknown(pool: Seq<(String, u32)>, updates: Seq<(String, u32)>) -> Option<Seq<char>>
    decreases updates.len(),
{
    if updates.len() == 0 {
        None
    } else if !names_of(pool).contains(updates[0].0@) {
        Some(updates[0].0@)
    } else {
        first_unknown(pool, updates.drop_first())
    }
}

/// What a set-weight command gives: an error naming the first unknown
/// backend; an error when every backend would be left at weight 0 (the
/// router would have no candidate); otherwise the new weight of each
/// backend of the pool, in the pool's order (unchanged where no update
/// names it).
pub open spec fn set_weights_plan(pool: Seq<(String, u32)>, updates: Seq<(String, u32)>) -> Result<Seq<u32>, Seq<char>> {
    match first_unknown(pool, updates) {
        Some(name) => Err("unknown backend in set-weight: "@ + name),
        None => if exists|i: int| 0 <= i < pool.len() && prospective(pool, updates, i) > 0 {
            Ok(Seq::new(pool.len(), |i: int| prospective(pool, updates, i)))
        } else {
            Err("set-weight would leave total weight at 0; keep at least one backend > 0"@)
        },
    }
}

fn find_update(updates: &[(String, u32)], name: &String) -> (r: Option<u32>)
    ensures
        r == update_for(updates@, name@),
{
    let mut i: usize = 0;
    assert(updates@.skip(0) =~= updates@);
    while i < updates.len()
        invariant
            i <= updates@.len(),
            update_for(updates@, name@) == update_for(updates@.skip(i as int), name@),
        decreases updates@.len() - i,
    {
        assert(updates@.skip(i as int)[0] == updates@[i as int]);
        assert(updates@.skip(i as int).drop_first() =~= updates@.skip(i + 1));
        let cs = chars_of(updates[i].0.as_str());
        if chars_equal(cs.as_slice(), name.as_str()) {
            return Some(updates[i].1);
        }
        i += 1;
    }
    None
}

fn pool_has(pool: &[(String, u32)], name: &String) -> (r: bool)
    ensures
        r == names_of(pool@).contains(name@),
{
    let mut i: usize = 0;
    while i < pool.len()
        invariant
            i <= pool@.len(),
            forall|j: int| 0 <= j < i ==> names_of(pool@)[j] != name@,
        decreases pool@.len() - i,
    {
        let cs = chars_of(pool[i].0.as_str());
        if chars_equal(cs.as_slice(), name.as_str()) {
            assert(names_of(pool@)[i as int] == name@);
            return true;
        }
        i += 1;
    }
    proof {
        if names_of(pool@).contains(name@) {
            let k = choose|k: int| 0 <= k < names_of(pool@).len() && names_of(pool@)[k] == name@;
            assert(k < i);
        }
    }
    false
}

/// Plans a set-weight command: each update is a backend name and its new
/// weight, and `pool` lists the backends with their current weights.
pub fn plan_set_weights(pool: &[(String, u32)], updates: &[(String, u32)]) -> (r: Result<Vec<u32>, String>)
    ensures
        match set_weights_plan(pool@, updates@) {
            Ok(ws) => r matches Ok(v) && v@ == ws,
            Err(e) => r matches Err(m) && m@ == e,
        },
{
    let mut k: usize = 0;
    assert(updates@.skip(0) =~= updates@);
    while k < updates.len()
        invariant
            k <= updates@.len(),
            first_unknown(pool@, updates@) == first_unknown(pool@, updates@.skip(k as int)),
        decreases updates@.len() - k,
    {
        assert(updates@.skip(k as int)[0] == updates@[k as int]);
        assert(updates@.skip(k as int).drop_first() =~= updates@.skip(k + 1));
        if !pool_has(pool, &updates[k].0) {
            let mut m = "unknown backend in set-weight: ".to_owned();
            m.append(updates[k].0.as_str());
            return Err(m);
        }
        k += 1;
    }
    assert(updates@.skip(k as int) =~= Seq::<(String, u32)>::empty());
    let mut out: Vec<u32> = Vec::new();
    let mut any = false;
    let mut i: usize = 0;
    while i < pool.len()
        invariant
            i <= pool@.len(),
            out@ =~= Seq::new(i as nat, |j: int| prospective(pool@, updates@, j)),
            any == exists|j: int| 0 <= j < i && prospective(pool@, updates@, j) > 0,
        decreases pool@.len() - i,
    {
        let w = match find_update(updates, &pool[i].0) {
            Some(w) => w,
            None => pool[i].1,
        };
        assert(w == prospective(pool@, updates@, i as int));
        out.push(w);
        if w > 0 {
            any = true;
        }
        i += 1;
    }
    if !any {
        return Err("set-weight would leave total weight at 0; keep at least one backend > 0".to_owned());
    }
    Ok(out)
}

/// What a rollback to `target` gives: an error when no backend has that
/// name; otherwise weight 100 for the target and 0 for every other backend.
pub open spec fn rollback_plan(names: Seq<Seq<char>>, target: Seq<char>) -> Result<Seq<u32>, Seq<char>> {
    if names.contains(target) {
        Ok(Seq::new(names.len(), |i: int| if names[i] == target { 100u32 } else { 0u32 }))
    } else {
        Err("unknown backend in rollback target: "@ + target)
    }
}

pub open spec fn strings_of(v: Seq<String>) -> Seq<Seq<char>> {
    v.map_values(|s: String| s@)
}

/// Plans a rollback to `target` over the backends named in `names`.
pub fn plan_rollback(names: &[String], target: &str) -> (r: Result<Vec<u32>, String>)
    ensures
        match rollback_plan(strings_of(names@), target@) {
            Ok(ws) => r matches Ok(v) && v@ == ws,
            Err(e) => r matches Err(m) && m@ == e,
        },
{
    let ghost ns = strings_of(names@);
    let mut out: Vec<u32> = Vec::new();
    let mut found = false;
    let mut i: usize = 0;
    while i < names.len()
        invariant
            i <= names@.len(),
            ns == strings_of(names@),
            out@ =~= Seq::new(i as nat, |j: int| if ns[j] == target@ { 100u32 } else { 0u32 }),
            found == exists|j: int| 0 <= j < i && ns[j] == target@,
        decreases names@.len() - i,
    {
        let cs = chars_of(names[i].as_str());
        let hit = chars_equal(cs.as_slice(), target);
        assert(ns[i as int] == names@[i as int]@);
        out.push(if hit { 100 } else { 0 });
        if hit {
            found = true;
        }
        i += 1;
    }
    if !found {
        proof {
            if ns.contains(target@) {
                let k = choose|k: int| 0 <= k < ns.len() && ns[k] == target@;
                assert(k < i);
            }
        }
        let mut m = "unknown backend in rollback target: ".to_owned();
        m.append(target);
        return Err(m);
    }
    Ok(out)
}

pub open spec fn opt_text(o: Option<String>) -> Option<Seq<char>> {
    match o {
        Some(s) => Some(s@),
        None => None,
    }
}

/// The first name other than `target`.
pub open spec fn first_other(names: Seq<Seq<char>>, target: Seq<char>) -> Option<Seq<char>>
    decreases names.len(),
{
    if names.len() == 0 {
        None
    } else if names[0] != target {
        Some(names[0])
    } else {
        first_other(names.drop_first(), target)
    }
}

/// The live and mirrored backends after a rollback to `target`. Outside
/// shadow mode, and when the target is already primary, nothing changes.
/// Otherwise the target becomes primary and the mirror is the previous
/// primary, else the previous mirror, else the first other backend (each
/// only when it is not the target).
pub open spec fn rolled_back_routing(mode: RoutingMode, primary: Option<Seq<char>>, shadow: Option<Seq<char>>, names: Seq<Seq<char>>, target: Seq<char>) -> (Option<Seq<char>>, Option<Seq<char>>) {
    if mode == RoutingMode::Shadow && primary != Some(target) {
        let mirror = match primary {
            Some(p) => Some(p),
            None => match shadow {
                Some(s) => if s != target { Some(s) } else { first_other(names, target) },
                None => first_other(names, target),
            },
        };
        (Some(target), mirror)
    } else {
        (primary, shadow)
    }
}

fn same_text(a: &String, b: &str) -> (r: bool)
    ensures
        r == (a@ == b@),
{
    let cs = chars_of(a.as_str());
    chars_equal(cs.as_slice(), b)
}

/// Moves the live backend of shadow mode to `target` on rollback;
/// `names` are the configured backends, in the order the fallback mirror is
/// looked for.
pub fn rollback_routing(routing: &mut RoutingConfig, names: &[String], target: &str)
    ensures
        final(routing).mode == old(routing).mode,
        final(routing).exclude_paths@ == old(routing).exclude_paths@,
        (opt_text(final(routing).primary_backend), opt_text(final(routing).shadow_backend))
            == rolled_back_routing(
            old(routing).mode,
            opt_text(old(routing).primary_backend),
            opt_text(old(routing).shadow_backend),
            strings_of(names@),
            target@,
        ),
{
    if routing.mode != RoutingMode::Shadow {
        return;
    }
    let is_primary = match &routing.primary_backend {
        Some(p) => same_text(p, target),
        None => false,
    };
    if is_primary {
        return;
    }
    let previous: Option<String> = match &routing.primary_backend {
        Some(p) => Some(p.clone()),
        None => None,
    };
    let mirror: Option<String> = match previous {
        Some(p) => Some(p),
        None => {
            let keep = match &routing.shadow_backend {
                Some(s) => !same_text(s, target),
                None => false,
            };
            if keep {
                match &routing.shadow_backend {
                    Some(s) => Some(s.clone()),
                    None => None,
                }
            } else {
                let ghost ns = strings_of(names@);
                let mut found: Option<String> = None;
                let mut i: usize = 0;
                assert(ns.skip(0) =~= ns);
                while i < names.len()
                    invariant_except_break
                        found is None,
                    invariant
                        i <= names@.len(),
                        ns == strings_of(names@),
                        first_other(ns, target@) == first_other(ns.skip(i as int), target@),
                    ensures
                        found matches Some(f) ==> first_other(ns, target@) == Some(f@),
                        found is None ==> first_other(ns, target@) is None,
                    decreases names@.len() - i,
                {
                    assert(ns.skip(i as int)[0] == names@[i as int]@);
                    assert(ns.skip(i as int).drop_first() =~= ns.skip(i + 1));
                    if !same_text(&names[i], target) {
                        found = Some(names[i].clone());
                        break;
                    }
                    i += 1;
                    proof {
                        if i >= names@.len() {
                            assert(ns.skip(i as int) =~= Seq::<Seq<char>>::empty());
                        }
                    }
                }
                found
            }
        },
    };
    routing.primary_backend = Some(target.to_owned());
    routing.shadow_backend = mirror;
}

/// Weight plans never leave the router without a candidate: an accepted
/// set-weight keeps some backend above weight 0, and a rollback to a known
/// backend routes to the target alone (weight 100) and to no other backend.
pub proof fn law_plans_keep_a_routable_backend(pool: Seq<(String, u32)>, updates: Seq<(String, u32)>, names: Seq<Seq<char>>, target: Seq<char>)
    ensures
        set_weights_plan(pool, updates) matches Ok(ws) ==> exists|i: int| 0 <= i < ws.len() && #[trigger] ws[i] > 0,
        names.contains(target) ==> (rollback_plan(names, target) matches Ok(ws) && (forall|i: int|
            0 <= i < names.len() ==> (#[trigger] ws[i] == 100 <==> names[i] == target) && (ws[i] == 0
                <==> names[i] != target))),
{
    match set_weights_plan(pool, updates) {
        Ok(ws) => {
            let i = choose|i: int| 0 <= i < pool.len() && prospective(pool, updates, i) > 0;
            assert(ws[i] > 0);
        },
        Err(_) => {},
    }
}

// ---------------------------------------------------------------- applying plans

/// The pool as (name, weight) pairs, in order.
pub open spec fn pool_pairs(pool: Seq<PoolBackend>) -> Seq<(String, u32)> {
    pool.map_values(|b: PoolBackend| (b.name, b.weight))
}

/// `new` is `old` with the weights `ws`, everything else kept.
pub open spec fn pool_reweighted(old: Seq<PoolBackend>, new: Seq<PoolBackend>, ws: Seq<u32>) -> bool {
    &&& new.len() == old.len()
    &&& ws.len() == old.len()
    &&& forall|j: int| 0 <= j < old.len() ==> #[trigger] new[j] == (PoolBackend { weight: ws[j], ..old[j] })
}

/// `new` is the configured backends `old` where each backend named in
/// `pairs` (first pair for a name) takes that weight; the rest is kept.
pub open spec fn config_reweighted(
    old: Seq<(String, BackendConfig)>,
    new: Seq<(String, BackendConfig)>,
    pairs: Seq<(String, u32)>,
) -> bool {
    &&& new.len() == old.len()
    &&& forall|k: int| 0 <= k < old.len() ==> {
        &&& #[trigger] new[k].0 == old[k].0
        &&& new[k].1.address == old[k].1.address
        &&& new[k].1.health_path == old[k].1.health_path
        &&& new[k].1.weight == match update_for(pairs, old[k].0@) {
            Some(w) => w,
            None => old[k].1.weight,
        }
    }
}

fn pairs_of_pool(pool: &Vec<PoolBackend>) -> (r: Vec<(String, u32)>)
    ensures
        r@ == pool_pairs(pool@),
{
    let mut r: Vec<(String, u32)> = Vec::new();
    let mut i: usize = 0;
    while i < pool.len()
        invariant
            i <= pool@.len(),
            r@ == pool_pairs(pool@).take(i as int),
        decreases pool@.len() - i,
    {
        r.push((pool[i].name.clone(), pool[i].weight));
        assert(r@ =~= pool_pairs(pool@).take(i + 1));
        i += 1;
    }
    assert(pool_pairs(pool@).take(i as int) =~= pool_pairs(pool@));
    r
}

fn set_pool_weights(pool: &mut Vec<PoolBackend>, ws: &Vec<u32>)
    requires
        ws@.len() == old(pool)@.len(),
    ensures
        pool_reweighted(old(pool)@, final(pool)@, ws@),
{
    let mut i: usize = 0;
    while i < pool.len()
        invariant
            pool@.len() == old(pool)@.len() == ws@.len(),
            i <= pool@.len(),
            forall|j: int| 0 <= j < i ==> #[trigger] pool@[j] == (PoolBackend { weight: ws@[j], ..old(pool)@[j] }),
            forall|j: int| i <= j < pool@.len() ==> #[trigger] pool@[j] == old(pool)@[j],
        decreases pool@.len() - i,
    {
        let ghost before = pool@;
        let mut b = pool.remove(i);
        b.weight = ws[i];
        pool.insert(i, b);
        assert forall|j: int| 0 <= j < pool@.len() && j != i implies #[trigger] pool@[j] == before[j] by {
            if j < i {
                assert(pool@[j] == before.remove(i as int)[j]);
            } else {
                assert(pool@[j] == before.remove(i as int)[j - 1]);
            }
        }
        i += 1;
    }
}

fn set_config_weights(backends: &mut Vec<(String, BackendConfig)>, pairs: &[(String, u32)])
    ensures
        config_reweighted(old(backends)@, final(backends)@, pairs@),
{
    let mut k: usize = 0;
    while k < backends.len()
        invariant
            backends@.len() == old(backends)@.len(),
            k <= backends@.len(),
            forall|j: int| 0 <= j < k ==> {
                &&& #[trigger] backends@[j].0 == old(backends)@[j].0
                &&& backends@[j].1.address == old(backends)@[j].1.address
                &&& backends@[j].1.health_path == old(backends)@[j].1.health_path
                &&& backends@[j].1.weight == match update_for(pairs@, old(backends)@[j].0@) {
                    Some(w) => w,
                    None => old(backends)@[j].1.weight,
                }
            },
            forall|j: int| k <= j < backends@.len() ==> #[trigger] backends@[j] == old(backends)@[j],
        decreases backends@.len() - k,
    {
        let ghost before = backends@;
        let (name, mut c) = backends.remove(k);
        match find_update(pairs, &name) {
            Some(w) => {
                c.weight = w;
            },
            None => {},
        }
        backends.insert(k, (name, c));
        assert forall|j: int| 0 <= j < backends@.len() && j != k implies #[trigger] backends@[j] == before[j] by {
            if j < k {
                assert(backends@[j] == before.remove(k as int)[j]);
            } else {
                assert(backends@[j] == before.remove(k as int)[j - 1]);
            }
        }
        k += 1;
    }
}

/// Applies a set-weight command to the live pool and the configured
/// backends. On an error (an unknown backend, or every weight left at 0)
/// nothing changes; otherwise each backend takes the weight its update
/// gives (unchanged where none names it), in the pool and in the
/// configuration alike.
pub fn set_weights(
    pool: &mut Vec<PoolBackend>,
    backends: &mut Vec<(String, BackendConfig)>,
    updates: &[(String, u32)],
) -> (r: Result<(), String>)
    ensures
        match set_weights_plan(pool_pairs(old(pool)@), updates@) {
            Err(e) => r matches Err(m) && m@ == e && final(pool)@ == old(pool)@ && final(backends)@ == old(
                backends,
            )@,
            Ok(ws) => r is Ok && pool_reweighted(old(pool)@, final(pool)@, ws) && config_reweighted(
                old(backends)@,
                final(backends)@,
                updates@,
            ),
        },
{
    let pairs = pairs_of_pool(pool);
    match plan_set_weights(pairs.as_slice(), updates) {
        Err(e) => Err(e),
        Ok(ws) => {
            set_pool_weights(pool, &ws);
            set_config_weights(backends, updates);
            Ok(())
        },
    }
}

/// The weight a rollback to `target` gives a backend named `n`.
pub open spec fn rollback_weight(n: Seq<char>, target: Seq<char>) -> u32 {
    if n == target { 100 } else { 0 }
}

proof fn lemma_rollback_pairs(s: Seq<(String, u32)>, target: Seq<char>, n: Seq<char>)
    requires
        forall|i: int| 0 <= i < s.len() ==> #[trigger] s[i].1 == rollback_weight(s[i].0@, target),
    ensures
        update_for(s, n) == (if names_of(s).contains(n) { Some(rollback_weight(n, target)) } else { None }),
    decreases s.len(),
{
    if s.len() > 0 {
        let d = s.drop_first();
        assert forall|i: int| 0 <= i < d.len() implies #[trigger] d[i].1 == rollback_weight(d[i].0@, target) by {
            assert(d[i] == s[i + 1]);
        }
        lemma_rollback_pairs(d, target, n);
        assert(names_of(s) =~= seq![s[0].0@] + names_of(d));
        assert(names_of(s)[0] == s[0].0@);
        assert(s[0].1 == rollback_weight(s[0].0@, target));
        if names_of(d).contains(n) {
            let k = choose|k: int| 0 <= k < names_of(d).len() && names_of(d)[k] == n;
            assert(names_of(s)[k + 1] == n);
        }
        if names_of(s).contains(n) && s[0].0@ != n {
            let k = choose|k: int| 0 <= k < names_of(s).len() && names_of(s)[k] == n;
            assert(k > 0);
            assert(names_of(d)[k - 1] == n);
        }
    } else {
        assert(!names_of(s).contains(n));
    }
}

/// The names of the configured backends, in order.
pub open spec fn config_names(backends: Seq<(String, BackendConfig)>) -> Seq<Seq<char>> {
    backends.map_values(|b: (String, BackendConfig)| b.0@)
}

/// Applies a rollback to `target`. With no backend of that name in the pool
/// the answer is an error and nothing changes. Otherwise the target takes
/// weight 100 and every other backend 0, in the pool and in the configured
/// backends (a configured backend that is not in the pool keeps its
/// weight), and in shadow mode the target becomes the live backend.
pub fn rollback(
    pool: &mut Vec<PoolBackend>,
    backends: &mut Vec<(String, BackendConfig)>,
    routing: &mut RoutingConfig,
    target: &str,
) -> (r: Result<(), String>)
    ensures
        ({
            let names = names_of(pool_pairs(old(pool)@));
            match rollback_plan(names, target@) {
                Err(e) => r matches Err(m) && m@ == e && final(pool)@ == old(pool)@ && final(backends)@
                    == old(backends)@ && *final(routing) == *old(routing),
                Ok(ws) => {
                    &&& r is Ok
                    &&& pool_reweighted(old(pool)@, final(pool)@, ws)
                    &&& final(backends)@.len() == old(backends)@.len()
                    &&& forall|k: int| 0 <= k < old(backends)@.len() ==> {
                        &&& #[trigger] final(backends)@[k].0 == old(backends)@[k].0
                        &&& final(backends)@[k].1.address == old(backends)@[k].1.address
                        &&& final(backends)@[k].1.health_path == old(backends)@[k].1.health_path
                        &&& final(backends)@[k].1.weight == if names.contains(old(backends)@[k].0@) {
                            rollback_weight(old(backends)@[k].0@, target@)
                        } else {
                            old(backends)@[k].1.weight
                        }
                    }
                    &&& final(routing).mode == old(routing).mode
                    &&& final(routing).exclude_paths@ == old(routing).exclude_paths@
                    &&& (opt_text(final(routing).primary_backend), opt_text(final(routing).shadow_backend))
                        == rolled_back_routing(
                        old(routing).mode,
                        opt_text(old(routing).primary_backend),
                        opt_text(old(routing).shadow_backend),
                        config_names(old(backends)@),
                        target@,
                    )
                },
            }
        }),
{
    let mut names: Vec<String> = Vec::new();
    let mut i: usize = 0;
    while i < pool.len()
        invariant
            i <= pool@.len(),
            names@.len() == i,
            strings_of(names@) == names_of(pool_pairs(pool@)).take(i as int),
        decreases pool@.len() - i,
    {
        let ghost before = names@;
        names.push(pool[i].name.clone());
        assert(names@[i as int] == pool@[i as int].name);
        assert(pool_pairs(pool@)[i as int].0 == pool@[i as int].name);
        assert forall|q: int| 0 <= q <= i implies #[trigger] strings_of(names@)[q] == names_of(pool_pairs(pool@))[q] by {
            if q < i {
                assert(names@[q] == before[q]);
                assert(strings_of(before)[q] == names_of(pool_pairs(pool@)).take(i as int)[q]);
            }
        }
        assert(strings_of(names@) =~= names_of(pool_pairs(pool@)).take(i + 1));
        i += 1;
    }
    assert(names_of(pool_pairs(pool@)).take(i as int) =~= names_of(pool_pairs(pool@)));
    let ws = match plan_rollback(names.as_slice(), target) {
        Err(e) => {
            return Err(e);
        },
        Ok(ws) => ws,
    };
    let ghost names0 = names_of(pool_pairs(pool@));
    let mut pairs: Vec<(String, u32)> = Vec::new();
    let mut j: usize = 0;
    while j < names.len()
        invariant
            j <= names@.len(),
            ws@.len() == names@.len(),
            strings_of(names@) == names0,
            ws@ == Seq::new(names0.len(), |q: int| if names0[q] == target@ { 100u32 } else { 0u32 }),
            pairs@.len() == j,
            forall|q: int| 0 <= q < j ==> #[trigger] pairs@[q].0@ == names0[q] && pairs@[q].1 == ws@[q],
        decreases names@.len() - j,
    {
        pairs.push((names[j].clone(), ws[j]));
        j += 1;
    }
    proof {
        assert forall|q: int| 0 <= q < pairs@.len() implies #[trigger] pairs@[q].1 == rollback_weight(pairs@[q].0@, target@) by {}
        assert(names_of(pairs@) =~= names0);
        assert forall|n: Seq<char>| #[trigger] update_for(pairs@, n) == (if names0.contains(n) {
            Some(rollback_weight(n, target@))
        } else {
            None
        }) by {
            lemma_rollback_pairs(pairs@, target@, n);
        }
    }
    set_pool_weights(pool, &ws);
    let ghost b0 = backends@;
    set_config_weights(backends, pairs.as_slice());
    let mut cfg_names: Vec<String> = Vec::new();
    let mut k: usize = 0;
    while k < backends.len()
        invariant
            k <= backends@.len(),
            cfg_names@.len() == k,
            strings_of(cfg_names@) == config_names(backends@).take(k as int),
        decreases backends@.len() - k,
    {
        let ghost before = cfg_names@;
        cfg_names.push(backends[k].0.clone());
        assert(cfg_names@[k as int] == backends@[k as int].0);
        assert forall|q: int| 0 <= q <= k implies #[trigger] strings_of(cfg_names@)[q] == config_names(backends@)[q] by {
            if q < k {
                assert(cfg_names@[q] == before[q]);
                assert(strings_of(before)[q] == config_names(backends@).take(k as int)[q]);
            }
        }
        assert(strings_of(cfg_names@) =~= config_names(backends@).take(k + 1));
        k += 1;
    }
    assert(config_names(backends@).take(k as int) =~= config_names(backends@));
    assert(config_names(backends@) =~= config_names(b0));
    rollback_routing(routing, cfg_names.as_slice(), target);
    proof {
        assert(rollback_plan(names0, target@) == Ok::<Seq<u32>, Seq<char>>(ws@));
        assert(pool_reweighted(old(pool)@, pool@, ws@));
        assert forall|q: int| 0 <= q < old(backends)@.len() implies #[trigger] backends@[q].1.weight == if names0.contains(
            old(backends)@[q].0@,
        ) {
            rollback_weight(old(backends)@[q].0@, target@)
        } else {
            old(backends)@[q].1.weight
        } by {
            assert(backends@[q].0 == old(backends)@[q].0);
            assert(update_for(pairs@, old(backends)@[q].0@) == (if names0.contains(old(backends)@[q].0@) {
                Some(rollback_weight(old(backends)@[q].0@, target@))
            } else {
                None
            }));
        }
    }
    Ok(())
}

} // verus!
