use vstd::prelude::*;
use crate::config::RuleView;
use crate::control::{
    Fallback, Route, SwitcherView, accepting_count, bound_count, free_count, has_name, lemma_add_keeps_inv, lemma_empty_inv, load,
    valid_rule,
};
use crate::error::{ConflictError, ProxyError};
use crate::matcher::selects;
use crate::ports::{SlotView, first_free, lemma_count_bounded, lemma_count_update, lemma_has_free};

verus! {

/// After every add of any sequence of adds from an empty switcher, the
/// number of active rules equals the number of bound ports and the number
/// of accepting endpoints.
pub proof fn lemma_adds_keep_counts(
    start: u16,
    pool: u16,
    identity: Seq<char>,
    fallback: Fallback,
    rules: Seq<RuleView>,
)
    requires
        start as int + pool as int <= 65536,
    ensures
        load(start, pool, identity, fallback, rules).0.inv(),
        bound_count(load(start, pool, identity, fallback, rules).0.slots) == load(start, pool, identity, fallback, rules).0.rules.len(),
        accepting_count(load(start, pool, identity, fallback, rules).0.endpoints) == load(start, pool, identity, fallback, rules).0.rules.len(),
    decreases rules.len(),
{
    if rules.len() == 0 {
        lemma_empty_inv(start, pool, identity, fallback);
    } else {
        lemma_adds_keep_counts(start, pool, identity, fallback, rules.drop_last());
        let v = load(start, pool, identity, fallback, rules.drop_last()).0;
        lemma_add_keeps_inv(v, rules.last());
    }
}

/// Adding a rule whose name is taken fails with a conflict and changes
/// nothing, so the persisted snapshot stays the same.
pub proof fn lemma_duplicate_add_rejected(v: SwitcherView, r: RuleView)
    requires
        v.inv(),
        valid_rule(r),
        has_name(v.rules, r.name),
    ensures
        v.add(r) == (v, Err::<u16, ProxyError>(ProxyError::Conflict(ConflictError::DuplicateName))),
{
}

/// Deleting an unknown name fails with `NotFound` and changes nothing.
pub proof fn lemma_delete_unknown(v: SwitcherView, name: Seq<char>)
    requires
        !has_name(v.rules, name),
    ensures
        v.delete(name) == (v, Err::<u16, ProxyError>(ProxyError::NotFound)),
{
}

/// With as many active rules as the pool has ports, a further valid rule
/// fails with `PoolExhausted` and every active rule stays.
pub proof fn lemma_pool_exhausted(v: SwitcherView, r: RuleView)
    requires
        v.inv(),
        valid_rule(r),
        !has_name(v.rules, r.name),
        v.rules.len() == v.pool,
    ensures
        v.add(r) == (v, Err::<u16, ProxyError>(ProxyError::Conflict(ConflictError::PoolExhausted))),
{
    lemma_count_bounded(v.slots, |x: SlotView| x is Bound);
    if exists|i: int| 0 <= i < v.slots.len() && #[trigger] v.slots[i] is Free {
        let i = choose|i: int| 0 <= i < v.slots.len() && #[trigger] v.slots[i] is Free;
        let f = |x: SlotView| x is Bound;
        assert(f(v.slots[i]));
    }
}

/// Below that count, with no port draining, a valid new rule is added and
/// keeps every earlier rule in place.
pub proof fn lemma_pool_has_room(v: SwitcherView, r: RuleView)
    requires
        v.inv(),
        valid_rule(r),
        !has_name(v.rules, r.name),
        v.rules.len() < v.pool,
        forall|k: int| 0 <= k < v.slots.len() ==> !(#[trigger] v.slots[k] is Draining),
    ensures
        v.add(r).1 is Ok,
        v.add(r).0.rules == v.rules.push(r),
{
    lemma_count_bounded(v.slots, |x: SlotView| x is Bound);
    let k = choose|k: int| 0 <= k < v.slots.len() && !(#[trigger] v.slots[k] is Bound);
    assert(!(v.slots[k] is Draining));
    assert(v.slots[k] is Free);
}

/// After a rule with a live session is deleted, no connection is routed to
/// its port and its endpoint admits no new session, while the running
/// session still closes normally.
pub proof fn lemma_delete_in_flight(v: SwitcherView, name: Seq<char>, host: Seq<char>)
    requires
        v.inv(),
        has_name(v.rules, name),
        v.endpoints[v.rule_ports[v.index_of(name)] - v.start].sessions > 0,
    ensures
        ({
            let p = v.rule_ports[v.index_of(name)];
            let w = v.delete(name).0;
            &&& v.delete(name).1 == Ok::<u16, ProxyError>(p)
            &&& w.route(host) != Route::Tunnel(p)
            &&& !w.open_session(p).1
            &&& w.close_session(p).1 is Some
        }),
{
    let i = v.index_of(name);
    let p = v.rule_ports[i];
    let w = v.delete(name).0;
    assert(v.start <= p < v.start + v.pool);
    if exists|c: int| selects(w.rules, host, c) {
        let c = choose|c: int| selects(w.rules, host, c);
        let c2 = if c < i { c } else { c + 1 };
        assert(w.rule_ports[c] == v.rule_ports[c2]);
        assert(v.start <= v.rule_ports[c2] < v.start + v.pool);
        assert(v.slots[v.rule_ports[c2] - v.start] == SlotView::Bound(v.rules[c2].name));
        assert(v.slots[p - v.start] == SlotView::Bound(v.rules[i].name));
        if c2 < i {
            assert(v.rules[c2].name != v.rules[i].name);
        } else {
            assert(v.rules[i].name != v.rules[c2].name);
        }
    }
}

/// Persisting the table and loading it again gives back the same rules in
/// the same order.
pub proof fn lemma_round_trip(v: SwitcherView)
    requires
        v.inv(),
    ensures
        load(v.start, v.pool, v.identity, v.fallback, v.rules).1 is Ok,
        load(v.start, v.pool, v.identity, v.fallback, v.rules).0.rules == v.rules,
{
    lemma_count_bounded(v.slots, |x: SlotView| x is Bound);
    lemma_load_prefix(v, v.rules.len() as int);
    assert(v.rules.subrange(0, v.rules.len() as int) =~= v.rules);
}

proof fn lemma_load_prefix(v: SwitcherView, n: int)
    requires
        v.inv(),
        v.rules.len() <= v.pool,
        0 <= n <= v.rules.len(),
    ensures
        ({
            let (w, q) = load(v.start, v.pool, v.identity, v.fallback, v.rules.subrange(0, n));
            &&& q is Ok
            &&& w.inv()
            &&& w.rules == v.rules.subrange(0, n)
            &&& w.pool == v.pool
            &&& forall|k: int| 0 <= k < w.slots.len() ==> !(#[trigger] w.slots[k] is Draining)
        }),
    decreases n,
{
    let pre = v.rules.subrange(0, n);
    if n == 0 {
        lemma_empty_inv(v.start, v.pool, v.identity, v.fallback);
        assert(pre =~= Seq::<RuleView>::empty());
        assert(load(v.start, v.pool, v.identity, v.fallback, pre).1 is Ok);
        assert(load(v.start, v.pool, v.identity, v.fallback, pre).0.rules == pre);
    } else {
        lemma_load_prefix(v, n - 1);
        let prev = v.rules.subrange(0, n - 1);
        assert(pre.drop_last() =~= prev);
        let w = load(v.start, v.pool, v.identity, v.fallback, prev).0;
        let r = v.rules[n - 1];
        assert(pre.last() == r);
        assert(valid_rule(r));
        assert(!has_name(w.rules, r.name)) by {
            if has_name(w.rules, r.name) {
                let j = choose|j: int| 0 <= j < w.rules.len() && #[trigger] w.rules[j].name == r.name;
                assert(v.rules[j].name != v.rules[n - 1].name);
            }
        }
        lemma_pool_has_room(w, r);
        lemma_add_keeps_inv(w, r);
        assert(w.add(r).0.rules =~= pre);
        let w2 = w.add(r).0;
        assert(load(v.start, v.pool, v.identity, v.fallback, pre) == (w2, Ok::<(), ProxyError>(())));
        assert forall|k: int| 0 <= k < w2.slots.len() implies !(#[trigger] w2.slots[k] is Draining) by {
            assert(w.add_error(r) is None);
            lemma_has_free(w.slots);
            assert(w2.slots == w.slots.update(first_free(w.slots), SlotView::Bound(r.name)));
            if k != first_free(w.slots) {
                assert(w2.slots[k] == w.slots[k]);
                assert(!(w.slots[k] is Draining));
            }
        }
    }
}

/// Two adds of valid rules with distinct new names, while at least two ports
/// are free, both succeed and get distinct ports.
pub proof fn lemma_two_adds(v: SwitcherView, a: RuleView, b: RuleView)
    requires
        v.inv(),
        valid_rule(a),
        valid_rule(b),
        a.name != b.name,
        !has_name(v.rules, a.name),
        !has_name(v.rules, b.name),
        free_count(v.slots) >= 2,
    ensures
        ({
            let (v1, r1) = v.add(a);
            let (v2, r2) = v1.add(b);
            &&& r1 is Ok
            &&& r2 is Ok
            &&& r1->Ok_0 != r2->Ok_0
            &&& v2.rules == v.rules.push(a).push(b)
        }),
{
    lemma_count_bounded(v.slots, |x: SlotView| x is Free);
    lemma_has_free(v.slots);
    let k1 = first_free(v.slots);
    let v1 = v.add(a).0;
    lemma_count_update(v.slots, |x: SlotView| x is Free, k1, SlotView::Bound(a.name));
    lemma_count_bounded(v1.slots, |x: SlotView| x is Free);
    lemma_has_free(v1.slots);
    assert(!has_name(v1.rules, b.name)) by {
        if has_name(v1.rules, b.name) {
            let j = choose|j: int| 0 <= j < v1.rules.len() && #[trigger] v1.rules[j].name == b.name;
            if j < v.rules.len() {
                assert(v.rules[j].name == b.name);
            }
        }
    }
    let k2 = first_free(v1.slots);
    assert(v1.slots[k1] is Bound);
}

} // verus!
