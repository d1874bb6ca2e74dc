use vstd::prelude::*;
use vstd::string::StrSliceExecFns;
use crate::config::{Config, Global, Rule, RuleView, Server, rules_view};
use crate::error::{ConflictError, ProxyError, ValidationError};
use crate::matcher::{match_host, selects};
use crate::ports::{
    PortAllocator, Slot, SlotView, count, first_free, has_free, lemma_count_bounded,
    lemma_count_update, lemma_has_free,
};
use crate::validate::{check_upstream, valid_upstream};

verus! {

/// What the front dispatcher does with a connection that no rule matches.
#[derive(Debug, Clone, Copy, PartialEq, Eq, Structural)]
pub enum Fallback {
    Direct,
    Reject,
}

/// Where a connection is sent.
#[derive(Debug, Clone, Copy, PartialEq, Eq, Structural)]
pub enum Route {
    /// To the tunnel endpoint listening on this loopback port.
    Tunnel(u16),
    /// Straight to the destination, without a proxy.
    Direct,
    Reject,
}

#[derive(Debug, Clone, Copy, PartialEq, Eq, Structural)]
pub enum EndpointState {
    Closed,
    Accepting,
    /// No longer accepting; waiting for its sessions to finish.
    Draining,
}

/// The tunnel endpoint of one pool port.
#[derive(Debug, Clone, Copy, PartialEq, Eq, Structural)]
pub struct Endpoint {
    pub state: EndpointState,
    pub sessions: u64,
}

/// Abstract state of the switcher.
pub struct SwitcherView {
    pub start: u16,
    pub pool: u16,
    pub identity: Seq<char>,
    pub fallback: Fallback,
    /// The rule table in creation order.
    pub rules: Seq<RuleView>,
    /// The port of each rule.
    pub rule_ports: Seq<u16>,
    pub slots: Seq<SlotView>,
    /// The endpoint of each pool port.
    pub endpoints: Seq<Endpoint>,
}

pub open spec fn valid_rule(r: RuleView) -> bool {
    r.name.len() > 0 && valid_upstream(r.upstream) && r.sites.len() > 0
}

pub open spec fn has_name(rules: Seq<RuleView>, name: Seq<char>) -> bool {
    exists|i: int| 0 <= i < rules.len() && #[trigger] rules[i].name == name
}

pub open spec fn bound_count(s: Seq<SlotView>) -> nat {
    count(s, |x: SlotView| x is Bound)
}

pub open spec fn accepting_count(s: Seq<Endpoint>) -> nat {
    count(s, |e: Endpoint| e.state is Accepting)
}

pub open spec fn free_count(s: Seq<SlotView>) -> nat {
    count(s, |x: SlotView| x is Free)
}

impl SwitcherView {
    /// Rule store, port pool and endpoints agree: every active rule holds
    /// exactly one bound port and one accepting endpoint.
    pub open spec fn inv(&self) -> bool {
        &&& self.start as int + self.pool as int <= 65536
        &&& self.slots.len() == self.pool
        &&& self.endpoints.len() == self.pool
        &&& self.rules.len() == self.rule_ports.len()
        &&& forall|i: int| 0 <= i < self.rules.len() ==> #[trigger] valid_rule(self.rules[i])
        &&& forall|i: int, j: int|
            0 <= i < j < self.rules.len() ==> #[trigger] self.rules[i].name != #[trigger] self.rules[j].name
        &&& forall|i: int|
            0 <= i < self.rules.len() ==> {
                &&& self.start <= #[trigger] self.rule_ports[i] < self.start + self.pool
                &&& self.slots[self.rule_ports[i] - self.start] == SlotView::Bound(self.rules[i].name)
            }
        &&& forall|k: int|
            0 <= k < self.pool ==> {
                &&& (#[trigger] self.slots[k] is Free <==> self.endpoints[k].state is Closed)
                &&& (self.slots[k] is Bound <==> self.endpoints[k].state is Accepting)
                &&& (self.slots[k] is Draining <==> self.endpoints[k].state is Draining)
                &&& (self.endpoints[k].state is Closed ==> self.endpoints[k].sessions == 0)
                &&& (self.endpoints[k].state is Draining ==> self.endpoints[k].sessions > 0)
            }
        &&& bound_count(self.slots) == self.rules.len()
        &&& accepting_count(self.endpoints) == self.rules.len()
    }

    /// The error that adding rule `r` meets, checked in this order.
    pub open spec fn add_error(&self, r: RuleView) -> Option<ProxyError> {
        if r.name.len() == 0 {
            Some(ProxyError::Validation(ValidationError::EmptyName))
        } else if !valid_upstream(r.upstream) {
            Some(ProxyError::Validation(ValidationError::InvalidUpstream))
        } else if r.sites.len() == 0 {
            Some(ProxyError::Validation(ValidationError::EmptySites))
        } else if has_name(self.rules, r.name) {
            Some(ProxyError::Conflict(ConflictError::DuplicateName))
        } else if !has_free(self.slots) {
            Some(ProxyError::Conflict(ConflictError::PoolExhausted))
        } else {
            None
        }
    }

    /// Adding rule `r`: the rule takes the lowest free port, whose endpoint
    /// starts accepting. On error nothing changes.
    pub open spec fn add(self, r: RuleView) -> (SwitcherView, Result<u16, ProxyError>) {
        match self.add_error(r) {
            Some(e) => (self, Err(e)),
            None => {
                let k = first_free(self.slots);
                let p = (self.start + k) as u16;
                (
                    SwitcherView {
                        rules: self.rules.push(r),
                        rule_ports: self.rule_ports.push(p),
                        slots: self.slots.update(k, SlotView::Bound(r.name)),
                        endpoints: self.endpoints.update(k, Endpoint { state: EndpointState::Accepting, sessions: 0 }),
                        ..self
                    },
                    Ok(p),
                )
            },
        }
    }
}

/// An empty switcher over the given pool.
pub open spec fn empty_view(start: u16, pool: u16, identity: Seq<char>, fallback: Fallback) -> SwitcherView {
    SwitcherView {
        start,
        pool,
        identity,
        fallback,
        rules: Seq::empty(),
        rule_ports: Seq::empty(),
        slots: Seq::new(pool as nat, |k: int| SlotView::Free),
        endpoints: Seq::new(pool as nat, |k: int| Endpoint { state: EndpointState::Closed, sessions: 0 }),
    }
}

/// Every add keeps the rule store, the pool and the endpoints in step:
/// as many active rules as bound ports as accepting endpoints.
pub proof fn lemma_add_keeps_inv(v: SwitcherView, r: RuleView)
    requires
        v.inv(),
    ensures
        v.add(r).0.inv(),
        bound_count(v.add(r).0.slots) == v.add(r).0.rules.len(),
        accepting_count(v.add(r).0.endpoints) == v.add(r).0.rules.len(),
{
    if v.add_error(r) is None {
        lemma_has_free(v.slots);
        let k = first_free(v.slots);
        let w = v.add(r).0;
        lemma_count_update(v.slots, |x: SlotView| x is Bound, k, SlotView::Bound(r.name));
        lemma_count_update(v.endpoints, |e: Endpoint| e.state is Accepting, k,
            Endpoint { state: EndpointState::Accepting, sessions: 0 });
        assert forall|i: int| 0 <= i < w.rules.len() implies #[trigger] valid_rule(w.rules[i]) by {
            if i < v.rules.len() {
                assert(valid_rule(v.rules[i]));
            }
        }
        assert forall|i: int, j: int| 0 <= i < j < w.rules.len() implies #[trigger] w.rules[i].name
            != #[trigger] w.rules[j].name by {
            if j == v.rules.len() {
                assert(!(v.rules[i].name == r.name));
            } else {
                assert(v.rules[i].name != v.rules[j].name);
            }
        }
        assert forall|i: int| 0 <= i < w.rules.len() implies {
            &&& w.start <= #[trigger] w.rule_ports[i] < w.start + w.pool
            &&& w.slots[w.rule_ports[i] - w.start] == SlotView::Bound(w.rules[i].name)
        } by {
            if i < v.rules.len() {
                assert(v.start <= v.rule_ports[i] < v.start + v.pool);
                assert(v.slots[v.rule_ports[i] - v.start] is Bound);
            }
        }
        assert forall|kk: int| 0 <= kk < w.pool implies {
            &&& (#[trigger] w.slots[kk] is Free <==> w.endpoints[kk].state is Closed)
            &&& (w.slots[kk] is Bound <==> w.endpoints[kk].state is Accepting)
            &&& (w.slots[kk] is Draining <==> w.endpoints[kk].state is Draining)
            &&& (w.endpoints[kk].state is Closed ==> w.endpoints[kk].sessions == 0)
            &&& (w.endpoints[kk].state is Draining ==> w.endpoints[kk].sessions > 0)
        } by {
            assert(v.slots[kk] is Free <==> v.endpoints[kk].state is Closed);
        }
    }
}

impl SwitcherView {
    /// Position of the rule named `name`.
    pub open spec fn index_of(&self, name: Seq<char>) -> int {
        choose|i: int| 0 <= i < self.rules.len() && #[trigger] self.rules[i].name == name
    }

    /// Deleting rule `name`: it leaves the table and its endpoint stops
    /// accepting. The port returns to the pool at once when no session runs on
    /// it, else it drains. An unknown name changes nothing.
    pub open spec fn delete(self, name: Seq<char>) -> (SwitcherView, Result<u16, ProxyError>) {
        if !has_name(self.rules, name) {
            (self, Err(ProxyError::NotFound))
        } else {
            let i = self.index_of(name);
            let p = self.rule_ports[i];
            let k = p - self.start;
            let n = self.endpoints[k].sessions;
            (
                SwitcherView {
                    rules: self.rules.remove(i),
                    rule_ports: self.rule_ports.remove(i),
                    slots: self.slots.update(k, if n == 0 { SlotView::Free } else { SlotView::Draining }),
                    endpoints: self.endpoints.update(
                        k,
                        Endpoint {
                            state: if n == 0 { EndpointState::Closed } else { EndpointState::Draining },
                            sessions: n,
                        },
                    ),
                    ..self
                },
                Ok(p),
            )
        }
    }

    /// Opening a session on the endpoint of `port`: admitted only while that
    /// endpoint accepts.
    pub open spec fn open_session(self, port: u16) -> (SwitcherView, bool) {
        let k = port - self.start;
        if self.start <= port < self.start + self.pool && self.endpoints[k].state is Accepting
            && self.endpoints[k].sessions < u64::MAX {
            (
                SwitcherView {
                    endpoints: self.endpoints.update(
                        k,
                        Endpoint { sessions: (self.endpoints[k].sessions + 1) as u64, ..self.endpoints[k] },
                    ),
                    ..self
                },
                true,
            )
        } else {
            (self, false)
        }
    }

    /// Closing a session on the endpoint of `port`. `None` when no session
    /// runs there; else whether the port went back to the pool (the last
    /// session of a draining endpoint).
    pub open spec fn close_session(self, port: u16) -> (SwitcherView, Option<bool>) {
        let k = port - self.start;
        if self.start <= port < self.start + self.pool && self.endpoints[k].sessions > 0 {
            let n = (self.endpoints[k].sessions - 1) as u64;
            if self.endpoints[k].state is Draining && n == 0 {
                (
                    SwitcherView {
                        slots: self.slots.update(k, SlotView::Free),
                        endpoints: self.endpoints.update(k, Endpoint { state: EndpointState::Closed, sessions: 0 }),
                        ..self
                    },
                    Some(true),
                )
            } else {
                (
                    SwitcherView {
                        endpoints: self.endpoints.update(k, Endpoint { sessions: n, ..self.endpoints[k] }),
                        ..self
                    },
                    Some(false),
                )
            }
        } else {
            (self, None)
        }
    }

    /// Where a connection to `host` goes: the tunnel of the selected rule, or
    /// the fallback when no rule matches.
    pub open spec fn route(&self, host: Seq<char>) -> Route {
        if exists|i: int| selects(self.rules, host, i) {
            Route::Tunnel(self.rule_ports[choose|i: int| selects(self.rules, host, i)])
        } else {
            match self.fallback {
                Fallback::Direct => Route::Direct,
                Fallback::Reject => Route::Reject,
            }
        }
    }
}

/// Deletion keeps the rule store, the pool and the endpoints in step.
pub proof fn lemma_delete_keeps_inv(v: SwitcherView, name: Seq<char>)
    requires
        v.inv(),
    ensures
        v.delete(name).0.inv(),
{
    if has_name(v.rules, name) {
        let i = v.index_of(name);
        let p = v.rule_ports[i];
        let k = p - v.start;
        let n = v.endpoints[k].sessions;
        let w = v.delete(name).0;
        let ns = if n == 0 { SlotView::Free } else { SlotView::Draining };
        let ne = Endpoint {
            state: if n == 0 { EndpointState::Closed } else { EndpointState::Draining },
            sessions: n,
        };
        assert(v.slots[k] is Bound);
        lemma_count_update(v.slots, |x: SlotView| x is Bound, k, ns);
        lemma_count_update(v.endpoints, |e: Endpoint| e.state is Accepting, k, ne);
        assert forall|a: int| 0 <= a < w.rules.len() implies #[trigger] valid_rule(w.rules[a]) by {
            if a < i {
                assert(valid_rule(v.rules[a]));
            } else {
                assert(valid_rule(v.rules[a + 1]));
            }
        }
        assert forall|a: int, b: int| 0 <= a < b < w.rules.len() implies #[trigger] w.rules[a].name
            != #[trigger] w.rules[b].name by {
            let a2 = if a < i { a } else { a + 1 };
            let b2 = if b < i { b } else { b + 1 };
            assert(v.rules[a2].name != v.rules[b2].name);
        }
        assert forall|a: int| 0 <= a < w.rules.len() implies {
            &&& w.start <= #[trigger] w.rule_ports[a] < w.start + w.pool
            &&& w.slots[w.rule_ports[a] - w.start] == SlotView::Bound(w.rules[a].name)
        } by {
            let a2 = if a < i { a } else { a + 1 };
            assert(v.start <= v.rule_ports[a2] < v.start + v.pool);
            assert(v.slots[v.rule_ports[a2] - v.start] == SlotView::Bound(v.rules[a2].name));
            assert(v.rules[a2].name != v.rules[i].name);
        }
        assert forall|kk: int| 0 <= kk < w.pool implies {
            &&& (#[trigger] w.slots[kk] is Free <==> w.endpoints[kk].state is Closed)
            &&& (w.slots[kk] is Bound <==> w.endpoints[kk].state is Accepting)
            &&& (w.slots[kk] is Draining <==> w.endpoints[kk].state is Draining)
            &&& (w.endpoints[kk].state is Closed ==> w.endpoints[kk].sessions == 0)
            &&& (w.endpoints[kk].state is Draining ==> w.endpoints[kk].sessions > 0)
        } by {
            assert(v.slots[kk] is Free <==> v.endpoints[kk].state is Closed);
        }
    }
}

/// Opening and closing sessions keep the invariant.
pub proof fn lemma_sessions_keep_inv(v: SwitcherView, port: u16)
    requires
        v.inv(),
    ensures
        v.open_session(port).0.inv(),
        v.close_session(port).0.inv(),
{
    let k = port - v.start;
    if v.open_session(port).1 {
        let w = v.open_session(port).0;
        let e = Endpoint { sessions: (v.endpoints[k].sessions + 1) as u64, ..v.endpoints[k] };
        lemma_count_update(v.endpoints, |e: Endpoint| e.state is Accepting, k, e);
        assert forall|kk: int| 0 <= kk < w.pool implies {
            &&& (#[trigger] w.slots[kk] is Free <==> w.endpoints[kk].state is Closed)
            &&& (w.slots[kk] is Bound <==> w.endpoints[kk].state is Accepting)
            &&& (w.slots[kk] is Draining <==> w.endpoints[kk].state is Draining)
            &&& (w.endpoints[kk].state is Closed ==> w.endpoints[kk].sessions == 0)
            &&& (w.endpoints[kk].state is Draining ==> w.endpoints[kk].sessions > 0)
        } by {
            assert(v.slots[kk] is Free <==> v.endpoints[kk].state is Closed);
        }
    }
    if v.close_session(port).1 is Some {
        let w = v.close_session(port).0;
        let n = (v.endpoints[k].sessions - 1) as u64;
        if v.endpoints[k].state is Draining && n == 0 {
            lemma_count_update(v.slots, |x: SlotView| x is Bound, k, SlotView::Free);
            lemma_count_update(v.endpoints, |e: Endpoint| e.state is Accepting, k,
                Endpoint { state: EndpointState::Closed, sessions: 0 });
        } else {
            lemma_count_update(v.endpoints, |e: Endpoint| e.state is Accepting, k,
                Endpoint { sessions: n, ..v.endpoints[k] });
        }
        assert forall|a: int| 0 <= a < w.rules.len() implies {
            &&& w.start <= #[trigger] w.rule_ports[a] < w.start + w.pool
            &&& w.slots[w.rule_ports[a] - w.start] == SlotView::Bound(w.rules[a].name)
        } by {
            assert(v.start <= v.rule_ports[a] < v.start + v.pool);
            assert(v.slots[v.rule_ports[a] - v.start] == SlotView::Bound(v.rules[a].name));
        }
        assert forall|kk: int| 0 <= kk < w.pool implies {
            &&& (#[trigger] w.slots[kk] is Free <==> w.endpoints[kk].state is Closed)
            &&& (w.slots[kk] is Bound <==> w.endpoints[kk].state is Accepting)
            &&& (w.slots[kk] is Draining <==> w.endpoints[kk].state is Draining)
            &&& (w.endpoints[kk].state is Closed ==> w.endpoints[kk].sessions == 0)
            &&& (w.endpoints[kk].state is Draining ==> w.endpoints[kk].sessions > 0)
        } by {
            assert(v.slots[kk] is Free <==> v.endpoints[kk].state is Closed);
        }
    }
}

pub proof fn lemma_selects_unique(rules: Seq<RuleView>, h: Seq<char>, i: int, j: int)
    requires
        selects(rules, h, i),
        selects(rules, h, j),
    ensures
        i == j,
{
    if i < j {
        assert(crate::matcher::sites_score(rules[i].sites, h) < crate::matcher::sites_score(rules[j].sites, h));
    } else if j < i {
        assert(crate::matcher::sites_score(rules[j].sites, h) < crate::matcher::sites_score(rules[i].sites, h));
    }
}

/// The routing engine's state: the rule table, the port pool and the tunnel
/// endpoints, changed together by each operation.
pub struct Switcher {
    global: Global,
    fallback: Fallback,
    rules: Vec<Rule>,
    rule_ports: Vec<u16>,
    ports: PortAllocator,
    endpoints: Vec<Endpoint>,
}

impl Switcher {
    pub closed spec fn view(&self) -> SwitcherView {
        SwitcherView {
            start: self.ports.start_port,
            pool: self.global.ports,
            identity: self.global.identity_file@,
            fallback: self.fallback,
            rules: rules_view(self.rules@),
            rule_ports: self.rule_ports@,
            slots: self.ports@,
            endpoints: self.endpoints@,
        }
    }

    pub closed spec fn wf(&self) -> bool {
        &&& self@.inv()
        &&& self.global.start_port == self.ports.start_port
        &&& self.ports.wf()
    }

    /// A switcher with no rules over the pool that `global` describes; fails
    /// when the pool runs past the last port.
    pub fn new(global: Global, fallback: Fallback) -> (r: Result<Switcher, ProxyError>)
        ensures
            r is Ok <==> global.start_port as int + global.ports as int <= 65536,
            match r {
                Ok(s) => s.wf() && s@ == empty_view(global.start_port, global.ports, global.identity_file@, fallback),
                Err(e) => e == ProxyError::Validation(ValidationError::InvalidPool),
            },
    {
        if global.start_port as u32 + global.ports as u32 > 65536 {
            return Err(ProxyError::Validation(ValidationError::InvalidPool));
        }
        let ports = PortAllocator::new(global.start_port, global.ports);
        let mut endpoints: Vec<Endpoint> = Vec::new();
        let mut i: u16 = 0;
        while i < global.ports
            invariant
                i <= global.ports,
                endpoints@.len() == i,
                forall|k: int| 0 <= k < i ==> #[trigger] endpoints@[k] == (Endpoint { state: EndpointState::Closed, sessions: 0 }),
            decreases global.ports - i,
        {
            endpoints.push(Endpoint { state: EndpointState::Closed, sessions: 0 });
            i = i + 1;
        }
        let s = Switcher { global, fallback, rules: Vec::new(), rule_ports: Vec::new(), ports, endpoints };
        proof {
            let e = empty_view(s.global.start_port, s.global.ports, s.global.identity_file@, fallback);
            assert(s@.slots =~= e.slots);
            assert(s@.endpoints =~= e.endpoints);
            assert(s@.rules =~= e.rules);
            lemma_empty_inv(s.global.start_port, s.global.ports, s.global.identity_file@, fallback);
        }
        Ok(s)
    }

    /// Adds a rule, binds it to the lowest free port and opens its endpoint,
    /// as one step; on any error nothing changes.
    pub fn add_rule(&mut self, name: String, server: Server) -> (r: Result<u16, ProxyError>)
        requires
            old(self).wf(),
        ensures
            final(self).wf(),
            (final(self)@, r) == old(self)@.add(
                RuleView { name: name@, upstream: server.ipaddr@, sites: server.sites_view() },
            ),
    {
        let ghost rv = RuleView { name: name@, upstream: server.ipaddr@, sites: server.sites_view() };
        proof {
            lemma_add_keeps_inv(self@, rv);
        }
        if name.as_str().unicode_len() == 0 {
            return Err(ProxyError::Validation(ValidationError::EmptyName));
        }
        if !check_upstream(server.ipaddr.as_str()) {
            return Err(ProxyError::Validation(ValidationError::InvalidUpstream));
        }
        if server.sites.len() == 0 {
            return Err(ProxyError::Validation(ValidationError::EmptySites));
        }
        if self.find_rule(&name).is_some() {
            return Err(ProxyError::Conflict(ConflictError::DuplicateName));
        }
        let ghost v = self@;
        match self.ports.allocate(&name) {
            None => Err(ProxyError::Conflict(ConflictError::PoolExhausted)),
            Some(p) => {
                proof {
                    lemma_has_free(v.slots);
                }
                let k: usize = (p - self.ports.start_port) as usize;
                self.endpoints.set(k, Endpoint { state: EndpointState::Accepting, sessions: 0 });
                self.rules.push(Rule { name, server });
                self.rule_ports.push(p);
                proof {
                    assert(self@.rules =~= v.rules.push(rv));
                    assert(self@.endpoints =~= v.endpoints.update(first_free(v.slots), Endpoint { state: EndpointState::Accepting, sessions: 0 }));
                    assert(self@ == v.add(rv).0);
                }
                Ok(p)
            },
        }
    }

    /// Deletes rule `name`: the rule leaves the table, its endpoint stops
    /// accepting, and its port is freed now or once its sessions end.
    pub fn del_rule(&mut self, name: &String) -> (r: Result<u16, ProxyError>)
        requires
            old(self).wf(),
        ensures
            final(self).wf(),
            (final(self)@, r) == old(self)@.delete(name@),
    {
        proof {
            lemma_delete_keeps_inv(self@, name@);
        }
        let ghost v = self@;
        match self.find_rule(name) {
            None => Err(ProxyError::NotFound),
            Some(i) => {
                assert(v.index_of(name@) == i) by {
                    let ii = v.index_of(name@);
                    if ii != i {
                        if ii < i {
                            assert(v.rules[ii].name != v.rules[i as int].name);
                        } else {
                            assert(v.rules[i as int].name != v.rules[ii].name);
                        }
                    }
                }
                let p = self.rule_ports[i];
                let k: usize = (p - self.ports.start_port) as usize;
                let n = self.endpoints[k].sessions;
                self.rules.remove(i);
                self.rule_ports.remove(i);
                if n == 0 {
                    self.ports.set(k, Slot::Free);
                    self.endpoints.set(k, Endpoint { state: EndpointState::Closed, sessions: 0 });
                } else {
                    self.ports.set(k, Slot::Draining);
                    self.endpoints.set(k, Endpoint { state: EndpointState::Draining, sessions: n });
                }
                proof {
                    assert(self@.rules =~= v.rules.remove(i as int));
                    assert(self@ == v.delete(name@).0);
                }
                Ok(p)
            },
        }
    }

    /// Position of the rule named `name`.
    fn find_rule(&self, name: &String) -> (r: Option<usize>)
        ensures
            match r {
                Some(i) => i < self@.rules.len() && self@.rules[i as int].name == name@ && i < self.rules@.len(),
                None => !has_name(self@.rules, name@),
            },
    {
        let mut i: usize = 0;
        while i < self.rules.len()
            invariant
                i <= self.rules@.len(),
                forall|j: int| 0 <= j < i ==> #[trigger] self@.rules[j].name != name@,
            decreases self.rules.len() - i,
        {
            if self.rules[i].name == *name {
                return Some(i);
            }
            i = i + 1;
        }
        None
    }
}

pub proof fn lemma_empty_inv(start: u16, pool: u16, identity: Seq<char>, fallback: Fallback)
    requires
        start as int + pool as int <= 65536,
    ensures
        empty_view(start, pool, identity, fallback).inv(),
        forall|k: int| 0 <= k < pool ==> !(#[trigger] empty_view(start, pool, identity, fallback).slots[k] is Draining),
{
    let e = empty_view(start, pool, identity, fallback);
    lemma_count_bounded(e.slots, |x: SlotView| x is Bound);
    lemma_count_bounded(e.endpoints, |e: Endpoint| e.state is Accepting);
}

/// Loading a rule table: an empty switcher, then each rule added in order;
/// stops at the first error.
pub open spec fn load(
    start: u16,
    pool: u16,
    identity: Seq<char>,
    fallback: Fallback,
    rules: Seq<RuleView>,
) -> (SwitcherView, Result<(), ProxyError>)
    decreases rules.len(),
{
    if rules.len() == 0 {
        if start as int + pool as int > 65536 {
            (empty_view(start, pool, identity, fallback), Err(ProxyError::Validation(ValidationError::InvalidPool)))
        } else {
            (empty_view(start, pool, identity, fallback), Ok(()))
        }
    } else {
        let (v, r) = load(start, pool, identity, fallback, rules.drop_last());
        if r is Err {
            (v, r)
        } else {
            let (w, q) = v.add(rules.last());
            (
                w,
                match q {
                    Ok(_) => Ok(()),
                    Err(e) => Err(e),
                },
            )
        }
    }
}

/// Per-rule status line: name, port and live sessions.
pub struct RuleStatus {
    pub name: String,
    pub port: u16,
    pub sessions: u64,
}

impl Switcher {
    /// Opens a session on the endpoint of `port` when it accepts.
    pub fn open_session(&mut self, port: u16) -> (r: bool)
        requires
            old(self).wf(),
        ensures
            final(self).wf(),
            (final(self)@, r) == old(self)@.open_session(port),
    {
        proof {
            lemma_sessions_keep_inv(self@, port);
        }
        let ghost v = self@;
        if port < self.ports.start_port || port as u32 >= self.ports.start_port as u32 + self.global.ports as u32 {
            return false;
        }
        let k: usize = (port - self.ports.start_port) as usize;
        let e = self.endpoints[k];
        match e.state {
            EndpointState::Accepting => {
                if e.sessions < u64::MAX {
                    self.endpoints.set(k, Endpoint { state: e.state, sessions: e.sessions + 1 });
                    assert(self@ == v.open_session(port).0);
                    true
                } else {
                    false
                }
            },
            _ => false,
        }
    }

    /// Closes one session on the endpoint of `port`; `Some(true)` when that
    /// was the last session of a draining endpoint and its port is free again.
    pub fn close_session(&mut self, port: u16) -> (r: Option<bool>)
        requires
            old(self).wf(),
        ensures
            final(self).wf(),
            (final(self)@, r) == old(self)@.close_session(port),
    {
        proof {
            lemma_sessions_keep_inv(self@, port);
        }
        let ghost v = self@;
        if port < self.ports.start_port || port as u32 >= self.ports.start_port as u32 + self.global.ports as u32 {
            return None;
        }
        let k: usize = (port - self.ports.start_port) as usize;
        let e = self.endpoints[k];
        if e.sessions == 0 {
            return None;
        }
        let n = e.sessions - 1;
        let last_of_drain = match e.state {
            EndpointState::Draining => n == 0,
            _ => false,
        };
        if last_of_drain {
            self.ports.set(k, Slot::Free);
            self.endpoints.set(k, Endpoint { state: EndpointState::Closed, sessions: 0 });
            assert(self@ == v.close_session(port).0);
            Some(true)
        } else {
            self.endpoints.set(k, Endpoint { state: e.state, sessions: n });
            assert(self@ == v.close_session(port).0);
            Some(false)
        }
    }

    /// Where a connection to `host` is sent.
    pub fn route(&self, host: &str) -> (r: Route)
        requires
            self.wf(),
        ensures
            r == self@.route(host@),
    {
        match match_host(host, &self.rules) {
            Some(i) => {
                proof {
                    let c = choose|c: int| selects(self@.rules, host@, c);
                    lemma_selects_unique(self@.rules, host@, i as int, c);
                }
                Route::Tunnel(self.rule_ports[i])
            },
            None => {
                assert forall|i: int| !selects(self@.rules, host@, i) by {
                    if 0 <= i < self@.rules.len() {
                        assert(crate::matcher::sites_score(self@.rules[i].sites, host@) < 0);
                    }
                }
                match self.fallback {
                    Fallback::Direct => Route::Direct,
                    Fallback::Reject => Route::Reject,
                }
            },
        }
    }

    /// Names of the active rules in creation order.
    pub fn names(&self) -> (r: Vec<String>)
        ensures
            r@.len() == self@.rules.len(),
            forall|i: int| 0 <= i < r@.len() ==> #[trigger] r@[i]@ == self@.rules[i].name,
    {
        let mut r: Vec<String> = Vec::new();
        let mut i: usize = 0;
        while i < self.rules.len()
            invariant
                i <= self.rules@.len(),
                r@.len() == i,
                forall|j: int| 0 <= j < i ==> #[trigger] r@[j]@ == self@.rules[j].name,
            decreases self.rules.len() - i,
        {
            r.push(self.rules[i].name.clone());
            i = i + 1;
        }
        r
    }

    /// Each active rule with its port and its number of live sessions.
    pub fn status(&self) -> (r: Vec<RuleStatus>)
        requires
            self.wf(),
        ensures
            r@.len() == self@.rules.len(),
            forall|i: int|
                0 <= i < r@.len() ==> {
                    &&& (#[trigger] r@[i]).name@ == self@.rules[i].name
                    &&& r@[i].port == self@.rule_ports[i]
                    &&& r@[i].sessions == self@.endpoints[self@.rule_ports[i] - self@.start].sessions
                },
    {
        let mut r: Vec<RuleStatus> = Vec::new();
        let mut i: usize = 0;
        while i < self.rules.len()
            invariant
                self.wf(),
                i <= self.rules@.len(),
                r@.len() == i,
                forall|j: int|
                    0 <= j < i ==> {
                        &&& (#[trigger] r@[j]).name@ == self@.rules[j].name
                        &&& r@[j].port == self@.rule_ports[j]
                        &&& r@[j].sessions == self@.endpoints[self@.rule_ports[j] - self@.start].sessions
                    },
            decreases self.rules.len() - i,
        {
            let p = self.rule_ports[i];
            assert(self@.start <= self@.rule_ports[i as int] < self@.start + self@.pool);
            let k: usize = (p - self.ports.start_port) as usize;
            r.push(RuleStatus { name: self.rules[i].name.clone(), port: p, sessions: self.endpoints[k].sessions });
            i = i + 1;
        }
        r
    }

    /// The state to persist: the settings and the rule table in creation order.
    pub fn snapshot(&self) -> (r: Config)
        requires
            self.wf(),
        ensures
            r.global.start_port == self@.start,
            r.global.ports == self@.pool,
            r.global.identity_file@ == self@.identity,
            rules_view(r.servers@) == self@.rules,
    {
        let mut servers: Vec<Rule> = Vec::new();
        let mut i: usize = 0;
        while i < self.rules.len()
            invariant
                i <= self.rules@.len(),
                servers@.len() == i,
                forall|j: int| 0 <= j < i ==> #[trigger] servers@[j].view() == self@.rules[j],
            decreases self.rules.len() - i,
        {
            let rule = &self.rules[i];
            servers.push(Rule { name: rule.name.clone(), server: rule.server.duplicate() });
            i = i + 1;
        }
        assert(rules_view(servers@) =~= self@.rules);
        Config {
            global: Global {
                start_port: self.global.start_port,
                ports: self.global.ports,
                identity_file: self.global.identity_file.clone(),
            },
            servers,
        }
    }

    /// Rebuilds the switcher from a persisted state, adding its rules in order.
    pub fn from_config(cfg: &Config, fallback: Fallback) -> (r: Result<Switcher, ProxyError>)
        ensures
            ({
                let (v, q) = load(cfg.global.start_port, cfg.global.ports, cfg.global.identity_file@, fallback, rules_view(cfg.servers@));
                match r {
                    Ok(s) => s.wf() && q is Ok && s@ == v,
                    Err(e) => q == Err::<(), ProxyError>(e),
                }
            }),
    {
        let g = &cfg.global;
        let ghost rv = rules_view(cfg.servers@);
        let ghost id = g.identity_file@;
        let global = Global { start_port: g.start_port, ports: g.ports, identity_file: g.identity_file.clone() };
        let mut s = match Switcher::new(global, fallback) {
            Ok(s) => s,
            Err(e) => {
                assert(load(g.start_port, g.ports, id, fallback, rv.subrange(0, 0)).1 is Err);
                proof {
                    lemma_load_err_sticks(g.start_port, g.ports, id, fallback, rv, 0);
                }
                return Err(e);
            },
        };
        assert(rv.subrange(0, 0) =~= Seq::<RuleView>::empty());
        let mut i: usize = 0;
        while i < cfg.servers.len()
            invariant
                i <= cfg.servers@.len(),
                rv == rules_view(cfg.servers@),
                id == cfg.global.identity_file@,
                s.wf(),
                load(cfg.global.start_port, cfg.global.ports, id, fallback, rv.subrange(0, i as int)) == (s@, Ok::<(), ProxyError>(())),
            decreases cfg.servers.len() - i,
        {
            let rule = &cfg.servers[i];
            let res = s.add_rule(rule.name.clone(), rule.server.duplicate());
            assert(rv.subrange(0, i + 1).drop_last() =~= rv.subrange(0, i as int));
            assert(rv.subrange(0, i + 1).last() == rule.view());
            match res {
                Ok(_) => {},
                Err(e) => {
                    proof {
                        lemma_load_err_sticks(cfg.global.start_port, cfg.global.ports, id, fallback, rv, i + 1);
                    }
                    return Err(e);
                },
            }
            i = i + 1;
        }
        assert(rv.subrange(0, cfg.servers@.len() as int) =~= rv);
        Ok(s)
    }
}

/// Once loading a prefix fails, loading the whole table fails the same way.
proof fn lemma_load_err_sticks(
    start: u16,
    pool: u16,
    identity: Seq<char>,
    fallback: Fallback,
    rules: Seq<RuleView>,
    n: int,
)
    requires
        0 <= n <= rules.len(),
        load(start, pool, identity, fallback, rules.subrange(0, n)).1 is Err,
    ensures
        load(start, pool, identity, fallback, rules).1 == load(start, pool, identity, fallback, rules.subrange(0, n)).1,
    decreases rules.len() - n,
{
    if n < rules.len() {
        let a = rules.subrange(0, n + 1);
        assert(a.drop_last() =~= rules.subrange(0, n));
        lemma_load_err_sticks(start, pool, identity, fallback, rules, n + 1);
    } else {
        assert(rules.subrange(0, n) =~= rules);
    }
}

} // verus!
