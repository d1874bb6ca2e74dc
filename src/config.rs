use vstd::prelude::*;

verus! {

/// Settings shared by every rule: the local port pool and the credential file
/// used towards upstream proxies.
pub struct Global {
    /// First port of the allocatable pool.
    pub start_port: u16,
    /// Number of ports in the pool; bounds the number of active rules.
    pub ports: u16,
    /// Path of the identity material handed to upstream proxies.
    pub identity_file: String,
}

/// Upstream SOCKS proxy of a rule, and the hostname patterns routed to it.
pub struct Server {
    /// Upstream address, `host:port`.
    pub ipaddr: String,
    /// Exact hostnames or `*.suffix` patterns, in order.
    pub sites: Vec<String>,
}

/// A named rule as it is listed and persisted.
pub struct Rule {
    pub name: String,
    pub server: Server,
}

/// The persisted state: global settings and the rule table in creation order.
pub struct Config {
    pub global: Global,
    pub servers: Vec<Rule>,
}

/// Abstract value of a rule: name, upstream address, site patterns.
pub struct RuleView {
    pub name: Seq<char>,
    pub upstream: Seq<char>,
    pub sites: Seq<Seq<char>>,
}

pub open spec fn sites_view(sites: Seq<String>) -> Seq<Seq<char>> {
    sites.map_values(|s: String| s@)
}

impl Server {
    pub open spec fn sites_view(&self) -> Seq<Seq<char>> {
        sites_view(self.sites@)
    }
}

impl Rule {
    pub open spec fn view(&self) -> RuleView {
        RuleView { name: self.name@, upstream: self.server.ipaddr@, sites: self.server.sites_view() }
    }
}

pub open spec fn rules_view(rules: Seq<Rule>) -> Seq<RuleView> {
    rules.map_values(|r: Rule| r.view())
}

pub fn copy_strings(v: &Vec<String>) -> (r: Vec<String>)
    ensures
        sites_view(r@) == sites_view(v@),
{
    let mut r: Vec<String> = Vec::new();
    let mut i: usize = 0;
    while i < v.len()
        invariant
            i <= v.len(),
            r@.len() == i,
            forall|k: int| 0 <= k < i ==> r@[k]@ == v@[k]@,
        decreases v.len() - i,
    {
        r.push(v[i].clone());
        i = i + 1;
    }
    assert(sites_view(r@) =~= sites_view(v@));
    r
}

impl Server {
    /// A copy with the same address and patterns.
    pub fn duplicate(&self) -> (r: Server)
        ensures
            r.ipaddr@ == self.ipaddr@,
            r.sites_view() == self.sites_view(),
    {
        Server { ipaddr: self.ipaddr.clone(), sites: copy_strings(&self.sites) }
    }
}

} // verus!
