use vstd::prelude::*;
use vstd::string::StrSliceExecFns;
use crate::config::{Rule, RuleView, rules_view};

verus! {

/// ASCII case folding of one character, as a code point.
pub open spec fn fold(c: char) -> u32 {
    if 'A' <= c && c <= 'Z' {
        (c as u32 + 32) as u32
    } else {
        c as u32
    }
}

/// `a[ao..ao+n]` and `b[bo..bo+n]` agree up to ASCII case.
pub open spec fn range_eq_ci(a: Seq<char>, ao: int, b: Seq<char>, bo: int, n: int) -> bool {
    forall|k: int| 0 <= k < n ==> #[trigger] fold(a[ao + k]) == fold(b[bo + k])
}

/// A pattern of the form `*.suffix`.
pub open spec fn is_wildcard(p: Seq<char>) -> bool {
    p.len() >= 2 && p[0] == '*' && p[1] == '.'
}

/// How specifically pattern `p` matches host `h`; -1 when it does not match.
/// A wildcard `*.d` matches a host that ends in `.d` (with at least one
/// character before it) and scores the length of `d`; an exact pattern
/// scores the host's length, above every wildcard that can match that host.
pub open spec fn site_score(p: Seq<char>, h: Seq<char>) -> int {
    if is_wildcard(p) {
        if h.len() > p.len() - 1 && range_eq_ci(h, h.len() - (p.len() - 1), p, 1, p.len() - 1) {
            p.len() - 2
        } else {
            -1
        }
    } else if p.len() == h.len() && range_eq_ci(h, 0, p, 0, h.len() as int) {
        h.len() as int
    } else {
        -1
    }
}

/// Best score of any of a rule's patterns; -1 when none matches.
pub open spec fn sites_score(sites: Seq<Seq<char>>, h: Seq<char>) -> int
    decreases sites.len(),
{
    if sites.len() == 0 {
        -1
    } else {
        let rest = sites_score(sites.drop_last(), h);
        let last = site_score(sites.last(), h);
        if rest >= last { rest } else { last }
    }
}

/// Rule `i` is the one selected for host `h`: it matches, nothing matches more
/// specifically, and every earlier rule matches strictly less specifically.
pub open spec fn selects(rules: Seq<RuleView>, h: Seq<char>, i: int) -> bool {
    &&& 0 <= i < rules.len()
    &&& sites_score(rules[i].sites, h) >= 0
    &&& forall|j: int| 0 <= j < rules.len() ==> #[trigger] sites_score(rules[j].sites, h) <= sites_score(rules[i].sites, h)
    &&& forall|j: int| 0 <= j < i ==> #[trigger] sites_score(rules[j].sites, h) < sites_score(rules[i].sites, h)
}

/// No rule matches host `h`.
pub open spec fn no_match(rules: Seq<RuleView>, h: Seq<char>) -> bool {
    forall|j: int| 0 <= j < rules.len() ==> #[trigger] sites_score(rules[j].sites, h) < 0
}

pub open spec fn score_of(r: Option<usize>) -> int {
    match r {
        Some(n) => n as int,
        None => -1,
    }
}

fn beats(a: Option<usize>, b: Option<usize>) -> (r: bool)
    ensures
        r == (score_of(a) > score_of(b)),
{
    match (a, b) {
        (Some(x), Some(y)) => x > y,
        (Some(_), None) => true,
        (None, _) => false,
    }
}

fn fold_char(c: char) -> (r: u32)
    ensures
        r == fold(c),
{
    if 'A' <= c && c <= 'Z' {
        c as u32 + 32
    } else {
        c as u32
    }
}

/// Whether `a[ao..ao+n]` and `b[bo..bo+n]` agree up to ASCII case.
pub fn ranges_equal(a: &str, ao: usize, b: &str, bo: usize, n: usize) -> (r: bool)
    requires
        ao + n <= a@.len() <= usize::MAX,
        bo + n <= b@.len() <= usize::MAX,
    ensures
        r == range_eq_ci(a@, ao as int, b@, bo as int, n as int),
{
    let mut k: usize = 0;
    while k < n
        invariant
            k <= n,
            ao + n <= a@.len() <= usize::MAX,
            bo + n <= b@.len() <= usize::MAX,
            range_eq_ci(a@, ao as int, b@, bo as int, k as int),
        decreases n - k,
    {
        if fold_char(a.get_char(ao + k)) != fold_char(b.get_char(bo + k)) {
            assert(fold(a@[ao + k]) != fold(b@[bo + k]));
            return false;
        }
        k = k + 1;
    }
    true
}

/// Score of one pattern against a host (`None` when it does not match).
pub fn match_site(pattern: &str, host: &str) -> (r: Option<usize>)
    ensures
        score_of(r) == site_score(pattern@, host@),
{
    let pl = pattern.unicode_len();
    let hl = host.unicode_len();
    if pl >= 2 && pattern.get_char(0) == '*' && pattern.get_char(1) == '.' {
        let sl = pl - 1;
        if hl > sl && ranges_equal(host, hl - sl, pattern, 1, sl) {
            Some(pl - 2)
        } else {
            None
        }
    } else if pl == hl && ranges_equal(host, 0, pattern, 0, hl) {
        Some(hl)
    } else {
        None
    }
}

/// Best score of a list of patterns against a host.
pub fn match_sites(sites: &Vec<String>, host: &str) -> (r: Option<usize>)
    ensures
        score_of(r) == sites_score(crate::config::sites_view(sites@), host@),
{
    let ghost sv = crate::config::sites_view(sites@);
    let mut best: Option<usize> = None;
    let mut i: usize = 0;
    while i < sites.len()
        invariant
            i <= sites.len(),
            sv == crate::config::sites_view(sites@),
            score_of(best) == sites_score(sv.subrange(0, i as int), host@),
        decreases sites.len() - i,
    {
        let s = match_site(sites[i].as_str(), host);
        proof {
            assert(sv.subrange(0, i + 1).drop_last() =~= sv.subrange(0, i as int));
        }
        if beats(s, best) {
            best = s;
        }
        i = i + 1;
    }
    assert(sv.subrange(0, sites.len() as int) =~= sv);
    best
}

/// The rule that routes `hostname`: an exact pattern beats any wildcard, a
/// longer wildcard suffix beats a shorter one, and among equally specific
/// matches the earliest rule wins. `None` when no pattern matches.
pub fn match_host(hostname: &str, rules: &Vec<Rule>) -> (r: Option<usize>)
    ensures
        match r {
            Some(i) => selects(rules_view(rules@), hostname@, i as int),
            None => no_match(rules_view(rules@), hostname@),
        },
{
    let ghost rv = rules_view(rules@);
    let mut best: Option<usize> = None;
    let mut best_score: Option<usize> = None;
    let mut i: usize = 0;
    while i < rules.len()
        invariant
            i <= rules.len(),
            rv == rules_view(rules@),
            match best {
                Some(b) => {
                    &&& b < i
                    &&& score_of(best_score) == sites_score(rv[b as int].sites, hostname@)
                    &&& sites_score(rv[b as int].sites, hostname@) >= 0
                    &&& forall|j: int| 0 <= j < i ==> #[trigger] sites_score(rv[j].sites, hostname@) <= sites_score(rv[b as int].sites, hostname@)
                    &&& forall|j: int| 0 <= j < b ==> #[trigger] sites_score(rv[j].sites, hostname@) < sites_score(rv[b as int].sites, hostname@)
                },
                None => {
                    &&& best_score is None
                    &&& forall|j: int| 0 <= j < i ==> #[trigger] sites_score(rv[j].sites, hostname@) < 0
                },
            },
        decreases rules.len() - i,
    {
        let s = match_sites(&rules[i].server.sites, hostname);
        if beats(s, best_score) {
            best = Some(i);
            best_score = s;
        }
        i = i + 1;
    }
    best
}

} // verus!
