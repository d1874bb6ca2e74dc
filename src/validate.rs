use vstd::prelude::*;
use vstd::string::StrSliceExecFns;

verus! {

pub open spec fn is_digit(c: char) -> bool {
    '0' <= c && c <= '9'
}

/// Decimal value of a string of digits.
pub open spec fn digits_value(s: Seq<char>) -> int
    decreases s.len(),
{
    if s.len() == 0 {
        0
    } else {
        digits_value(s.drop_last()) * 10 + (s.last() as int - '0' as int)
    }
}

/// One to five decimal digits naming a port in 1..=65535.
pub open spec fn valid_port(p: Seq<char>) -> bool {
    &&& 1 <= p.len() <= 5
    &&& forall|k: int| 0 <= k < p.len() ==> #[trigger] is_digit(p[k])
    &&& 1 <= digits_value(p) <= 65535
}

/// `s[c]` is the colon that splits `s` into a non-empty host and a port.
pub open spec fn is_split(s: Seq<char>, c: int) -> bool {
    0 < c < s.len() && s[c] == ':' && valid_port(s.subrange(c + 1, s.len() as int))
}

/// `host:port` with a non-empty host and a valid port after the last colon.
pub open spec fn valid_upstream(s: Seq<char>) -> bool {
    exists|c: int| #[trigger] is_split(s, c)
}

/// Where a valid address splits into host and port.
pub open spec fn split_point(s: Seq<char>) -> int {
    choose|c: int| is_split(s, c)
}

/// The host part of a valid address.
pub open spec fn host_part(s: Seq<char>) -> Seq<char> {
    s.subrange(0, split_point(s))
}

/// The port of a valid address.
pub open spec fn port_part(s: Seq<char>) -> int {
    digits_value(s.subrange(split_point(s) + 1, s.len() as int))
}

proof fn lemma_split_unique(s: Seq<char>, a: int, b: int)
    requires
        is_split(s, a),
        is_split(s, b),
    ensures
        a == b,
{
    if a < b {
        let q = s.subrange(a + 1, s.len() as int);
        assert(q[b - a - 1] == ':');
        assert(!is_digit(q[b - a - 1]));
    } else if b < a {
        let q = s.subrange(b + 1, s.len() as int);
        assert(q[a - b - 1] == ':');
        assert(!is_digit(q[a - b - 1]));
    }
}

pub open spec fn pow10(n: nat) -> int
    decreases n,
{
    if n == 0 {
        1
    } else {
        10 * pow10((n - 1) as nat)
    }
}

proof fn lemma_digits_bound(s: Seq<char>)
    requires
        forall|k: int| 0 <= k < s.len() ==> #[trigger] is_digit(s[k]),
    ensures
        0 <= digits_value(s) < pow10(s.len()),
    decreases s.len(),
{
    if s.len() > 0 {
        let d = s.drop_last();
        assert forall|k: int| 0 <= k < d.len() implies #[trigger] is_digit(d[k]) by {
            assert(is_digit(s[k]));
        }
        lemma_digits_bound(d);
        assert(is_digit(s[s.len() - 1]));
        let a = digits_value(d);
        let b = pow10(d.len());
        let x = s.last() as int - '0' as int;
        assert(a * 10 + x < b * 10) by (nonlinear_arith)
            requires
                0 <= a < b,
                0 <= x <= 9,
        ;
    }
}

/// Whether `addr` is a syntactically valid upstream address (`host:port`).
pub fn check_upstream(addr: &str) -> (r: bool)
    ensures
        r == valid_upstream(addr@),
{
    parse_upstream(addr).is_some()
}

/// Splits a `host:port` address: the position of its colon and the port.
/// `None` exactly when the address is not valid.
pub fn parse_upstream(addr: &str) -> (r: Option<(usize, u16)>)
    ensures
        r is Some <==> valid_upstream(addr@),
        match r {
            Some((c, p)) => c == split_point(addr@) && p == port_part(addr@),
            None => true,
        },
{
    let n = addr.unicode_len();
    let ghost s = addr@;
    // find the last colon
    let mut found: bool = false;
    let mut c: usize = 0;
    let mut i: usize = n;
    while i > 0 && !found
        invariant
            i <= n,
            n == s.len(),
            s == addr@,
            !found ==> forall|k: int| i <= k < n ==> s[k] != ':',
            found ==> c < n && s[c as int] == ':' && forall|k: int| c < k < n ==> s[k] != ':',
        decreases i + (if found { 0int } else { 1int }),
    {
        if addr.get_char(i - 1) == ':' {
            found = true;
            c = i - 1;
        } else {
            i = i - 1;
        }
    }
    if !found {
        proof {
            assert forall|c2: int| !#[trigger] is_split(s, c2) by {
                if 0 < c2 < s.len() {
                    assert(s[c2] != ':');
                }
            }
        }
        return None;
    }
    let ghost p = s.subrange(c + 1, n as int);
    let plen = n - c - 1;
    let mut ok: bool = c > 0 && 1 <= plen && plen <= 5;
    let ghost shape_ok = ok;
    let mut v: u32 = 0;
    let mut j: usize = 0;
    if ok {
        proof {
            reveal_with_fuel(pow10, 6);
        }
        while j < plen && ok
            invariant
                shape_ok,
                c < n,
                plen == n - c - 1,
                plen <= 5,
                j <= plen,
                n == s.len(),
                s == addr@,
                p == s.subrange(c + 1, n as int),
                forall|k: int| 0 <= k < j ==> #[trigger] is_digit(p[k]),
                v == digits_value(p.subrange(0, j as int)),
                v < pow10(j as nat),
                pow10(0) == 1 && pow10(1) == 10 && pow10(2) == 100 && pow10(3) == 1000 && pow10(4)
                    == 10000,
                !ok ==> j < plen && !is_digit(p[j as int]),
            decreases plen - j + (if ok { 1int } else { 0int }),
        {
            let d = addr.get_char(c + 1 + j);
            if !('0' <= d && d <= '9') {
                ok = false;
            } else {
                proof {
                    let q = p.subrange(0, j + 1);
                    assert(q.drop_last() =~= p.subrange(0, j as int));
                    assert forall|k: int| 0 <= k < j + 1 implies #[trigger] is_digit(q[k]) by {
                        assert(q[k] == p[k]);
                    }
                    lemma_digits_bound(q);
                    assert(j < 5);
                }
                v = v * 10 + (d as u32 - '0' as u32);
                j = j + 1;
            }
        }
        if ok {
            assert(p.subrange(0, plen as int) =~= p);
        }
    }
    if ok && 1 <= v && v <= 65535 {
        proof {
            assert(is_split(s, c as int));
            lemma_split_unique(s, c as int, split_point(s));
        }
        Some((c, v as u16))
    } else {
        proof {
            assert forall|c2: int| !#[trigger] is_split(s, c2) by {
                if 0 < c2 < s.len() && s[c2] == ':' {
                    if c2 < c {
                        let q = s.subrange(c2 + 1, s.len() as int);
                        assert(q[c - c2 - 1] == ':');
                        assert(!is_digit(q[c - c2 - 1]));
                    } else if c2 == c {
                        assert(s.subrange(c2 + 1, s.len() as int) == p);
                    }
                }
            }
        }
        None
    }
}

} // verus!
