use vstd::prelude::*;
use vstd::string::StrSliceExecFns;
use crate::matcher::range_eq_ci;
use crate::validate::{host_part, parse_upstream, port_part, valid_upstream};

verus! {

pub open spec fn connect_prefix() -> Seq<char> {
    seq!['C', 'O', 'N', 'N', 'E', 'C', 'T', ' ']
}

/// The request line is an HTTP `CONNECT`.
pub open spec fn is_connect(line: Seq<char>) -> bool {
    line.len() >= 8 && line.subrange(0, 8) == connect_prefix()
}

/// `e` ends the request target: the first space after the method, or the end.
pub open spec fn is_target_end(line: Seq<char>, e: int) -> bool {
    &&& 8 <= e <= line.len()
    &&& (e == line.len() || line[e] == ' ')
    &&& forall|k: int| 8 <= k < e ==> line[k] != ' '
}

pub open spec fn target_of(line: Seq<char>) -> Seq<char> {
    line.subrange(8, choose|e: int| is_target_end(line, e))
}

/// Host and port named by a `CONNECT host:port ...` request line.
pub open spec fn connect_target_spec(line: Seq<char>) -> Option<(Seq<char>, int)> {
    if is_connect(line) && valid_upstream(target_of(line)) {
        Some((host_part(target_of(line)), port_part(target_of(line))))
    } else {
        None
    }
}

/// Whether `line` starts an HTTP `CONNECT` request.
pub fn is_connect_line(line: &str) -> (r: bool)
    ensures
        r == is_connect(line@),
{
    let n = line.unicode_len();
    if n < 8 {
        return false;
    }
    let is_method = line.get_char(0) == 'C' && line.get_char(1) == 'O' && line.get_char(2) == 'N'
        && line.get_char(3) == 'N' && line.get_char(4) == 'E' && line.get_char(5) == 'C'
        && line.get_char(6) == 'T' && line.get_char(7) == ' ';
    if !is_method {
        assert(!is_connect(line@)) by {
            if is_connect(line@) {
                assert(line@.subrange(0, 8)[0] == line@[0]);
                assert(line@.subrange(0, 8)[7] == line@[7]);
                assert(line@.subrange(0, 8)[1] == line@[1]);
                assert(line@.subrange(0, 8)[2] == line@[2]);
                assert(line@.subrange(0, 8)[3] == line@[3]);
                assert(line@.subrange(0, 8)[4] == line@[4]);
                assert(line@.subrange(0, 8)[5] == line@[5]);
                assert(line@.subrange(0, 8)[6] == line@[6]);
            }
        }
        return false;
    }
    assert(line@.subrange(0, 8) =~= connect_prefix());
    true
}

/// The destination of a `CONNECT` request line; `None` for any other line
/// or a target that is not `host:port`.
pub fn connect_target(line: &str) -> (r: Option<(String, u16)>)
    ensures
        match r {
            Some((h, p)) => connect_target_spec(line@) == Some((h@, p as int)),
            None => connect_target_spec(line@) is None,
        },
{
    if !is_connect_line(line) {
        return None;
    }
    let n = line.unicode_len();
    assert(line@.subrange(0, 8) =~= connect_prefix());
    let mut e: usize = 8;
    while e < n && line.get_char(e) != ' '
        invariant
            8 <= e <= n,
            n == line@.len(),
            forall|k: int| 8 <= k < e ==> line@[k] != ' ',
        decreases n - e,
    {
        e = e + 1;
    }
    proof {
        assert(is_target_end(line@, e as int));
        let e2 = choose|e2: int| is_target_end(line@, e2);
        if e2 < e {
            assert(line@[e2] == ' ');
        } else if e < e2 {
            assert(line@[e as int] == ' ');
        }
    }
    let target = line.substring_char(8, e);
    match parse_upstream(target) {
        None => None,
        Some((c, p)) => {
            let host = target.substring_char(0, c).to_owned();
            Some((host, p))
        },
    }
}

pub open spec fn host_prefix() -> Seq<char> {
    seq!['h', 'o', 's', 't', ':']
}

/// A `Host:` header line, in any letter case.
pub open spec fn is_host_line(l: Seq<char>) -> bool {
    l.len() >= 5 && range_eq_ci(l, 0, host_prefix(), 0, 5)
}

/// `j` is the first position at or after `i` that holds no space.
pub open spec fn skips_spaces(l: Seq<char>, i: int, j: int) -> bool {
    &&& i <= j <= l.len()
    &&& forall|k: int| i <= k < j ==> l[k] == ' '
    &&& (j == l.len() || l[j] != ' ')
}

/// The value of a header line, without the spaces after the colon.
pub open spec fn host_value(l: Seq<char>) -> Seq<char> {
    l.subrange(choose|j: int| skips_spaces(l, 5, j), l.len() as int)
}

/// Destination named by a `host[:port]` authority; the port defaults to 80.
pub open spec fn authority_target(v: Seq<char>) -> Option<(Seq<char>, int)> {
    if valid_upstream(v) {
        Some((host_part(v), port_part(v)))
    } else if v.len() > 0 && forall|k: int| 0 <= k < v.len() ==> v[k] != ':' {
        Some((v, 80))
    } else {
        None
    }
}

/// Destination named by the first `Host:` line from line `i` on.
pub open spec fn host_line_target(lines: Seq<Seq<char>>, i: int) -> Option<(Seq<char>, int)>
    decreases lines.len() - i,
{
    if i < 0 || i >= lines.len() {
        None
    } else if is_host_line(lines[i]) {
        authority_target(host_value(lines[i]))
    } else {
        host_line_target(lines, i + 1)
    }
}

/// Destination of a request head given as lines: the target of a `CONNECT`
/// request line, else the first `Host:` header.
pub open spec fn request_target_spec(lines: Seq<Seq<char>>) -> Option<(Seq<char>, int)> {
    if lines.len() == 0 {
        None
    } else if is_connect(lines[0]) {
        connect_target_spec(lines[0])
    } else {
        host_line_target(lines, 1)
    }
}

fn authority(v: &str) -> (r: Option<(String, u16)>)
    ensures
        match r {
            Some((h, p)) => authority_target(v@) == Some((h@, p as int)),
            None => authority_target(v@) is None,
        },
{
    match parse_upstream(v) {
        Some((c, p)) => Some((v.substring_char(0, c).to_owned(), p)),
        None => {
            let n = v.unicode_len();
            if n == 0 {
                return None;
            }
            let mut k: usize = 0;
            while k < n
                invariant
                    k <= n,
                    n == v@.len(),
                    !valid_upstream(v@),
                    forall|j: int| 0 <= j < k ==> v@[j] != ':',
                decreases n - k,
            {
                if v.get_char(k) == ':' {
                    assert(v@[k as int] == ':');
                    return None;
                }
                k = k + 1;
            }
            Some((v.to_owned(), 80))
        },
    }
}

fn is_host_header(l: &str) -> (r: bool)
    ensures
        r == is_host_line(l@),
{
    let n = l.unicode_len();
    if n < 5 {
        return false;
    }
    let h = "host:";
    proof {
        reveal_strlit("host:");
        assert(h@ =~= host_prefix());
    }
    crate::matcher::ranges_equal(l, 0, h, 0, 5)
}

/// Destination of a request head given as lines: the target of a `CONNECT`
/// request line, else the first `Host:` header (port 80 when it names none).
pub fn request_target(lines: &Vec<String>) -> (r: Option<(String, u16)>)
    ensures
        match r {
            Some((h, p)) => request_target_spec(lines@.map_values(|l: String| l@)) == Some((h@, p as int)),
            None => request_target_spec(lines@.map_values(|l: String| l@)) is None,
        },
{
    let ghost ls = lines@.map_values(|l: String| l@);
    if lines.len() == 0 {
        return None;
    }
    let first = lines[0].as_str();
    if is_connect_line(first) {
        return connect_target(first);
    }
    let mut i: usize = 1;
    while i < lines.len()
        invariant
            1 <= i <= lines@.len(),
            ls == lines@.map_values(|l: String| l@),
            ls.len() == lines@.len(),
            !is_connect(ls[0]),
            host_line_target(ls, 1) == host_line_target(ls, i as int),
        decreases lines.len() - i,
    {
        let l = lines[i].as_str();
        if is_host_header(l) {
            let n = l.unicode_len();
            let mut j: usize = 5;
            while j < n && l.get_char(j) == ' '
                invariant
                    5 <= j <= n,
                    n == l@.len(),
                    forall|k: int| 5 <= k < j ==> l@[k] == ' ',
                decreases n - j,
            {
                j = j + 1;
            }
            proof {
                assert(skips_spaces(l@, 5, j as int));
                let j2 = choose|j2: int| skips_spaces(l@, 5, j2);
                if j2 < j {
                    assert(l@[j2] == ' ');
                } else if j < j2 {
                    assert(l@[j as int] == ' ');
                }
                assert(ls[i as int] == l@);
                assert(host_value(l@) == l@.subrange(j as int, n as int));
                assert(request_target_spec(ls) == host_line_target(ls, 1));
            }
            return authority(l.substring_char(j, n));
        }
        i = i + 1;
    }
    None
}

/// A host name that a SOCKS5 request can carry: 1 to 255 ASCII characters.
pub open spec fn socks5_host_ok(host: Seq<char>) -> bool {
    &&& 0 < host.len() <= 255
    &&& forall|i: int| 0 <= i < host.len() ==> (#[trigger] host[i] as u32) < 128
}

pub open spec fn ascii_bytes(s: Seq<char>) -> Seq<u8> {
    s.map_values(|c: char| (c as u32) as u8)
}

/// SOCKS5 CONNECT request for a domain-name destination.
pub open spec fn socks5_connect_bytes(host: Seq<char>, port: u16) -> Seq<u8> {
    seq![5u8, 1u8, 0u8, 3u8, host.len() as u8] + ascii_bytes(host) + seq![(port / 256) as u8, (port % 256) as u8]
}

/// The SOCKS5 greeting that offers only "no authentication".
pub fn socks5_greeting() -> (r: Vec<u8>)
    ensures
        r@ == seq![5u8, 1u8, 0u8],
{
    let r: Vec<u8> = vec![5u8, 1u8, 0u8];
    assert(r@ =~= seq![5u8, 1u8, 0u8]);
    r
}

/// The server's answer to the greeting accepts "no authentication".
pub fn socks5_method_accepted(reply: &[u8]) -> (r: bool)
    ensures
        r == (reply@.len() == 2 && reply@[0] == 5 && reply@[1] == 0),
{
    reply.len() == 2 && reply[0] == 5 && reply[1] == 0
}

/// The CONNECT request for `host:port`; `None` when the host cannot be sent.
pub fn socks5_connect_request(host: &str, port: u16) -> (r: Option<Vec<u8>>)
    ensures
        r is Some <==> socks5_host_ok(host@),
        match r {
            Some(b) => b@ == socks5_connect_bytes(host@, port),
            None => true,
        },
{
    let n = host.unicode_len();
    if n == 0 || n > 255 {
        return None;
    }
    let mut r: Vec<u8> = vec![5u8, 1u8, 0u8, 3u8, n as u8];
    let mut i: usize = 0;
    while i < n
        invariant
            0 < n <= 255,
            n == host@.len(),
            i <= n,
            r@ =~= seq![5u8, 1u8, 0u8, 3u8, n as u8] + ascii_bytes(host@.subrange(0, i as int)),
            forall|k: int| 0 <= k < i ==> (#[trigger] host@[k] as u32) < 128,
        decreases n - i,
    {
        let c = host.get_char(i);
        if c as u32 >= 128 {
            return None;
        }
        r.push(c as u32 as u8);
        proof {
            assert(ascii_bytes(host@.subrange(0, i + 1)) =~= ascii_bytes(host@.subrange(0, i as int)).push(
                (c as u32) as u8,
            ));
        }
        i = i + 1;
    }
    assert(host@.subrange(0, n as int) =~= host@);
    r.push((port / 256) as u8);
    r.push((port % 256) as u8);
    assert(r@ =~= socks5_connect_bytes(host@, port));
    Some(r)
}

/// Total length of a granted SOCKS5 CONNECT reply, from its first five
/// bytes; `None` when the reply refuses the request or is malformed.
pub fn socks5_reply_len(head: &[u8]) -> (r: Option<usize>)
    ensures
        r == (if head@.len() >= 5 && head@[0] == 5 && head@[1] == 0 {
            if head@[3] == 1 {
                Some(10usize)
            } else if head@[3] == 3 {
                Some((7 + head@[4]) as usize)
            } else if head@[3] == 4 {
                Some(22usize)
            } else {
                None
            }
        } else {
            None
        }),
{
    if head.len() < 5 || head[0] != 5 || head[1] != 0 {
        return None;
    }
    if head[3] == 1 {
        Some(10)
    } else if head[3] == 3 {
        Some(7 + head[4] as usize)
    } else if head[3] == 4 {
        Some(22)
    } else {
        None
    }
}

/// Big-endian 16-bit value at `b[i..i+2]`.
pub open spec fn be16(b: Seq<u8>, i: int) -> int {
    b[i] as int * 256 + b[i + 1] as int
}

/// The server name carried by the TLS extensions in `b[q..end)`: the first
/// entry of a server-name extension, when it is a non-empty host name.
pub open spec fn sni_in_extensions(b: Seq<u8>, q: int, end: int) -> Option<Seq<u8>>
    decreases end - q,
{
    if q < 0 || end > b.len() || q + 4 > end {
        None
    } else {
        let data = q + 4;
        let len = be16(b, q + 2);
        if data + len > end {
            None
        } else if be16(b, q) == 0 {
            if len >= 5 && b[data + 2] == 0 && be16(b, data + 3) > 0 && 5 + be16(b, data + 3) <= len {
                Some(b.subrange(data + 5, data + 5 + be16(b, data + 3)))
            } else {
                None
            }
        } else {
            sni_in_extensions(b, data + len, end)
        }
    }
}

/// The server name of a TLS record that starts with a ClientHello: past the
/// record and handshake headers, version, random, session id, cipher suites
/// and compression methods lies the extensions block.
pub open spec fn client_hello_sni_spec(b: Seq<u8>) -> Option<Seq<u8>> {
    if b.len() < 44 || b[0] != 0x16 || b[5] != 1 {
        None
    } else {
        let p1 = 44 + b[43] as int;
        if p1 + 2 > b.len() {
            None
        } else {
            let p2 = p1 + 2 + be16(b, p1);
            if p2 + 1 > b.len() {
                None
            } else {
                let p3 = p2 + 1 + b[p2] as int;
                if p3 + 2 > b.len() || p3 + 2 + be16(b, p3) > b.len() {
                    None
                } else {
                    sni_in_extensions(b, p3 + 2, p3 + 2 + be16(b, p3))
                }
            }
        }
    }
}

fn read_be16(b: &[u8], i: usize) -> (r: usize)
    requires
        i + 2 <= b@.len(),
    ensures
        r == be16(b@, i as int),
{
    b[i] as usize * 256 + b[i + 1] as usize
}

/// The server name indicated in the ClientHello at the start of `hello`.
pub fn client_hello_sni(hello: &[u8]) -> (r: Option<Vec<u8>>)
    ensures
        match r {
            Some(v) => client_hello_sni_spec(hello@) == Some(v@),
            None => client_hello_sni_spec(hello@) is None,
        },
{
    let n = hello.len();
    if n < 44 || hello[0] != 0x16 || hello[5] != 1 {
        return None;
    }
    let sid = hello[43] as usize;
    if sid > n - 44 || n - 44 - sid < 2 {
        return None;
    }
    let p1 = 44 + sid;
    let cs = read_be16(hello, p1);
    if cs > n - p1 - 2 || n - p1 - 2 - cs < 1 {
        return None;
    }
    let p2 = p1 + 2 + cs;
    let cm = hello[p2] as usize;
    if cm > n - p2 - 1 || n - p2 - 1 - cm < 2 {
        return None;
    }
    let p3 = p2 + 1 + cm;
    let el = read_be16(hello, p3);
    if el > n - p3 - 2 {
        return None;
    }
    let end = p3 + 2 + el;
    let mut q: usize = p3 + 2;
    while q <= end && end - q >= 4
        invariant
            q <= end + 4,
            end <= n,
            n == hello@.len(),
            sni_in_extensions(hello@, q as int, end as int) == client_hello_sni_spec(hello@),
        decreases end + 4 - q,
    {
        let len = read_be16(hello, q + 2);
        let data = q + 4;
        if len > end - data {
            return None;
        }
        if read_be16(hello, q) == 0 {
            if len >= 5 && hello[data + 2] == 0 {
                let nl = read_be16(hello, data + 3);
                if nl > 0 && nl <= len - 5 {
                    let mut name: Vec<u8> = Vec::new();
                    let mut k: usize = 0;
                    while k < nl
                        invariant
                            k <= nl,
                            data + 5 + nl <= n,
                            n == hello@.len(),
                            name@ =~= hello@.subrange(data + 5, data + 5 + k),
                        decreases nl - k,
                    {
                        name.push(hello[data + 5 + k]);
                        k = k + 1;
                    }
                    return Some(name);
                }
            }
            return None;
        }
        q = data + len;
    }
    None
}

} // verus!
