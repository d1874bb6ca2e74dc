use proxs::protocol::{
    client_hello_sni, connect_target, is_connect_line, request_target, socks5_connect_request, socks5_greeting, socks5_method_accepted, socks5_reply_len,
};
use proxs::validate::parse_upstream;

#[test]
fn connect_line_gives_host_and_port() {
    assert_eq!(
        connect_target("CONNECT mail.example.com:443 HTTP/1.1"),
        Some(("mail.example.com".to_string(), 443))
    );
    assert_eq!(connect_target("CONNECT a.b:8080"), Some(("a.b".to_string(), 8080)));
}

#[test]
fn other_lines_give_no_target() {
    assert_eq!(connect_target("GET / HTTP/1.1"), None);
    assert_eq!(connect_target("CONNECT"), None);
    assert_eq!(connect_target("CONNECT mail.example.com HTTP/1.1"), None);
    assert_eq!(connect_target("CONNECT :443 HTTP/1.1"), None);
    assert_eq!(connect_target("connect a.b:443 HTTP/1.1"), None);
}

#[test]
fn upstream_split() {
    assert_eq!(parse_upstream("10.0.0.1:1080"), Some((8, 1080)));
    assert_eq!(parse_upstream("a:b:22"), Some((3, 22)));
    assert_eq!(parse_upstream("a:b"), None);
}

#[test]
fn socks5_frames() {
    assert_eq!(socks5_greeting(), vec![5u8, 1, 0]);
    assert!(socks5_method_accepted(&[5, 0]));
    assert!(!socks5_method_accepted(&[5, 2]));
    assert_eq!(
        socks5_connect_request("ab.c", 443),
        Some(vec![5u8, 1, 0, 3, 4, b'a', b'b', b'.', b'c', 1, 187])
    );
    assert_eq!(socks5_connect_request("", 80), None);
    assert_eq!(socks5_connect_request("é.com", 80), None);
    assert_eq!(socks5_connect_request(&"a".repeat(256), 80), None);
    assert!(socks5_connect_request(&"a".repeat(255), 80).is_some());
}

#[test]
fn socks5_reply_lengths() {
    assert_eq!(socks5_reply_len(&[5, 0, 0, 1, 127]), Some(10));
    assert_eq!(socks5_reply_len(&[5, 0, 0, 3, 9]), Some(16));
    assert_eq!(socks5_reply_len(&[5, 0, 0, 4, 0]), Some(22));
    assert_eq!(socks5_reply_len(&[5, 1, 0, 1, 0]), None);
    assert_eq!(socks5_reply_len(&[5, 0, 0, 9, 0]), None);
    assert_eq!(socks5_reply_len(&[5, 0]), None);
}

fn lines(v: &[&str]) -> Vec<String> {
    v.iter().map(|s| s.to_string()).collect()
}

#[test]
fn request_target_from_connect_or_host() {
    assert!(is_connect_line("CONNECT a.b:1 HTTP/1.1"));
    assert!(!is_connect_line("GET http://a.b/ HTTP/1.1"));
    assert_eq!(
        request_target(&lines(&["CONNECT mail.example.com:443 HTTP/1.1", "Host: other.org"])),
        Some(("mail.example.com".to_string(), 443))
    );
    assert_eq!(
        request_target(&lines(&["GET http://api.example.com/ HTTP/1.1", "Accept: */*", "HOST:   api.example.com"])),
        Some(("api.example.com".to_string(), 80))
    );
    assert_eq!(
        request_target(&lines(&["GET / HTTP/1.1", "host: a.b:8080", "Host: c.d"])),
        Some(("a.b".to_string(), 8080))
    );
    assert_eq!(request_target(&lines(&["GET / HTTP/1.1", "Accept: */*"])), None);
    assert_eq!(request_target(&lines(&["GET / HTTP/1.1", "Host: a:b"])), None);
    assert_eq!(request_target(&lines(&["GET / HTTP/1.1", "Host:"])), None);
    assert_eq!(request_target(&lines(&[])), None);
}

fn client_hello(sid: &[u8], exts: &[u8]) -> Vec<u8> {
    let mut b = vec![0x16u8, 3, 1, 0, 0, 1, 0, 0, 0, 3, 3];
    b.extend_from_slice(&[7u8; 32]);
    b.push(sid.len() as u8);
    b.extend_from_slice(sid);
    b.extend_from_slice(&[0, 2, 0x13, 0x01]);
    b.extend_from_slice(&[1, 0]);
    b.push((exts.len() / 256) as u8);
    b.push((exts.len() % 256) as u8);
    b.extend_from_slice(exts);
    b
}

fn sni_ext(name: &[u8]) -> Vec<u8> {
    let n = name.len();
    let mut e = vec![0u8, 0, 0, (n + 5) as u8, 0, (n + 3) as u8, 0, 0, n as u8];
    e.extend_from_slice(name);
    e
}

#[test]
fn server_name_from_client_hello() {
    let mut exts = vec![0u8, 0x0b, 0, 2, 1, 0];
    exts.extend(sni_ext(b"mail.example.com"));
    assert_eq!(client_hello_sni(&client_hello(&[9, 9, 9], &exts)), Some(b"mail.example.com".to_vec()));
    assert_eq!(client_hello_sni(&client_hello(&[], &sni_ext(b"a.b"))), Some(b"a.b".to_vec()));
}

#[test]
fn no_server_name() {
    assert_eq!(client_hello_sni(&client_hello(&[], &[0u8, 0x0b, 0, 2, 1, 0])), None);
    assert_eq!(client_hello_sni(&client_hello(&[], &sni_ext(b""))), None);
    let mut truncated = client_hello(&[], &sni_ext(b"mail.example.com"));
    truncated.truncate(truncated.len() - 3);
    assert_eq!(client_hello_sni(&truncated), None);
    let mut not_tls = client_hello(&[], &sni_ext(b"a.b"));
    not_tls[0] = 0x17;
    assert_eq!(client_hello_sni(&not_tls), None);
    assert_eq!(client_hello_sni(b"GET / HTTP/1.1\r\n"), None);
}
