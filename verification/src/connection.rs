//! Reaching the IMAP server, directly or through an HTTP proxy.
use vstd::prelude::*;
use crate::config::{is_netease, is_netease_address, known_servers_of};
use crate::text::{
    chars_of, decimal, decimal_chars, find, find_from, lemma_find_from_bounds, lossy_utf8,
    matches_at, push_all, slice_chars, string_from_chars, trim, trim_chars, utf8_lossy, match_at,
};

verus! {

/// Whether the server wants the client to identify itself (IMAP `ID`) right after
/// logging in, which 163, 126 and yeah.net insist on.
pub fn needs_imap_id(email: &str) -> (r: bool)
    ensures
        r == is_netease(email@),
{
    is_netease_address(email)
}

/// The client identifies itself after login exactly for the accounts whose known
/// servers are 163's.
pub proof fn law_imap_id_for_netease_servers(email: Seq<char>)
    ensures
        is_netease(email) <==> (known_servers_of(email) matches Some(v) && v.imap_host
            == "imap.163.com"@),
{
    reveal_strlit("imap.163.com");
    reveal_strlit("imap.gmail.com");
    reveal_strlit("imap.qq.com");
    assert("imap.163.com"@[5] != "imap.gmail.com"@[5]);
    assert("imap.163.com"@[5] != "imap.qq.com"@[5]);
}

/// The proxy's `host:port`: the setting without a leading `http://`.
pub open spec fn proxy_address_of(proxy: Seq<char>) -> Seq<char> {
    if matches_at(proxy, 0, "http://"@, false) {
        proxy.skip(7)
    } else {
        proxy
    }
}

/// The address to open a TCP connection to for a proxy setting.
pub fn proxy_address(proxy: &str) -> (r: String)
    ensures
        r@ == proxy_address_of(proxy@),
{
    let p = chars_of(proxy);
    let prefix = chars_of("http://");
    proof {
        reveal_strlit("http://");
    }
    if match_at(&p, 0, &prefix, false) {
        let rest = slice_chars(&p, 7, p.len());
        string_from_chars(&rest)
    } else {
        proxy.to_owned()
    }
}

/// `host:port`
pub open spec fn host_port(host: Seq<char>, port: u16) -> Seq<char> {
    host + seq![':'] + decimal(port as nat)
}

fn host_port_chars(host: &str, port: u16) -> (r: Vec<char>)
    ensures
        r@ == host_port(host@, port),
{
    let mut out = chars_of(host);
    out.push(':');
    let d = decimal_chars(port as u64);
    push_all(&mut out, &d);
    out
}

/// The address of a server, `host:port`.
pub fn server_address(host: &str, port: u16) -> (r: String)
    ensures
        r@ == host_port(host@, port),
{
    let v = host_port_chars(host, port);
    string_from_chars(&v)
}

/// The request that asks an HTTP proxy for a tunnel to `host:port`.
pub open spec fn connect_request_of(host: Seq<char>, port: u16) -> Seq<char> {
    "CONNECT "@ + host_port(host, port) + " HTTP/1.1\r\nHost: "@ + host_port(host, port)
        + "\r\n\r\n"@
}

/// Writes the tunnel request for `host:port` (see `connect_request_of`).
pub fn connect_request(host: &str, port: u16) -> (r: String)
    ensures
        r@ == connect_request_of(host@, port),
{
    let hp = host_port_chars(host, port);
    let mut out = chars_of("CONNECT ");
    push_all(&mut out, &hp);
    let mid = chars_of(" HTTP/1.1\r\nHost: ");
    push_all(&mut out, &mid);
    push_all(&mut out, &hp);
    let end = chars_of("\r\n\r\n");
    push_all(&mut out, &end);
    string_from_chars(&out)
}

/// The longest proxy reply head that is read.
pub const MAX_PROXY_REPLY: usize = 4096;

/// How far reading a proxy's reply head has come.
pub enum ReplyProgress {
    /// More bytes are needed.
    Incomplete,
    /// The head ended with an empty line.
    Complete,
    /// The head grew longer than `MAX_PROXY_REPLY` without ending.
    TooLong,
}

/// The bytes received from a proxy that end its reply head.
pub open spec fn ends_head(b: Seq<u8>) -> bool {
    b.len() >= 4 && b.skip(b.len() - 4) == seq![13u8, 10u8, 13u8, 10u8]
}

/// What reading stands at once `b` has been received: complete when `b` ends with an
/// empty line, too long when it has passed `MAX_PROXY_REPLY` bytes without one.
pub open spec fn reply_progress(b: Seq<u8>) -> ReplyProgress {
    if ends_head(b) {
        ReplyProgress::Complete
    } else if b.len() > MAX_PROXY_REPLY {
        ReplyProgress::TooLong
    } else {
        ReplyProgress::Incomplete
    }
}

/// The head of a proxy's reply as it arrives byte by byte.
pub struct ProxyReply {
    pub bytes: Vec<u8>,
}

impl ProxyReply {
    pub fn new() -> (r: ProxyReply)
        ensures
            r.bytes@ == Seq::<u8>::empty(),
    {
        ProxyReply { bytes: Vec::new() }
    }

    /// Takes one more byte and says whether the head is complete.
    pub fn push(&mut self, byte: u8) -> (r: ReplyProgress)
        ensures
            final(self).bytes@ == old(self).bytes@.push(byte),
            r == reply_progress(final(self).bytes@),
    {
        self.bytes.push(byte);
        let n = self.bytes.len();
        if n >= 4 && self.bytes[n - 4] == 13 && self.bytes[n - 3] == 10 && self.bytes[n - 2] == 13
            && self.bytes[n - 1] == 10 {
            assert(self.bytes@.skip(n - 4) =~= seq![13u8, 10u8, 13u8, 10u8]);
            ReplyProgress::Complete
        } else {
            assert(!ends_head(self.bytes@)) by {
                if n >= 4 {
                    let t = self.bytes@.skip(n - 4);
                    if t == seq![13u8, 10u8, 13u8, 10u8] {
                        assert(t[0] == self.bytes@[n - 4]);
                        assert(t[1] == self.bytes@[n - 3]);
                        assert(t[2] == self.bytes@[n - 2]);
                        assert(t[3] == self.bytes@[n - 1]);
                    }
                }
            }
            if n > MAX_PROXY_REPLY {
                ReplyProgress::TooLong
            } else {
                ReplyProgress::Incomplete
            }
        }
    }
}

/// The first line of `s` (std's `lines().next()`, or empty), trimmed.
pub open spec fn first_line(s: Seq<char>) -> Seq<char> {
    match find_from(s, seq!['\n'], 0, false) {
        Some(i) => trim(s.subrange(0, i)),
        None => trim(s),
    }
}

/// The verdict on a proxy's reply head: accepted when its text contains `200`, else
/// refused with the reply's first line.
pub open spec fn proxy_verdict(reply: Seq<u8>) -> Result<(), Seq<char>> {
    let text = lossy_utf8(reply);
    if find_from(text, "200"@, 0, false) is Some {
        Ok(())
    } else {
        Err(first_line(text))
    }
}

/// Whether the proxy opened the tunnel; when it did not, its reply's first line
/// (see `proxy_verdict`).
pub fn check_proxy_reply(reply: &ProxyReply) -> (r: Result<(), String>)
    ensures
        match proxy_verdict(reply.bytes@) {
            Ok(()) => r is Ok,
            Err(line) => r matches Err(e) && e@ == line,
        },
{
    let text = utf8_lossy(&reply.bytes);
    let t = chars_of(text.as_str());
    let code = chars_of("200");
    if find(&t, &code, 0, false).is_some() {
        return Ok(());
    }
    let mut nl: Vec<char> = Vec::new();
    nl.push('\n');
    assert(nl@ == seq!['\n']);
    let end = match find(&t, &nl, 0, false) {
        Some(i) => i,
        None => t.len(),
    };
    let line = slice_chars(&t, 0, end);
    assert(end == t.len() ==> line@ == t@);
    let line = trim_chars(&line);
    Err(string_from_chars(&line))
}

/// The proxy opened the tunnel exactly when the text of its reply (bytes read as
/// UTF-8, invalid sequences replaced) contains `200` anywhere, whatever the HTTP
/// version or wording; otherwise the refusal carries the reply's first line.
pub proof fn law_proxy_accepts_200(reply: Seq<u8>)
    ensures
        (exists|i: int|
            0 <= i && i + 3 <= lossy_utf8(reply).len() && #[trigger] lossy_utf8(reply)[i] == '2'
                && lossy_utf8(reply)[i + 1] == '0' && lossy_utf8(reply)[i + 2] == '0') <==> proxy_verdict(
            reply,
        ) is Ok,
{
    reveal_strlit("200");
    let t = lossy_utf8(reply);
    lemma_find_from_bounds(t, "200"@, 0, false);
    if let Some(i) = find_from(t, "200"@, 0, false) {
        assert(t[i + 0] == '2' && t[i + 1] == '0' && t[i + 2] == '0');
    } else {
        assert forall|i: int|
            0 <= i && i + 3 <= t.len() && #[trigger] t[i] == '2' implies !(t[i + 1] == '0' && t[i
            + 2] == '0') by {
            if t[i + 1] == '0' && t[i + 2] == '0' {
                assert(matches_at(t, i, "200"@, false));
            }
        }
    }
}

} // verus!
