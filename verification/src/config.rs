//! Account settings.
use vstd::prelude::*;
use crate::text::{chars_of, ends_with, str_ends_with, string_from_chars, trim, trim_chars};

verus! {

/// The account the client works with.
#[derive(Debug)]
pub struct Config {
    pub email: String,
    pub app_password: String,
    pub imap_host: String,
    pub imap_port: u16,
    pub smtp_host: String,
    pub smtp_port: u16,
    /// HTTP proxy as `http://host:port`; `None` for a direct connection.
    pub proxy: Option<String>,
}

/// The IMAP port offered when the servers have to be asked for.
pub const DEFAULT_IMAP_PORT: u16 = 993;

/// The SMTP port offered when the servers have to be asked for.
pub const DEFAULT_SMTP_PORT: u16 = 465;

/// Where a provider's mail servers are.
pub struct ServerSettings {
    pub imap_host: String,
    pub imap_port: u16,
    pub smtp_host: String,
    pub smtp_port: u16,
}

/// The model of `ServerSettings`.
pub struct ServerView {
    pub imap_host: Seq<char>,
    pub imap_port: u16,
    pub smtp_host: Seq<char>,
    pub smtp_port: u16,
}

impl View for ServerSettings {
    type V = ServerView;

    open spec fn view(&self) -> ServerView {
        ServerView {
            imap_host: self.imap_host@,
            imap_port: self.imap_port,
            smtp_host: self.smtp_host@,
            smtp_port: self.smtp_port,
        }
    }
}

/// Addresses of 163, 126 and yeah.net, which share 163's servers.
pub open spec fn is_netease(email: Seq<char>) -> bool {
    ends_with(email, "@163.com"@) || ends_with(email, "@126.com"@) || ends_with(email, "@yeah.net"@)
}

pub open spec fn is_gmail(email: Seq<char>) -> bool {
    ends_with(email, "@gmail.com"@) || ends_with(email, "@googlemail.com"@)
}

pub open spec fn is_qq(email: Seq<char>) -> bool {
    ends_with(email, "@qq.com"@)
}

/// The servers of the providers the client knows, chosen by the address's domain;
/// nothing for other addresses.
pub open spec fn known_servers_of(email: Seq<char>) -> Option<ServerView> {
    if is_netease(email) {
        Some(ServerView { imap_host: "imap.163.com"@, imap_port: 993, smtp_host: "smtp.163.com"@, smtp_port: 465 })
    } else if is_gmail(email) {
        Some(ServerView { imap_host: "imap.gmail.com"@, imap_port: 993, smtp_host: "smtp.gmail.com"@, smtp_port: 587 })
    } else if is_qq(email) {
        Some(ServerView { imap_host: "imap.qq.com"@, imap_port: 993, smtp_host: "smtp.qq.com"@, smtp_port: 465 })
    } else {
        None
    }
}

fn servers(imap_host: &str, imap_port: u16, smtp_host: &str, smtp_port: u16) -> (r: ServerSettings)
    ensures
        r@ == (ServerView { imap_host: imap_host@, imap_port, smtp_host: smtp_host@, smtp_port }),
{
    ServerSettings {
        imap_host: imap_host.to_owned(),
        imap_port,
        smtp_host: smtp_host.to_owned(),
        smtp_port,
    }
}

/// Whether the address belongs to 163, 126 or yeah.net.
pub fn is_netease_address(email: &str) -> (r: bool)
    ensures
        r == is_netease(email@),
{
    str_ends_with(email, "@163.com") || str_ends_with(email, "@126.com") || str_ends_with(
        email,
        "@yeah.net",
    )
}

/// The servers of a known provider (see `known_servers_of`).
pub fn known_servers(email: &str) -> (r: Option<ServerSettings>)
    ensures
        match known_servers_of(email@) {
            Some(v) => r matches Some(s) && s@ == v,
            None => r is None,
        },
{
    if is_netease_address(email) {
        Some(servers("imap.163.com", 993, "smtp.163.com", 465))
    } else if str_ends_with(email, "@gmail.com") || str_ends_with(email, "@googlemail.com") {
        Some(servers("imap.gmail.com", 993, "smtp.gmail.com", 587))
    } else if str_ends_with(email, "@qq.com") {
        Some(servers("imap.qq.com", 993, "smtp.qq.com", 465))
    } else {
        None
    }
}

/// The proxy setting made of what was typed: nothing when it is blank, else the
/// trimmed text.
pub open spec fn proxy_of(raw: Seq<char>) -> Option<Seq<char>> {
    if trim(raw).len() == 0 {
        None
    } else {
        Some(trim(raw))
    }
}

/// The model of a `Config`.
pub struct ConfigView {
    pub email: Seq<char>,
    pub app_password: Seq<char>,
    pub imap_host: Seq<char>,
    pub imap_port: u16,
    pub smtp_host: Seq<char>,
    pub smtp_port: u16,
    pub proxy: Option<Seq<char>>,
}

impl View for Config {
    type V = ConfigView;

    open spec fn view(&self) -> ConfigView {
        ConfigView {
            email: self.email@,
            app_password: self.app_password@,
            imap_host: self.imap_host@,
            imap_port: self.imap_port,
            smtp_host: self.smtp_host@,
            smtp_port: self.smtp_port,
            proxy: match self.proxy {
                Some(p) => Some(p@),
                None => None,
            },
        }
    }
}

/// The settings made of what the user typed at first start: the address, the
/// password with surrounding whitespace removed, the servers, and the proxy.
pub open spec fn setup_view(email: Seq<char>, password: Seq<char>, s: ServerView, proxy: Seq<char>) -> ConfigView {
    ConfigView {
        email: email,
        app_password: trim(password),
        imap_host: s.imap_host,
        imap_port: s.imap_port,
        smtp_host: s.smtp_host,
        smtp_port: s.smtp_port,
        proxy: proxy_of(proxy),
    }
}

/// Makes the settings from what the user typed at first start (see `setup_view`).
pub fn setup_config(email: String, password: &str, servers: ServerSettings, proxy: &str) -> (r: Config)
    ensures
        r@ == setup_view(email@, password@, servers@, proxy@),
{
    let pw = trim_chars(&chars_of(password));
    let px = trim_chars(&chars_of(proxy));
    let proxy = if px.len() == 0 {
        None
    } else {
        Some(string_from_chars(&px))
    };
    Config {
        email,
        app_password: string_from_chars(&pw),
        imap_host: servers.imap_host,
        imap_port: servers.imap_port,
        smtp_host: servers.smtp_host,
        smtp_port: servers.smtp_port,
        proxy,
    }
}

/// The character of `s` at `k` places into its suffix `p`.
proof fn lemma_suffix_char(s: Seq<char>, p: Seq<char>, k: int)
    requires
        ends_with(s, p),
        0 <= k < p.len(),
    ensures
        s[s.len() - p.len() + k] == p[k],
{
    assert(s[(s.len() - p.len()) + k] == p[k]);
}

/// The provider table: 163, 126 and yeah.net addresses get 163's servers (IMAP 993,
/// SMTP 465), Gmail and Googlemail addresses Gmail's (IMAP 993, SMTP 587), QQ
/// addresses QQ's (IMAP 993, SMTP 465), and no other address gets any.
pub proof fn law_known_providers(email: Seq<char>)
    ensures
        ends_with(email, "@163.com"@) || ends_with(email, "@126.com"@) || ends_with(email, "@yeah.net"@)
            ==> known_servers_of(email) == Some(
            ServerView {
                imap_host: "imap.163.com"@,
                imap_port: 993,
                smtp_host: "smtp.163.com"@,
                smtp_port: 465,
            },
        ),
        ends_with(email, "@gmail.com"@) || ends_with(email, "@googlemail.com"@)
            ==> known_servers_of(email) == Some(
            ServerView {
                imap_host: "imap.gmail.com"@,
                imap_port: 993,
                smtp_host: "smtp.gmail.com"@,
                smtp_port: 587,
            },
        ),
        ends_with(email, "@qq.com"@) ==> known_servers_of(email) == Some(
            ServerView { imap_host: "imap.qq.com"@, imap_port: 993, smtp_host: "smtp.qq.com"@, smtp_port: 465 },
        ),
        !(ends_with(email, "@163.com"@) || ends_with(email, "@126.com"@) || ends_with(
            email,
            "@yeah.net"@,
        ) || ends_with(email, "@gmail.com"@) || ends_with(email, "@googlemail.com"@) || ends_with(
            email,
            "@qq.com"@,
        )) ==> known_servers_of(email) is None,
{
    reveal_strlit("@163.com");
    reveal_strlit("@126.com");
    reveal_strlit("@yeah.net");
    reveal_strlit("@gmail.com");
    reveal_strlit("@googlemail.com");
    reveal_strlit("@qq.com");
    let n = email.len();
    if ends_with(email, "@gmail.com"@) {
        lemma_suffix_char(email, "@gmail.com"@, 2);
        lemma_suffix_char(email, "@gmail.com"@, 9);
        assert(email[n - 8] == 'm' && email[n - 1] == 'm');
        if ends_with(email, "@163.com"@) {
            lemma_suffix_char(email, "@163.com"@, 0);
        }
        if ends_with(email, "@126.com"@) {
            lemma_suffix_char(email, "@126.com"@, 0);
        }
        if ends_with(email, "@yeah.net"@) {
            lemma_suffix_char(email, "@yeah.net"@, 8);
        }
    }
    if ends_with(email, "@googlemail.com"@) {
        lemma_suffix_char(email, "@googlemail.com"@, 7);
        lemma_suffix_char(email, "@googlemail.com"@, 14);
        assert(email[n - 8] == 'm' && email[n - 1] == 'm');
        if ends_with(email, "@163.com"@) {
            lemma_suffix_char(email, "@163.com"@, 0);
        }
        if ends_with(email, "@126.com"@) {
            lemma_suffix_char(email, "@126.com"@, 0);
        }
        if ends_with(email, "@yeah.net"@) {
            lemma_suffix_char(email, "@yeah.net"@, 8);
        }
    }
    if ends_with(email, "@qq.com"@) {
        lemma_suffix_char(email, "@qq.com"@, 0);
        lemma_suffix_char(email, "@qq.com"@, 6);
        assert(email[n - 7] == '@' && email[n - 1] == 'm');
        if ends_with(email, "@163.com"@) {
            lemma_suffix_char(email, "@163.com"@, 1);
        }
        if ends_with(email, "@126.com"@) {
            lemma_suffix_char(email, "@126.com"@, 1);
        }
        if ends_with(email, "@yeah.net"@) {
            lemma_suffix_char(email, "@yeah.net"@, 8);
        }
        if ends_with(email, "@gmail.com"@) {
            lemma_suffix_char(email, "@gmail.com"@, 3);
        }
        if ends_with(email, "@googlemail.com"@) {
            lemma_suffix_char(email, "@googlemail.com"@, 8);
        }
    }
}

} // verus!
