use mail_cli::config::{known_servers, setup_config, ServerSettings};
use mail_cli::connection::{
    check_proxy_reply, connect_request, needs_imap_id, proxy_address, server_address,
    ProxyReply, ReplyProgress,
};
use mail_cli::smtp::{build_message, outgoing, smtp_security, to_message, ComposeError, SmtpSecurity};

#[test]
fn known_providers() {
    let s = known_servers("me@163.com").unwrap();
    assert_eq!((s.imap_host.as_str(), s.imap_port, s.smtp_host.as_str(), s.smtp_port), ("imap.163.com", 993, "smtp.163.com", 465));
    let s = known_servers("me@yeah.net").unwrap();
    assert_eq!(s.imap_host, "imap.163.com");
    let s = known_servers("me@googlemail.com").unwrap();
    assert_eq!((s.imap_host.as_str(), s.smtp_host.as_str(), s.smtp_port), ("imap.gmail.com", "smtp.gmail.com", 587));
    let s = known_servers("me@qq.com").unwrap();
    assert_eq!((s.imap_host.as_str(), s.smtp_port), ("imap.qq.com", 465));
    assert!(known_servers("me@example.com").is_none());
    assert!(known_servers("me@GMAIL.COM").is_none());
}

#[test]
fn setup_trims_password_and_proxy() {
    let servers = ServerSettings {
        imap_host: "i".to_string(),
        imap_port: 1,
        smtp_host: "s".to_string(),
        smtp_port: 2,
    };
    let c = setup_config("a@b.c".to_string(), "  secret \n", servers, "  ");
    assert_eq!(c.app_password, "secret");
    assert_eq!(c.proxy, None);
    assert_eq!((c.imap_port, c.smtp_port), (1, 2));
    let servers = ServerSettings {
        imap_host: "i".to_string(),
        imap_port: 1,
        smtp_host: "s".to_string(),
        smtp_port: 2,
    };
    let c = setup_config("a@b.c".to_string(), "pw", servers, " http://127.0.0.1:7890 ");
    assert_eq!(c.proxy, Some("http://127.0.0.1:7890".to_string()));
}

#[test]
fn imap_id_only_for_netease() {
    assert!(needs_imap_id("x@126.com"));
    assert!(!needs_imap_id("x@gmail.com"));
}

#[test]
fn proxy_addresses() {
    assert_eq!(proxy_address("http://127.0.0.1:7890"), "127.0.0.1:7890");
    assert_eq!(proxy_address("127.0.0.1:7890"), "127.0.0.1:7890");
    assert_eq!(server_address("imap.qq.com", 993), "imap.qq.com:993");
}

#[test]
fn tunnel_request() {
    assert_eq!(
        connect_request("imap.163.com", 993),
        "CONNECT imap.163.com:993 HTTP/1.1\r\nHost: imap.163.com:993\r\n\r\n"
    );
}

#[test]
fn proxy_reply_reading() {
    let mut r = ProxyReply::new();
    let mut last = ReplyProgress::Incomplete;
    for b in b"HTTP/1.1 200 Connection established\r\n\r\n" {
        last = r.push(*b);
    }
    assert!(matches!(last, ReplyProgress::Complete));
    assert!(check_proxy_reply(&r).is_ok());

    let mut r = ProxyReply::new();
    for b in b"HTTP/1.1 403 Forbidden  \r\nX: y\r\n\r\n" {
        r.push(*b);
    }
    assert_eq!(check_proxy_reply(&r), Err("HTTP/1.1 403 Forbidden".to_string()));
}

#[test]
fn proxy_reply_too_long() {
    let mut r = ProxyReply::new();
    let mut last = ReplyProgress::Incomplete;
    for _ in 0..4097 {
        last = r.push(b'a');
    }
    assert!(matches!(last, ReplyProgress::TooLong));
    let mut r = ProxyReply::new();
    for _ in 0..4096 {
        last = r.push(b'a');
    }
    assert!(matches!(last, ReplyProgress::Incomplete));
}

#[test]
fn message_building() {
    assert!(build_message("me@x.org", "you@y.org", "Hi", "body", None).is_ok());
    assert!(build_message("me@x.org", "you@y.org", "Re: Hi", "body", Some("<1@x>")).is_ok());
    assert!(matches!(
        build_message("not an address", "you@y.org", "Hi", "b", None),
        Err(ComposeError::InvalidFrom)
    ));
    assert!(matches!(
        build_message("me@x.org", "", "Hi", "b", None),
        Err(ComposeError::InvalidTo)
    ));
}

#[test]
fn outgoing_reply_headers() {
    let m = outgoing("me@x.org", "you@y.org", "Re: Hi", "text", Some("<1@x>"));
    assert_eq!((m.from.as_str(), m.to.as_str(), m.subject.as_str(), m.body.as_str()), ("me@x.org", "you@y.org", "Re: Hi", "text"));
    assert_eq!(m.in_reply_to.as_deref(), Some("<1@x>"));
    assert_eq!(m.references.as_deref(), Some("<1@x>"));
    let m = outgoing("me@x.org", "you@y.org", "Hi", "text", None);
    assert!(m.in_reply_to.is_none() && m.references.is_none());
}

#[test]
fn built_message_headers() {
    let mail = build_message("me@x.org", "you@y.org", "Re: Hi", "hello there", Some("<1@x>")).ok().unwrap();
    assert_eq!((mail.subject.as_str(), mail.body.as_str()), ("Re: Hi", "hello there"));
    assert_eq!(mail.in_reply_to.as_deref(), Some("<1@x>"));
    assert_eq!(mail.references.as_deref(), Some("<1@x>"));
    let email = to_message(&mail).ok().unwrap();
    let text = String::from_utf8(email.formatted()).unwrap();
    assert!(text.contains("From: me@x.org\r\n"));
    assert!(text.contains("To: you@y.org\r\n"));
    assert!(text.contains("Subject: Re: Hi\r\n"));
    assert!(text.contains("Content-Type: text/plain; charset=utf-8\r\n"));
    assert!(text.contains("In-Reply-To: <1@x>\r\n"));
    assert!(text.contains("References: <1@x>\r\n"));
    assert_eq!(text.split_once("\r\n\r\n").unwrap().1.trim_end(), "hello there");
    let mail = build_message("me@x.org", "you@y.org", "Hi", "b", None).ok().unwrap();
    assert!(mail.in_reply_to.is_none() && mail.references.is_none());
    let email = to_message(&mail).ok().unwrap();
    let text = String::from_utf8(email.formatted()).unwrap();
    assert!(!text.contains("In-Reply-To:") && !text.contains("References:"));
}

#[test]
fn message_from_invalid_description() {
    let bad_from = outgoing("nobody", "you@y.org", "Hi", "b", None);
    assert!(matches!(to_message(&bad_from), Err(ComposeError::InvalidFrom)));
    let bad_to = outgoing("me@x.org", "you", "Hi", "b", None);
    assert!(matches!(to_message(&bad_to), Err(ComposeError::InvalidTo)));
}

#[test]
fn smtp_ports() {
    assert!(matches!(smtp_security(465), SmtpSecurity::ImplicitTls));
    assert!(matches!(smtp_security(587), SmtpSecurity::StartTls));
    assert!(matches!(smtp_security(25), SmtpSecurity::StartTls));
}
