use mail_cli::mime::{get_first_value, parse_headers, parse_message, HeaderField};
use mail_cli::models::{
    extract_body, parse_summary, sort_newest_first, summaries_newest_first, EmailSummary,
    FetchedHeader, ParsedEmail,
};

fn summary(uid: u32, subject: &str) -> EmailSummary {
    EmailSummary {
        uid,
        from: "x".to_string(),
        subject: subject.to_string(),
        date: String::new(),
        is_unread: false,
    }
}

#[test]
fn header_lookup_ignores_ascii_case() {
    let hs = vec![
        HeaderField { key: "subject".to_string(), value: "one".to_string() },
        HeaderField { key: "SUBJECT".to_string(), value: "two".to_string() },
    ];
    assert_eq!(get_first_value(&hs, "Subject"), Some("one".to_string()));
    assert_eq!(get_first_value(&hs, "From"), None);
}

#[test]
fn parse_headers_block() {
    let hs = parse_headers(b"Subject: Test\nFrom: me@x.org\nTo: you@y.org\n\nbody").unwrap();
    assert_eq!(hs.len(), 3);
    assert_eq!(get_first_value(&hs, "to"), Some("you@y.org".to_string()));
}

#[test]
fn summary_from_header() {
    let raw = b"From: Alice <a@x.org>\r\nDate: Mon, 1 Jan 2024 00:00:00 +0000\r\n\r\n";
    let s = parse_summary(Some(7), Some(&raw[..]), false).unwrap();
    assert_eq!(s.uid, 7);
    assert_eq!(s.from, "Alice <a@x.org>");
    assert_eq!(s.subject, "(无主题)");
    assert_eq!(s.date, "Mon, 1 Jan 2024 00:00:00 +0000");
    assert!(s.is_unread);
}

#[test]
fn summary_defaults_and_missing_parts() {
    let s = parse_summary(Some(1), Some(&b"Subject: Hi\n\n"[..]), true).unwrap();
    assert_eq!(s.from, "Unknown");
    assert_eq!(s.subject, "Hi");
    assert_eq!(s.date, "");
    assert!(!s.is_unread);
    assert!(parse_summary(None, Some(&b"Subject: Hi\n\n"[..]), true).is_none());
    assert!(parse_summary(Some(1), None, true).is_none());
}

#[test]
fn sort_is_descending_and_stable() {
    let v = vec![summary(2, "a"), summary(5, "b"), summary(2, "c"), summary(9, "d")];
    let r = sort_newest_first(v);
    let got: Vec<(u32, String)> = r.iter().map(|e| (e.uid, e.subject.clone())).collect();
    assert_eq!(
        got,
        vec![
            (9, "d".to_string()),
            (5, "b".to_string()),
            (2, "a".to_string()),
            (2, "c".to_string())
        ]
    );
}

#[test]
fn summaries_skip_unusable_fetches() {
    let f = vec![
        FetchedHeader { uid: Some(3), header: Some(b"Subject: three\n\n".to_vec()), seen: true },
        FetchedHeader { uid: None, header: Some(b"Subject: none\n\n".to_vec()), seen: true },
        FetchedHeader { uid: Some(8), header: Some(b"Subject: eight\n\n".to_vec()), seen: false },
        FetchedHeader { uid: Some(4), header: None, seen: false },
    ];
    let r = summaries_newest_first(&f);
    assert_eq!(r.len(), 2);
    assert_eq!(r[0].uid, 8);
    assert_eq!(r[0].subject, "eight");
    assert_eq!(r[1].uid, 3);
}

#[test]
fn plain_message_body() {
    let raw = b"From: a@x.org\nTo: b@y.org\nSubject: Hello\nMessage-ID: <1@x>\n\nThe body\n";
    let e = ParsedEmail::from_raw(raw).unwrap();
    assert_eq!(e.from, "a@x.org");
    assert_eq!(e.to, "b@y.org");
    assert_eq!(e.subject, "Hello");
    assert_eq!(e.date, "");
    assert_eq!(e.message_id, Some("<1@x>".to_string()));
    assert_eq!(e.body, "The body\n");
}

#[test]
fn multipart_prefers_plain_text() {
    let raw = "Subject: multi\nContent-Type: multipart/alternative; boundary=XX\n\n--XX\nContent-Type: text/html\n\n<p>html version</p>\n--XX\nContent-Type: text/plain\n\nplain version\n--XX--\n";
    let e = ParsedEmail::from_raw(raw.as_bytes()).unwrap();
    assert_eq!(e.body, "plain version\n");
    assert_eq!(e.from, "");
}

#[test]
fn multipart_falls_back_to_html() {
    let raw = "Content-Type: multipart/mixed; boundary=B\n\n--B\nContent-Type: application/octet-stream\n\nxxxx\n--B\nContent-Type: text/html\n\n<div>Hi &amp; bye</div>\n--B--\n";
    let mail = parse_message(raw.as_bytes()).unwrap();
    assert_eq!(mail.subparts.len(), 2);
    assert_eq!(extract_body(&mail), "Hi & bye");
    let e = ParsedEmail::from_parsed(&mail);
    assert_eq!(e.subject, "(无主题)");
}

#[test]
fn nested_multipart_body() {
    let raw = "Content-Type: multipart/mixed; boundary=OUT\n\n--OUT\nContent-Type: multipart/alternative; boundary=IN\n\n--IN\nContent-Type: text/plain\n\ninner text\n--IN--\n--OUT--\n";
    let e = ParsedEmail::from_raw(raw.as_bytes()).unwrap();
    assert_eq!(e.body, "inner text\n");
}

#[test]
fn html_only_message() {
    let raw = b"Content-Type: text/html\n\n<p>One</p><p>Two</p>";
    let e = ParsedEmail::from_raw(raw).unwrap();
    assert_eq!(e.body, "One\nTwo");
}

#[test]
fn other_single_part_has_no_body() {
    let raw = b"Content-Type: image/png\n\nabc";
    let e = ParsedEmail::from_raw(raw).unwrap();
    assert_eq!(e.body, "");
}
