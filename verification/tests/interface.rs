use mail_cli::models::EmailSummary;
use mail_cli::session::{
    compose_begin, compose_step, parse_command, reply_subject, summary_line, CancelReason,
    Command, CommandError, ComposeAction, ComposeInput, ComposeState, Pager,
};
use mail_cli::ui::{
    ask_number, ask_search, body_line, email_menu, fit, join_body, list_menu, list_menu_items,
    list_row, main_menu, page_bounds, EmailAction, ListAction, MainAction,
};

fn args(v: &[&str]) -> Vec<String> {
    v.iter().map(|s| s.to_string()).collect()
}

#[test]
fn fit_values() {
    assert_eq!(fit("hello", 10), "hello");
    assert_eq!(fit("hello", 3), "hel…");
    assert_eq!(fit("你好世界", 5), "你好…");
    assert_eq!(fit("你好", 4), "你好");
    assert_eq!(fit("", 0), "");
    assert_eq!(fit("a", 0), "…");
}

#[test]
fn search_answer() {
    assert_eq!(ask_search(Some("from:a".to_string())), "from:a");
    assert_eq!(ask_search(None), "");
}

#[test]
fn number_answers() {
    assert_eq!(ask_number(5, " 3 "), Some(3));
    assert_eq!(ask_number(5, "+5"), Some(5));
    assert_eq!(ask_number(5, "0"), None);
    assert_eq!(ask_number(5, "6"), None);
    assert_eq!(ask_number(5, ""), None);
    assert_eq!(ask_number(5, "x"), None);
}

#[test]
fn body_lines() {
    assert_eq!(body_line("hello\r\n"), Some("hello".to_string()));
    assert_eq!(body_line(".\n"), None);
    assert_eq!(body_line(".\r\n"), None);
    assert_eq!(body_line(" .\n"), Some(" .".to_string()));
    assert_eq!(join_body(&vec!["a".to_string(), "".to_string(), "b".to_string()]), "a\n\nb");
    assert_eq!(join_body(&vec![]), "");
}

#[test]
fn menus() {
    assert!(matches!(main_menu(Some(0)), MainAction::Inbox));
    assert!(matches!(main_menu(Some(2)), MainAction::Compose));
    assert!(matches!(main_menu(None), MainAction::Quit));
    assert!(matches!(email_menu(Some(1)), EmailAction::Reply));
    assert!(matches!(email_menu(Some(2)), EmailAction::Delete));
    assert!(matches!(email_menu(None), EmailAction::Back));
    let items = list_menu_items(true, true);
    assert_eq!(items.len(), 4);
    assert!(matches!(items[1], ListAction::NextPage));
    assert!(matches!(items[2], ListAction::PrevPage));
    assert!(matches!(list_menu(false, false, Some(1)), ListAction::Back));
    assert!(matches!(list_menu(true, false, Some(1)), ListAction::PrevPage));
    assert!(matches!(list_menu(true, true, None), ListAction::Back));
}

#[test]
fn rows_and_pages() {
    let e = EmailSummary {
        uid: 1,
        from: "a".repeat(40),
        subject: "s".to_string(),
        date: "d".to_string(),
        is_unread: true,
    };
    let r = list_row(&e, 3);
    assert_eq!(r.from, format!("{}…", "a".repeat(28)));
    assert_eq!(r.subject, "s");
    assert!(r.unread);
    assert_eq!(page_bounds(45, 2, 20), (40, 45));
    assert_eq!(page_bounds(45, 1, 20), (20, 40));
}

#[test]
fn command_lines() {
    assert!(matches!(parse_command(&args(&["inbox"])), Ok(Command::Inbox)));
    assert!(matches!(parse_command(&args(&["i"])), Ok(Command::Inbox)));
    match parse_command(&args(&["s", "is:unread", "from:alice"])) {
        Ok(Command::Search(q)) => assert_eq!(q, "is:unread from:alice"),
        _ => panic!("expected a search"),
    }
    assert!(matches!(parse_command(&args(&["search"])), Err(CommandError::SearchUsage)));
    assert!(matches!(parse_command(&args(&["read", "42"])), Ok(Command::Read(42))));
    assert!(matches!(parse_command(&args(&["r"])), Err(CommandError::ReadUsage)));
    assert!(matches!(parse_command(&args(&["r", "4x"])), Err(CommandError::BadUid)));
    assert!(matches!(parse_command(&args(&["r", "4294967296"])), Err(CommandError::BadUid)));
    assert!(matches!(parse_command(&args(&["help"])), Ok(Command::Help)));
    assert!(matches!(parse_command(&args(&["--help"])), Ok(Command::Help)));
    match parse_command(&args(&["-h"])) {
        Err(CommandError::Unknown(c)) => assert_eq!(c, "-h"),
        _ => panic!("expected an unknown command"),
    }
}

#[test]
fn listing_line() {
    let e = EmailSummary {
        uid: 42,
        from: "alice".to_string(),
        subject: "hi".to_string(),
        date: "today".to_string(),
        is_unread: true,
    };
    let expected = format!("{:>6}  {}  {:<32}  {:<48}  {}", 42, "●", "alice", "hi", "today");
    assert_eq!(summary_line(&e), expected);
    let e2 = EmailSummary { is_unread: false, ..e };
    let expected = format!("{:>6}  {}  {:<32}  {:<48}  {}", 42, " ", "alice", "hi", "today");
    assert_eq!(summary_line(&e2), expected);
}

#[test]
fn paging() {
    let p = Pager::new(45);
    assert_eq!(p.total_pages(), 3);
    assert!(!p.has_prev());
    assert!(p.has_next());
    let p = p.turn(&ListAction::NextPage).turn(&ListAction::NextPage);
    assert_eq!(p.page, 2);
    assert!(!p.has_next());
    assert_eq!(p.bounds(), (40, 45));
    assert_eq!(p.pick(5), 44);
    let p = p.turn(&ListAction::NextPage);
    assert_eq!(p.page, 2);
    let p = p.turn(&ListAction::PrevPage);
    assert_eq!(p.page, 1);
    assert_eq!(Pager::new(20).total_pages(), 1);
    assert_eq!(Pager::new(21).total_pages(), 2);
}

#[test]
fn reply_subjects() {
    assert_eq!(reply_subject("Hello"), "Re: Hello");
    assert_eq!(reply_subject("RE: Hello"), "RE: Hello");
    assert_eq!(reply_subject("re:x"), "re:x");
    assert_eq!(reply_subject(&reply_subject("Hello")), "Re: Hello");
}

#[test]
fn compose_flow() {
    let (st, act) = compose_begin(None);
    assert!(matches!(act, ComposeAction::AskRecipient));
    let (st, act) = compose_step(st, ComposeInput::Text("b@y.org".to_string()));
    assert!(matches!(act, ComposeAction::AskSubject));
    let (st, act) = compose_step(st, ComposeInput::Text("Hi".to_string()));
    assert!(matches!(act, ComposeAction::AskBody));
    let (st, act) = compose_step(st, ComposeInput::Text("Body".to_string()));
    match act {
        ComposeAction::ConfirmPreview(p) => assert_eq!(p, "To: b@y.org\nSubject: Hi\n\nBody"),
        _ => panic!("expected a preview"),
    }
    let (st, act) = compose_step(st, ComposeInput::Confirmed(true));
    assert!(matches!(st, ComposeState::Done));
    match act {
        ComposeAction::Send(d) => {
            assert_eq!((d.to.as_str(), d.subject.as_str(), d.body.as_str()), ("b@y.org", "Hi", "Body"))
        },
        _ => panic!("expected sending"),
    }
}

#[test]
fn compose_cancels() {
    let (st, act) = compose_begin(Some(("a@x.org".to_string(), "Re: x".to_string())));
    assert!(matches!(act, ComposeAction::AskBody));
    let (_, act) = compose_step(st, ComposeInput::Text(String::new()));
    assert!(matches!(act, ComposeAction::Cancel(CancelReason::EmptyBody)));
    let (st, _) = compose_begin(Some(("a@x.org".to_string(), "s".to_string())));
    let (st, _) = compose_step(st, ComposeInput::Text("b".to_string()));
    let (st, act) = compose_step(st, ComposeInput::Confirmed(false));
    assert!(matches!(act, ComposeAction::Cancel(CancelReason::Declined)));
    let (_, act) = compose_step(st, ComposeInput::Text("late".to_string()));
    assert!(matches!(act, ComposeAction::Ignore));
}

#[test]
fn fit_never_exceeds_width() {
    for s in ["", "abc", "你好世界abc", "a你b好c"] {
        for max in 0..8usize {
            let f = fit(s, max);
            let kept: String = f.trim_end_matches('…').to_string();
            let width: usize = kept.chars().map(|c| if (c as u32) > 0x2E7F { 2 } else { 1 }).sum();
            assert!(width <= max);
            assert!(s.starts_with(&kept));
        }
    }
    assert_eq!(fit("abc", 3), "abc");
}

#[test]
fn fit_keeps_longest_prefix() {
    assert_eq!(fit("abcdef", 3), "abc…");
    assert_eq!(fit("中文字", 4), "中文…");
    assert_eq!(fit("中文字", 5), "中文…");
    assert_eq!(fit("a中b", 2), "a…");
}
