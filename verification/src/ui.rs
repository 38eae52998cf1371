//! What the terminal interface shows and how it reads the user's answers.
use vstd::prelude::*;
use crate::models::EmailSummary;
use crate::mime::opt_text;
use crate::text::{
    chars_of, parse_unsigned, parse_unsigned_spec, string_from_chars, trim, trim_chars,
};

verus! {

// ---------------------------------------------------------------------------
// Fitting text into columns
// ---------------------------------------------------------------------------

/// The columns a character takes: two for characters from U+2E80 on (CJK and
/// beyond), one for the others.
pub open spec fn char_width(c: char) -> nat {
    if (c as u32) > 0x2E7F {
        2
    } else {
        1
    }
}

/// The columns `s` takes.
pub open spec fn text_width(s: Seq<char>) -> nat
    decreases s.len(),
{
    if s.len() == 0 {
        0
    } else {
        char_width(s[0]) + text_width(s.drop_first())
    }
}

/// The characters of `s` that fit after `used` of `max` columns, followed by `…`
/// when the next one does not fit.
pub open spec fn fit_from(s: Seq<char>, used: nat, max: nat) -> Seq<char>
    decreases s.len(),
{
    if s.len() == 0 {
        seq![]
    } else if used + char_width(s[0]) > max {
        seq!['…']
    } else {
        seq![s[0]] + fit_from(s.drop_first(), used + char_width(s[0]), max)
    }
}

/// `s` cut to `max` columns, with `…` added when something was cut.
pub open spec fn fitted(s: Seq<char>, max: nat) -> Seq<char> {
    fit_from(s, 0, max)
}

/// Cuts `s` to `max` columns (see `fitted`).
pub fn fit(s: &str, max: usize) -> (r: String)
    ensures
        r@ == fitted(s@, max as nat),
{
    let v = chars_of(s);
    let mut out: Vec<char> = Vec::new();
    let mut width: usize = 0;
    let mut i: usize = 0;
    assert(v@.skip(0) == v@);
    while i < v.len()
        invariant
            i <= v.len(),
            width <= max,
            fitted(s@, max as nat) == out@ + fit_from(v@.skip(i as int), width as nat, max as nat),
            v@ == s@,
        decreases v.len() - i,
    {
        let ch = v[i];
        let w: usize = if (ch as u32) > 0x2E7F {
            2
        } else {
            1
        };
        assert(v@.skip(i as int)[0] == ch);
        assert(v@.skip(i as int).drop_first() == v@.skip(i + 1));
        if w > max - width {
            out.push('…');
            assert(fit_from(v@.skip(i as int), width as nat, max as nat) == seq!['…']);
            return string_from_chars(&out);
        }
        width = width + w;
        out.push(ch);
        i = i + 1;
    }
    assert(fit_from(v@.skip(i as int), width as nat, max as nat) == Seq::<char>::empty());
    assert(out@ + Seq::<char>::empty() == out@);
    string_from_chars(&out)
}

/// What `fit` keeps of `s` takes at most `max` columns, `s` comes out whole when it
/// fits, and when it is cut the kept prefix is the longest that fits: the next
/// character would overflow.
pub proof fn law_fit(s: Seq<char>, used: nat, max: nat)
    requires
        used <= max,
    ensures
        fit_from(s, used, max) == s || (fit_from(s, used, max).len() >= 1 && fit_from(
            s,
            used,
            max,
        ).last() == '…' && s.take(fit_from(s, used, max).len() - 1) == fit_from(
            s,
            used,
            max,
        ).drop_last() && used + text_width(fit_from(s, used, max).drop_last()) <= max),
        used + text_width(s) <= max ==> fit_from(s, used, max) == s,
        fit_from(s, used, max).len() <= s.len() + 1,
        fit_from(s, used, max) != s ==> fit_from(s, used, max).len() - 1 < s.len() && used
            + text_width(fit_from(s, used, max).drop_last()) + char_width(
            s[fit_from(s, used, max).len() - 1],
        ) > max,
    decreases s.len(),
{
    if s.len() == 0 {
    } else if used + char_width(s[0]) > max {
        assert(seq!['…'].drop_last() == Seq::<char>::empty());
        assert(s.take(0) == Seq::<char>::empty());
    } else {
        let rest = s.drop_first();
        law_fit(rest, used + char_width(s[0]), max);
        let f = fit_from(rest, used + char_width(s[0]), max);
        assert(seq![s[0]] + rest == s);
        if f != rest {
            assert((seq![s[0]] + f).drop_last() == seq![s[0]] + f.drop_last());
            assert(s.take(f.len() as int) =~= seq![s[0]] + rest.take(f.len() - 1));
            assert((seq![s[0]] + f.drop_last()).drop_first() == f.drop_last());
            assert(s[f.len() as int] == rest[f.len() - 1]);
        }
    }
}

// ---------------------------------------------------------------------------
// Prompts and answers
// ---------------------------------------------------------------------------

/// The prompt shown when asking for a search query.
pub const SEARCH_PROMPT: &'static str = "搜索 (支持 from: to: subject: is:unread on:YYYY-MM-DD after:YYYY-MM-DD before:YYYY-MM-DD)";

/// The query typed at the search prompt (`SEARCH_PROMPT`); empty when nothing could be
/// read.
pub fn ask_search(answer: Option<String>) -> (r: String)
    ensures
        r@ == match opt_text(answer) {
            Some(a) => a,
            None => seq![],
        },
{
    match answer {
        Some(a) => a,
        None => String::new(),
    }
}

/// The message number picked from a list of `max`: the trimmed answer read as a
/// number from 1 to `max`; nothing for any other answer.
pub open spec fn picked_number(answer: Seq<char>, max: nat) -> Option<nat> {
    match parse_unsigned_spec(trim(answer), 10, usize::MAX as nat) {
        Some(n) => if 1 <= n <= max {
            Some(n)
        } else {
            None
        },
        None => None,
    }
}

/// Reads the number of a message to open (see `picked_number`).
pub fn ask_number(max: usize, answer: &str) -> (r: Option<usize>)
    ensures
        match picked_number(answer@, max as nat) {
            Some(n) => r == Some(n as usize),
            None => r is None,
        },
{
    let t = trim_chars(&chars_of(answer));
    match parse_unsigned(&t, 10, usize::MAX as u64) {
        Some(n) => {
            if 1 <= n && n <= max as u64 {
                Some(n as usize)
            } else {
                None
            }
        },
        None => None,
    }
}

/// A typed body line without its line ending: trailing `\n`s, then trailing `\r`s,
/// removed.
pub open spec fn strip_line_end(s: Seq<char>) -> Seq<char> {
    strip_trailing(strip_trailing(s, '\n'), '\r')
}

pub open spec fn strip_trailing(s: Seq<char>, c: char) -> Seq<char>
    decreases s.len(),
{
    if s.len() > 0 && s.last() == c {
        strip_trailing(s.drop_last(), c)
    } else {
        s
    }
}

fn strip_trailing_chars(s: &Vec<char>, c: char) -> (r: Vec<char>)
    ensures
        r@ == strip_trailing(s@, c),
{
    let mut b: usize = s.len();
    assert(s@.take(b as int) == s@);
    while b > 0 && s[b - 1] == c
        invariant
            b <= s.len(),
            strip_trailing(s@, c) == strip_trailing(s@.take(b as int), c),
        decreases b,
    {
        assert(s@.take(b as int).drop_last() == s@.take(b - 1));
        b = b - 1;
    }
    crate::text::slice_chars(s, 0, b)
}

/// One line typed while writing a body: `None` for the line `.` that ends the body,
/// else the line without its line ending.
pub fn body_line(raw: &str) -> (r: Option<String>)
    ensures
        strip_line_end(raw@) == "."@ ==> r is None,
        strip_line_end(raw@) != "."@ ==> (r matches Some(l) && l@ == strip_line_end(raw@)),
{
    let v = chars_of(raw);
    let a = strip_trailing_chars(&v, '\n');
    let b = strip_trailing_chars(&a, '\r');
    let dot = chars_of(".");
    if crate::text::chars_eq(&b, &dot) {
        None
    } else {
        Some(string_from_chars(&b))
    }
}

/// The lines of a body joined with line breaks.
pub open spec fn body_text_of(lines: Seq<String>) -> Seq<char>
    decreases lines.len(),
{
    if lines.len() == 0 {
        seq![]
    } else if lines.len() == 1 {
        lines[0]@
    } else {
        body_text_of(lines.drop_last()) + seq!['\n'] + lines.last()@
    }
}

/// Joins the typed lines of a body (see `body_text_of`).
pub fn join_body(lines: &Vec<String>) -> (r: String)
    ensures
        r@ == body_text_of(lines@),
{
    let mut out: Vec<char> = Vec::new();
    let mut i: usize = 0;
    assert(lines@.take(0) == Seq::<String>::empty());
    while i < lines.len()
        invariant
            i <= lines@.len(),
            out@ == body_text_of(lines@.take(i as int)),
        decreases lines.len() - i,
    {
        let ghost before = out@;
        if i > 0 {
            out.push('\n');
        }
        let l = chars_of(lines[i].as_str());
        crate::text::push_all(&mut out, &l);
        assert(lines@.take(i + 1).drop_last() == lines@.take(i as int));
        assert(lines@.take(i + 1).last() == lines@[i as int]);
        proof {
            if i == 0 {
                assert(lines@.take(1) == seq![lines@[0]]);
            }
        }
        i = i + 1;
    }
    assert(lines@.take(lines@.len() as int) == lines@);
    string_from_chars(&out)
}

// ---------------------------------------------------------------------------
// Menus
// ---------------------------------------------------------------------------

/// The entries of the main menu.
pub enum MainAction {
    Inbox,
    Search,
    Compose,
    Quit,
}

/// The main menu's entry picked by index; leaving the menu without a pick quits.
pub fn main_menu(choice: Option<usize>) -> (r: MainAction)
    ensures
        r is Inbox <==> choice == Some(0usize),
        r is Search <==> choice == Some(1usize),
        r is Compose <==> choice == Some(2usize),
{
    match choice {
        Some(0) => MainAction::Inbox,
        Some(1) => MainAction::Search,
        Some(2) => MainAction::Compose,
        _ => MainAction::Quit,
    }
}

/// The entries of the menu under a message list.
pub enum ListAction {
    Open,
    NextPage,
    PrevPage,
    Back,
}

/// The list menu's entries: open a message, the next page when there is one, the
/// previous page when there is one, and back.
pub open spec fn list_menu_entries(has_prev: bool, has_next: bool) -> Seq<ListAction> {
    seq![ListAction::Open] + (if has_next {
        seq![ListAction::NextPage]
    } else {
        seq![]
    }) + (if has_prev {
        seq![ListAction::PrevPage]
    } else {
        seq![]
    }) + seq![ListAction::Back]
}

/// Lists the entries of the menu under a message list (see `list_menu_entries`).
pub fn list_menu_items(has_prev: bool, has_next: bool) -> (r: Vec<ListAction>)
    ensures
        r@ == list_menu_entries(has_prev, has_next),
{
    let mut items: Vec<ListAction> = Vec::new();
    items.push(ListAction::Open);
    if has_next {
        items.push(ListAction::NextPage);
    }
    if has_prev {
        items.push(ListAction::PrevPage);
    }
    items.push(ListAction::Back);
    assert(items@ =~= list_menu_entries(has_prev, has_next));
    items
}

/// The list menu's entry picked by index; leaving the menu without a pick goes back.
pub fn list_menu(has_prev: bool, has_next: bool, choice: Option<usize>) -> (r: ListAction)
    requires
        choice matches Some(i) ==> i < list_menu_entries(has_prev, has_next).len(),
    ensures
        r == match choice {
            Some(i) => list_menu_entries(has_prev, has_next)[i as int],
            None => ListAction::Back,
        },
{
    let items = list_menu_items(has_prev, has_next);
    match choice {
        Some(i) => match items[i] {
            ListAction::Open => ListAction::Open,
            ListAction::NextPage => ListAction::NextPage,
            ListAction::PrevPage => ListAction::PrevPage,
            ListAction::Back => ListAction::Back,
        },
        None => ListAction::Back,
    }
}

/// The entries of the menu under an open message.
pub enum EmailAction {
    Read,
    Reply,
    Delete,
    Back,
}

/// The message menu's entry picked by index; leaving the menu without a pick goes back.
pub fn email_menu(choice: Option<usize>) -> (r: EmailAction)
    ensures
        r is Read <==> choice == Some(0usize),
        r is Reply <==> choice == Some(1usize),
        r is Delete <==> choice == Some(2usize),
{
    match choice {
        Some(0) => EmailAction::Read,
        Some(1) => EmailAction::Reply,
        Some(2) => EmailAction::Delete,
        _ => EmailAction::Back,
    }
}

// ---------------------------------------------------------------------------
// Message lists
// ---------------------------------------------------------------------------

/// The columns of one row of a message list.
pub struct ListRow {
    pub number: usize,
    pub unread: bool,
    pub from: String,
    pub subject: String,
    pub date: String,
}

/// The row for entry `e` numbered `number`: sender cut to 28 columns, subject to 42
/// and date to 22.
pub fn list_row(e: &EmailSummary, number: usize) -> (r: ListRow)
    ensures
        r.number == number,
        r.unread == e.is_unread,
        r.from@ == fitted(e.from@, 28),
        r.subject@ == fitted(e.subject@, 42),
        r.date@ == fitted(e.date@, 22),
{
    ListRow {
        number,
        unread: e.is_unread,
        from: fit(e.from.as_str(), 28),
        subject: fit(e.subject.as_str(), 42),
        date: fit(e.date.as_str(), 22),
    }
}

/// The entries shown on page `page` of `len` entries, `per_page` to a page: from
/// `page * per_page` up to `per_page` further, not past the end.
pub fn page_bounds(len: usize, page: usize, per_page: usize) -> (r: (usize, usize))
    requires
        page * per_page <= len,
    ensures
        r.0 == page * per_page,
        r.1 == if page * per_page + per_page <= len {
            page * per_page + per_page
        } else {
            len as int
        },
{
    let start = page * per_page;
    let end = if per_page <= len - start {
        start + per_page
    } else {
        len
    };
    (start, end)
}

} // verus!
