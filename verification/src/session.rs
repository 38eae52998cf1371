//! The client's flow: commands, paging through lists, replying and composing.
use vstd::prelude::*;
use crate::models::EmailSummary;
use crate::text::{
    chars_eq, chars_of, decimal, decimal_chars, match_at, matches_at, parse_unsigned,
    parse_unsigned_spec, push_all, string_from_chars,
};
use crate::ui::ListAction;

verus! {

// ---------------------------------------------------------------------------
// Command line
// ---------------------------------------------------------------------------

/// What the client was asked to do on its command line.
pub enum Command {
    /// List the messages matching a query.
    Search(String),
    /// Show one message in full.
    Read(u32),
    /// List the newest messages.
    Inbox,
    /// Show how to use the command line.
    Help,
}

/// Why a command line was refused.
pub enum CommandError {
    /// `search` without a query.
    SearchUsage,
    /// `read` without a UID.
    ReadUsage,
    /// `read` with something that is not a UID.
    BadUid,
    /// An unknown command, which is handed back.
    Unknown(String),
}

/// `parts` joined by single spaces.
pub open spec fn spaced(parts: Seq<String>) -> Seq<char>
    decreases parts.len(),
{
    if parts.len() == 0 {
        seq![]
    } else if parts.len() == 1 {
        parts[0]@
    } else {
        spaced(parts.drop_last()) + seq![' '] + parts.last()@
    }
}

pub open spec fn is_search(cmd: Seq<char>) -> bool {
    cmd == "search"@ || cmd == "s"@
}

pub open spec fn is_read(cmd: Seq<char>) -> bool {
    cmd == "read"@ || cmd == "r"@
}

pub open spec fn is_help(cmd: Seq<char>) -> bool {
    cmd == "help"@ || cmd == "--help"@
}

pub open spec fn is_inbox(cmd: Seq<char>) -> bool {
    cmd == "inbox"@ || cmd == "i"@
}

fn join_spaced(parts: &Vec<String>, from: usize) -> (r: String)
    requires
        from <= parts.len(),
    ensures
        r@ == spaced(parts@.skip(from as int)),
{
    let ghost ps = parts@.skip(from as int);
    let mut out: Vec<char> = Vec::new();
    let mut i: usize = from;
    assert(ps.take(0) == Seq::<String>::empty());
    while i < parts.len()
        invariant
            from <= i <= parts@.len(),
            ps == parts@.skip(from as int),
            out@ == spaced(ps.take(i - from)),
        decreases parts.len() - i,
    {
        let ghost k = i - from;
        if i > from {
            out.push(' ');
        }
        let c = chars_of(parts[i].as_str());
        push_all(&mut out, &c);
        assert(ps.take(k + 1).drop_last() == ps.take(k));
        assert(ps.take(k + 1).last() == parts@[i as int]);
        proof {
            if k == 0 {
                assert(ps.take(1) == seq![ps[0]]);
            }
        }
        i = i + 1;
    }
    assert(ps.take(parts@.len() - from) == ps);
    string_from_chars(&out)
}

fn is_word(s: &String, w: &str) -> (r: bool)
    ensures
        r == (s@ == w@),
{
    let a = chars_of(s.as_str());
    let b = chars_of(w);
    chars_eq(&a, &b)
}

/// Reads the command line (without the program name): `search`/`s` with a query (the
/// remaining words joined by spaces), `read`/`r` with a UID, `inbox`/`i`, or
/// `help`/`--help`.
pub fn parse_command(args: &Vec<String>) -> (r: Result<Command, CommandError>)
    requires
        args.len() > 0,
    ensures
        is_search(args@[0]@) ==> if args.len() < 2 {
            r matches Err(CommandError::SearchUsage)
        } else {
            r matches Ok(Command::Search(q)) && q@ == spaced(args@.skip(1))
        },
        is_read(args@[0]@) ==> if args.len() < 2 {
            r matches Err(CommandError::ReadUsage)
        } else {
            match parse_unsigned_spec(args@[1]@, 10, u32::MAX as nat) {
                Some(v) => r matches Ok(Command::Read(u)) && u == v,
                None => r matches Err(CommandError::BadUid),
            }
        },
        is_inbox(args@[0]@) ==> r matches Ok(Command::Inbox),
        is_help(args@[0]@) ==> r matches Ok(Command::Help),
        !is_search(args@[0]@) && !is_read(args@[0]@) && !is_inbox(args@[0]@) && !is_help(
            args@[0]@,
        ) ==> (r matches Err(
            CommandError::Unknown(c),
        ) && c@ == args@[0]@),
{
    let cmd = &args[0];
    proof {
        reveal_strlit("search");
        reveal_strlit("s");
        reveal_strlit("read");
        reveal_strlit("r");
        reveal_strlit("inbox");
        reveal_strlit("i");
        reveal_strlit("help");
        reveal_strlit("--help");
        assert("help"@.len() != "s"@.len() && "help"@.len() != "r"@.len() && "help"@.len() != "i"@.len());
        assert("help"@.len() != "search"@.len() && "help"@.len() != "inbox"@.len());
        assert("help"@[0] != "read"@[0]);
        assert("--help"@.len() != "s"@.len() && "--help"@.len() != "r"@.len() && "--help"@.len() != "i"@.len());
        assert("--help"@.len() != "read"@.len() && "--help"@.len() != "inbox"@.len());
        assert("--help"@[0] != "search"@[0]);
        assert("s"@[0] != "r"@[0] && "s"@[0] != "i"@[0] && "r"@[0] != "i"@[0]);
        assert("search"@.len() != "read"@.len() && "search"@.len() != "inbox"@.len());
        assert("read"@.len() != "inbox"@.len());
        assert("search"@.len() != "r"@.len() && "search"@.len() != "i"@.len());
        assert("read"@.len() != "s"@.len() && "read"@.len() != "i"@.len());
        assert("inbox"@.len() != "s"@.len() && "inbox"@.len() != "r"@.len());
    }
    if is_word(cmd, "search") || is_word(cmd, "s") {
        if args.len() < 2 {
            return Err(CommandError::SearchUsage);
        }
        return Ok(Command::Search(join_spaced(args, 1)));
    }
    if is_word(cmd, "read") || is_word(cmd, "r") {
        if args.len() < 2 {
            return Err(CommandError::ReadUsage);
        }
        let digits = chars_of(args[1].as_str());
        return match parse_unsigned(&digits, 10, u32::MAX as u64) {
            Some(v) => Ok(Command::Read(v as u32)),
            None => Err(CommandError::BadUid),
        };
    }
    if is_word(cmd, "inbox") || is_word(cmd, "i") {
        return Ok(Command::Inbox);
    }
    if is_word(cmd, "help") || is_word(cmd, "--help") {
        return Ok(Command::Help);
    }
    Err(CommandError::Unknown(cmd.clone()))
}

// ---------------------------------------------------------------------------
// List lines for the command line
// ---------------------------------------------------------------------------

pub open spec fn spaces(n: nat) -> Seq<char> {
    Seq::new(n, |i: int| ' ')
}

/// `s` padded with spaces on the right to `w` characters (`{:<w}`).
pub open spec fn pad_right(s: Seq<char>, w: nat) -> Seq<char> {
    if s.len() >= w {
        s
    } else {
        s + spaces((w - s.len()) as nat)
    }
}

/// `s` padded with spaces on the left to `w` characters (`{:>w}`).
pub open spec fn pad_left(s: Seq<char>, w: nat) -> Seq<char> {
    if s.len() >= w {
        s
    } else {
        spaces((w - s.len()) as nat) + s
    }
}

fn space_chars(n: usize) -> (r: Vec<char>)
    ensures
        r@ == spaces(n as nat),
{
    let mut v: Vec<char> = Vec::new();
    let mut i: usize = 0;
    while i < n
        invariant
            i <= n,
            v@ == spaces(i as nat),
        decreases n - i,
    {
        v.push(' ');
        i = i + 1;
        assert(v@ =~= spaces(i as nat));
    }
    v
}

fn padded_right(s: &Vec<char>, w: usize) -> (r: Vec<char>)
    ensures
        r@ == pad_right(s@, w as nat),
{
    let mut out: Vec<char> = Vec::new();
    push_all(&mut out, s);
    if s.len() < w {
        let sp = space_chars(w - s.len());
        push_all(&mut out, &sp);
    }
    out
}

/// The line for one message in the command-line listing: the UID right-aligned in
/// 6 columns, a dot for an unread message, the sender padded to 32 characters, the
/// subject padded to 48, and the date, separated by two spaces.
pub open spec fn summary_line_of(e: EmailSummary) -> Seq<char> {
    pad_left(decimal(e.uid as nat), 6) + "  "@ + (if e.is_unread {
        "●"@
    } else {
        " "@
    }) + "  "@ + pad_right(e.from@, 32) + "  "@ + pad_right(e.subject@, 48) + "  "@ + e.date@
}

/// Writes the command-line listing line for a message (see `summary_line_of`).
pub fn summary_line(e: &EmailSummary) -> (r: String)
    ensures
        r@ == summary_line_of(*e),
{
    let d = decimal_chars(e.uid as u64);
    let mut out: Vec<char> = Vec::new();
    if d.len() < 6 {
        let sp = space_chars(6 - d.len());
        push_all(&mut out, &sp);
    }
    push_all(&mut out, &d);
    let gap = chars_of("  ");
    push_all(&mut out, &gap);
    let dot = if e.is_unread {
        chars_of("●")
    } else {
        chars_of(" ")
    };
    push_all(&mut out, &dot);
    push_all(&mut out, &gap);
    let from = padded_right(&chars_of(e.from.as_str()), 32);
    push_all(&mut out, &from);
    push_all(&mut out, &gap);
    let subject = padded_right(&chars_of(e.subject.as_str()), 48);
    push_all(&mut out, &subject);
    push_all(&mut out, &gap);
    let date = chars_of(e.date.as_str());
    push_all(&mut out, &date);
    assert(out@ =~= summary_line_of(*e));
    string_from_chars(&out)
}

// ---------------------------------------------------------------------------
// Paging through a message list
// ---------------------------------------------------------------------------

/// Messages shown on one page.
pub const PER_PAGE: usize = 20;

/// The pages `len` messages fill.
pub open spec fn page_count(len: nat) -> nat {
    ((len + PER_PAGE - 1) / (PER_PAGE as int)) as nat
}

/// Where the reader is in a list of `len` messages.
pub struct Pager {
    pub len: usize,
    pub page: usize,
}

impl Pager {
    /// The page exists.
    pub open spec fn wf(&self) -> bool {
        self.page < page_count(self.len as nat)
    }

    /// The first page of a non-empty list.
    pub fn new(len: usize) -> (r: Pager)
        requires
            len > 0,
        ensures
            r.len == len,
            r.page == 0,
            r.wf(),
    {
        Pager { len, page: 0 }
    }

    /// The pages the list fills.
    pub fn total_pages(&self) -> (r: usize)
        ensures
            r == page_count(self.len as nat),
    {
        let full = self.len / PER_PAGE;
        if self.len % PER_PAGE == 0 {
            full
        } else {
            full + 1
        }
    }

    pub fn has_prev(&self) -> (r: bool)
        ensures
            r == (self.page > 0),
    {
        self.page > 0
    }

    pub fn has_next(&self) -> (r: bool)
        ensures
            r == (self.page + 1 < page_count(self.len as nat)),
    {
        let total = self.total_pages();
        self.page < total && total - self.page > 1
    }

    /// The messages on the current page, from the first up to (not including) the last.
    pub fn bounds(&self) -> (r: (usize, usize))
        requires
            self.wf(),
        ensures
            r.0 == self.page * PER_PAGE,
            r.1 == if self.page * PER_PAGE + PER_PAGE <= self.len {
                self.page * PER_PAGE + PER_PAGE
            } else {
                self.len as int
            },
            r.0 < r.1 <= self.len,
    {
        proof {
            let p = self.page as int;
            let l = self.len as int;
            assert(p * 20 < l) by (nonlinear_arith)
                requires
                    p < (l + 19) / 20,
                    p >= 0,
                    l >= 0,
            ;
        }
        crate::ui::page_bounds(self.len, self.page, PER_PAGE)
    }

    /// The reader's place after picking `action` from the list menu: one page on or
    /// back where there is one; unchanged otherwise.
    pub fn turn(&self, action: &ListAction) -> (r: Pager)
        requires
            self.wf(),
        ensures
            r.wf(),
            r.len == self.len,
            r.page == match action {
                ListAction::NextPage => if self.page + 1 < page_count(self.len as nat) {
                    self.page + 1
                } else {
                    self.page as int
                },
                ListAction::PrevPage => if self.page > 0 {
                    self.page - 1
                } else {
                    self.page as int
                },
                _ => self.page as int,
            },
    {
        match action {
            ListAction::NextPage => {
                if self.has_next() {
                    Pager { len: self.len, page: self.page + 1 }
                } else {
                    Pager { len: self.len, page: self.page }
                }
            },
            ListAction::PrevPage => {
                if self.page > 0 {
                    Pager { len: self.len, page: self.page - 1 }
                } else {
                    Pager { len: self.len, page: self.page }
                }
            },
            _ => Pager { len: self.len, page: self.page },
        }
    }

    /// The index in the whole list of message number `n` (counted from 1) on this page.
    pub fn pick(&self, n: usize) -> (r: usize)
        requires
            self.wf(),
            1 <= n,
            self.page * PER_PAGE + n <= self.len,
            n <= PER_PAGE,
        ensures
            r == self.page * PER_PAGE + n - 1,
            r < self.len,
    {
        let (start, _) = self.bounds();
        start + n - 1
    }
}

/// Going one page on and then one page back returns to the same page.
pub proof fn law_next_then_prev(p: Pager)
    requires
        p.wf(),
        p.page + 1 < page_count(p.len as nat),
    ensures
        ({
            let q = Pager { len: p.len, page: (p.page + 1) as usize };
            q.wf() && (if q.page > 0 {
                q.page - 1
            } else {
                q.page as int
            }) == p.page
        }),
{
}

// ---------------------------------------------------------------------------
// Replying
// ---------------------------------------------------------------------------

/// The subject of a reply: the original subject when it already starts with `re:` in
/// any ASCII case, else the original prefixed with `Re: `.
pub open spec fn reply_subject_of(subject: Seq<char>) -> Seq<char> {
    if matches_at(subject, 0, "re:"@, true) {
        subject
    } else {
        "Re: "@ + subject
    }
}

/// The subject of a reply (see `reply_subject_of`).
pub fn reply_subject(subject: &str) -> (r: String)
    ensures
        r@ == reply_subject_of(subject@),
{
    let s = chars_of(subject);
    let re = chars_of("re:");
    if match_at(&s, 0, &re, true) {
        subject.to_owned()
    } else {
        let mut out = chars_of("Re: ");
        push_all(&mut out, &s);
        string_from_chars(&out)
    }
}

/// Replying twice does not stack prefixes.
pub proof fn law_reply_subject_idempotent(subject: Seq<char>)
    ensures
        reply_subject_of(reply_subject_of(subject)) == reply_subject_of(subject),
{
    reveal_strlit("re:");
    reveal_strlit("Re: ");
    let r = reply_subject_of(subject);
    if !matches_at(subject, 0, "re:"@, true) {
        assert(r[0] == 'R' && r[1] == 'e' && r[2] == ':');
        assert(crate::text::ascii_lower('R') == 'r');
        assert(matches_at(r, 0, "re:"@, true));
    }
}


// ---------------------------------------------------------------------------
// Composing
// ---------------------------------------------------------------------------

/// A message ready to be sent.
pub struct Draft {
    pub to: String,
    pub subject: String,
    pub body: String,
}

/// Where writing a message stands.
pub enum ComposeState {
    /// Waiting for the recipient.
    Recipient,
    /// Waiting for the subject, the recipient known.
    Subject(String),
    /// Waiting for the body, recipient and subject known.
    Body(String, String),
    /// Waiting for the user to confirm sending.
    Confirm(Draft),
    /// Finished.
    Done,
}

/// What the user answered.
pub enum ComposeInput {
    Text(String),
    Confirmed(bool),
}

/// Why no message was sent.
pub enum CancelReason {
    /// The body was empty.
    EmptyBody,
    /// The user did not confirm.
    Declined,
}

/// What the client does next while writing a message.
pub enum ComposeAction {
    AskRecipient,
    AskSubject,
    AskBody,
    /// Show this preview and ask for confirmation.
    ConfirmPreview(String),
    Send(Draft),
    Cancel(CancelReason),
    /// Nothing: the answer did not fit the question.
    Ignore,
}

/// The preview shown before sending: recipient, subject, a blank line, the body.
pub open spec fn preview_of(to: Seq<char>, subject: Seq<char>, body: Seq<char>) -> Seq<char> {
    "To: "@ + to + "\nSubject: "@ + subject + "\n\n"@ + body
}

fn preview(to: &String, subject: &String, body: &String) -> (r: String)
    ensures
        r@ == preview_of(to@, subject@, body@),
{
    let mut out = chars_of("To: ");
    push_all(&mut out, &chars_of(to.as_str()));
    push_all(&mut out, &chars_of("\nSubject: "));
    push_all(&mut out, &chars_of(subject.as_str()));
    push_all(&mut out, &chars_of("\n\n"));
    push_all(&mut out, &chars_of(body.as_str()));
    string_from_chars(&out)
}

/// Starts writing a message: a reply arrives with recipient and subject filled in and
/// goes straight to the body; a new message asks for the recipient.
pub fn compose_begin(prefill: Option<(String, String)>) -> (r: (ComposeState, ComposeAction))
    ensures
        match prefill {
            Some((to, subject)) => r.0 == ComposeState::Body(to, subject) && r.1
                is AskBody,
            None => r.0 is Recipient && r.1 is AskRecipient,
        },
{
    match prefill {
        Some((to, subject)) => (ComposeState::Body(to, subject), ComposeAction::AskBody),
        None => (ComposeState::Recipient, ComposeAction::AskRecipient),
    }
}

/// One step of writing a message: the recipient, then the subject, then the body are
/// taken in turn; an empty body cancels; a non-empty one is previewed for
/// confirmation; a confirmation sends the draft and a refusal cancels.
pub fn compose_step(state: ComposeState, input: ComposeInput) -> (r: (ComposeState, ComposeAction))
    ensures
        match (state, input) {
            (ComposeState::Recipient, ComposeInput::Text(t)) => r.0 == ComposeState::Subject(t)
                && r.1 is AskSubject,
            (ComposeState::Subject(to), ComposeInput::Text(s)) => r.0 == ComposeState::Body(
                to,
                s,
            ) && r.1 is AskBody,
            (ComposeState::Body(to, s), ComposeInput::Text(b)) => if b@.len() == 0 {
                r.0 is Done && r.1 == ComposeAction::Cancel(CancelReason::EmptyBody)
            } else {
                r.0 == ComposeState::Confirm((Draft { to, subject: s, body: b })) && (r.1 matches ComposeAction::ConfirmPreview(p)
                    && p@ == preview_of(to@, s@, b@))
            },
            (ComposeState::Confirm(d), ComposeInput::Confirmed(yes)) => r.0 is Done && if yes {
                r.1 == ComposeAction::Send(d)
            } else {
                r.1 == ComposeAction::Cancel(CancelReason::Declined)
            },
            (ComposeState::Done, _) => r.0 is Done && r.1 is Ignore,
            (st, _) => r.0 == st && r.1 is Ignore,
        },
{
    match (state, input) {
        (ComposeState::Recipient, ComposeInput::Text(t)) => (
            ComposeState::Subject(t),
            ComposeAction::AskSubject,
        ),
        (ComposeState::Subject(to), ComposeInput::Text(s)) => (
            ComposeState::Body(to, s),
            ComposeAction::AskBody,
        ),
        (ComposeState::Body(to, s), ComposeInput::Text(b)) => {
            if b.as_str().is_empty() {
                (ComposeState::Done, ComposeAction::Cancel(CancelReason::EmptyBody))
            } else {
                let p = preview(&to, &s, &b);
                (ComposeState::Confirm(Draft { to, subject: s, body: b }), ComposeAction::ConfirmPreview(p))
            }
        },
        (ComposeState::Confirm(d), ComposeInput::Confirmed(yes)) => {
            if yes {
                (ComposeState::Done, ComposeAction::Send(d))
            } else {
                (ComposeState::Done, ComposeAction::Cancel(CancelReason::Declined))
            }
        },
        (ComposeState::Done, _) => (ComposeState::Done, ComposeAction::Ignore),
        (st, _) => (st, ComposeAction::Ignore),
    }
}

/// The columns a field of `n` characters takes when padded to `w`: never fewer than
/// its own characters.
pub open spec fn field_width(n: nat, w: nat) -> nat {
    if n >= w {
        n
    } else {
        w
    }
}

/// From `off` on, `r` holds `s` followed by spaces up to `width` characters.
pub open spec fn holds_padded(r: Seq<char>, off: int, s: Seq<char>, width: nat) -> bool {
    &&& 0 <= off
    &&& s.len() <= width
    &&& off + width <= r.len()
    &&& r.subrange(off, off + s.len()) == s
    &&& forall|k: int| off + s.len() <= k < off + width ==> #[trigger] r[k] == ' '
}

proof fn lemma_pad_right_shape(s: Seq<char>, w: nat)
    ensures
        holds_padded(pad_right(s, w), 0, s, field_width(s.len(), w)),
        pad_right(s, w).len() == field_width(s.len(), w),
{
    let p = pad_right(s, w);
    assert(p.subrange(0, s.len() as int) =~= s);
}

proof fn lemma_holds_padded_shift(a: Seq<char>, p: Seq<char>, b: Seq<char>, s: Seq<char>, width: nat)
    requires
        holds_padded(p, 0, s, width),
        p.len() == width,
    ensures
        holds_padded(a + p + b, a.len() as int, s, width),
{
    let r = a + p + b;
    assert(r.subrange(a.len() as int, a.len() + s.len() as int) =~= p.subrange(0, s.len() as int));
    assert forall|k: int| a.len() + s.len() <= k < a.len() + width implies #[trigger] r[k] == ' ' by {
        assert(r[k] == p[k - a.len()]);
    }
}

/// The listing line keeps every field whole: the UID right-aligned in at least 6
/// columns, the unread dot between two-space gaps, the sender and then the subject
/// each followed by spaces up to at least 32 and 48 columns (padding only adds
/// spaces, it never cuts), and the date at the end.
pub proof fn law_summary_line_fields(e: EmailSummary)
    ensures
        ({
            let r = summary_line_of(e);
            let u = decimal(e.uid as nat);
            let lu = field_width(u.len(), 6) as int;
            let lf = field_width(e.from@.len(), 32) as int;
            let ls = field_width(e.subject@.len(), 48) as int;
            &&& r.len() == lu + 5 + lf + 2 + ls + 2 + e.date@.len()
            &&& forall|k: int| 0 <= k < lu - u.len() ==> #[trigger] r[k] == ' '
            &&& r.subrange(lu - u.len(), lu) == u
            &&& r.subrange(lu, lu + 5) == seq![' ', ' '] + (if e.is_unread {
                seq!['●']
            } else {
                seq![' ']
            }) + seq![' ', ' ']
            &&& holds_padded(r, lu + 5, e.from@, lf as nat)
            &&& r.subrange(lu + 5 + lf, lu + 7 + lf) == seq![' ', ' ']
            &&& holds_padded(r, lu + 7 + lf, e.subject@, ls as nat)
            &&& r.subrange(lu + 7 + lf + ls, lu + 9 + lf + ls) == seq![' ', ' ']
            &&& r.subrange(lu + 9 + lf + ls, r.len() as int) == e.date@
        }),
{
    reveal_strlit("  ");
    reveal_strlit("●");
    reveal_strlit(" ");
    let r = summary_line_of(e);
    let u = decimal(e.uid as nat);
    let lu = field_width(u.len(), 6) as int;
    let lf = field_width(e.from@.len(), 32) as int;
    let ls = field_width(e.subject@.len(), 48) as int;
    let pl = pad_left(u, 6);
    let g: Seq<char> = seq![' ', ' '];
    assert("  "@ == g);
    let dot: Seq<char> = if e.is_unread {
        seq!['●']
    } else {
        seq![' ']
    };
    assert((if e.is_unread {
        "●"@
    } else {
        " "@
    }) == dot);
    let pf = pad_right(e.from@, 32);
    let ps = pad_right(e.subject@, 48);
    let d = e.date@;
    lemma_pad_right_shape(e.from@, 32);
    lemma_pad_right_shape(e.subject@, 48);
    assert(pl.len() == lu);
    let a1 = pl + g + dot + g;
    let a2 = a1 + pf + g;
    let a3 = a2 + ps + g;
    assert(r == a3 + d);
    assert(a1.len() == lu + 5);
    assert(a2.len() == lu + 7 + lf);
    assert(a3.len() == lu + 9 + lf + ls);
    assert forall|k: int| 0 <= k < lu - u.len() implies #[trigger] r[k] == ' ' by {
        assert(r[k] == pl[k]);
    }
    assert(r.subrange(lu - u.len(), lu) =~= pl.subrange(lu - u.len(), lu));
    assert(pl.subrange(lu - u.len(), lu) =~= u);
    assert(r.subrange(lu, lu + 5) =~= g + dot + g);
    lemma_holds_padded_shift(a1, pf, g + ps + g + d, e.from@, lf as nat);
    assert(a1 + pf + (g + ps + g + d) =~= r);
    assert(r.subrange(lu + 5 + lf, lu + 7 + lf) =~= g);
    lemma_holds_padded_shift(a2, ps, g + d, e.subject@, ls as nat);
    assert(a2 + ps + (g + d) =~= r);
    assert(r.subrange(lu + 7 + lf + ls, lu + 9 + lf + ls) =~= g);
    assert(r.subrange(lu + 9 + lf + ls, r.len() as int) =~= d);
}

/// A reply's subject is the original one prefixed with `Re: `, unless the original
/// already starts with `re:` in any ASCII case (`Re:`, `RE:`, …), which is kept as it is.
pub proof fn law_reply_subject_prefix(subject: Seq<char>)
    ensures
        (subject.len() >= 3 && (subject[0] == 'r' || subject[0] == 'R') && (subject[1] == 'e'
            || subject[1] == 'E') && subject[2] == ':') ==> reply_subject_of(subject) == subject,
        !(subject.len() >= 3 && (subject[0] == 'r' || subject[0] == 'R') && (subject[1] == 'e'
            || subject[1] == 'E') && subject[2] == ':') ==> reply_subject_of(subject) == seq![
            'R',
            'e',
            ':',
            ' ',
        ] + subject,
{
    reveal_strlit("re:");
    reveal_strlit("Re: ");
    if matches_at(subject, 0, "re:"@, true) {
        assert(crate::text::ascii_lower(subject[0int + 0]) == 'r');
        assert(crate::text::ascii_lower(subject[0int + 1]) == 'e');
        assert(crate::text::ascii_lower(subject[0int + 2]) == ':');
    } else {
        if subject.len() >= 3 && (subject[0] == 'r' || subject[0] == 'R') && (subject[1] == 'e'
            || subject[1] == 'E') && subject[2] == ':' {
            assert forall|k: int| 0 <= k < 3 implies crate::text::ascii_lower(#[trigger] subject[0 + k])
                == "re:"@[k] by {}
        }
        assert("Re: "@ == seq!['R', 'e', ':', ' ']);
    }
}

} // verus!
