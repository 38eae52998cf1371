//! Messages as the mail client shows them: list entries and full messages.
use vstd::prelude::*;
use crate::html::{html_text, html_to_text};
use crate::mime::{
    first_value, get_first_value, lemma_parts_view, opt_text, part_view, parse_headers,
    parse_message, parsed_header_block, parsed_message, HeaderField, MailPart, MailTree,
};
use crate::order::{insert_desc_by, sort_desc_by};
use crate::text::{chars_of, lossy_utf8, match_at, matches_at, utf8_lossy};

verus! {

/// One line of a message list.
#[derive(Debug)]
pub struct EmailSummary {
    pub uid: u32,
    pub from: String,
    pub subject: String,
    pub date: String,
    pub is_unread: bool,
}

/// A message read in full.
#[derive(Debug)]
pub struct ParsedEmail {
    pub from: String,
    pub to: String,
    pub subject: String,
    pub date: String,
    pub message_id: Option<String>,
    pub body: String,
}

/// `o`'s text, or `d` when there is none.
pub open spec fn text_or(o: Option<Seq<char>>, d: Seq<char>) -> Seq<char> {
    match o {
        Some(s) => s,
        None => d,
    }
}

fn string_or(o: Option<String>, d: &str) -> (r: String)
    ensures
        r@ == text_or(opt_text(o), d@),
{
    match o {
        Some(s) => s,
        None => d.to_owned(),
    }
}

// ---------------------------------------------------------------------------
// Choosing the body to show
// ---------------------------------------------------------------------------

/// The part's MIME type starts with `ty`.
pub open spec fn has_type(t: MailTree, ty: Seq<char>) -> bool {
    matches_at(t.mimetype, 0, ty, false)
}

/// The text of an HTML part: its undecoded-charset body read as UTF-8 and turned into
/// plain text; nothing when the body cannot be decoded or is empty.
pub open spec fn html_body(t: MailTree) -> Option<Seq<char>> {
    match t.body_raw {
        Some(raw) => if raw.len() == 0 {
            None
        } else {
            Some(html_text(lossy_utf8(raw)))
        },
        None => None,
    }
}

/// The first of `ts[i..]` that is `text/plain` with a decodable, non-empty body.
pub open spec fn first_plain_body(ts: Seq<MailTree>, i: int) -> Option<Seq<char>>
    decreases ts.len() - i,
{
    if i < 0 || i >= ts.len() {
        None
    } else if has_type(ts[i], "text/plain"@) && (ts[i].body matches Some(b) && b.len() > 0) {
        ts[i].body
    } else {
        first_plain_body(ts, i + 1)
    }
}

/// The first of `ts[i..]` that is `text/html` with a non-empty text.
pub open spec fn first_html_body(ts: Seq<MailTree>, i: int) -> Option<Seq<char>>
    decreases ts.len() - i,
{
    if i < 0 || i >= ts.len() {
        None
    } else if has_type(ts[i], "text/html"@) && (html_body(ts[i]) matches Some(h) && h.len() > 0) {
        html_body(ts[i])
    } else {
        first_html_body(ts, i + 1)
    }
}

/// The first non-empty body text among `ts[i..]`.
pub open spec fn first_nested_body(ts: Seq<MailTree>, i: int) -> Option<Seq<char>>
    decreases ts, ts.len() - i,
{
    if i < 0 || i >= ts.len() {
        None
    } else if body_text(ts[i]).len() > 0 {
        Some(body_text(ts[i]))
    } else {
        first_nested_body(ts, i + 1)
    }
}

/// The text to show for a message: a single part's own text (plain, or HTML turned
/// into text); for a multipart message the first non-empty plain-text sub-part, else
/// the first non-empty text of a sub-part read recursively, else the first non-empty
/// HTML sub-part; empty when there is none.
pub open spec fn body_text(t: MailTree) -> Seq<char>
    decreases t, 0int,
{
    if t.subparts.len() == 0 {
        if has_type(t, "text/plain"@) {
            text_or(t.body, seq![])
        } else if has_type(t, "text/html"@) {
            text_or(html_body(t), seq![])
        } else {
            seq![]
        }
    } else {
        match first_plain_body(t.subparts, 0) {
            Some(b) => b,
            None => match first_nested_body(t.subparts, 0) {
                Some(b) => b,
                None => text_or(first_html_body(t.subparts, 0), seq![]),
            },
        }
    }
}

fn is_type(p: &MailPart, ty: &str) -> (r: bool)
    ensures
        r == has_type(part_view(*p), ty@),
{
    let m = chars_of(p.mimetype.as_str());
    let t = chars_of(ty);
    match_at(&m, 0, &t, false)
}

/// The text of an HTML part (see `html_body`).
pub fn get_html_body(part: &MailPart) -> (r: Option<String>)
    ensures
        opt_text(r) == html_body(part_view(*part)),
{
    match &part.body_raw {
        Some(raw) => {
            if raw.len() == 0 {
                None
            } else {
                let text = utf8_lossy(raw);
                Some(html_to_text(text.as_str()))
            }
        },
        None => None,
    }
}

/// The text to show for a message (see `body_text`).
pub fn extract_body(mail: &MailPart) -> (r: String)
    ensures
        r@ == body_text(part_view(*mail)),
    decreases mail,
{
    let ghost t = part_view(*mail);
    proof {
        lemma_parts_view(mail.subparts@, 0);
    }
    let n = mail.subparts.len();
    if n == 0 {
        if is_type(mail, "text/plain") {
            return match &mail.body {
                Some(b) => b.clone(),
                None => String::new(),
            };
        }
        if is_type(mail, "text/html") {
            return match get_html_body(mail) {
                Some(h) => h,
                None => String::new(),
            };
        }
        return String::new();
    }
    let mut i: usize = 0;
    while i < n
        invariant
            n == mail.subparts@.len(),
            t == part_view(*mail),
            t.subparts.len() == n,
            forall|k: int| 0 <= k < n ==> #[trigger] t.subparts[k] == part_view(mail.subparts@[k]),
            i <= n,
            first_plain_body(t.subparts, 0) == first_plain_body(t.subparts, i as int),
        decreases n - i,
    {
        let part = &mail.subparts[i];
        if is_type(part, "text/plain") {
            match &part.body {
                Some(b) => {
                    if !b.as_str().is_empty() {
                        return b.clone();
                    }
                },
                None => {},
            }
        }
        i = i + 1;
    }
    let mut i: usize = 0;
    while i < n
        invariant
            n == mail.subparts@.len(),
            t == part_view(*mail),
            t.subparts.len() == n,
            forall|k: int| 0 <= k < n ==> #[trigger] t.subparts[k] == part_view(mail.subparts@[k]),
            i <= n,
            first_plain_body(t.subparts, 0) is None,
            first_nested_body(t.subparts, 0) == first_nested_body(t.subparts, i as int),
        decreases n - i,
    {
        let part = &mail.subparts[i];
        assert(decreases_to!(mail => mail.subparts));
        let body = extract_body(part);
        if !body.as_str().is_empty() {
            return body;
        }
        i = i + 1;
    }
    let mut i: usize = 0;
    while i < n
        invariant
            n == mail.subparts@.len(),
            t == part_view(*mail),
            t.subparts.len() == n,
            forall|k: int| 0 <= k < n ==> #[trigger] t.subparts[k] == part_view(mail.subparts@[k]),
            i <= n,
            first_plain_body(t.subparts, 0) is None,
            first_nested_body(t.subparts, 0) is None,
            first_html_body(t.subparts, 0) == first_html_body(t.subparts, i as int),
        decreases n - i,
    {
        let part = &mail.subparts[i];
        if is_type(part, "text/html") {
            match get_html_body(part) {
                Some(h) => {
                    if !h.as_str().is_empty() {
                        return h;
                    }
                },
                None => {},
            }
        }
        i = i + 1;
    }
    String::new()
}


// ---------------------------------------------------------------------------
// Full messages
// ---------------------------------------------------------------------------

/// The model of a `ParsedEmail`.
pub struct EmailView {
    pub from: Seq<char>,
    pub to: Seq<char>,
    pub subject: Seq<char>,
    pub date: Seq<char>,
    pub message_id: Option<Seq<char>>,
    pub body: Seq<char>,
}

impl View for ParsedEmail {
    type V = EmailView;

    open spec fn view(&self) -> EmailView {
        EmailView {
            from: self.from@,
            to: self.to@,
            subject: self.subject@,
            date: self.date@,
            message_id: opt_text(self.message_id),
            body: self.body@,
        }
    }
}

/// The subject shown for a message that has none.
pub open spec fn no_subject() -> Seq<char> {
    "(无主题)"@
}

/// What the client shows of a parsed message: the first `From`, `To`, `Subject`,
/// `Date` and `Message-ID` headers (empty, or the no-subject text, when missing) and
/// the body text chosen by `body_text`.
pub open spec fn email_view(t: MailTree) -> EmailView {
    EmailView {
        from: text_or(first_value(t.headers, "From"@), seq![]),
        to: text_or(first_value(t.headers, "To"@), seq![]),
        subject: text_or(first_value(t.headers, "Subject"@), no_subject()),
        date: text_or(first_value(t.headers, "Date"@), seq![]),
        message_id: first_value(t.headers, "Message-ID"@),
        body: body_text(t),
    }
}

fn value_or_empty(o: Option<String>) -> (r: String)
    ensures
        r@ == text_or(opt_text(o), seq![]),
{
    match o {
        Some(s) => s,
        None => String::new(),
    }
}

impl ParsedEmail {
    /// The message as the client shows it (see `email_view`).
    pub fn from_parsed(mail: &MailPart) -> (r: ParsedEmail)
        ensures
            r@ == email_view(part_view(*mail)),
    {
        let from = value_or_empty(get_first_value(&mail.headers, "From"));
        let to = value_or_empty(get_first_value(&mail.headers, "To"));
        let subject = string_or(get_first_value(&mail.headers, "Subject"), "(无主题)");
        let date = value_or_empty(get_first_value(&mail.headers, "Date"));
        let message_id = get_first_value(&mail.headers, "Message-ID");
        let body = extract_body(mail);
        ParsedEmail { from, to, subject, date, message_id, body }
    }

    /// Parses a raw message and takes what the client shows of it; `None` when the
    /// message cannot be parsed.
    pub fn from_raw(raw: &[u8]) -> (r: Option<ParsedEmail>)
        ensures
            match parsed_message(raw@) {
                Some(t) => r matches Some(e) && e@ == email_view(t),
                None => r is None,
            },
    {
        match parse_message(raw) {
            Some(mail) => Some(ParsedEmail::from_parsed(&mail)),
            None => None,
        }
    }
}

// ---------------------------------------------------------------------------
// List entries
// ---------------------------------------------------------------------------

/// The model of an `EmailSummary`.
pub struct SummaryView {
    pub uid: u32,
    pub from: Seq<char>,
    pub subject: Seq<char>,
    pub date: Seq<char>,
    pub is_unread: bool,
}

impl View for EmailSummary {
    type V = SummaryView;

    open spec fn view(&self) -> SummaryView {
        SummaryView {
            uid: self.uid,
            from: self.from@,
            subject: self.subject@,
            date: self.date@,
            is_unread: self.is_unread,
        }
    }
}

/// The list entry for a message with the given UID, header lines and seen flag.
pub open spec fn summary_view(uid: u32, headers: Seq<HeaderField>, seen: bool) -> SummaryView {
    SummaryView {
        uid: uid,
        from: text_or(first_value(headers, "From"@), "Unknown"@),
        subject: text_or(first_value(headers, "Subject"@), no_subject()),
        date: text_or(first_value(headers, "Date"@), seq![]),
        is_unread: !seen,
    }
}

/// The list entry of a fetched message: none without a UID, without a header block,
/// or when the header block cannot be parsed.
pub open spec fn summary_of(uid: Option<u32>, header: Option<Seq<u8>>, seen: bool) -> Option<
    SummaryView,
> {
    match (uid, header) {
        (Some(u), Some(raw)) => match parsed_header_block(raw) {
            Some(hs) => Some(summary_view(u, hs, seen)),
            None => None,
        },
        _ => None,
    }
}

pub open spec fn opt_slice(o: Option<&[u8]>) -> Option<Seq<u8>> {
    match o {
        Some(s) => Some(s@),
        None => None,
    }
}

/// The list entry of a fetched message (see `summary_of`).
pub fn parse_summary(uid: Option<u32>, header: Option<&[u8]>, seen: bool) -> (r: Option<
    EmailSummary,
>)
    ensures
        match summary_of(uid, opt_slice(header), seen) {
            Some(v) => r matches Some(e) && e@ == v,
            None => r is None,
        },
{
    let uid = match uid {
        Some(u) => u,
        None => {
            return None;
        },
    };
    let raw = match header {
        Some(h) => h,
        None => {
            return None;
        },
    };
    let headers = match parse_headers(raw) {
        Some(hs) => hs,
        None => {
            return None;
        },
    };
    let from = string_or(get_first_value(&headers, "From"), "Unknown");
    let subject = string_or(get_first_value(&headers, "Subject"), "(无主题)");
    let date = value_or_empty(get_first_value(&headers, "Date"));
    Some(EmailSummary { uid, from, subject, date, is_unread: !seen })
}


// ---------------------------------------------------------------------------
// Newest first
// ---------------------------------------------------------------------------

pub open spec fn summary_views(s: Seq<EmailSummary>) -> Seq<SummaryView> {
    s.map_values(|e: EmailSummary| e@)
}

/// An entry's UID, the key by which lists are ordered.
pub open spec fn by_uid() -> spec_fn(SummaryView) -> int {
    |v: SummaryView| v.uid as int
}

/// `s` ordered by UID, highest first, entries with equal UIDs kept in their order
/// (the stable sort that `sort_by` performs).
pub open spec fn sort_by_uid_desc(s: Seq<SummaryView>) -> Seq<SummaryView> {
    sort_desc_by(s, by_uid())
}

/// Orders entries by UID, highest first, keeping the order of equal UIDs.
pub fn sort_newest_first(v: Vec<EmailSummary>) -> (r: Vec<EmailSummary>)
    ensures
        summary_views(r@) == sort_by_uid_desc(summary_views(v@)),
{
    let ghost orig = summary_views(v@);
    let ghost n = v@.len();
    let mut rest = v;
    let mut out: Vec<EmailSummary> = Vec::new();
    let ghost mut i: int = 0;
    assert(orig.take(0) == Seq::<SummaryView>::empty());
    while rest.len() > 0
        invariant
            0 <= i <= n,
            orig.len() == n,
            rest@.len() == n - i,
            summary_views(rest@) == orig.skip(i),
            summary_views(out@) == sort_by_uid_desc(orig.take(i)),
        decreases rest.len(),
    {
        let ghost old_rest = rest@;
        let x = rest.remove(0);
        let ghost xv = x@;
        assert(summary_views(old_rest)[0] == old_rest[0]@);
        assert(orig.skip(i)[0] == orig[i]);
        assert(xv == orig[i]);
        assert(summary_views(rest@) =~= summary_views(old_rest).skip(1));
        assert(orig.skip(i).skip(1) =~= orig.skip(i + 1));
        assert(summary_views(rest@) == orig.skip(i + 1));
        let ghost before = summary_views(out@);
        assert(orig.take(i + 1).drop_last() == orig.take(i));
        assert(sort_by_uid_desc(orig.take(i + 1)) == insert_desc_by(before, xv, by_uid()));
        let mut j: usize = out.len();
        assert(before.take(j as int) == before);
        assert(before.skip(j as int) == Seq::<SummaryView>::empty());
        while j > 0 && out[j - 1].uid < x.uid
            invariant
                j <= out@.len(),
                before == summary_views(out@),
                xv == x@,
                insert_desc_by(before, xv, by_uid()) == insert_desc_by(before.take(j as int), xv, by_uid())
                    + before.skip(j as int),
            decreases j,
        {
            assert(before.take(j as int).drop_last() == before.take(j - 1));
            assert(before.take(j as int).last() == before[j - 1]);
            assert(before.skip(j - 1) == seq![before[j - 1]] + before.skip(j as int));
            j = j - 1;
        }
        out.insert(j, x);
        assert(summary_views(out@) =~= before.take(j as int).push(xv) + before.skip(j as int));
        proof {
            i = i + 1;
        }
    }
    assert(orig.take(n as int) == orig);
    out
}

/// A message as the server hands it out for a list: its UID and header block when
/// present, and whether it carries the seen flag.
pub struct FetchedHeader {
    pub uid: Option<u32>,
    pub header: Option<Vec<u8>>,
    pub seen: bool,
}

pub open spec fn opt_vec(o: Option<Vec<u8>>) -> Option<Seq<u8>> {
    match o {
        Some(v) => Some(v@),
        None => None,
    }
}

/// The list entries of the fetched messages that have one, in fetch order.
pub open spec fn fetched_summaries(fs: Seq<FetchedHeader>) -> Seq<SummaryView>
    decreases fs.len(),
{
    if fs.len() == 0 {
        seq![]
    } else {
        let rest = fetched_summaries(fs.drop_last());
        let f = fs.last();
        match summary_of(f.uid, opt_vec(f.header), f.seen) {
            Some(v) => rest.push(v),
            None => rest,
        }
    }
}

/// The list entries of fetched messages, newest first.
pub fn summaries_newest_first(fetched: &Vec<FetchedHeader>) -> (r: Vec<EmailSummary>)
    ensures
        summary_views(r@) == sort_by_uid_desc(fetched_summaries(fetched@)),
{
    let mut out: Vec<EmailSummary> = Vec::new();
    let mut i: usize = 0;
    assert(fetched@.take(0) == Seq::<FetchedHeader>::empty());
    while i < fetched.len()
        invariant
            i <= fetched@.len(),
            summary_views(out@) == fetched_summaries(fetched@.take(i as int)),
        decreases fetched.len() - i,
    {
        let f = &fetched[i];
        let header: Option<&[u8]> = match &f.header {
            Some(h) => Some(h.as_slice()),
            None => None,
        };
        assert(opt_slice(header) == opt_vec(f.header));
        assert(fetched@.take(i + 1).drop_last() == fetched@.take(i as int));
        let ghost before = summary_views(out@);
        match parse_summary(f.uid, header, f.seen) {
            Some(e) => {
                out.push(e);
                assert(summary_views(out@) =~= before.push(e@));
            },
            None => {},
        }
        i = i + 1;
    }
    assert(fetched@.take(fetched@.len() as int) == fetched@);
    sort_newest_first(out)
}


// ---------------------------------------------------------------------------
// Laws
// ---------------------------------------------------------------------------

/// A sub-part that is `text/plain` with a non-empty body.
pub open spec fn plain_with_text(t: MailTree) -> bool {
    has_type(t, "text/plain"@) && (t.body matches Some(b) && b.len() > 0)
}

proof fn lemma_first_plain_at(ts: Seq<MailTree>, i: int, k: int)
    requires
        0 <= i <= k < ts.len(),
        plain_with_text(ts[k]),
        forall|j: int| i <= j < k ==> !plain_with_text(#[trigger] ts[j]),
    ensures
        first_plain_body(ts, i) == ts[k].body,
    decreases k - i,
{
    if i < k {
        lemma_first_plain_at(ts, i + 1, k);
    }
}

/// A multipart message shows the body of its first sub-part that is `text/plain`
/// with a non-empty body, whatever follows it (attachments, list footers).
pub proof fn law_first_plain_part_shown(t: MailTree, k: int)
    requires
        0 <= k < t.subparts.len(),
        plain_with_text(t.subparts[k]),
        forall|j: int| 0 <= j < k ==> !plain_with_text(#[trigger] t.subparts[j]),
    ensures
        t.subparts[k].body matches Some(b) && body_text(t) == b,
{
    lemma_first_plain_at(t.subparts, 0, k);
}

proof fn lemma_no_plain(ts: Seq<MailTree>, i: int)
    requires
        0 <= i,
        forall|j: int| i <= j < ts.len() ==> !plain_with_text(#[trigger] ts[j]),
    ensures
        first_plain_body(ts, i) is None,
    decreases ts.len() - i,
{
    if i < ts.len() {
        lemma_no_plain(ts, i + 1);
    }
}

proof fn lemma_first_nested_at(ts: Seq<MailTree>, i: int, k: int)
    requires
        0 <= i <= k < ts.len(),
        body_text(ts[k]).len() > 0,
        forall|j: int| i <= j < k ==> (#[trigger] body_text(ts[j])).len() == 0,
    ensures
        first_nested_body(ts, i) == Some(body_text(ts[k])),
    decreases k - i,
{
    if i < k {
        assert(body_text(ts[i]).len() == 0);
        lemma_first_nested_at(ts, i + 1, k);
        assert(first_nested_body(ts, i) == first_nested_body(ts, i + 1));
    } else {
        assert(first_nested_body(ts, i) == Some(body_text(ts[i])));
    }
}

/// Without a non-empty plain-text sub-part, a multipart message shows the first
/// sub-part whose own text (read the same way, recursively) is not empty.
pub proof fn law_first_text_part_shown(t: MailTree, k: int)
    requires
        0 <= k < t.subparts.len(),
        forall|j: int| 0 <= j < t.subparts.len() ==> !plain_with_text(#[trigger] t.subparts[j]),
        body_text(t.subparts[k]).len() > 0,
        forall|j: int| 0 <= j < k ==> (#[trigger] body_text(t.subparts[j])).len() == 0,
    ensures
        body_text(t) == body_text(t.subparts[k]),
{
    lemma_no_plain(t.subparts, 0);
    lemma_first_nested_at(t.subparts, 0, k);
}

/// A message of one part shows its text when it is `text/plain`, and its non-empty
/// HTML turned into text when it is `text/html`; nothing otherwise.
pub proof fn law_single_part_shown(t: MailTree)
    requires
        t.subparts.len() == 0,
    ensures
        has_type(t, "text/plain"@) ==> body_text(t) == match t.body {
            Some(b) => b,
            None => seq![],
        },
        !has_type(t, "text/plain"@) && has_type(t, "text/html"@) ==> body_text(t) == match t.body_raw {
            Some(raw) => if raw.len() > 0 {
                html_text(lossy_utf8(raw))
            } else {
                seq![]
            },
            None => seq![],
        },
        !has_type(t, "text/plain"@) && !has_type(t, "text/html"@) ==> body_text(t) == Seq::<char>::empty(),
{
}

} // verus!
