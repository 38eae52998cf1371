//! Composing outgoing mail with lettre.
use vstd::prelude::*;
use crate::mime::opt_text;
use lettre::message::header::ContentType;
use lettre::message::{Mailbox, MessageBuilder};
use lettre::Message;

verus! {

#[verifier::external_type_specification]
#[verifier::external_body]
pub struct ExMessage(Message);

#[verifier::external_type_specification]
#[verifier::external_body]
pub struct ExMessageBuilder(MessageBuilder);

#[verifier::external_type_specification]
#[verifier::external_body]
pub struct ExMailbox(Mailbox);

#[verifier::external_type_specification]
#[verifier::external_body]
pub struct ExContentType(ContentType);

/// Whether lettre reads `s` as a mailbox (`Name <user@domain>` or `user@domain`):
/// a name for the success of lettre's `Mailbox::from_str`.
pub uninterp spec fn mailbox_parses(s: Seq<char>) -> bool;

/// Why a message could not be built.
pub enum ComposeError {
    /// The sender's address is not a valid mailbox.
    InvalidFrom,
    /// The recipient is not a valid mailbox.
    InvalidTo,
    /// lettre refused to build the message (it does not, once both addresses are valid).
    Rejected,
}

/// Everything an outgoing plain-text message is made of.
pub struct OutgoingMail {
    pub from: String,
    pub to: String,
    pub subject: String,
    pub body: String,
    /// The `Message-ID` of the message answered, for `In-Reply-To`.
    pub in_reply_to: Option<String>,
    /// The `Message-ID`s this message follows up, for `References`.
    pub references: Option<String>,
}

pub open spec fn opt_str(o: Option<&str>) -> Option<Seq<char>> {
    match o {
        Some(s) => Some(s@),
        None => None,
    }
}

fn owned(o: Option<&str>) -> (r: Option<String>)
    ensures
        opt_text(r) == opt_str(o),
{
    match o {
        Some(s) => Some(s.to_owned()),
        None => None,
    }
}

/// The message to send from `from` to `to`: the given subject and body, and for a
/// reply the answered message's ID as both `In-Reply-To` and `References`.
pub fn outgoing(from: &str, to: &str, subject: &str, body: &str, in_reply_to: Option<&str>) -> (m:
    OutgoingMail)
    ensures
        m.from@ == from@,
        m.to@ == to@,
        m.subject@ == subject@,
        m.body@ == body@,
        opt_text(m.in_reply_to) == opt_str(in_reply_to),
        opt_text(m.references) == opt_str(in_reply_to),
{
    OutgoingMail {
        from: from.to_owned(),
        to: to.to_owned(),
        subject: subject.to_owned(),
        body: body.to_owned(),
        in_reply_to: owned(in_reply_to),
        references: owned(in_reply_to),
    }
}

/// lettre's `Mailbox::from_str`: the mailbox `s` names, exactly when it names one.
#[verifier::external_body]
fn parse_mailbox(s: &str) -> (r: Option<Mailbox>)
    ensures
        (r is Some) == mailbox_parses(s@),
{
    s.parse::<Mailbox>().ok()
}

/// lettre's `ContentType::parse` (MIME type syntax); nothing is stated of it.
#[verifier::external_body]
fn parse_content_type(s: &str) -> Option<ContentType> {
    ContentType::parse(s).ok()
}

/// lettre's `Message::builder()`: a builder with no header yet.
#[verifier::external_body]
fn message_builder() -> MessageBuilder {
    Message::builder()
}

/// lettre's `MessageBuilder::from`.
#[verifier::external_body]
fn with_from(b: MessageBuilder, mbox: Mailbox) -> MessageBuilder {
    b.from(mbox)
}

/// lettre's `MessageBuilder::to`.
#[verifier::external_body]
fn with_to(b: MessageBuilder, mbox: Mailbox) -> MessageBuilder {
    b.to(mbox)
}

/// lettre's `MessageBuilder::subject`.
#[verifier::external_body]
fn with_subject(b: MessageBuilder, subject: &str) -> MessageBuilder {
    b.subject(subject)
}

/// lettre's `MessageBuilder::header`, with a `Content-Type` header.
#[verifier::external_body]
fn with_content_type(b: MessageBuilder, ct: ContentType) -> MessageBuilder {
    b.header(ct)
}

/// lettre's `MessageBuilder::in_reply_to`.
#[verifier::external_body]
fn with_in_reply_to(b: MessageBuilder, id: &str) -> MessageBuilder {
    b.in_reply_to(id.to_owned())
}

/// lettre's `MessageBuilder::references`.
#[verifier::external_body]
fn with_references(b: MessageBuilder, id: &str) -> MessageBuilder {
    b.references(id.to_owned())
}

/// lettre's `MessageBuilder::body`, which adds the `Date` and builds the message;
/// `None` where lettre refuses (it does so only without `From` or `To`, which the
/// opaque builder does not let a contract see).
#[verifier::external_body]
fn with_body(b: MessageBuilder, body: &str) -> Option<Message> {
    b.body(body.to_owned()).ok()
}

/// The message to send from `from` to `to`, described by `outgoing`, once both
/// addresses are mailboxes lettre accepts; otherwise the first invalid address,
/// the sender's first.
pub fn build_message(
    from: &str,
    to: &str,
    subject: &str,
    body: &str,
    in_reply_to: Option<&str>,
) -> (r: Result<OutgoingMail, ComposeError>)
    ensures
        r is Ok <==> mailbox_parses(from@) && mailbox_parses(to@),
        r matches Ok(m) ==> m.from@ == from@ && m.to@ == to@ && m.subject@ == subject@ && m.body@
            == body@ && opt_text(m.in_reply_to) == opt_str(in_reply_to) && opt_text(m.references)
            == opt_str(in_reply_to),
        r matches Err(ComposeError::InvalidFrom) <==> !mailbox_parses(from@),
        r matches Err(ComposeError::InvalidTo) <==> mailbox_parses(from@) && !mailbox_parses(to@),
{
    if parse_mailbox(from).is_none() {
        return Err(ComposeError::InvalidFrom);
    }
    if parse_mailbox(to).is_none() {
        return Err(ComposeError::InvalidTo);
    }
    Ok(outgoing(from, to, subject, body, in_reply_to))
}

/// The lettre message for `m`: `From`, `To`, `Subject`, a `text/plain; charset=utf-8`
/// content type, `In-Reply-To` and `References` when `m` has them, and the body.
/// An address that is not a mailbox is reported, the sender's first; a message
/// comes out only when both are mailboxes.
pub fn to_message(m: &OutgoingMail) -> (r: Result<Message, ComposeError>)
    ensures
        r matches Err(ComposeError::InvalidFrom) <==> !mailbox_parses(m.from@),
        r matches Err(ComposeError::InvalidTo) <==> mailbox_parses(m.from@) && !mailbox_parses(
            m.to@,
        ),
        r is Ok ==> mailbox_parses(m.from@) && mailbox_parses(m.to@),
{
    let from = match parse_mailbox(m.from.as_str()) {
        Some(a) => a,
        None => return Err(ComposeError::InvalidFrom),
    };
    let to = match parse_mailbox(m.to.as_str()) {
        Some(a) => a,
        None => return Err(ComposeError::InvalidTo),
    };
    let ct = match parse_content_type("text/plain; charset=utf-8") {
        Some(c) => c,
        None => return Err(ComposeError::Rejected),
    };
    let mut b = message_builder();
    b = with_from(b, from);
    b = with_to(b, to);
    b = with_subject(b, m.subject.as_str());
    b = with_content_type(b, ct);
    match &m.in_reply_to {
        Some(id) => {
            b = with_in_reply_to(b, id.as_str());
        },
        None => {},
    }
    match &m.references {
        Some(id) => {
            b = with_references(b, id.as_str());
        },
        None => {},
    }
    match with_body(b, m.body.as_str()) {
        Some(msg) => Ok(msg),
        None => Err(ComposeError::Rejected),
    }
}

/// How the SMTP connection is secured.
pub enum SmtpSecurity {
    /// TLS from the first byte (SMTPS).
    ImplicitTls,
    /// A plain connection upgraded with STARTTLS.
    StartTls,
}

/// Port 465 speaks TLS from the start; any other port is upgraded with STARTTLS.
pub fn smtp_security(port: u16) -> (r: SmtpSecurity)
    ensures
        r is ImplicitTls <==> port == 465,
{
    if port == 465 {
        SmtpSecurity::ImplicitTls
    } else {
        SmtpSecurity::StartTls
    }
}

} // verus!
