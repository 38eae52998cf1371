//! The parsed structure of a MIME message, as mailparse reads it from raw bytes.
use vstd::prelude::*;
use crate::text::{ascii_lower, chars_of, lower_ascii_char};

verus! {

/// One header line: its name and its decoded value.
pub struct HeaderField {
    pub key: String,
    pub value: String,
}

/// One part of a parsed message as mailparse's depth-first walk hands it out:
/// its headers, its MIME type, its body decoded to text and to bytes (each absent
/// when mailparse could not decode it), and how many sub-parts it has.
pub struct MailNode {
    pub headers: Vec<HeaderField>,
    pub mimetype: String,
    pub body: Option<String>,
    pub body_raw: Option<Vec<u8>>,
    pub subpart_count: usize,
}

/// A message or one of its parts, with its sub-parts.
pub struct MailPart {
    pub headers: Vec<HeaderField>,
    pub mimetype: String,
    pub body: Option<String>,
    pub body_raw: Option<Vec<u8>>,
    pub subparts: Vec<MailPart>,
}

/// The mathematical model of a `MailPart`.
pub struct MailTree {
    pub headers: Seq<HeaderField>,
    pub mimetype: Seq<char>,
    pub body: Option<Seq<char>>,
    pub body_raw: Option<Seq<u8>>,
    pub subparts: Seq<MailTree>,
}

pub open spec fn opt_text(o: Option<String>) -> Option<Seq<char>> {
    match o {
        Some(s) => Some(s@),
        None => None,
    }
}

pub open spec fn opt_bytes(o: Option<Vec<u8>>) -> Option<Seq<u8>> {
    match o {
        Some(v) => Some(v@),
        None => None,
    }
}

/// The model of a part.
pub open spec fn part_view(p: MailPart) -> MailTree
    decreases p, 0int,
{
    MailTree {
        headers: p.headers@,
        mimetype: p.mimetype@,
        body: opt_text(p.body),
        body_raw: opt_bytes(p.body_raw),
        subparts: parts_view(p.subparts@, 0),
    }
}

/// The models of `ps[i..]`.
pub open spec fn parts_view(ps: Seq<MailPart>, i: int) -> Seq<MailTree>
    decreases ps, ps.len() - i,
{
    if i < 0 || i >= ps.len() {
        seq![]
    } else {
        seq![part_view(ps[i])] + parts_view(ps, i + 1)
    }
}

pub proof fn lemma_parts_view(ps: Seq<MailPart>, i: int)
    requires
        0 <= i <= ps.len(),
    ensures
        parts_view(ps, i).len() == ps.len() - i,
        forall|k: int|
            0 <= k < ps.len() - i ==> #[trigger] parts_view(ps, i)[k] == part_view(ps[i + k]),
    decreases ps.len() - i,
{
    if i < ps.len() {
        lemma_parts_view(ps, i + 1);
        assert forall|k: int| 0 <= k < ps.len() - i implies #[trigger] parts_view(ps, i)[k]
            == part_view(ps[i + k]) by {
            if k > 0 {
                assert(parts_view(ps, i)[k] == parts_view(ps, i + 1)[k - 1]);
            }
        }
    }
}

/// The tree that the depth-first list `nodes` describes from index `i` on, with the
/// index just past it.
pub open spec fn decode_tree(nodes: Seq<MailNode>, i: int) -> Option<(MailTree, int)>
    decreases nodes.len() - i, 0int,
{
    if i < 0 || i >= nodes.len() {
        None
    } else {
        let n = nodes[i];
        match decode_forest(nodes, i + 1, n.subpart_count as int) {
            Some((kids, j)) => Some(
                (
                    MailTree {
                        headers: n.headers@,
                        mimetype: n.mimetype@,
                        body: opt_text(n.body),
                        body_raw: opt_bytes(n.body_raw),
                        subparts: kids,
                    },
                    j,
                ),
            ),
            None => None,
        }
    }
}

/// `k` consecutive trees of the depth-first list `nodes` from index `i` on, with the
/// index just past them.
pub open spec fn decode_forest(nodes: Seq<MailNode>, i: int, k: int) -> Option<(Seq<MailTree>, int)>
    decreases nodes.len() - i, k,
{
    if k <= 0 {
        Some((seq![], i))
    } else if i < 0 || i >= nodes.len() {
        None
    } else {
        match decode_tree(nodes, i) {
            Some((t, j)) => if j <= i || j > nodes.len() {
                None
            } else {
                match decode_forest(nodes, j, k - 1) {
                    Some((ts, l)) => Some((seq![t] + ts, l)),
                    None => None,
                }
            },
            None => None,
        }
    }
}


pub proof fn lemma_decode_bounds(nodes: Seq<MailNode>, i: int, k: int)
    requires
        0 <= i <= nodes.len(),
    ensures
        decode_tree(nodes, i) matches Some((t, j)) ==> i < j <= nodes.len(),
        decode_forest(nodes, i, k) matches Some((ts, l)) ==> i <= l <= nodes.len(),
    decreases nodes.len() - i, k,
{
    if i < nodes.len() {
        lemma_decode_bounds(nodes, i + 1, nodes[i].subpart_count as int);
    }
    if k > 0 && i < nodes.len() {
        lemma_decode_bounds(nodes, i, 0);
        if let Some((t, j)) = decode_tree(nodes, i) {
            if i < j <= nodes.len() {
                lemma_decode_bounds(nodes, j, k - 1);
            }
        }
    }
}

fn decode_tree_exec(
    nodes: &mut Vec<MailNode>,
    Ghost(orig): Ghost<Seq<MailNode>>,
    Ghost(i): Ghost<int>,
) -> (r: Option<MailPart>)
    requires
        0 <= i <= orig.len(),
        old(nodes)@ == orig.skip(i),
    ensures
        match decode_tree(orig, i) {
            Some((t, j)) => r matches Some(p) && part_view(p) == t && final(nodes)@ == orig.skip(
                j,
            ),
            None => r is None,
        },
    decreases orig.len() - i, 0int,
{
    if nodes.len() == 0 {
        return None;
    }
    let n = nodes.remove(0);
    assert(orig.skip(i).remove(0) == orig.skip(i + 1));
    assert(n == orig[i]);
    let kids = match decode_forest_exec(nodes, Ghost(orig), Ghost(i + 1), n.subpart_count) {
        Some(kids) => kids,
        None => {
            return None;
        },
    };
    let p = MailPart {
        headers: n.headers,
        mimetype: n.mimetype,
        body: n.body,
        body_raw: n.body_raw,
        subparts: kids,
    };
    Some(p)
}

fn decode_forest_exec(
    nodes: &mut Vec<MailNode>,
    Ghost(orig): Ghost<Seq<MailNode>>,
    Ghost(i): Ghost<int>,
    k: usize,
) -> (r: Option<Vec<MailPart>>)
    requires
        0 <= i <= orig.len(),
        old(nodes)@ == orig.skip(i),
    ensures
        match decode_forest(orig, i, k as int) {
            Some((ts, j)) => r matches Some(v) && parts_view(v@, 0) == ts && final(nodes)@
                == orig.skip(j),
            None => r is None,
        },
    decreases orig.len() - i, k,
{
    if k == 0 {
        let v: Vec<MailPart> = Vec::new();
        assert(parts_view(v@, 0) == Seq::<MailTree>::empty());
        return Some(v);
    }
    if nodes.len() == 0 {
        return None;
    }
    proof {
        lemma_decode_bounds(orig, i, 0);
    }
    let t = match decode_tree_exec(nodes, Ghost(orig), Ghost(i)) {
        Some(t) => t,
        None => {
            return None;
        },
    };
    let ghost j = decode_tree(orig, i).unwrap().1;
    let mut rest = match decode_forest_exec(nodes, Ghost(orig), Ghost(j), k - 1) {
        Some(rest) => rest,
        None => {
            return None;
        },
    };
    let ghost old_rest = rest@;
    rest.insert(0, t);
    proof {
        lemma_parts_view(rest@, 0);
        lemma_parts_view(old_rest, 0);
        let ts = decode_forest(orig, j, k - 1).unwrap().0;
        assert(parts_view(rest@, 0) =~= seq![part_view(t)] + ts);
    }
    Some(rest)
}

/// The part that the depth-first list `nodes` describes, when it describes exactly one.
pub open spec fn tree_of_nodes(nodes: Seq<MailNode>) -> Option<MailTree> {
    match decode_tree(nodes, 0) {
        Some((t, j)) => if j == nodes.len() {
            Some(t)
        } else {
            None
        },
        None => None,
    }
}

/// Rebuilds the part that a depth-first list of nodes describes.
pub fn part_from_nodes(nodes: Vec<MailNode>) -> (r: Option<MailPart>)
    ensures
        match tree_of_nodes(nodes@) {
            Some(t) => r matches Some(p) && part_view(p) == t,
            None => r is None,
        },
{
    let mut rest = nodes;
    let ghost orig = rest@;
    assert(orig.skip(0) == orig);
    let r = decode_tree_exec(&mut rest, Ghost(orig), Ghost(0));
    proof {
        lemma_decode_bounds(orig, 0, 0);
    }
    if rest.len() == 0 {
        r
    } else {
        None
    }
}


// ---------------------------------------------------------------------------
// Reading raw bytes with mailparse
// ---------------------------------------------------------------------------

/// The parts that mailparse reads from a raw message, in depth-first order: what
/// `mailparse::parse_mail` gives, walked with `ParsedMail::parts`, each part taken
/// with its headers' `get_key`/`get_value`, its `ctype.mimetype`, the `ok()` of its
/// `get_body` and `get_body_raw`, and its number of sub-parts.
pub uninterp spec fn parsed_mail_nodes(raw: Seq<u8>) -> Option<Seq<MailNode>>;

/// The header lines that mailparse reads from a header block: what
/// `mailparse::parse_headers` gives, each header taken with `get_key`/`get_value`.
pub uninterp spec fn parsed_header_block(raw: Seq<u8>) -> Option<Seq<HeaderField>>;

/// Calls `mailparse::parse_mail` and walks the result with `ParsedMail::parts`.
/// Trusted: the result is `parsed_mail_nodes(raw)`, `None` exactly when
/// `parse_mail` returns an error.
#[verifier::external_body]
fn parse_mail_nodes(raw: &[u8]) -> (r: Option<Vec<MailNode>>)
    ensures
        r is Some <==> parsed_mail_nodes(raw@) is Some,
        r matches Some(v) ==> parsed_mail_nodes(raw@) == Some(v@),
{
    let mail = mailparse::parse_mail(raw).ok()?;
    Some(mail.parts().map(|p| MailNode {
        headers: p.headers.iter().map(|h| HeaderField { key: h.get_key(), value: h.get_value() }).collect(),
        mimetype: p.ctype.mimetype.clone(),
        body: p.get_body().ok(),
        body_raw: p.get_body_raw().ok(),
        subpart_count: p.subparts.len(),
    }).collect())
}

/// Calls `mailparse::parse_headers`. Trusted: the result is
/// `parsed_header_block(raw)`, `None` exactly when `parse_headers` returns an error.
#[verifier::external_body]
fn parse_header_block(raw: &[u8]) -> (r: Option<Vec<HeaderField>>)
    ensures
        r is Some <==> parsed_header_block(raw@) is Some,
        r matches Some(v) ==> parsed_header_block(raw@) == Some(v@),
{
    let (headers, _) = mailparse::parse_headers(raw).ok()?;
    Some(headers.iter().map(|h| HeaderField { key: h.get_key(), value: h.get_value() }).collect())
}

/// The message mailparse reads from `raw`, as a tree of parts.
pub open spec fn parsed_message(raw: Seq<u8>) -> Option<MailTree> {
    match parsed_mail_nodes(raw) {
        Some(nodes) => tree_of_nodes(nodes),
        None => None,
    }
}

/// Parses a raw message into its tree of parts; `None` when mailparse refuses it.
pub fn parse_message(raw: &[u8]) -> (r: Option<MailPart>)
    ensures
        match parsed_message(raw@) {
            Some(t) => r matches Some(p) && part_view(p) == t,
            None => r is None,
        },
{
    match parse_mail_nodes(raw) {
        Some(nodes) => part_from_nodes(nodes),
        None => None,
    }
}

/// Parses a block of header lines; `None` when mailparse refuses it.
pub fn parse_headers(raw: &[u8]) -> (r: Option<Vec<HeaderField>>)
    ensures
        r is Some <==> parsed_header_block(raw@) is Some,
        r matches Some(v) ==> parsed_header_block(raw@) == Some(v@),
{
    parse_header_block(raw)
}

// ---------------------------------------------------------------------------
// Looking up headers (mailparse's `MailHeaderMap::get_first_value`)
// ---------------------------------------------------------------------------

/// A header name equals `name` when compared without regard to ASCII case.
pub open spec fn name_matches(key: Seq<char>, name: Seq<char>) -> bool {
    &&& key.len() == name.len()
    &&& forall|i: int| 0 <= i < key.len() ==> ascii_lower(#[trigger] key[i]) == ascii_lower(name[i])
}

pub open spec fn first_value_from(hs: Seq<HeaderField>, name: Seq<char>, i: int) -> Option<Seq<char>>
    decreases hs.len() - i,
{
    if i < 0 || i >= hs.len() {
        None
    } else if name_matches(hs[i].key@, name) {
        Some(hs[i].value@)
    } else {
        first_value_from(hs, name, i + 1)
    }
}

/// The value of the first header called `name`, the name compared without regard to
/// ASCII case.
pub open spec fn first_value(hs: Seq<HeaderField>, name: Seq<char>) -> Option<Seq<char>> {
    first_value_from(hs, name, 0)
}

fn names_match(key: &Vec<char>, name: &Vec<char>) -> (r: bool)
    ensures
        r == name_matches(key@, name@),
{
    if key.len() != name.len() {
        return false;
    }
    let mut i: usize = 0;
    while i < key.len()
        invariant
            key.len() == name.len(),
            i <= key.len(),
            forall|j: int| 0 <= j < i ==> ascii_lower(#[trigger] key@[j]) == ascii_lower(name@[j]),
        decreases key.len() - i,
    {
        if lower_ascii_char(key[i]) != lower_ascii_char(name[i]) {
            return false;
        }
        i = i + 1;
    }
    true
}

/// The value of the first header called `name` (ASCII case ignored).
pub fn get_first_value(headers: &Vec<HeaderField>, name: &str) -> (r: Option<String>)
    ensures
        opt_text(r) == first_value(headers@, name@),
{
    let nm = chars_of(name);
    let mut i: usize = 0;
    while i < headers.len()
        invariant
            i <= headers.len(),
            nm@ == name@,
            first_value(headers@, name@) == first_value_from(headers@, name@, i as int),
        decreases headers.len() - i,
    {
        let key = chars_of(headers[i].key.as_str());
        if names_match(&key, &nm) {
            return Some(headers[i].value.clone());
        }
        i = i + 1;
    }
    None
}

} // verus!
