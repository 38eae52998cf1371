//! Turning an HTML mail body into readable plain text.
use vstd::prelude::*;
use vstd::utf8::{encode_scalar, encode_utf8};
use crate::text::{digit_value, digits_value, unsigned_value, ascii_lower, law_replace_absent, replace_all, trim_start, trim_end, chars_of, lemma_trim_offset, lemma_trim_chars, matches_at, is_white_space, law_trim_idempotent, trim, trim_chars, parse_unsigned, parse_unsigned_spec, pair_views, replace_each, replace_pairs, find, find_from, lemma_find_from_bounds, push_all, slice_chars, string_from_chars};

verus! {

// ---------------------------------------------------------------------------
// Removing `<tag ...> ... </tag>` blocks
// ---------------------------------------------------------------------------

/// `<tag`
pub open spec fn open_tag(tag: Seq<char>) -> Seq<char> {
    seq!['<'] + tag
}

/// `</tag>`
pub open spec fn close_tag(tag: Seq<char>) -> Seq<char> {
    seq!['<', '/'] + tag + seq!['>']
}

/// What is kept of `h` from `pos` on when every block that starts with `open` is cut
/// out up to and including the next `close` (or to the end when no `close` follows).
/// Both markers are found ASCII-case-insensitively.
pub open spec fn blocks_removed_from(h: Seq<char>, open: Seq<char>, close: Seq<char>, pos: int) -> Seq<
    char,
>
    decreases h.len() - pos,
{
    if pos < 0 || pos > h.len() || close.len() == 0 {
        seq![]
    } else {
        proof {
            lemma_find_from_bounds(h, open, pos, true);
        }
        match find_from(h, open, pos, true) {
            None => h.subrange(pos, h.len() as int),
            Some(s) => h.subrange(pos, s) + if s < pos {
                seq![]
            } else {
                proof {
                    lemma_find_from_bounds(h, close, s, true);
                }
                match find_from(h, close, s, true) {
                    None => seq![],
                    Some(e) => if e < s {
                        seq![]
                    } else {
                        blocks_removed_from(h, open, close, e + close.len())
                    },
                }
            },
        }
    }
}

/// `html` with every `<tag …>…</tag>` block removed, the tag name matched without
/// regard to ASCII case.
pub open spec fn tag_blocks_removed(html: Seq<char>, tag: Seq<char>) -> Seq<char> {
    blocks_removed_from(html, open_tag(tag), close_tag(tag), 0)
}

fn remove_blocks(h: &Vec<char>, open: &Vec<char>, close: &Vec<char>) -> (r: Vec<char>)
    requires
        close@.len() > 0,
    ensures
        r@ == blocks_removed_from(h@, open@, close@, 0),
{
    let mut out: Vec<char> = Vec::new();
    let mut pos: usize = 0;
    loop
        invariant
            pos <= h.len(),
            close@.len() > 0,
            blocks_removed_from(h@, open@, close@, 0) == out@ + blocks_removed_from(
                h@,
                open@,
                close@,
                pos as int,
            ),
        decreases h.len() - pos,
    {
        match find(h, open, pos, true) {
            None => {
                let rest = slice_chars(h, pos, h.len());
                push_all(&mut out, &rest);
                return out;
            },
            Some(s) => {
                let piece = slice_chars(h, pos, s);
                push_all(&mut out, &piece);
                match find(h, close, s, true) {
                    None => {
                        assert(blocks_removed_from(h@, open@, close@, pos as int) == piece@);
                        assert(out@ + Seq::<char>::empty() == out@);
                        return out;
                    },
                    Some(e) => {
                        assert(blocks_removed_from(h@, open@, close@, pos as int) == piece@
                            + blocks_removed_from(h@, open@, close@, e + close@.len()));
                        pos = e + close.len();
                    },
                }
            },
        }
    }
}

/// Removes every `<tag …>…</tag>` block from `html`; an unterminated block runs to the end.
pub fn remove_tag_blocks(html: &str, tag: &str) -> (r: String)
    ensures
        r@ == tag_blocks_removed(html@, tag@),
{
    let h = chars_of(html);
    let t = chars_of(tag);
    let mut open: Vec<char> = Vec::new();
    open.push('<');
    push_all(&mut open, &t);
    let mut close: Vec<char> = Vec::new();
    close.push('<');
    close.push('/');
    push_all(&mut close, &t);
    close.push('>');
    assert(open@ == open_tag(tag@));
    assert(close@ == close_tag(tag@));
    let out = remove_blocks(&h, &open, &close);
    string_from_chars(&out)
}


// ---------------------------------------------------------------------------
// Stripping tags
// ---------------------------------------------------------------------------

/// The characters of `s` that lie outside `<…>`; `in_tag` says whether the text
/// before `s` left an unclosed `<`.
pub open spec fn tags_stripped_from(s: Seq<char>, in_tag: bool) -> Seq<char>
    decreases s.len(),
{
    if s.len() == 0 {
        seq![]
    } else if s[0] == '<' {
        tags_stripped_from(s.drop_first(), true)
    } else if s[0] == '>' {
        tags_stripped_from(s.drop_first(), false)
    } else if !in_tag {
        seq![s[0]] + tags_stripped_from(s.drop_first(), false)
    } else {
        tags_stripped_from(s.drop_first(), true)
    }
}

pub open spec fn tags_stripped(s: Seq<char>) -> Seq<char> {
    tags_stripped_from(s, false)
}

pub fn strip_tags(s: &Vec<char>) -> (r: Vec<char>)
    ensures
        r@ == tags_stripped(s@),
{
    let mut out: Vec<char> = Vec::new();
    let mut in_tag = false;
    let mut i: usize = 0;
    assert(s@.skip(0) == s@);
    while i < s.len()
        invariant
            i <= s.len(),
            tags_stripped(s@) == out@ + tags_stripped_from(s@.skip(i as int), in_tag),
        decreases s.len() - i,
    {
        let c = s[i];
        assert(s@.skip(i as int).drop_first() == s@.skip(i + 1));
        assert(s@.skip(i as int)[0] == c);
        if c == '<' {
            in_tag = true;
        } else if c == '>' {
            in_tag = false;
        } else if !in_tag {
            out.push(c);
        }
        i = i + 1;
    }
    assert(tags_stripped_from(s@.skip(i as int), in_tag) == Seq::<char>::empty());
    assert(out@ + Seq::<char>::empty() == out@);
    out
}


// ---------------------------------------------------------------------------
// Fixed replacements
// ---------------------------------------------------------------------------

/// Each block-level tag followed by a line break, in the order they are applied.
pub open spec fn block_break_pairs() -> Seq<(Seq<char>, Seq<char>)> {
    seq![
        ("</p>"@, "</p>\n"@),
        ("</div>"@, "</div>\n"@),
        ("</tr>"@, "</tr>\n"@),
        ("<br>"@, "<br>\n"@),
        ("<br/>"@, "<br/>\n"@),
        ("<br />"@, "<br />\n"@),
        ("</h1>"@, "</h1>\n"@),
        ("</h2>"@, "</h2>\n"@),
        ("</h3>"@, "</h3>\n"@),
        ("</h4>"@, "</h4>\n"@),
        ("<li>"@, "<li>\n"@),
    ]
}

/// The named character references that are decoded, in the order they are applied.
pub open spec fn entity_pairs() -> Seq<(Seq<char>, Seq<char>)> {
    seq![
        ("&amp;"@, "&"@),
        ("&lt;"@, "<"@),
        ("&gt;"@, ">"@),
        ("&quot;"@, "\""@),
        ("&apos;"@, "'"@),
        ("&nbsp;"@, " "@),
        ("&#39;"@, "'"@),
    ]
}

fn add_block_breaks(s: Vec<char>) -> (r: Vec<char>)
    ensures
        r@ == replace_each(s@, block_break_pairs()),
{
    let pairs: Vec<(&str, &str)> = vec![
        ("</p>", "</p>\n"),
        ("</div>", "</div>\n"),
        ("</tr>", "</tr>\n"),
        ("<br>", "<br>\n"),
        ("<br/>", "<br/>\n"),
        ("<br />", "<br />\n"),
        ("</h1>", "</h1>\n"),
        ("</h2>", "</h2>\n"),
        ("</h3>", "</h3>\n"),
        ("</h4>", "</h4>\n"),
        ("<li>", "<li>\n"),
    ];
    proof {
        reveal_strlit("</p>");
        reveal_strlit("</div>");
        reveal_strlit("</tr>");
        reveal_strlit("<br>");
        reveal_strlit("<br/>");
        reveal_strlit("<br />");
        reveal_strlit("</h1>");
        reveal_strlit("</h2>");
        reveal_strlit("</h3>");
        reveal_strlit("</h4>");
        reveal_strlit("<li>");
        assert(pair_views(pairs@) =~= block_break_pairs());
    }
    replace_pairs(s, &pairs)
}

fn decode_named_entities(s: Vec<char>) -> (r: Vec<char>)
    ensures
        r@ == replace_each(s@, entity_pairs()),
{
    let pairs: Vec<(&str, &str)> = vec![
        ("&amp;", "&"),
        ("&lt;", "<"),
        ("&gt;", ">"),
        ("&quot;", "\""),
        ("&apos;", "'"),
        ("&nbsp;", " "),
        ("&#39;", "'"),
    ];
    proof {
        reveal_strlit("&amp;");
        reveal_strlit("&lt;");
        reveal_strlit("&gt;");
        reveal_strlit("&quot;");
        reveal_strlit("&apos;");
        reveal_strlit("&nbsp;");
        reveal_strlit("&#39;");
        assert(pair_views(pairs@) =~= entity_pairs());
    }
    replace_pairs(s, &pairs)
}


// ---------------------------------------------------------------------------
// Numeric character references (`&#160;`, `&#x00A0;`)
// ---------------------------------------------------------------------------

/// Whether `v` is a Unicode scalar value, i.e. the code of some `char`.
pub open spec fn is_scalar_value(v: nat) -> bool {
    v < 0xD800 || (0xE000 <= v && v <= 0x10FFFF)
}

/// std's `char::from_u32`: the character with code `v`, when `v` is a Unicode scalar value.
#[verifier::external_body]
fn char_from_u32(v: u32) -> (r: Option<char>)
    ensures
        r is Some <==> is_scalar_value(v as nat),
        r matches Some(c) ==> c == v as char && c as u32 == v,
{
    char::from_u32(v)
}

/// The character a reference `&#digits;` (or `&#xdigits;`) decodes to, if any.
pub open spec fn reference_char(digits: Seq<char>, hex: bool) -> Option<char> {
    match parse_unsigned_spec(digits, if hex { 16 } else { 10 }, 0xFFFF_FFFF) {
        Some(v) => if is_scalar_value(v) {
            Some((v as u32) as char)
        } else {
            None
        },
        None => None,
    }
}

/// `s` from `pos` on with each well-formed numeric reference replaced by its character;
/// a `&#` that does not start one is kept as it is.
pub open spec fn numeric_refs_decoded_from(s: Seq<char>, pos: int) -> Seq<char>
    decreases s.len() - pos,
{
    if pos < 0 || pos > s.len() {
        seq![]
    } else {
        proof {
            lemma_find_from_bounds(s, seq!['&', '#'], pos, false);
        }
        match find_from(s, seq!['&', '#'], pos, false) {
            None => s.subrange(pos, s.len() as int),
            Some(a) => if a < pos {
                seq![]
            } else {
                let q = a + 2;
                let hex = q < s.len() && (s[q] == 'x' || s[q] == 'X');
                let ds = if hex {
                    q + 1
                } else {
                    q
                };
                proof {
                    lemma_find_from_bounds(s, seq![';'], ds, false);
                }
                s.subrange(pos, a) + match find_from(s, seq![';'], ds, false) {
                    Some(semi) => if semi < ds {
                        seq![]
                    } else {
                        match reference_char(s.subrange(ds, semi), hex) {
                            Some(c) => seq![c] + numeric_refs_decoded_from(s, semi + 1),
                            None => seq!['&', '#'] + numeric_refs_decoded_from(s, q),
                        }
                    },
                    None => seq!['&', '#'] + numeric_refs_decoded_from(s, q),
                }
            },
        }
    }
}

pub open spec fn numeric_refs_decoded(s: Seq<char>) -> Seq<char> {
    numeric_refs_decoded_from(s, 0)
}

fn decode_numeric_refs(s: &Vec<char>) -> (r: Vec<char>)
    ensures
        r@ == numeric_refs_decoded(s@),
{
    let mut amp_hash: Vec<char> = Vec::new();
    amp_hash.push('&');
    amp_hash.push('#');
    let mut semicolon: Vec<char> = Vec::new();
    semicolon.push(';');
    assert(amp_hash@ == seq!['&', '#']);
    assert(semicolon@ == seq![';']);
    let mut out: Vec<char> = Vec::new();
    let mut pos: usize = 0;
    loop
        invariant
            pos <= s.len(),
            amp_hash@ == seq!['&', '#'],
            semicolon@ == seq![';'],
            numeric_refs_decoded(s@) == out@ + numeric_refs_decoded_from(s@, pos as int),
        decreases s.len() - pos,
    {
        match find(s, &amp_hash, pos, false) {
            None => {
                let rest = slice_chars(s, pos, s.len());
                push_all(&mut out, &rest);
                return out;
            },
            Some(a) => {
                let piece = slice_chars(s, pos, a);
                push_all(&mut out, &piece);
                let q = a + 2;
                let hex = q < s.len() && (s[q] == 'x' || s[q] == 'X');
                let ds = if hex {
                    q + 1
                } else {
                    q
                };
                let mut decoded: Option<(char, usize)> = None;
                match find(s, &semicolon, ds, false) {
                    Some(semi) => {
                        let digits = slice_chars(s, ds, semi);
                        let radix: u32 = if hex {
                            16
                        } else {
                            10
                        };
                        match parse_unsigned(&digits, radix, 0xFFFF_FFFF) {
                            Some(v) => {
                                match char_from_u32(v as u32) {
                                    Some(c) => {
                                        decoded = Some((c, semi));
                                    },
                                    None => {},
                                }
                            },
                            None => {},
                        }
                        assert(decoded matches Some((c, x)) ==> x == semi && reference_char(
                            s@.subrange(ds as int, semi as int),
                            hex,
                        ) == Some(c));
                        assert(decoded is None ==> reference_char(
                            s@.subrange(ds as int, semi as int),
                            hex,
                        ) is None);
                    },
                    None => {},
                }
                match decoded {
                    Some((c, semi)) => {
                        out.push(c);
                        pos = semi + 1;
                    },
                    None => {
                        out.push('&');
                        out.push('#');
                        pos = q;
                    },
                }
            },
        }
    }
}

/// Replaces each numeric character reference (`&#160;`, `&#x00A0;`) that names a
/// character with that character; any other `&#` is kept literally.
pub fn decode_numeric_entities(s: &str) -> (r: String)
    ensures
        r@ == numeric_refs_decoded(s@),
{
    let v = chars_of(s);
    let out = decode_numeric_refs(&v);
    string_from_chars(&out)
}

// ---------------------------------------------------------------------------
// Blank lines
// ---------------------------------------------------------------------------

/// The lines of `s` from `pos` on (as `str::lines` splits them), each trimmed,
/// each non-blank one followed by a line break, and each run of blank lines
/// reduced to one line break; `prev_blank` says whether the line before was blank.
pub open spec fn lines_collapsed_from(s: Seq<char>, pos: int, prev_blank: bool) -> Seq<char>
    decreases s.len() + 1 - pos,
{
    if pos < 0 || pos >= s.len() {
        seq![]
    } else {
        proof {
            lemma_find_from_bounds(s, seq!['\n'], pos, false);
        }
        let end = match find_from(s, seq!['\n'], pos, false) {
            Some(i) => i,
            None => s.len() as int,
        };
        if end < pos {
            seq![]
        } else {
            let line = trim(s.subrange(pos, end));
            if line.len() == 0 {
                (if prev_blank {
                    seq![]
                } else {
                    seq!['\n']
                }) + lines_collapsed_from(s, end + 1, true)
            } else {
                line + seq!['\n'] + lines_collapsed_from(s, end + 1, false)
            }
        }
    }
}

pub open spec fn lines_collapsed(s: Seq<char>) -> Seq<char> {
    lines_collapsed_from(s, 0, false)
}

fn collapse_blank_lines(s: &Vec<char>) -> (r: Vec<char>)
    ensures
        r@ == lines_collapsed(s@),
{
    let mut newline: Vec<char> = Vec::new();
    newline.push('\n');
    assert(newline@ == seq!['\n']);
    let mut out: Vec<char> = Vec::new();
    let mut pos: usize = 0;
    let mut prev_blank = false;
    while pos < s.len()
        invariant
            pos <= s.len(),
            newline@ == seq!['\n'],
            lines_collapsed(s@) == out@ + lines_collapsed_from(s@, pos as int, prev_blank),
        decreases s.len() + 1 - pos,
    {
        let end = match find(s, &newline, pos, false) {
            Some(i) => i,
            None => s.len(),
        };
        let raw = slice_chars(s, pos, end);
        let line = trim_chars(&raw);
        let ghost next = (end + 1) as int;
        assert(lines_collapsed_from(s@, pos as int, prev_blank) == if line@.len() == 0 {
            (if prev_blank {
                seq![]
            } else {
                seq!['\n']
            }) + lines_collapsed_from(s@, next, true)
        } else {
            line@ + seq!['\n'] + lines_collapsed_from(s@, next, false)
        });
        let ghost old_out = out@;
        if line.len() == 0 {
            if !prev_blank {
                out.push('\n');
            }
            prev_blank = true;
        } else {
            push_all(&mut out, &line);
            out.push('\n');
            prev_blank = false;
        }
        if end < s.len() {
            pos = end + 1;
        } else {
            pos = s.len();
            assert(lines_collapsed_from(s@, next, prev_blank) == Seq::<char>::empty());
        }
        assert(lines_collapsed(s@) == out@ + lines_collapsed_from(s@, pos as int, prev_blank));
    }
    assert(lines_collapsed_from(s@, pos as int, prev_blank) == Seq::<char>::empty());
    assert(out@ + Seq::<char>::empty() == out@);
    out
}

// ---------------------------------------------------------------------------
// The whole conversion
// ---------------------------------------------------------------------------

/// The readable text of an HTML document: `<style>` and `<script>` blocks removed,
/// a line break after block-level tags, all tags stripped, common named and all
/// numeric character references decoded, lines trimmed, runs of blank lines
/// reduced to one, and the result trimmed.
pub open spec fn html_text(html: Seq<char>) -> Seq<char> {
    let s1 = tag_blocks_removed(html, "style"@);
    let s2 = tag_blocks_removed(s1, "script"@);
    let s3 = replace_each(s2, block_break_pairs());
    let s4 = tags_stripped(s3);
    let s5 = replace_each(s4, entity_pairs());
    let s6 = numeric_refs_decoded(s5);
    trim(lines_collapsed(s6))
}

/// Converts an HTML document to plain text (see `html_text`).
pub fn html_to_text(html: &str) -> (r: String)
    ensures
        r@ == html_text(html@),
{
    let s1 = remove_tag_blocks(html, "style");
    let s2 = remove_tag_blocks(s1.as_str(), "script");
    let v2 = chars_of(s2.as_str());
    let v3 = add_block_breaks(v2);
    let v4 = strip_tags(&v3);
    let v5 = decode_named_entities(v4);
    let v6 = decode_numeric_refs(&v5);
    let v7 = collapse_blank_lines(&v6);
    let v8 = trim_chars(&v7);
    string_from_chars(&v8)
}


// ---------------------------------------------------------------------------
// Laws
// ---------------------------------------------------------------------------

/// Text without an opening `<tag` comes out of block removal unchanged.
pub proof fn law_remove_tag_blocks_absent(html: Seq<char>, tag: Seq<char>)
    requires
        find_from(html, open_tag(tag), 0, true) is None,
    ensures
        tag_blocks_removed(html, tag) == html,
{
    assert(html.subrange(0, html.len() as int) == html);
}

/// Text without `&#` comes out of numeric reference decoding unchanged.
pub proof fn law_numeric_refs_absent(s: Seq<char>)
    requires
        find_from(s, seq!['&', '#'], 0, false) is None,
    ensures
        numeric_refs_decoded(s) == s,
{
    assert(s.subrange(0, s.len() as int) == s);
}

/// The text made of an HTML document neither starts nor ends with whitespace, none
/// of its lines starts or ends with whitespace, and it never holds two blank lines in
/// a row.
pub proof fn law_html_text_trimmed(html: Seq<char>)
    ensures
        no_blank_run(html_text(html)),
        trim(html_text(html)) == html_text(html),
        html_text(html).len() == 0 || (!is_white_space(html_text(html)[0]) && !is_white_space(
            html_text(html).last(),
        )),
        lines_trimmed(html_text(html)),
{
    let s = html_text(html);
    let inner = lines_collapsed(numeric_refs_decoded(replace_each(
        tags_stripped(replace_each(tag_blocks_removed(tag_blocks_removed(html, "style"@), "script"@), block_break_pairs())),
        entity_pairs(),
    )));
    assert(s == trim(inner));
    law_trim_idempotent(inner);
    law_no_blank_runs(numeric_refs_decoded(replace_each(
        tags_stripped(replace_each(tag_blocks_removed(tag_blocks_removed(html, "style"@), "script"@), block_break_pairs())),
        entity_pairs(),
    )));
    lemma_collapsed_lines_trimmed(numeric_refs_decoded(replace_each(
        tags_stripped(replace_each(tag_blocks_removed(tag_blocks_removed(html, "style"@), "script"@), block_break_pairs())),
        entity_pairs(),
    )), 0, false);
    lemma_trim_keeps_lines(inner);
    let off = lemma_trim_offset(inner);
    assert forall|i: int| 0 <= i && i + 2 < s.len() implies !(#[trigger] s[i] == '\n' && s[i + 1]
        == '\n' && s[i + 2] == '\n') by {
        assert(s[i] == inner[off + i]);
        assert(s[i + 1] == inner[off + i + 1]);
        assert(s[i + 2] == inner[off + i + 2]);
    }
}


/// No three line breaks follow each other, i.e. no two blank lines in a row.
pub open spec fn no_blank_run(r: Seq<char>) -> bool {
    forall|i: int|
        0 <= i && i + 2 < r.len() ==> !(#[trigger] r[i] == '\n' && r[i + 1] == '\n' && r[i + 2]
            == '\n')
}

proof fn lemma_collapsed_shape(s: Seq<char>, pos: int, prev_blank: bool)
    ensures
        no_blank_run(lines_collapsed_from(s, pos, prev_blank)),
        prev_blank ==> (lines_collapsed_from(s, pos, prev_blank).len() == 0
            || lines_collapsed_from(s, pos, prev_blank)[0] != '\n'),
        lines_collapsed_from(s, pos, prev_blank).len() < 2 || !(lines_collapsed_from(
            s,
            pos,
            prev_blank,
        )[0] == '\n' && lines_collapsed_from(s, pos, prev_blank)[1] == '\n'),
    decreases s.len() + 1 - pos,
{
    let r = lines_collapsed_from(s, pos, prev_blank);
    if pos < 0 || pos >= s.len() {
    } else {
        lemma_find_from_bounds(s, seq!['\n'], pos, false);
        let end = match find_from(s, seq!['\n'], pos, false) {
            Some(i) => i,
            None => s.len() as int,
        };
        let sub = s.subrange(pos, end);
        let line = trim(sub);
        let next = end + 1;
        if line.len() == 0 {
            lemma_collapsed_shape(s, next, true);
            let rest = lines_collapsed_from(s, next, true);
            if !prev_blank {
                assert(r == seq!['\n'] + rest);
                assert forall|i: int| 0 <= i && i + 2 < r.len() implies !(#[trigger] r[i] == '\n'
                    && r[i + 1] == '\n' && r[i + 2] == '\n') by {
                    if i > 0 {
                        assert(r[i] == rest[i - 1]);
                        assert(r[i + 1] == rest[i]);
                        assert(r[i + 2] == rest[i + 1]);
                    } else {
                        assert(r[1] == rest[0]);
                    }
                }
            } else {
                assert(r == rest);
            }
        } else {
            lemma_collapsed_shape(s, next, false);
            let rest = lines_collapsed_from(s, next, false);
            assert forall|k: int| 0 <= k < sub.len() implies #[trigger] sub[k] != '\n' by {
                assert(sub[k] == s[pos + k]);
                if s[pos + k] == '\n' {
                    assert(matches_at(s, pos + k, seq!['\n'], false));
                }
            }
            lemma_trim_chars(sub);
            assert forall|k: int| 0 <= k < line.len() implies #[trigger] line[k] != '\n' by {
                let j = choose|j: int| 0 <= j < sub.len() && sub[j] == line[k];
            }
            let l = line.len() as int;
            assert(r == line + seq!['\n'] + rest);
            assert forall|i: int| 0 <= i && i + 2 < r.len() implies !(#[trigger] r[i] == '\n' && r[i
                + 1] == '\n' && r[i + 2] == '\n') by {
                if i < l {
                    assert(r[i] == line[i]);
                } else if i == l {
                    assert(r[i + 1] == rest[0]);
                    assert(r[i + 2] == rest[1]);
                } else {
                    assert(r[i] == rest[i - l - 1]);
                    assert(r[i + 1] == rest[i - l]);
                    assert(r[i + 2] == rest[i - l + 1]);
                }
            }
            assert(r[0] == line[0]);
        }
    }
}

/// The collapsed lines never hold two blank lines in a row.
pub proof fn law_no_blank_runs(s: Seq<char>)
    ensures
        no_blank_run(lines_collapsed(s)),
{
    lemma_collapsed_shape(s, 0, false);
}

/// `k` is the index of the first character of a line of `r`.
pub open spec fn line_start(r: Seq<char>, k: int) -> bool {
    0 <= k < r.len() && r[k] != '\n' && (k == 0 || r[k - 1] == '\n')
}

/// `k` is the index of the last character of a line of `r`.
pub open spec fn line_end(r: Seq<char>, k: int) -> bool {
    0 <= k < r.len() && r[k] != '\n' && (k + 1 == r.len() || r[k + 1] == '\n')
}

/// Every line of `r` (the pieces between line breaks) neither starts nor ends with
/// whitespace.
pub open spec fn lines_trimmed(r: Seq<char>) -> bool {
    &&& forall|k: int| #[trigger] line_start(r, k) ==> !is_white_space(r[k])
    &&& forall|k: int| #[trigger] line_end(r, k) ==> !is_white_space(r[k])
}

proof fn lemma_collapsed_lines_trimmed(s: Seq<char>, pos: int, prev_blank: bool)
    ensures
        lines_trimmed(lines_collapsed_from(s, pos, prev_blank)),
    decreases s.len() + 1 - pos,
{
    let r = lines_collapsed_from(s, pos, prev_blank);
    if pos < 0 || pos >= s.len() {
    } else {
        lemma_find_from_bounds(s, seq!['\n'], pos, false);
        let end = match find_from(s, seq!['\n'], pos, false) {
            Some(i) => i,
            None => s.len() as int,
        };
        let sub = s.subrange(pos, end);
        let line = trim(sub);
        let next = end + 1;
        let pb = line.len() == 0;
        lemma_collapsed_lines_trimmed(s, next, pb);
        let rest = lines_collapsed_from(s, next, pb);
        let head: Seq<char> = if line.len() == 0 {
            if prev_blank {
                seq![]
            } else {
                seq!['\n']
            }
        } else {
            line + seq!['\n']
        };
        assert(r == head + rest);
        let l = head.len() as int;
        if line.len() > 0 {
            assert forall|k: int| 0 <= k < sub.len() implies #[trigger] sub[k] != '\n' by {
                assert(sub[k] == s[pos + k]);
                if s[pos + k] == '\n' {
                    assert(matches_at(s, pos + k, seq!['\n'], false));
                }
            }
            lemma_trim_chars(sub);
            assert forall|k: int| 0 <= k < line.len() implies #[trigger] line[k] != '\n' by {
                let j = choose|j: int| 0 <= j < sub.len() && sub[j] == line[k];
            }
            law_trim_idempotent(sub);
        }
        assert(l == 0 || head[l - 1] == '\n');
        assert forall|k: int| #[trigger] line_start(r, k) implies !is_white_space(r[k]) by {
            if k >= l {
                assert(r[k] == rest[k - l]);
                if k > l {
                    assert(r[k - 1] == rest[k - l - 1]);
                }
                assert(line_start(rest, k - l));
            } else {
                assert(r[k] == head[k]);
                if k > 0 {
                    assert(r[k - 1] == head[k - 1]);
                    assert(line[k - 1] != '\n');
                }
            }
        }
        assert forall|k: int| #[trigger] line_end(r, k) implies !is_white_space(r[k]) by {
            if k >= l {
                assert(r[k] == rest[k - l]);
                if k + 1 < r.len() {
                    assert(r[k + 1] == rest[k + 1 - l]);
                }
                assert(line_end(rest, k - l));
            } else {
                assert(r[k] == head[k]);
                assert(k < line.len());
                if k + 1 < line.len() {
                    assert(r[k + 1] == line[k + 1]);
                }
            }
        }
    }
}

/// Trimming the whole text keeps every line trimmed.
proof fn lemma_trim_keeps_lines(s: Seq<char>)
    requires
        lines_trimmed(s),
    ensures
        lines_trimmed(trim(s)),
{
    let t = trim(s);
    let off = lemma_trim_offset(s);
    law_trim_idempotent(s);
    assert forall|k: int| #[trigger] line_start(t, k) implies !is_white_space(t[k]) by {
        assert(t[k] == s[off + k]);
        if k > 0 {
            assert(t[k - 1] == s[off + k - 1]);
            assert(line_start(s, off + k));
        }
    }
    assert forall|k: int| #[trigger] line_end(t, k) implies !is_white_space(t[k]) by {
        assert(t[k] == s[off + k]);
        if k + 1 < t.len() {
            assert(t[k + 1] == s[off + k + 1]);
            assert(line_end(s, off + k));
        }
    }
}

/// Block removal leaves text without `<` unchanged.
proof fn lemma_blocks_absent(h: Seq<char>, tag: Seq<char>)
    requires
        forall|k: int| 0 <= k < h.len() ==> h[k] != '<',
    ensures
        tag_blocks_removed(h, tag) == h,
{
    lemma_find_from_bounds(h, open_tag(tag), 0, true);
    if let Some(i) = find_from(h, open_tag(tag), 0, true) {
        assert(ascii_lower(h[i + 0]) == open_tag(tag)[0]);
        assert(h[i] != '<');
        assert(false);
    }
    law_remove_tag_blocks_absent(h, tag);
}

/// Replacements whose patterns all start with a character absent from `s` leave
/// `s` unchanged.
proof fn lemma_replace_each_absent(s: Seq<char>, pairs: Seq<(Seq<char>, Seq<char>)>)
    requires
        forall|i: int| 0 <= i < pairs.len() ==> (#[trigger] pairs[i]).0.len() > 0,
        forall|i: int, k: int| 0 <= i < pairs.len() && 0 <= k < s.len() ==> #[trigger] s[k] != (
            #[trigger] pairs[i]).0[0],
    ensures
        replace_each(s, pairs) == s,
    decreases pairs.len(),
{
    if pairs.len() > 0 {
        let p = pairs[0].0;
        lemma_find_from_bounds(s, p, 0, false);
        if let Some(i) = find_from(s, p, 0, false) {
            assert(s[i + 0] == p[0]);
            assert(false);
        }
        law_replace_absent(s, p, pairs[0].1);
        let rest = pairs.drop_first();
        assert forall|i: int, k: int| 0 <= i < rest.len() && 0 <= k < s.len() implies #[trigger] s[k] != (
            #[trigger] rest[i]).0[0] by {
            assert(rest[i] == pairs[i + 1]);
        }
        assert forall|i: int| 0 <= i < rest.len() implies (#[trigger] rest[i]).0.len() > 0 by {
            assert(rest[i] == pairs[i + 1]);
        }
        lemma_replace_each_absent(s, rest);
    }
}

/// Stripping tags leaves text without `<` and `>` unchanged.
proof fn lemma_strip_absent(s: Seq<char>)
    requires
        forall|k: int| 0 <= k < s.len() ==> s[k] != '<' && s[k] != '>',
    ensures
        tags_stripped_from(s, false) == s,
    decreases s.len(),
{
    if s.len() > 0 {
        assert forall|k: int| 0 <= k < s.drop_first().len() implies s.drop_first()[k] != '<'
            && s.drop_first()[k] != '>' by {
            assert(s.drop_first()[k] == s[k + 1]);
        }
        lemma_strip_absent(s.drop_first());
        assert(seq![s[0]] + s.drop_first() == s);
    }
}

/// A single line without line breaks, once collapsed and trimmed, is that line trimmed.
proof fn lemma_collapse_one_line(s: Seq<char>)
    requires
        forall|k: int| 0 <= k < s.len() ==> s[k] != '\n',
    ensures
        trim(lines_collapsed(s)) == trim(s),
{
    assert(trim_start(Seq::<char>::empty()) == Seq::<char>::empty());
    assert(trim_end(Seq::<char>::empty()) == Seq::<char>::empty());
    if s.len() > 0 {
        lemma_find_from_bounds(s, seq!['\n'], 0, false);
        if let Some(i) = find_from(s, seq!['\n'], 0, false) {
            assert(s[i + 0] == '\n');
            assert(false);
        }
        assert(s.subrange(0, s.len() as int) == s);
        let line = trim(s);
        assert(is_white_space('\n'));
        assert(lines_collapsed_from(s, s.len() + 1int, true) == Seq::<char>::empty());
        assert(lines_collapsed_from(s, s.len() + 1int, false) == Seq::<char>::empty());
        if line.len() == 0 {
            assert(lines_collapsed(s) == seq!['\n'] + Seq::<char>::empty());
            assert(seq!['\n'].drop_first() == Seq::<char>::empty());
            assert(trim_start(seq!['\n']) == Seq::<char>::empty());
        } else {
            law_trim_idempotent(s);
            let x = line + seq!['\n'];
            assert(lines_collapsed(s) == x + Seq::<char>::empty());
            assert(x[0] == line[0]);
            assert(trim_start(x) == x);
            assert(x.drop_last() == line);
            assert(trim_end(line) == line);
            assert(trim_end(x) == line);
        }
    }
}

/// Text with no markup, no character reference and no line break comes out of
/// `html_text` merely trimmed.
pub proof fn law_html_text_plain(html: Seq<char>)
    requires
        forall|k: int|
            0 <= k < html.len() ==> html[k] != '<' && html[k] != '>' && html[k] != '&' && html[k]
                != '\n',
    ensures
        html_text(html) == trim(html),
{
    lemma_blocks_absent(html, "style"@);
    lemma_blocks_absent(html, "script"@);
    reveal_strlit("</p>");
    reveal_strlit("</div>");
    reveal_strlit("</tr>");
    reveal_strlit("<br>");
    reveal_strlit("<br/>");
    reveal_strlit("<br />");
    reveal_strlit("</h1>");
    reveal_strlit("</h2>");
    reveal_strlit("</h3>");
    reveal_strlit("</h4>");
    reveal_strlit("<li>");
    let bp = block_break_pairs();
    assert forall|i: int| 0 <= i < bp.len() implies (#[trigger] bp[i]).0.len() > 0 && bp[i].0[0]
        == '<' by {}
    lemma_replace_each_absent(html, bp);
    lemma_strip_absent(html);
    reveal_strlit("&amp;");
    reveal_strlit("&lt;");
    reveal_strlit("&gt;");
    reveal_strlit("&quot;");
    reveal_strlit("&apos;");
    reveal_strlit("&nbsp;");
    reveal_strlit("&#39;");
    let ep = entity_pairs();
    assert forall|i: int| 0 <= i < ep.len() implies (#[trigger] ep[i]).0.len() > 0 && ep[i].0[0]
        == '&' by {}
    lemma_replace_each_absent(html, ep);
    lemma_find_from_bounds(html, seq!['&', '#'], 0, false);
    if let Some(i) = find_from(html, seq!['&', '#'], 0, false) {
        assert(html[i + 0] == '&');
        assert(false);
    }
    law_numeric_refs_absent(html);
    lemma_collapse_one_line(html);
}

proof fn lemma_refs_decoded_len(s: Seq<char>, pos: int)
    requires
        0 <= pos <= s.len(),
    ensures
        numeric_refs_decoded_from(s, pos).len() <= s.len() - pos,
        numeric_refs_decoded_from(s, pos).len() == s.len() - pos ==> numeric_refs_decoded_from(
            s,
            pos,
        ) == s.subrange(pos, s.len() as int),
    decreases s.len() - pos,
{
    let r = numeric_refs_decoded_from(s, pos);
    lemma_find_from_bounds(s, seq!['&', '#'], pos, false);
    if let Some(a) = find_from(s, seq!['&', '#'], pos, false) {
        assert(s[a + 0] == '&' && s[a + 1] == '#');
        let q = a + 2;
        let hex = q < s.len() && (s[q] == 'x' || s[q] == 'X');
        let ds = if hex {
            q + 1
        } else {
            q
        };
        lemma_find_from_bounds(s, seq![';'], ds, false);
        let kept = seq!['&', '#'] + numeric_refs_decoded_from(s, q);
        match find_from(s, seq![';'], ds, false) {
            Some(semi) => {
                match reference_char(s.subrange(ds, semi), hex) {
                    Some(c) => {
                        lemma_refs_decoded_len(s, semi + 1);
                        assert(r == s.subrange(pos, a) + (seq![c] + numeric_refs_decoded_from(
                            s,
                            semi + 1,
                        )));
                    },
                    None => {
                        lemma_refs_decoded_len(s, q);
                        assert(r == s.subrange(pos, a) + kept);
                        if r.len() == s.len() - pos {
                            assert(r =~= s.subrange(pos, s.len() as int));
                        }
                    },
                }
            },
            None => {
                lemma_refs_decoded_len(s, q);
                assert(r == s.subrange(pos, a) + kept);
                if r.len() == s.len() - pos {
                    assert(r =~= s.subrange(pos, s.len() as int));
                }
            },
        }
    }
}

/// `16` to the power `n`.
spec fn pow16(n: nat) -> nat
    decreases n,
{
    if n == 0 {
        1
    } else {
        16 * pow16((n - 1) as nat)
    }
}

/// A run of `n` digits in a radix up to 16 is worth less than `16^n`.
proof fn lemma_digits_bound(d: Seq<char>, radix: nat)
    requires
        radix <= 16,
        digits_value(d, radix) is Some,
    ensures
        digits_value(d, radix).unwrap() < pow16(d.len()),
    decreases d.len(),
{
    if d.len() > 0 {
        lemma_digits_bound(d.drop_last(), radix);
        let v = digits_value(d.drop_last(), radix).unwrap();
        let x = digit_value(d.last(), radix).unwrap();
        let b = pow16(d.drop_last().len());
        assert(x <= 15);
        assert(v * radix <= (b - 1) * 16) by (nonlinear_arith)
            requires
                v <= b - 1,
                radix <= 16,
                b >= 1,
        ;
    }
}

proof fn lemma_encode_concat(a: Seq<char>, b: Seq<char>)
    ensures
        encode_utf8(a + b) == encode_utf8(a) + encode_utf8(b),
    decreases a.len(),
{
    if a.len() == 0 {
        assert(a + b == b);
    } else {
        lemma_encode_concat(a.drop_first(), b);
        assert((a + b).drop_first() == a.drop_first() + b);
    }
}

proof fn lemma_encode_len(a: Seq<char>)
    ensures
        encode_utf8(a).len() >= a.len(),
    decreases a.len(),
{
    if a.len() > 0 {
        lemma_encode_len(a.drop_first());
    }
}

/// Byte lengths of the pieces of `s` around a reference that starts at `a`.
proof fn lemma_encode_split3(s: Seq<char>, pos: int, a: int, e: int)
    requires
        0 <= pos <= a <= e <= s.len(),
    ensures
        encode_utf8(s.subrange(pos, s.len() as int)).len() == encode_utf8(s.subrange(pos, a)).len()
            + encode_utf8(s.subrange(a, e)).len() + encode_utf8(s.subrange(e, s.len() as int)).len(),
{
    assert(s.subrange(pos, s.len() as int) == s.subrange(pos, a) + (s.subrange(a, e) + s.subrange(
        e,
        s.len() as int,
    )));
    lemma_encode_concat(s.subrange(pos, a), s.subrange(a, e) + s.subrange(e, s.len() as int));
    lemma_encode_concat(s.subrange(a, e), s.subrange(e, s.len() as int));
}

/// A decoded reference `s[a..=semi]` takes more bytes than its character.
proof fn lemma_decoded_ref_shorter(s: Seq<char>, a: int, ds: int, semi: int, hex: bool)
    requires
        0 <= a,
        a + 2 <= ds <= semi < s.len(),
        reference_char(s.subrange(ds, semi), hex) is Some,
    ensures
        encode_utf8(seq![reference_char(s.subrange(ds, semi), hex).unwrap()]).len()
            < encode_utf8(s.subrange(a, semi + 1)).len(),
{
    let c = reference_char(s.subrange(ds, semi), hex).unwrap();
    let seg = s.subrange(a, semi + 1);
    lemma_encode_len(seg);
    let ec = encode_utf8(seq![c]).len();
    assert(ec == encode_scalar(c as u32).len()) by {
        reveal_with_fuel(encode_utf8, 2);
        assert(seq![c].drop_first() == Seq::<char>::empty());
    }
    let radix: nat = if hex {
        16
    } else {
        10
    };
    let d = s.subrange(ds, semi);
    let d2 = if d.len() > 0 && d[0] == '+' {
        d.drop_first()
    } else {
        d
    };
    let v = unsigned_value(d, radix).unwrap();
    assert(d2.len() >= 1);
    lemma_digits_bound(d2, radix);
    vstd::utf8::char_is_scalar(c);
    if d2.len() <= 4 {
        assert(pow16(d2.len()) <= 0x10000) by {
            reveal_with_fuel(pow16, 5);
        }
        assert(c as u32 == v);
        assert(ec <= 3);
        assert(seg.len() >= 4);
    } else {
        assert(ec <= 4);
        assert(seg.len() >= 8);
    }
}

proof fn lemma_refs_decoded_bytes(s: Seq<char>, pos: int)
    requires
        0 <= pos <= s.len(),
    ensures
        encode_utf8(numeric_refs_decoded_from(s, pos)).len() <= encode_utf8(
            s.subrange(pos, s.len() as int),
        ).len(),
        encode_utf8(numeric_refs_decoded_from(s, pos)).len() == encode_utf8(
            s.subrange(pos, s.len() as int),
        ).len() ==> numeric_refs_decoded_from(s, pos) == s.subrange(pos, s.len() as int),
    decreases s.len() - pos,
{
    let r = numeric_refs_decoded_from(s, pos);
    lemma_find_from_bounds(s, seq!['&', '#'], pos, false);
    if let Some(a) = find_from(s, seq!['&', '#'], pos, false) {
        assert(s[a + 0] == '&' && s[a + 1] == '#');
        let q = a + 2;
        let hex = q < s.len() && (s[q] == 'x' || s[q] == 'X');
        let ds = if hex {
            q + 1
        } else {
            q
        };
        lemma_find_from_bounds(s, seq![';'], ds, false);
        let head = s.subrange(pos, a);
        let amp: Seq<char> = seq!['&', '#'];
        assert(encode_utf8(amp).len() == 2) by {
            reveal_with_fuel(encode_utf8, 3);
            assert(amp.drop_first().drop_first() == Seq::<char>::empty());
        }
        let decoded = match find_from(s, seq![';'], ds, false) {
            Some(semi) => reference_char(s.subrange(ds, semi), hex) is Some,
            None => false,
        };
        if decoded {
            let semi = find_from(s, seq![';'], ds, false).unwrap();
            let c = reference_char(s.subrange(ds, semi), hex).unwrap();
            let tail = numeric_refs_decoded_from(s, semi + 1);
            lemma_refs_decoded_bytes(s, semi + 1);
            assert(r == head + (seq![c] + tail));
            lemma_encode_concat(head, seq![c] + tail);
            lemma_encode_concat(seq![c], tail);
            lemma_encode_split3(s, pos, a, semi + 1);
            lemma_decoded_ref_shorter(s, a, ds, semi, hex);
        } else {
            let tail = numeric_refs_decoded_from(s, q);
            lemma_refs_decoded_bytes(s, q);
            assert(r == head + (amp + tail));
            lemma_encode_concat(head, amp + tail);
            lemma_encode_concat(amp, tail);
            lemma_encode_split3(s, pos, a, q);
            assert(s.subrange(a, q) == amp);
            if encode_utf8(r).len() == encode_utf8(s.subrange(pos, s.len() as int)).len() {
                assert(r =~= s.subrange(pos, s.len() as int));
            }
        }
    }
}

/// Decoding numeric references never lengthens the text, counted in characters or
/// in UTF-8 bytes (each decoded reference is longer than its character), and a text
/// that keeps its length comes out unchanged.
pub proof fn law_numeric_refs_shorten(s: Seq<char>)
    ensures
        numeric_refs_decoded(s).len() <= s.len(),
        numeric_refs_decoded(s).len() == s.len() ==> numeric_refs_decoded(s) == s,
        encode_utf8(numeric_refs_decoded(s)).len() <= encode_utf8(s).len(),
        encode_utf8(numeric_refs_decoded(s)).len() == encode_utf8(s).len() ==> numeric_refs_decoded(
            s,
        ) == s,
{
    lemma_refs_decoded_len(s, 0);
    lemma_refs_decoded_bytes(s, 0);
    assert(s.subrange(0, s.len() as int) == s);
}

// ---------------------------------------------------------------------------
// A block tag between two pieces of text
// ---------------------------------------------------------------------------

/// No character of `s` is `c`.
pub open spec fn lacks(s: Seq<char>, c: char) -> bool {
    forall|k: int| 0 <= k < s.len() ==> #[trigger] s[k] != c
}

/// `p` and `t` tell apart at their second, third or fourth character, so neither
/// occurs where the other starts.
spec fn differs_early(p: Seq<char>, t: Seq<char>) -> bool {
    ||| (p.len() > 1 && t.len() > 1 && p[1] != t[1])
    ||| (p.len() > 2 && t.len() > 2 && p[2] != t[2])
    ||| (p.len() > 3 && t.len() > 3 && p[3] != t[3])
}

/// `t` starts with `o` and holds no other `o`.
spec fn one_open(t: Seq<char>, o: char) -> bool {
    t.len() > 0 && t[0] == o && lacks(t.drop_first(), o)
}

/// In `a + t + c` the only `o` is where `t` starts.
proof fn lemma_only_open(a: Seq<char>, t: Seq<char>, c: Seq<char>, o: char, i: int)
    requires
        lacks(a, o),
        lacks(c, o),
        one_open(t, o),
        0 <= i < (a + t + c).len(),
        (a + t + c)[i] == o,
    ensures
        i == a.len(),
{
    let s = a + t + c;
    if i < a.len() {
        assert(s[i] == a[i]);
    } else if i < a.len() + t.len() {
        if i > a.len() {
            assert(s[i] == t[i - a.len()]);
            assert(t.drop_first()[i - a.len() - 1] == t[i - a.len()]);
        }
    } else {
        assert(s[i] == c[i - a.len() - t.len()]);
    }
}

/// A pattern that starts with `o` and differs early from `t` does not occur in
/// `a + t + c`, where `t` holds the only `o`.
proof fn lemma_other_tag_absent(a: Seq<char>, t: Seq<char>, c: Seq<char>, p: Seq<char>, o: char)
    requires
        lacks(a, o),
        lacks(c, o),
        one_open(t, o),
        p.len() > 0,
        p[0] == o,
        differs_early(p, t),
    ensures
        find_from(a + t + c, p, 0, false) is None,
{
    let s = a + t + c;
    lemma_find_from_bounds(s, p, 0, false);
    if let Some(i) = find_from(s, p, 0, false) {
        assert(s[i + 0] == p[0]);
        lemma_only_open(a, t, c, o, i);
        if p.len() > 1 && t.len() > 1 && p[1] != t[1] {
            assert(s[i + 1] == p[1]);
            assert(s[i + 1] == t[1]);
        } else if p.len() > 2 && t.len() > 2 && p[2] != t[2] {
            assert(s[i + 2] == p[2]);
            assert(s[i + 2] == t[2]);
        } else {
            assert(s[i + 3] == p[3]);
            assert(s[i + 3] == t[3]);
        }
    }
}

/// Replacing `t`, the one place of `o` in `a + t + c`, by `r`.
proof fn lemma_tag_gets_break(a: Seq<char>, t: Seq<char>, c: Seq<char>, r: Seq<char>, o: char)
    requires
        lacks(a, o),
        lacks(c, o),
        one_open(t, o),
    ensures
        replace_all(a + t + c, t, r) == a + r + c,
{
    let s = a + t + c;
    let n = a.len() as int;
    let e = n + t.len();
    assert(matches_at(s, n, t, false)) by {
        assert forall|k: int| 0 <= k < t.len() implies #[trigger] s[n + k] == t[k] by {}
    }
    lemma_find_from_bounds(s, t, 0, false);
    let i = find_from(s, t, 0, false).unwrap();
    assert(s[i + 0] == t[0]);
    lemma_only_open(a, t, c, o, i);
    lemma_find_from_bounds(s, t, e, false);
    if let Some(j) = find_from(s, t, e, false) {
        assert(s[j + 0] == t[0]);
        lemma_only_open(a, t, c, o, j);
    }
    assert(s.subrange(0, n) == a);
    assert(s.subrange(e, s.len() as int) == c);
    assert(crate::text::replace_from(s, t, r, e) == c);
    assert(replace_all(s, t, r) == s.subrange(0, n) + r + crate::text::replace_from(s, t, r, e));
    assert(replace_all(s, t, r) == a + r + c);
}

/// Applying line-break replacements, each a `<…` pattern followed by a line break,
/// to `a + t + c`: the one at `j0` (if `j0` is an index) matches `t` and adds a line
/// break after it; every other pattern differs early from `t` and changes nothing.
proof fn lemma_breaks_around_tag(
    a: Seq<char>,
    t: Seq<char>,
    c: Seq<char>,
    pairs: Seq<(Seq<char>, Seq<char>)>,
    j0: int,
)
    requires
        lacks(a, '<'),
        lacks(c, '<'),
        one_open(t, '<'),
        forall|j: int| 0 <= j < pairs.len() ==> (#[trigger] pairs[j]).0.len() > 0 && pairs[j].0[0] == '<'
            && pairs[j].1 == pairs[j].0 + seq!['\n'],
        forall|j: int| 0 <= j < pairs.len() && j != j0 ==> differs_early((#[trigger] pairs[j]).0, t),
        0 <= j0 < pairs.len() ==> pairs[j0].0 == t,
    ensures
        replace_each(a + t + c, pairs) == if 0 <= j0 < pairs.len() {
            a + t + (seq!['\n'] + c)
        } else {
            a + t + c
        },
    decreases pairs.len(),
{
    if pairs.len() > 0 {
        let rest = pairs.drop_first();
        assert forall|j: int| 0 <= j < rest.len() implies (#[trigger] rest[j]).0.len() > 0 && rest[j].0[0]
            == '<' && rest[j].1 == rest[j].0 + seq!['\n'] by {
            assert(rest[j] == pairs[j + 1]);
        }
        assert forall|j: int| 0 <= j < rest.len() && j != j0 - 1 implies differs_early(
            (#[trigger] rest[j]).0,
            t,
        ) by {
            assert(rest[j] == pairs[j + 1]);
        }
        if j0 == 0 {
            lemma_tag_gets_break(a, t, c, t + seq!['\n'], '<');
            assert(a + (t + seq!['\n']) + c == a + t + (seq!['\n'] + c));
            let c2 = seq!['\n'] + c;
            assert(lacks(c2, '<')) by {
                assert forall|k: int| 0 <= k < c2.len() implies #[trigger] c2[k] != '<' by {
                    if k > 0 {
                        assert(c2[k] == c[k - 1]);
                    }
                }
            }
            lemma_breaks_around_tag(a, t, c2, rest, -1);
        } else {
            lemma_other_tag_absent(a, t, c, pairs[0].0, '<');
            law_replace_absent(a + t + c, pairs[0].0, pairs[0].1);
            lemma_breaks_around_tag(a, t, c, rest, j0 - 1);
        }
    }
}

/// Text without `<` and `>` passes through tag stripping in front of anything.
proof fn lemma_strip_text_prefix(a: Seq<char>, rest: Seq<char>)
    requires
        lacks(a, '<'),
        lacks(a, '>'),
    ensures
        tags_stripped_from(a + rest, false) == a + tags_stripped_from(rest, false),
    decreases a.len(),
{
    if a.len() == 0 {
        assert(a + rest == rest);
    } else {
        let a2 = a.drop_first();
        assert(lacks(a2, '<') && lacks(a2, '>')) by {
            assert forall|k: int| 0 <= k < a2.len() implies #[trigger] a2[k] != '<' && a2[k] != '>' by {
                assert(a2[k] == a[k + 1]);
            }
        }
        lemma_strip_text_prefix(a2, rest);
        assert((a + rest).drop_first() == a2 + rest);
        assert((a + rest)[0] == a[0]);
        assert(a == seq![a[0]] + a2);
    }
}

/// Inside a tag, everything up to and including its closing `>` is dropped.
proof fn lemma_strip_tag_rest(u: Seq<char>, rest: Seq<char>)
    requires
        u.len() > 0,
        u.last() == '>',
        lacks(u.drop_last(), '>'),
    ensures
        tags_stripped_from(u + rest, true) == tags_stripped_from(rest, false),
    decreases u.len(),
{
    let s = u + rest;
    assert(s[0] == u[0]);
    assert(s.drop_first() == u.drop_first() + rest);
    if u.len() > 1 {
        let u2 = u.drop_first();
        assert(u[0] == u.drop_last()[0]);
        assert(lacks(u2.drop_last(), '>')) by {
            assert forall|k: int| 0 <= k < u2.drop_last().len() implies #[trigger] u2.drop_last()[k] != '>' by {
                assert(u2.drop_last()[k] == u.drop_last()[k + 1]);
            }
        }
        lemma_strip_tag_rest(u2, rest);
    } else {
        assert(u.drop_first() + rest == rest);
    }
}

/// Block removal leaves `h` unchanged when no `<` in it is followed by the first
/// letter of `tag`, in either case.
proof fn lemma_blocks_absent_after_open(h: Seq<char>, tag: Seq<char>)
    requires
        tag.len() > 0,
        forall|i: int| 0 <= i < h.len() && #[trigger] h[i] == '<' ==> i + 1 < h.len() && ascii_lower(
            h[i + 1],
        ) != tag[0],
    ensures
        tag_blocks_removed(h, tag) == h,
{
    lemma_find_from_bounds(h, open_tag(tag), 0, true);
    if let Some(i) = find_from(h, open_tag(tag), 0, true) {
        assert(ascii_lower(h[i + 0]) == open_tag(tag)[0]);
        assert(h[i] == '<');
        assert(ascii_lower(h[i + 1]) == open_tag(tag)[1]);
        assert(false);
    }
    law_remove_tag_blocks_absent(h, tag);
}

/// Two lines without line breaks, collapsed and trimmed, are the two trimmed lines.
proof fn lemma_two_lines(a: Seq<char>, b: Seq<char>)
    requires
        lacks(a, '\n'),
        lacks(b, '\n'),
        trim(a).len() > 0,
        trim(b).len() > 0,
    ensures
        trim(lines_collapsed(a + seq!['\n'] + b)) == trim(a) + seq!['\n'] + trim(b),
{
    let s = a + seq!['\n'] + b;
    let n = a.len() as int;
    lemma_find_from_bounds(s, seq!['\n'], 0, false);
    assert(matches_at(s, n, seq!['\n'], false));
    let i = find_from(s, seq!['\n'], 0, false).unwrap();
    if i < n {
        assert(s[i + 0] == a[i]);
    }
    assert(i == n);
    lemma_find_from_bounds(s, seq!['\n'], n + 1, false);
    if let Some(j) = find_from(s, seq!['\n'], n + 1, false) {
        assert(s[j + 0] == b[j - n - 1]);
    }
    assert(s.subrange(0, n) == a);
    assert(s.subrange(n + 1, s.len() as int) == b);
    assert(lines_collapsed_from(s, s.len() + 1int, false) == Seq::<char>::empty());
    assert(lines_collapsed_from(s, n + 1, false) == trim(b) + seq!['\n'] + Seq::<char>::empty());
    let ta = trim(a);
    let tb = trim(b);
    assert(lines_collapsed(s) == ta + seq!['\n'] + (tb + seq!['\n'] + Seq::<char>::empty()));
    let x = ta + seq!['\n'] + tb + seq!['\n'];
    assert(lines_collapsed(s) == x);
    law_trim_idempotent(a);
    law_trim_idempotent(b);
    assert(x[0] == ta[0]);
    assert(trim_start(x) == x);
    assert(is_white_space('\n'));
    let y = ta + seq!['\n'] + tb;
    assert(x.drop_last() == y);
    assert(y.last() == tb.last());
    assert(trim_end(y) == y);
    assert(trim_end(x) == y);
}

/// Every line-break replacement is a `<…` pattern followed by a line break.
proof fn lemma_block_break_pairs_shape()
    ensures
        forall|j: int| 0 <= j < block_break_pairs().len() ==> (#[trigger] block_break_pairs()[j]).0.len()
            > 0 && block_break_pairs()[j].0[0] == '<' && block_break_pairs()[j].1
            == block_break_pairs()[j].0 + seq!['\n'],
{
    reveal_strlit("</p>");
    reveal_strlit("</div>");
    reveal_strlit("</tr>");
    reveal_strlit("<br>");
    reveal_strlit("<br/>");
    reveal_strlit("<br />");
    reveal_strlit("</h1>");
    reveal_strlit("</h2>");
    reveal_strlit("</h3>");
    reveal_strlit("</h4>");
    reveal_strlit("<li>");
    reveal_strlit("</p>\n");
    reveal_strlit("</div>\n");
    reveal_strlit("</tr>\n");
    reveal_strlit("<br>\n");
    reveal_strlit("<br/>\n");
    reveal_strlit("<br />\n");
    reveal_strlit("</h1>\n");
    reveal_strlit("</h2>\n");
    reveal_strlit("</h3>\n");
    reveal_strlit("</h4>\n");
    reveal_strlit("<li>\n");
    let bp = block_break_pairs();
    assert forall|j: int| 0 <= j < bp.len() implies (#[trigger] bp[j]).0.len() > 0 && bp[j].0[0]
        == '<' && bp[j].1 == bp[j].0 + seq!['\n'] by {
        assert(bp[j].1 =~= bp[j].0 + seq!['\n']);
    }
}

/// Text without markup, character references or line breaks on both sides of a
/// block tag `t` comes out as two trimmed lines, given that the line-break
/// replacement at `j0` is the one for `t`.
proof fn lemma_tag_between_texts(a: Seq<char>, t: Seq<char>, b: Seq<char>, j0: int)
    requires
        lacks(a, '<') && lacks(a, '>') && lacks(a, '&') && lacks(a, '\n'),
        lacks(b, '<') && lacks(b, '>') && lacks(b, '&') && lacks(b, '\n'),
        trim(a).len() > 0,
        trim(b).len() > 0,
        one_open(t, '<'),
        t.len() >= 2,
        t[1] != 's' && t[1] != 'S',
        t.last() == '>',
        lacks(t.drop_last(), '>'),
        0 <= j0 < block_break_pairs().len(),
        block_break_pairs()[j0].0 == t,
        forall|j: int| 0 <= j < block_break_pairs().len() && j != j0 ==> differs_early(
            (#[trigger] block_break_pairs()[j]).0,
            t,
        ),
    ensures
        html_text(a + t + b) == trim(a) + seq!['\n'] + trim(b),
{
    let h = a + t + b;
    reveal_strlit("style");
    reveal_strlit("script");
    assert forall|i: int| 0 <= i < h.len() && #[trigger] h[i] == '<' implies i + 1 < h.len() && ascii_lower(
        h[i + 1],
    ) != "style"@[0] by {
        lemma_only_open(a, t, b, '<', i);
        assert(h[i + 1] == t[1]);
    }
    lemma_blocks_absent_after_open(h, "style"@);
    lemma_blocks_absent_after_open(h, "script"@);
    lemma_block_break_pairs_shape();
    lemma_breaks_around_tag(a, t, b, block_break_pairs(), j0);
    let c = seq!['\n'] + b;
    let s3 = a + t + c;
    assert(lacks(c, '<') && lacks(c, '>') && lacks(c, '&')) by {
        assert forall|k: int| 0 <= k < c.len() implies #[trigger] c[k] != '<' && c[k] != '>' && c[k] != '&' by {
            if k > 0 {
                assert(c[k] == b[k - 1]);
            }
        }
    }
    // tags stripped
    assert(s3 == a + (t + c));
    lemma_strip_text_prefix(a, t + c);
    assert((t + c)[0] == '<');
    assert((t + c).drop_first() == t.drop_first() + c);
    let u = t.drop_first();
    assert(u.last() == '>');
    assert(lacks(u.drop_last(), '>')) by {
        assert forall|k: int| 0 <= k < u.drop_last().len() implies #[trigger] u.drop_last()[k] != '>' by {
            assert(u.drop_last()[k] == t.drop_last()[k + 1]);
        }
    }
    lemma_strip_tag_rest(u, c);
    lemma_strip_absent(c);
    let s4 = a + c;
    assert(tags_stripped(s3) == s4);
    assert(s4 == a + seq!['\n'] + b);
    // references
    assert(lacks(s4, '&')) by {
        assert forall|k: int| 0 <= k < s4.len() implies #[trigger] s4[k] != '&' by {
            if k >= a.len() {
                assert(s4[k] == c[k - a.len()]);
            }
        }
    }
    reveal_strlit("&amp;");
    reveal_strlit("&lt;");
    reveal_strlit("&gt;");
    reveal_strlit("&quot;");
    reveal_strlit("&apos;");
    reveal_strlit("&nbsp;");
    reveal_strlit("&#39;");
    let ep = entity_pairs();
    assert forall|i: int| 0 <= i < ep.len() implies (#[trigger] ep[i]).0.len() > 0 && ep[i].0[0]
        == '&' by {}
    lemma_replace_each_absent(s4, ep);
    lemma_find_from_bounds(s4, seq!['&', '#'], 0, false);
    if let Some(i) = find_from(s4, seq!['&', '#'], 0, false) {
        assert(s4[i + 0] == '&');
        assert(false);
    }
    law_numeric_refs_absent(s4);
    lemma_two_lines(a, b);
}

/// A line break follows each block-level tag: `</p>`, `</div>`, `</tr>`, `<br>`,
/// `<br/>`, `<br />`, `</h1>` to `</h4>` and `<li>`. Plain text on both sides of such
/// a tag (no markup, no character reference, no line break, not blank) ends up as
/// two lines, each trimmed.
pub proof fn law_block_tags_break_lines(a: Seq<char>, t: Seq<char>, b: Seq<char>)
    requires
        t == "</p>"@ || t == "</div>"@ || t == "</tr>"@ || t == "<br>"@ || t == "<br/>"@ || t == "<br />"@ || t == "</h1>"@ || t == "</h2>"@ || t == "</h3>"@ || t == "</h4>"@ || t == "<li>"@,
        forall|k: int| 0 <= k < a.len() ==> a[k] != '<' && a[k] != '>' && a[k] != '&' && a[k] != '\n',
        forall|k: int| 0 <= k < b.len() ==> b[k] != '<' && b[k] != '>' && b[k] != '&' && b[k] != '\n',
        trim(a).len() > 0,
        trim(b).len() > 0,
    ensures
        html_text(a + t + b) == trim(a) + seq!['\n'] + trim(b),
{
    reveal_strlit("</p>");
    reveal_strlit("</div>");
    reveal_strlit("</tr>");
    reveal_strlit("<br>");
    reveal_strlit("<br/>");
    reveal_strlit("<br />");
    reveal_strlit("</h1>");
    reveal_strlit("</h2>");
    reveal_strlit("</h3>");
    reveal_strlit("</h4>");
    reveal_strlit("<li>");
    let bp = block_break_pairs();
    assert(bp[0].0 == "</p>"@);
    assert(bp[1].0 == "</div>"@);
    assert(bp[2].0 == "</tr>"@);
    assert(bp[3].0 == "<br>"@);
    assert(bp[4].0 == "<br/>"@);
    assert(bp[5].0 == "<br />"@);
    assert(bp[6].0 == "</h1>"@);
    assert(bp[7].0 == "</h2>"@);
    assert(bp[8].0 == "</h3>"@);
    assert(bp[9].0 == "</h4>"@);
    assert(bp[10].0 == "<li>"@);
    if t == "</p>"@ {
        assert forall|j: int| 0 <= j < bp.len() && j != 0 implies differs_early((#[trigger] bp[j]).0, t) by {
            assert(j == 0 || j == 1 || j == 2 || j == 3 || j == 4 || j == 5 || j == 6 || j == 7 || j == 8 || j == 9 || j == 10);
        }
        assert(lacks(t.drop_first(), '<') && lacks(t.drop_last(), '>'));
        lemma_tag_between_texts(a, t, b, 0);
    }
    if t == "</div>"@ {
        assert forall|j: int| 0 <= j < bp.len() && j != 1 implies differs_early((#[trigger] bp[j]).0, t) by {
            assert(j == 0 || j == 1 || j == 2 || j == 3 || j == 4 || j == 5 || j == 6 || j == 7 || j == 8 || j == 9 || j == 10);
        }
        assert(lacks(t.drop_first(), '<') && lacks(t.drop_last(), '>'));
        lemma_tag_between_texts(a, t, b, 1);
    }
    if t == "</tr>"@ {
        assert forall|j: int| 0 <= j < bp.len() && j != 2 implies differs_early((#[trigger] bp[j]).0, t) by {
            assert(j == 0 || j == 1 || j == 2 || j == 3 || j == 4 || j == 5 || j == 6 || j == 7 || j == 8 || j == 9 || j == 10);
        }
        assert(lacks(t.drop_first(), '<') && lacks(t.drop_last(), '>'));
        lemma_tag_between_texts(a, t, b, 2);
    }
    if t == "<br>"@ {
        assert forall|j: int| 0 <= j < bp.len() && j != 3 implies differs_early((#[trigger] bp[j]).0, t) by {
            assert(j == 0 || j == 1 || j == 2 || j == 3 || j == 4 || j == 5 || j == 6 || j == 7 || j == 8 || j == 9 || j == 10);
        }
        assert(lacks(t.drop_first(), '<') && lacks(t.drop_last(), '>'));
        lemma_tag_between_texts(a, t, b, 3);
    }
    if t == "<br/>"@ {
        assert forall|j: int| 0 <= j < bp.len() && j != 4 implies differs_early((#[trigger] bp[j]).0, t) by {
            assert(j == 0 || j == 1 || j == 2 || j == 3 || j == 4 || j == 5 || j == 6 || j == 7 || j == 8 || j == 9 || j == 10);
        }
        assert(lacks(t.drop_first(), '<') && lacks(t.drop_last(), '>'));
        lemma_tag_between_texts(a, t, b, 4);
    }
    if t == "<br />"@ {
        assert forall|j: int| 0 <= j < bp.len() && j != 5 implies differs_early((#[trigger] bp[j]).0, t) by {
            assert(j == 0 || j == 1 || j == 2 || j == 3 || j == 4 || j == 5 || j == 6 || j == 7 || j == 8 || j == 9 || j == 10);
        }
        assert(lacks(t.drop_first(), '<') && lacks(t.drop_last(), '>'));
        lemma_tag_between_texts(a, t, b, 5);
    }
    if t == "</h1>"@ {
        assert forall|j: int| 0 <= j < bp.len() && j != 6 implies differs_early((#[trigger] bp[j]).0, t) by {
            assert(j == 0 || j == 1 || j == 2 || j == 3 || j == 4 || j == 5 || j == 6 || j == 7 || j == 8 || j == 9 || j == 10);
        }
        assert(lacks(t.drop_first(), '<') && lacks(t.drop_last(), '>'));
        lemma_tag_between_texts(a, t, b, 6);
    }
    if t == "</h2>"@ {
        assert forall|j: int| 0 <= j < bp.len() && j != 7 implies differs_early((#[trigger] bp[j]).0, t) by {
            assert(j == 0 || j == 1 || j == 2 || j == 3 || j == 4 || j == 5 || j == 6 || j == 7 || j == 8 || j == 9 || j == 10);
        }
        assert(lacks(t.drop_first(), '<') && lacks(t.drop_last(), '>'));
        lemma_tag_between_texts(a, t, b, 7);
    }
    if t == "</h3>"@ {
        assert forall|j: int| 0 <= j < bp.len() && j != 8 implies differs_early((#[trigger] bp[j]).0, t) by {
            assert(j == 0 || j == 1 || j == 2 || j == 3 || j == 4 || j == 5 || j == 6 || j == 7 || j == 8 || j == 9 || j == 10);
        }
        assert(lacks(t.drop_first(), '<') && lacks(t.drop_last(), '>'));
        lemma_tag_between_texts(a, t, b, 8);
    }
    if t == "</h4>"@ {
        assert forall|j: int| 0 <= j < bp.len() && j != 9 implies differs_early((#[trigger] bp[j]).0, t) by {
            assert(j == 0 || j == 1 || j == 2 || j == 3 || j == 4 || j == 5 || j == 6 || j == 7 || j == 8 || j == 9 || j == 10);
        }
        assert(lacks(t.drop_first(), '<') && lacks(t.drop_last(), '>'));
        lemma_tag_between_texts(a, t, b, 9);
    }
    if t == "<li>"@ {
        assert forall|j: int| 0 <= j < bp.len() && j != 10 implies differs_early((#[trigger] bp[j]).0, t) by {
            assert(j == 0 || j == 1 || j == 2 || j == 3 || j == 4 || j == 5 || j == 6 || j == 7 || j == 8 || j == 9 || j == 10);
        }
        assert(lacks(t.drop_first(), '<') && lacks(t.drop_last(), '>'));
        lemma_tag_between_texts(a, t, b, 10);
    }
}

// ---------------------------------------------------------------------------
// Blank lines between two pieces of text
// ---------------------------------------------------------------------------

/// Text without markup or character references goes through `html_text` as its
/// lines collapsed and trimmed.
proof fn lemma_markup_free(h: Seq<char>)
    requires
        lacks(h, '<'),
        lacks(h, '>'),
        lacks(h, '&'),
    ensures
        html_text(h) == trim(lines_collapsed(h)),
{
    lemma_blocks_absent(h, "style"@);
    lemma_blocks_absent(h, "script"@);
    reveal_strlit("</p>");
    reveal_strlit("</div>");
    reveal_strlit("</tr>");
    reveal_strlit("<br>");
    reveal_strlit("<br/>");
    reveal_strlit("<br />");
    reveal_strlit("</h1>");
    reveal_strlit("</h2>");
    reveal_strlit("</h3>");
    reveal_strlit("</h4>");
    reveal_strlit("<li>");
    let bp = block_break_pairs();
    assert forall|i: int| 0 <= i < bp.len() implies (#[trigger] bp[i]).0.len() > 0 && bp[i].0[0]
        == '<' by {}
    lemma_replace_each_absent(h, bp);
    lemma_strip_absent(h);
    reveal_strlit("&amp;");
    reveal_strlit("&lt;");
    reveal_strlit("&gt;");
    reveal_strlit("&quot;");
    reveal_strlit("&apos;");
    reveal_strlit("&nbsp;");
    reveal_strlit("&#39;");
    let ep = entity_pairs();
    assert forall|i: int| 0 <= i < ep.len() implies (#[trigger] ep[i]).0.len() > 0 && ep[i].0[0]
        == '&' by {}
    lemma_replace_each_absent(h, ep);
    lemma_find_from_bounds(h, seq!['&', '#'], 0, false);
    if let Some(i) = find_from(h, seq!['&', '#'], 0, false) {
        assert(h[i + 0] == '&');
        assert(false);
    }
    law_numeric_refs_absent(h);
}

/// A run of empty lines from `p` to `q` gives one line break, or none after a
/// blank line.
proof fn lemma_empty_lines(s: Seq<char>, p: int, q: int, pb: bool)
    requires
        0 <= p <= q < s.len(),
        forall|k: int| p <= k < q ==> #[trigger] s[k] == '\n',
    ensures
        lines_collapsed_from(s, p, pb) == (if p < q && !pb {
            seq!['\n']
        } else {
            Seq::<char>::empty()
        }) + lines_collapsed_from(s, q, pb || p < q),
    decreases q - p,
{
    if p < q {
        lemma_find_from_bounds(s, seq!['\n'], p, false);
        assert(matches_at(s, p, seq!['\n'], false));
        assert(find_from(s, seq!['\n'], p, false) == Some(p));
        assert(s.subrange(p, p) == Seq::<char>::empty());
        assert(trim(Seq::<char>::empty()) == Seq::<char>::empty()) by {
            assert(crate::text::trim_start(Seq::<char>::empty()) == Seq::<char>::empty());
            assert(crate::text::trim_end(Seq::<char>::empty()) == Seq::<char>::empty());
        }
        lemma_empty_lines(s, p + 1, q, true);
        if p + 1 < q {
            assert(lines_collapsed_from(s, p + 1, true) == lines_collapsed_from(s, q, true));
        }
    } else {
        assert(Seq::<char>::empty() + lines_collapsed_from(s, q, pb) == lines_collapsed_from(s, q, pb));
    }
}

/// `n` line breaks in a row.
pub open spec fn line_breaks(n: nat) -> Seq<char> {
    Seq::new(n, |i: int| '\n')
}

/// Plain text lines (no markup, no character reference) separated by one line
/// break stay on two lines; separated by two or more they keep exactly one blank
/// line between them. Each line is trimmed.
pub proof fn law_blank_lines_between_texts(a: Seq<char>, b: Seq<char>, n: nat)
    requires
        forall|k: int| 0 <= k < a.len() ==> a[k] != '<' && a[k] != '>' && a[k] != '&' && a[k] != '\n',
        forall|k: int| 0 <= k < b.len() ==> b[k] != '<' && b[k] != '>' && b[k] != '&' && b[k] != '\n',
        trim(a).len() > 0,
        trim(b).len() > 0,
        n >= 1,
    ensures
        html_text(a + line_breaks(n) + b) == trim(a) + (if n == 1 {
            seq!['\n']
        } else {
            seq!['\n', '\n']
        }) + trim(b),
{
    let nl = line_breaks(n);
    let s = a + nl + b;
    let la = a.len() as int;
    assert(lacks(s, '<') && lacks(s, '>') && lacks(s, '&')) by {
        assert forall|k: int| 0 <= k < s.len() implies #[trigger] s[k] != '<' && s[k] != '>' && s[k] != '&' by {
            if k < la {
                assert(s[k] == a[k]);
            } else if k < la + n {
                assert(s[k] == nl[k - la]);
            } else {
                assert(s[k] == b[k - la - n]);
            }
        }
    }
    lemma_markup_free(s);
    // the first line
    lemma_find_from_bounds(s, seq!['\n'], 0, false);
    assert(matches_at(s, la, seq!['\n'], false)) by {
        assert(s[la + 0] == nl[0]);
    }
    let i = find_from(s, seq!['\n'], 0, false).unwrap();
    if i < la {
        assert(s[i + 0] == a[i]);
    }
    assert(i == la);
    assert(s.subrange(0, la) == a);
    let ta = trim(a);
    let tb = trim(b);
    assert(lines_collapsed(s) == ta + seq!['\n'] + lines_collapsed_from(s, la + 1, false));
    // the empty lines
    let q = la + n;
    assert forall|k: int| la + 1 <= k < q implies #[trigger] s[k] == '\n' by {
        assert(s[k] == nl[k - la]);
    }
    lemma_empty_lines(s, la + 1, q, false);
    // the last line
    let pb = n > 1;
    lemma_find_from_bounds(s, seq!['\n'], q, false);
    if let Some(j) = find_from(s, seq!['\n'], q, false) {
        assert(s[j + 0] == b[j - q]);
    }
    assert(s.subrange(q, s.len() as int) == b);
    assert(lines_collapsed_from(s, s.len() + 1int, false) == Seq::<char>::empty());
    assert(lines_collapsed_from(s, q, pb) == tb + seq!['\n'] + Seq::<char>::empty());
    let mid: Seq<char> = if n == 1 {
        seq!['\n']
    } else {
        seq!['\n', '\n']
    };
    let x = ta + mid + tb + seq!['\n'];
    assert(lines_collapsed(s) =~= x);
    law_trim_idempotent(a);
    law_trim_idempotent(b);
    assert(x[0] == ta[0]);
    assert(crate::text::trim_start(x) == x);
    assert(is_white_space('\n'));
    let y = ta + mid + tb;
    assert(x.drop_last() == y);
    assert(y.last() == tb.last());
    assert(crate::text::trim_end(y) == y);
    assert(crate::text::trim_end(x) == y);
}

// ---------------------------------------------------------------------------
// A named character reference between two pieces of text
// ---------------------------------------------------------------------------

/// Replacements that do not occur change nothing.
proof fn lemma_replace_each_none(x: Seq<char>, pairs: Seq<(Seq<char>, Seq<char>)>)
    requires
        forall|j: int| 0 <= j < pairs.len() ==> (#[trigger] pairs[j]).0.len() > 0 && find_from(
            x,
            pairs[j].0,
            0,
            false,
        ) is None,
    ensures
        replace_each(x, pairs) == x,
    decreases pairs.len(),
{
    if pairs.len() > 0 {
        law_replace_absent(x, pairs[0].0, pairs[0].1);
        let rest = pairs.drop_first();
        assert forall|j: int| 0 <= j < rest.len() implies (#[trigger] rest[j]).0.len() > 0 && find_from(
            x,
            rest[j].0,
            0,
            false,
        ) is None by {
            assert(rest[j] == pairs[j + 1]);
        }
        lemma_replace_each_none(x, rest);
    }
}

/// The replacements before `j0` differ early from `e` and change nothing; the one at
/// `j0` turns `e` into its replacement.
proof fn lemma_entities_until(
    a: Seq<char>,
    e: Seq<char>,
    c: Seq<char>,
    pairs: Seq<(Seq<char>, Seq<char>)>,
    j0: int,
)
    requires
        lacks(a, '&'),
        lacks(c, '&'),
        one_open(e, '&'),
        forall|j: int| 0 <= j < pairs.len() ==> (#[trigger] pairs[j]).0.len() > 0 && pairs[j].0[0] == '&',
        forall|j: int| 0 <= j < j0 ==> differs_early((#[trigger] pairs[j]).0, e),
        0 <= j0 < pairs.len(),
        pairs[j0].0 == e,
    ensures
        replace_each(a + e + c, pairs) == replace_each(a + pairs[j0].1 + c, pairs.skip(j0 + 1)),
    decreases j0,
{
    let rest = pairs.drop_first();
    if j0 == 0 {
        lemma_tag_gets_break(a, e, c, pairs[0].1, '&');
        assert(rest == pairs.skip(1));
    } else {
        lemma_other_tag_absent(a, e, c, pairs[0].0, '&');
        law_replace_absent(a + e + c, pairs[0].0, pairs[0].1);
        assert forall|j: int| 0 <= j < rest.len() implies (#[trigger] rest[j]).0.len() > 0 && rest[j].0[0]
            == '&' by {
            assert(rest[j] == pairs[j + 1]);
        }
        assert forall|j: int| 0 <= j < j0 - 1 implies differs_early((#[trigger] rest[j]).0, e) by {
            assert(rest[j] == pairs[j + 1]);
        }
        lemma_entities_until(a, e, c, rest, j0 - 1);
        assert(rest.skip(j0) == pairs.skip(j0 + 1));
    }
}

/// After `&` standing for itself, a reference ending in `;` cannot start when no `;`
/// follows.
proof fn lemma_no_reference_after_amp(a: Seq<char>, c: Seq<char>, p: Seq<char>)
    requires
        lacks(a, '&'),
        lacks(c, '&'),
        lacks(c, ';'),
        p.len() >= 2,
        p[0] == '&',
        p.last() == ';',
    ensures
        find_from(a + seq!['&'] + c, p, 0, false) is None,
{
    let x = a + seq!['&'] + c;
    lemma_find_from_bounds(x, p, 0, false);
    if let Some(i) = find_from(x, p, 0, false) {
        assert(x[i + 0] == '&');
        assert(lacks(seq!['&'].drop_first(), '&'));
        lemma_only_open(a, seq!['&'], c, '&', i);
        let k = p.len() - 1;
        assert(x[i + k] == p[k]);
        assert(x[i + k] == c[i + k - a.len() - 1]);
    }
}

proof fn lemma_entity_between_texts(a: Seq<char>, e: Seq<char>, d: Seq<char>, b: Seq<char>, j0: int)
    requires
        lacks(a, '<') && lacks(a, '>') && lacks(a, '&') && lacks(a, '\n'),
        lacks(b, '<') && lacks(b, '>') && lacks(b, '&') && lacks(b, '\n'),
        lacks(e, '<') && lacks(e, '>') && lacks(e, '\n') && lacks(d, '\n'),
        one_open(e, '&'),
        0 <= j0 < entity_pairs().len(),
        entity_pairs()[j0] == (e, d),
        forall|j: int| 0 <= j < j0 ==> differs_early((#[trigger] entity_pairs()[j]).0, e),
        forall|j: int| 0 <= j < entity_pairs().len() ==> (#[trigger] entity_pairs()[j]).0.len() >= 2
            && entity_pairs()[j].0[0] == '&' && entity_pairs()[j].0.last() == ';',
        d == seq!['&'] ==> lacks(b, ';'),
        d != seq!['&'] ==> lacks(d, '&'),
    ensures
        html_text(a + e + b) == trim(a + d + b),
{
    let h = a + e + b;
    assert(lacks(h, '<') && lacks(h, '>') && lacks(h, '\n')) by {
        assert forall|k: int| 0 <= k < h.len() implies #[trigger] h[k] != '<' && h[k] != '>' && h[k] != '\n' by {
            if k < a.len() {
                assert(h[k] == a[k]);
            } else if k < a.len() + e.len() {
                assert(h[k] == e[k - a.len()]);
            } else {
                assert(h[k] == b[k - a.len() - e.len()]);
            }
        }
    }
    lemma_blocks_absent(h, "style"@);
    lemma_blocks_absent(h, "script"@);
    lemma_block_break_pairs_shape();
    let bp = block_break_pairs();
    lemma_replace_each_absent(h, bp);
    lemma_strip_absent(h);
    let ep = entity_pairs();
    lemma_entities_until(a, e, b, ep, j0);
    let y = a + d + b;
    let rest = ep.skip(j0 + 1);
    if d == seq!['&'] {
        assert forall|j: int| 0 <= j < rest.len() implies (#[trigger] rest[j]).0.len() > 0 && find_from(
            y,
            rest[j].0,
            0,
            false,
        ) is None by {
            assert(rest[j] == ep[j + j0 + 1]);
            lemma_no_reference_after_amp(a, b, rest[j].0);
        }
        lemma_replace_each_none(y, rest);
    } else {
        assert(lacks(y, '&')) by {
            assert forall|k: int| 0 <= k < y.len() implies #[trigger] y[k] != '&' by {
                if k < a.len() {
                    assert(y[k] == a[k]);
                } else if k < a.len() + d.len() {
                    assert(y[k] == d[k - a.len()]);
                } else {
                    assert(y[k] == b[k - a.len() - d.len()]);
                }
            }
        }
        assert forall|i: int, k: int| 0 <= i < rest.len() && 0 <= k < y.len() implies #[trigger] y[k]
            != (#[trigger] rest[i]).0[0] by {
            assert(rest[i] == ep[i + j0 + 1]);
        }
        assert forall|i: int| 0 <= i < rest.len() implies (#[trigger] rest[i]).0.len() > 0 by {
            assert(rest[i] == ep[i + j0 + 1]);
        }
        lemma_replace_each_absent(y, rest);
    }
    assert(lacks(y, '\n')) by {
        assert forall|k: int| 0 <= k < y.len() implies #[trigger] y[k] != '\n' by {
            if k < a.len() {
                assert(y[k] == a[k]);
            } else if k < a.len() + d.len() {
                assert(y[k] == d[k - a.len()]);
            } else {
                assert(y[k] == b[k - a.len() - d.len()]);
            }
        }
    }
    lemma_numeric_refs_keep(a, d, b);
    lemma_collapse_one_line(y);
}

/// Numeric reference decoding leaves `a + d + b` alone: either it holds no `&`, or
/// its one `&` has no `;` after it.
proof fn lemma_numeric_refs_keep(a: Seq<char>, d: Seq<char>, b: Seq<char>)
    requires
        lacks(a, '&'),
        lacks(b, '&'),
        d == seq!['&'] ==> lacks(b, ';'),
        d != seq!['&'] ==> lacks(d, '&'),
    ensures
        numeric_refs_decoded(a + d + b) == a + d + b,
{
    let y = a + d + b;
    let n = a.len() as int;
    lemma_find_from_bounds(y, seq!['&', '#'], 0, false);
    if let Some(i) = find_from(y, seq!['&', '#'], 0, false) {
        assert(y[i + 0] == '&');
        if d == seq!['&'] {
            assert(lacks(seq!['&'].drop_first(), '&'));
            lemma_only_open(a, d, b, '&', i);
            let q = i + 2;
            let hex = q < y.len() && (y[q] == 'x' || y[q] == 'X');
            let ds = if hex {
                q + 1
            } else {
                q
            };
            lemma_find_from_bounds(y, seq![';'], ds, false);
            if let Some(semi) = find_from(y, seq![';'], ds, false) {
                assert(y[semi + 0] == ';');
                assert(y[semi] == b[semi - n - 1]);
            }
            lemma_find_from_bounds(y, seq!['&', '#'], q, false);
            if let Some(j) = find_from(y, seq!['&', '#'], q, false) {
                assert(y[j + 0] == '&');
                lemma_only_open(a, d, b, '&', j);
            }
            assert(find_from(y, seq![';'], ds, false) is None);
            assert(numeric_refs_decoded_from(y, q) == y.subrange(q, y.len() as int));
            assert(numeric_refs_decoded(y) == y.subrange(0, n) + (seq!['&', '#'] + numeric_refs_decoded_from(y, q)));
            assert(y.subrange(0, n) + (seq!['&', '#'] + y.subrange(q, y.len() as int)) =~= y);
        } else {
            if i < n {
                assert(y[i] == a[i]);
            } else if i < n + d.len() {
                assert(y[i] == d[i - n]);
            } else {
                assert(y[i] == b[i - n - d.len()]);
            }
        }
    } else {
        law_numeric_refs_absent(y);
    }
}

/// The named references `&amp;`, `&lt;`, `&gt;`, `&quot;`, `&apos;`, `&nbsp;` and
/// `&#39;` between pieces of plain text (no markup, no other reference, no line
/// break) stand for `&`, `<`, `>`, `"`, `'`, a space and `'`. After `&amp;`, the
/// text must hold no `;`, or the `&` it gives could start another reference.
pub proof fn law_named_entities_decoded(a: Seq<char>, e: Seq<char>, d: Seq<char>, b: Seq<char>)
    requires
        (e == "&amp;"@ && d == "&"@) || (e == "&lt;"@ && d == "<"@) || (e == "&gt;"@ && d == ">"@) || (e == "&quot;"@ && d == "\""@) || (e == "&apos;"@ && d == "'"@) || (e == "&nbsp;"@ && d == " "@) || (e == "&#39;"@ && d == "'"@),
        forall|k: int| 0 <= k < a.len() ==> a[k] != '<' && a[k] != '>' && a[k] != '&' && a[k] != '\n',
        forall|k: int| 0 <= k < b.len() ==> b[k] != '<' && b[k] != '>' && b[k] != '&' && b[k] != '\n',
        e == "&amp;"@ ==> forall|k: int| 0 <= k < b.len() ==> b[k] != ';',
    ensures
        html_text(a + e + b) == trim(a + d + b),
{
    reveal_strlit("&amp;");
    reveal_strlit("&");
    reveal_strlit("&lt;");
    reveal_strlit("<");
    reveal_strlit("&gt;");
    reveal_strlit(">");
    reveal_strlit("&quot;");
    reveal_strlit("\"");
    reveal_strlit("&apos;");
    reveal_strlit("'");
    reveal_strlit("&nbsp;");
    reveal_strlit(" ");
    reveal_strlit("&#39;");
    reveal_strlit("'");
    let ep = entity_pairs();
    assert(ep[0] == ("&amp;"@, "&"@));
    assert(ep[1] == ("&lt;"@, "<"@));
    assert(ep[2] == ("&gt;"@, ">"@));
    assert(ep[3] == ("&quot;"@, "\""@));
    assert(ep[4] == ("&apos;"@, "'"@));
    assert(ep[5] == ("&nbsp;"@, " "@));
    assert(ep[6] == ("&#39;"@, "'"@));
    assert forall|j: int| 0 <= j < ep.len() implies (#[trigger] ep[j]).0.len() >= 2 && ep[j].0[0] == '&'
        && ep[j].0.last() == ';' by {
        assert(j == 0 || j == 1 || j == 2 || j == 3 || j == 4 || j == 5 || j == 6);
    }
    assert(lacks(e, '<') && lacks(e, '>') && lacks(e, '\n') && lacks(d, '\n'));
    if e == "&amp;"@ && d == "&"@ {
        assert forall|j: int| 0 <= j < 0 implies differs_early((#[trigger] ep[j]).0, e) by {}
        assert(lacks(e.drop_first(), '&'));
        assert(d =~= seq!['&']);
        lemma_entity_between_texts(a, e, d, b, 0);
    }
    if e == "&lt;"@ && d == "<"@ {
        assert forall|j: int| 0 <= j < 1 implies differs_early((#[trigger] ep[j]).0, e) by {}
        assert(lacks(e.drop_first(), '&'));
        assert(d[0] != '&' && d.len() == 1);
        assert(d != seq!['&']);
        assert(lacks(d, '&'));
        lemma_entity_between_texts(a, e, d, b, 1);
    }
    if e == "&gt;"@ && d == ">"@ {
        assert forall|j: int| 0 <= j < 2 implies differs_early((#[trigger] ep[j]).0, e) by {}
        assert(lacks(e.drop_first(), '&'));
        assert(d[0] != '&' && d.len() == 1);
        assert(d != seq!['&']);
        assert(lacks(d, '&'));
        lemma_entity_between_texts(a, e, d, b, 2);
    }
    if e == "&quot;"@ && d == "\""@ {
        assert forall|j: int| 0 <= j < 3 implies differs_early((#[trigger] ep[j]).0, e) by {}
        assert(lacks(e.drop_first(), '&'));
        assert(d[0] != '&' && d.len() == 1);
        assert(d != seq!['&']);
        assert(lacks(d, '&'));
        lemma_entity_between_texts(a, e, d, b, 3);
    }
    if e == "&apos;"@ && d == "'"@ {
        assert forall|j: int| 0 <= j < 4 implies differs_early((#[trigger] ep[j]).0, e) by {}
        assert(lacks(e.drop_first(), '&'));
        assert(d[0] != '&' && d.len() == 1);
        assert(d != seq!['&']);
        assert(lacks(d, '&'));
        lemma_entity_between_texts(a, e, d, b, 4);
    }
    if e == "&nbsp;"@ && d == " "@ {
        assert forall|j: int| 0 <= j < 5 implies differs_early((#[trigger] ep[j]).0, e) by {}
        assert(lacks(e.drop_first(), '&'));
        assert(d[0] != '&' && d.len() == 1);
        assert(d != seq!['&']);
        assert(lacks(d, '&'));
        lemma_entity_between_texts(a, e, d, b, 5);
    }
    if e == "&#39;"@ && d == "'"@ {
        assert forall|j: int| 0 <= j < 6 implies differs_early((#[trigger] ep[j]).0, e) by {}
        assert(lacks(e.drop_first(), '&'));
        assert(d[0] != '&' && d.len() == 1);
        assert(d != seq!['&']);
        assert(lacks(d, '&'));
        lemma_entity_between_texts(a, e, d, b, 6);
    }
}

} // verus!
