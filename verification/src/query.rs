//! What the client asks the IMAP server: search criteria, message ranges, UID sets.
use vstd::prelude::*;
use crate::order::{insert_desc_by, law_sort_desc_by, sort_desc_by};
use crate::text::{
    ascii_lower, chars_of, decimal, decimal_chars, is_white_space, lower_ascii_char, match_at,
    matches_at, push_all, slice_chars, string_from_chars, white_space,
};

verus! {

// ---------------------------------------------------------------------------
// Words and joining
// ---------------------------------------------------------------------------

/// The index just past the run of non-whitespace characters starting at `pos`.
pub open spec fn word_end(s: Seq<char>, pos: int) -> int
    decreases s.len() - pos,
{
    if pos < 0 || pos >= s.len() || is_white_space(s[pos]) {
        pos
    } else {
        word_end(s, pos + 1)
    }
}

/// The whitespace-separated words of `s` from `pos` on (std's `split_whitespace`).
pub open spec fn words_from(s: Seq<char>, pos: int) -> Seq<Seq<char>>
    decreases s.len() - pos,
{
    if pos < 0 || pos >= s.len() {
        seq![]
    } else if is_white_space(s[pos]) {
        words_from(s, pos + 1)
    } else {
        proof {
            lemma_word_end(s, pos);
        }
        let e = word_end(s, pos);
        if e <= pos {
            seq![]
        } else {
            seq![s.subrange(pos, e)] + words_from(s, e)
        }
    }
}

pub open spec fn words(s: Seq<char>) -> Seq<Seq<char>> {
    words_from(s, 0)
}

pub proof fn lemma_word_end(s: Seq<char>, pos: int)
    requires
        0 <= pos <= s.len(),
    ensures
        pos <= word_end(s, pos) <= s.len(),
        forall|k: int| pos <= k < word_end(s, pos) ==> !is_white_space(#[trigger] s[k]),
        word_end(s, pos) < s.len() ==> is_white_space(s[word_end(s, pos)]),
    decreases s.len() - pos,
{
    if pos < s.len() && !is_white_space(s[pos]) {
        lemma_word_end(s, pos + 1);
    }
}

/// `parts` joined with `sep` between neighbours.
pub open spec fn join(parts: Seq<Seq<char>>, sep: Seq<char>) -> Seq<char>
    decreases parts.len(),
{
    if parts.len() == 0 {
        seq![]
    } else if parts.len() == 1 {
        parts[0]
    } else {
        join(parts.drop_last(), sep) + sep + parts.last()
    }
}

// ---------------------------------------------------------------------------
// Search criteria
// ---------------------------------------------------------------------------

pub open spec fn lower_word(t: Seq<char>) -> Seq<char> {
    t.map_values(|c: char| ascii_lower(c))
}

/// `"` + v + `"`
pub open spec fn quoted(v: Seq<char>) -> Seq<char> {
    seq!['"'] + v + seq!['"']
}

/// The IMAP search key for one word of a query: `is:unread` and `is:read` (in any
/// ASCII case) select by the seen flag, `from:`, `to:` and `subject:` search those
/// headers, and any other word is searched for in the whole message.
pub open spec fn search_key(t: Seq<char>) -> Seq<char> {
    if lower_word(t) == "is:unread"@ {
        "UNSEEN"@
    } else if lower_word(t) == "is:read"@ {
        "SEEN"@
    } else if matches_at(t, 0, "from:"@, false) {
        "FROM "@ + quoted(t.skip(5))
    } else if matches_at(t, 0, "to:"@, false) {
        "TO "@ + quoted(t.skip(3))
    } else if matches_at(t, 0, "subject:"@, false) {
        "SUBJECT "@ + quoted(t.skip(8))
    } else {
        "TEXT "@ + quoted(t)
    }
}

/// The IMAP search criteria for a query: the keys of its words joined by spaces
/// (so all of them must hold), or `ALL` for a query without words.
pub open spec fn search_criteria(q: Seq<char>) -> Seq<char> {
    let ws = words(q);
    if ws.len() == 0 {
        "ALL"@
    } else {
        join(ws.map_values(|t: Seq<char>| search_key(t)), " "@)
    }
}

fn lowercase_word(t: &Vec<char>) -> (r: Vec<char>)
    ensures
        r@ == lower_word(t@),
{
    let mut out: Vec<char> = Vec::new();
    let mut i: usize = 0;
    while i < t.len()
        invariant
            i <= t.len(),
            out@ == lower_word(t@.take(i as int)),
        decreases t.len() - i,
    {
        out.push(lower_ascii_char(t[i]));
        i = i + 1;
        assert(out@ =~= lower_word(t@.take(i as int)));
    }
    assert(t@.take(t.len() as int) == t@);
    out
}

fn quoted_key(prefix: &str, v: &Vec<char>) -> (r: Vec<char>)
    ensures
        r@ == prefix@ + quoted(v@),
{
    let mut out = chars_of(prefix);
    out.push('"');
    push_all(&mut out, v);
    out.push('"');
    assert(out@ =~= prefix@ + quoted(v@));
    out
}

fn key_for_word(t: &Vec<char>) -> (r: Vec<char>)
    ensures
        r@ == search_key(t@),
{
    let low = lowercase_word(t);
    let unread = chars_of("is:unread");
    let read = chars_of("is:read");
    let from = chars_of("from:");
    let to = chars_of("to:");
    let subject = chars_of("subject:");
    proof {
        reveal_strlit("from:");
        reveal_strlit("to:");
        reveal_strlit("subject:");
    }
    if crate::text::chars_eq(&low, &unread) {
        chars_of("UNSEEN")
    } else if crate::text::chars_eq(&low, &read) {
        chars_of("SEEN")
    } else if match_at(t, 0, &from, false) {
        let v = slice_chars(t, 5, t.len());
        quoted_key("FROM ", &v)
    } else if match_at(t, 0, &to, false) {
        let v = slice_chars(t, 3, t.len());
        quoted_key("TO ", &v)
    } else if match_at(t, 0, &subject, false) {
        let v = slice_chars(t, 8, t.len());
        quoted_key("SUBJECT ", &v)
    } else {
        quoted_key("TEXT ", t)
    }
}

/// Translates a search query into IMAP search criteria (see `search_criteria`).
pub fn translate_query(query: &str) -> (r: String)
    ensures
        r@ == search_criteria(query@),
{
    let s = chars_of(query);
    let ghost ws = words(s@);
    let ghost keys = ws.map_values(|t: Seq<char>| search_key(t));
    let mut out: Vec<char> = Vec::new();
    let mut any = false;
    let mut pos: usize = 0;
    let ghost mut done: int = 0;
    proof {
        reveal_strlit(" ");
    }
    while pos < s.len()
        invariant
            pos <= s.len(),
            s@ == query@,
            ws == words(s@),
            keys == ws.map_values(|t: Seq<char>| search_key(t)),
            0 <= done <= ws.len(),
            words_from(s@, pos as int) == ws.skip(done),
            out@ == join(keys.take(done), " "@),
            any == (done > 0),
            " "@ == seq![' '],
        decreases s.len() - pos,
    {
        if white_space(s[pos as usize]) {
            pos = pos + 1;
        } else {
            proof {
                lemma_word_end(s@, pos as int);
            }
            let mut e: usize = pos;
            while e < s.len() && !white_space(s[e])
                invariant
                    pos <= e <= s.len(),
                    word_end(s@, pos as int) == word_end(s@, e as int),
                decreases s.len() - e,
            {
                e = e + 1;
            }
            let word = slice_chars(&s, pos, e);
            let key = key_for_word(&word);
            assert(ws.skip(done)[0] == word@);
            assert(ws.skip(done).drop_first() == ws.skip(done + 1));
            assert(keys[done] == search_key(word@));
            let ghost before = out@;
            if any {
                out.push(' ');
            }
            push_all(&mut out, &key);
            assert(keys.take(done + 1).drop_last() == keys.take(done));
            assert(keys.take(done + 1).last() == keys[done]);
            proof {
                if done == 0 {
                    assert(keys.take(1) == seq![keys[0]]);
                    assert(out@ == join(keys.take(done + 1), " "@));
                } else {
                    assert(out@ == before + seq![' '] + key@);
                    assert(out@ == join(keys.take(done + 1), " "@));
                }
            }
            proof {
                done = done + 1;
            }
            any = true;
            pos = e;
        }
    }
    assert(ws.skip(done) == Seq::<Seq<char>>::empty());
    assert(done == ws.len());
    assert(keys.take(done) == keys);
    if !any {
        let all = chars_of("ALL");
        string_from_chars(&all)
    } else {
        string_from_chars(&out)
    }
}


// ---------------------------------------------------------------------------
// Which messages to fetch
// ---------------------------------------------------------------------------

/// The most search results that are fetched.
pub const MAX_SEARCH_RESULTS: usize = 50;

/// A UID as a sort key.
pub open spec fn by_value() -> spec_fn(u32) -> int {
    |u: u32| u as int
}

/// The highest `MAX_SEARCH_RESULTS` UIDs found, highest first.
pub open spec fn newest_uids(uids: Seq<u32>) -> Seq<u32> {
    let s = sort_desc_by(uids, by_value());
    if s.len() <= MAX_SEARCH_RESULTS {
        s
    } else {
        s.take(MAX_SEARCH_RESULTS as int)
    }
}

/// Keeps the highest `MAX_SEARCH_RESULTS` of the UIDs a search found, highest first.
pub fn select_newest_uids(uids: Vec<u32>) -> (r: Vec<u32>)
    ensures
        r@ == newest_uids(uids@),
{
    let ghost orig = uids@;
    let ghost n = uids@.len();
    let mut rest = uids;
    let mut out: Vec<u32> = Vec::new();
    let ghost mut i: int = 0;
    assert(orig.take(0) == Seq::<u32>::empty());
    while rest.len() > 0
        invariant
            0 <= i <= n,
            orig.len() == n,
            rest@ == orig.skip(i),
            out@ == sort_desc_by(orig.take(i), by_value()),
        decreases rest.len(),
    {
        let ghost old_rest = rest@;
        let x = rest.remove(0);
        assert(orig.skip(i)[0] == orig[i]);
        assert(orig.skip(i).skip(1) =~= orig.skip(i + 1));
        let ghost before = out@;
        assert(orig.take(i + 1).drop_last() == orig.take(i));
        let mut j: usize = out.len();
        assert(before.take(j as int) == before);
        assert(before.skip(j as int) == Seq::<u32>::empty());
        while j > 0 && out[j - 1] < x
            invariant
                j <= out@.len(),
                before == out@,
                insert_desc_by(before, x, by_value()) == insert_desc_by(
                    before.take(j as int),
                    x,
                    by_value(),
                ) + before.skip(j as int),
            decreases j,
        {
            assert(before.take(j as int).drop_last() == before.take(j - 1));
            assert(before.skip(j - 1) == seq![before[j - 1]] + before.skip(j as int));
            j = j - 1;
        }
        out.insert(j, x);
        assert(out@ =~= before.take(j as int).push(x) + before.skip(j as int));
        proof {
            i = i + 1;
        }
    }
    assert(orig.take(n as int) == orig);
    out.truncate(MAX_SEARCH_RESULTS);
    out
}

/// The UIDs as an IMAP UID set: decimal numbers separated by commas.
pub open spec fn uid_set(uids: Seq<u32>) -> Seq<char> {
    join(uids.map_values(|u: u32| decimal(u as nat)), ","@)
}

/// Writes UIDs as an IMAP UID set (see `uid_set`).
pub fn uid_set_string(uids: &Vec<u32>) -> (r: String)
    ensures
        r@ == uid_set(uids@),
{
    let ghost parts = uids@.map_values(|u: u32| decimal(u as nat));
    let mut out: Vec<char> = Vec::new();
    let mut i: usize = 0;
    proof {
        reveal_strlit(",");
    }
    assert(parts.take(0) == Seq::<Seq<char>>::empty());
    while i < uids.len()
        invariant
            i <= uids@.len(),
            parts == uids@.map_values(|u: u32| decimal(u as nat)),
            out@ == join(parts.take(i as int), ","@),
            ","@ == seq![','],
        decreases uids.len() - i,
    {
        let ghost before = out@;
        if i > 0 {
            out.push(',');
        }
        let d = decimal_chars(uids[i] as u64);
        push_all(&mut out, &d);
        assert(parts.take(i + 1).drop_last() == parts.take(i as int));
        assert(parts.take(i + 1).last() == parts[i as int]);
        proof {
            if i == 0 {
                assert(parts.take(1) == seq![parts[0]]);
            }
        }
        i = i + 1;
    }
    assert(parts.take(uids@.len() as int) == parts);
    string_from_chars(&out)
}

/// The sequence number of the first of the last `count` messages of a mailbox holding
/// `total` (at least 1).
pub open spec fn first_recent(total: u32, count: u32) -> int {
    let back = if count >= 1 {
        count - 1
    } else {
        0
    };
    let start = if total >= back {
        total - back
    } else {
        0
    };
    if start >= 1 {
        start
    } else {
        1
    }
}

/// The IMAP sequence set of the last `count` messages of a mailbox holding `total`:
/// `start:total`; nothing when the mailbox is empty.
pub fn recent_range(total: u32, count: u32) -> (r: Option<String>)
    ensures
        r is None <==> total == 0,
        r matches Some(s) ==> s@ == decimal(first_recent(total, count) as nat) + seq![':'] + decimal(
            total as nat,
        ),
{
    if total == 0 {
        return None;
    }
    let start = total.saturating_sub(count.saturating_sub(1));
    let start = if start < 1 {
        1
    } else {
        start
    };
    let mut out = decimal_chars(start as u64);
    out.push(':');
    let t = decimal_chars(total as u64);
    push_all(&mut out, &t);
    Some(string_from_chars(&out))
}

/// The inbox range holds the last `count` messages, or all of them when there are
/// fewer (a count of 0 is taken as 1), and always ends at the newest.
pub proof fn law_recent_range_size(total: u32, count: u32)
    requires
        total >= 1,
    ensures
        1 <= first_recent(total, count) <= total,
        total - first_recent(total, count) + 1 == if count == 0 {
            1
        } else if count <= total {
            count as int
        } else {
            total as int
        },
{
}

/// The newest-first, truncated UID list holds only found UIDs, in descending order.
pub proof fn law_newest_uids(uids: Seq<u32>)
    ensures
        newest_uids(uids).len() == if uids.len() <= MAX_SEARCH_RESULTS {
            uids.len()
        } else {
            MAX_SEARCH_RESULTS as nat
        },
        forall|i: int, j: int|
            0 <= i < j < newest_uids(uids).len() ==> newest_uids(uids)[i] >= newest_uids(uids)[j],
        forall|i: int| 0 <= i < newest_uids(uids).len() ==> uids.contains(#[trigger] newest_uids(uids)[i]),
{
    let s = sort_desc_by(uids, by_value());
    law_sort_desc_by(uids, by_value());
    vstd::seq_lib::to_multiset_len(s);
    vstd::seq_lib::to_multiset_len(uids);
    assert forall|i: int, j: int| 0 <= i < j < newest_uids(uids).len() implies newest_uids(uids)[i]
        >= newest_uids(uids)[j] by {
        assert(by_value()(s[i]) >= by_value()(s[j]));
    }
    assert forall|i: int| 0 <= i < newest_uids(uids).len() implies uids.contains(
        #[trigger] newest_uids(uids)[i],
    ) by {
        vstd::seq_lib::to_multiset_contains(s, s[i]);
        vstd::seq_lib::to_multiset_contains(uids, s[i]);
        assert(s.contains(s[i]));
    }
}


// ---------------------------------------------------------------------------
// Laws
// ---------------------------------------------------------------------------

proof fn lemma_word_end_shift(x: Seq<char>, b: Seq<char>, k: int)
    requires
        0 <= k <= b.len(),
    ensures
        word_end(x + b, x.len() + k) == x.len() + word_end(b, k),
    decreases b.len() - k,
{
    let s = x + b;
    if k < b.len() {
        assert(s[x.len() + k] == b[k]);
        if !is_white_space(b[k]) {
            lemma_word_end_shift(x, b, k + 1);
        }
    }
}

proof fn lemma_words_shift(x: Seq<char>, b: Seq<char>, k: int)
    requires
        0 <= k <= b.len(),
    ensures
        words_from(x + b, x.len() + k) == words_from(b, k),
    decreases b.len() - k,
{
    let s = x + b;
    if k < b.len() {
        assert(s[x.len() + k] == b[k]);
        if is_white_space(b[k]) {
            lemma_words_shift(x, b, k + 1);
        } else {
            lemma_word_end_shift(x, b, k);
            lemma_word_end(b, k);
            let e = word_end(b, k);
            lemma_words_shift(x, b, e);
            assert(s.subrange(x.len() + k, x.len() + e) =~= b.subrange(k, e));
        }
    }
}

proof fn lemma_word_end_prefix(a: Seq<char>, b: Seq<char>, pos: int)
    requires
        0 <= pos <= a.len(),
    ensures
        word_end(a + seq![' '] + b, pos) == word_end(a, pos),
    decreases a.len() - pos,
{
    let s = a + seq![' '] + b;
    if pos < a.len() {
        assert(s[pos] == a[pos]);
        if !is_white_space(a[pos]) {
            lemma_word_end_prefix(a, b, pos + 1);
        }
    } else {
        assert(s[pos] == ' ');
    }
}

proof fn lemma_words_concat(a: Seq<char>, b: Seq<char>, pos: int)
    requires
        0 <= pos <= a.len(),
    ensures
        words_from(a + seq![' '] + b, pos) == words_from(a, pos) + words(b),
    decreases a.len() - pos,
{
    let s = a + seq![' '] + b;
    if pos == a.len() {
        assert(s[pos] == ' ');
        assert(s == (a + seq![' ']) + b);
        lemma_words_shift(a + seq![' '], b, 0);
        assert(words_from(a, pos) == Seq::<Seq<char>>::empty());
        assert(words_from(a, pos) + words(b) == words(b));
    } else {
        assert(s[pos] == a[pos]);
        if is_white_space(a[pos]) {
            lemma_words_concat(a, b, pos + 1);
        } else {
            lemma_word_end_prefix(a, b, pos);
            lemma_word_end(a, pos);
            let e = word_end(a, pos);
            lemma_words_concat(a, b, e);
            assert(s.subrange(pos, e) =~= a.subrange(pos, e));
            assert(words_from(s, pos) == seq![a.subrange(pos, e)] + words_from(s, e));
            assert(words_from(a, pos) == seq![a.subrange(pos, e)] + words_from(a, e));
        }
    }
}

proof fn lemma_join_concat(x: Seq<Seq<char>>, y: Seq<Seq<char>>, sep: Seq<char>)
    requires
        x.len() > 0,
        y.len() > 0,
    ensures
        join(x + y, sep) == join(x, sep) + sep + join(y, sep),
    decreases y.len(),
{
    if y.len() == 1 {
        assert((x + y).drop_last() =~= x);
        assert((x + y).last() == y[0]);
    } else {
        lemma_join_concat(x, y.drop_last(), sep);
        assert((x + y).drop_last() =~= x + y.drop_last());
        assert((x + y).last() == y.last());
    }
}

/// The terms of a query all have to hold: the criteria of two queries written one
/// after the other, separated by a space, are the criteria of each joined by a space.
pub proof fn law_terms_combine(q1: Seq<char>, q2: Seq<char>)
    requires
        words(q1).len() > 0,
        words(q2).len() > 0,
    ensures
        search_criteria(q1 + " "@ + q2) == search_criteria(q1) + " "@ + search_criteria(q2),
{
    reveal_strlit(" ");
    lemma_words_concat(q1, q2, 0);
    let w1 = words(q1);
    let w2 = words(q2);
    assert(q1 + " "@ + q2 == q1 + seq![' '] + q2);
    assert(words(q1 + " "@ + q2) == w1 + w2);
    let k1 = w1.map_values(|t: Seq<char>| search_key(t));
    let k2 = w2.map_values(|t: Seq<char>| search_key(t));
    assert((w1 + w2).map_values(|t: Seq<char>| search_key(t)) =~= k1 + k2);
    lemma_join_concat(k1, k2, " "@);
}

/// What each kind of query word searches for: `from:`, `to:` and `subject:` search
/// that header for the rest of the word, quoted; `is:unread` and `is:read` (in any
/// ASCII case) select unseen and seen messages; a word without `:` is searched for,
/// quoted, in the whole message.
pub proof fn law_search_keys(v: Seq<char>, t: Seq<char>)
    ensures
        search_key(seq!['f', 'r', 'o', 'm', ':'] + v) == seq!['F', 'R', 'O', 'M', ' ', '"'] + v + seq!['"'],
        search_key(seq!['t', 'o', ':'] + v) == seq!['T', 'O', ' ', '"'] + v + seq!['"'],
        search_key(seq!['s', 'u', 'b', 'j', 'e', 'c', 't', ':'] + v) == seq!['S', 'U', 'B', 'J', 'E', 'C', 'T', ' ', '"'] + v + seq!['"'],
        lower_word(t) == seq!['i', 's', ':', 'u', 'n', 'r', 'e', 'a', 'd'] ==> search_key(t) == seq!['U', 'N', 'S', 'E', 'E', 'N'],
        lower_word(t) == seq!['i', 's', ':', 'r', 'e', 'a', 'd'] ==> search_key(t) == seq!['S', 'E', 'E', 'N'],
        (forall|k: int| 0 <= k < t.len() ==> t[k] != ':') ==> search_key(t) == seq!['T', 'E', 'X', 'T', ' ', '"'] + t
            + seq!['"'],
{
    reveal_strlit("is:unread");
    reveal_strlit("is:read");
    reveal_strlit("from:");
    reveal_strlit("to:");
    reveal_strlit("subject:");
    reveal_strlit("UNSEEN");
    reveal_strlit("SEEN");
    reveal_strlit("FROM ");
    reveal_strlit("TO ");
    reveal_strlit("SUBJECT ");
    reveal_strlit("TEXT ");
    assert(seq!['i', 's', ':', 'u', 'n', 'r', 'e', 'a', 'd'] == "is:unread"@);
    assert(seq!['i', 's', ':', 'r', 'e', 'a', 'd'] == "is:read"@);
    assert(seq!['U', 'N', 'S', 'E', 'E', 'N'] == "UNSEEN"@);
    assert(seq!['S', 'E', 'E', 'N'] == "SEEN"@);
    let f = seq!['f', 'r', 'o', 'm', ':'] + v;
    assert(lower_word(f)[0] == 'f');
    assert(matches_at(f, 0, "from:"@, false));
    assert(f.skip(5) == v);
    assert(seq!['F', 'R', 'O', 'M', ' ', '"'] + v + seq!['"'] == "FROM "@ + quoted(v));
    let o = seq!['t', 'o', ':'] + v;
    assert(lower_word(o)[0] == 't');
    assert(!matches_at(o, 0, "from:"@, false)) by {
        if matches_at(o, 0, "from:"@, false) {
            assert(o[0int + 0] == "from:"@[0]);
        }
    }
    assert(matches_at(o, 0, "to:"@, false));
    assert(o.skip(3) == v);
    assert(seq!['T', 'O', ' ', '"'] + v + seq!['"'] == "TO "@ + quoted(v));
    let u = seq!['s', 'u', 'b', 'j', 'e', 'c', 't', ':'] + v;
    assert(lower_word(u)[0] == 's');
    assert(!matches_at(u, 0, "from:"@, false)) by {
        if matches_at(u, 0, "from:"@, false) {
            assert(u[0int + 0] == "from:"@[0]);
        }
    }
    assert(!matches_at(u, 0, "to:"@, false)) by {
        if matches_at(u, 0, "to:"@, false) {
            assert(u[0int + 0] == "to:"@[0]);
        }
    }
    assert(matches_at(u, 0, "subject:"@, false));
    assert(u.skip(8) == v);
    assert(seq!['S', 'U', 'B', 'J', 'E', 'C', 'T', ' ', '"'] + v + seq!['"'] == "SUBJECT "@ + quoted(v));
    if forall|k: int| 0 <= k < t.len() ==> t[k] != ':' {
        if t.len() > 2 {
            assert(lower_word(t)[2] == ascii_lower(t[2]));
        }
        assert(lower_word(t) != "is:unread"@) by {
            if lower_word(t) == "is:unread"@ {
                assert(lower_word(t)[2] == ':');
            }
        }
        assert(lower_word(t) != "is:read"@) by {
            if lower_word(t) == "is:read"@ {
                assert(lower_word(t)[2] == ':');
            }
        }
        assert(!matches_at(t, 0, "from:"@, false)) by {
            if matches_at(t, 0, "from:"@, false) {
                assert(t[0int + 4] == "from:"@[4]);
            }
        }
        assert(!matches_at(t, 0, "to:"@, false)) by {
            if matches_at(t, 0, "to:"@, false) {
                assert(t[0int + 2] == "to:"@[2]);
            }
        }
        assert(!matches_at(t, 0, "subject:"@, false)) by {
            if matches_at(t, 0, "subject:"@, false) {
                assert(t[0int + 7] == "subject:"@[7]);
            }
        }
        assert(seq!['T', 'E', 'X', 'T', ' ', '"'] + t + seq!['"'] == "TEXT "@ + quoted(t));
    }
}

} // verus!
