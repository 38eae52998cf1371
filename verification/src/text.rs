use vstd::prelude::*;
use vstd::utf8::{decode_utf8, valid_utf8};

verus! {

// ---------------------------------------------------------------------------
// Character classes
// ---------------------------------------------------------------------------

/// ASCII lower-casing of one character; every other character is left alone.
pub open spec fn ascii_lower(c: char) -> char {
    if 'A' <= c && c <= 'Z' {
        ((c as u32) + 32) as char
    } else {
        c
    }
}

/// The Unicode `White_Space` property, which is what `char::is_whitespace` tests.
pub open spec fn is_white_space(c: char) -> bool {
    ||| ('\u{9}' <= c && c <= '\u{D}')
    ||| c == ' '
    ||| c == '\u{85}'
    ||| c == '\u{A0}'
    ||| c == '\u{1680}'
    ||| ('\u{2000}' <= c && c <= '\u{200A}')
    ||| c == '\u{2028}'
    ||| c == '\u{2029}'
    ||| c == '\u{202F}'
    ||| c == '\u{205F}'
    ||| c == '\u{3000}'
}

/// ASCII lower-casing of one character (see `ascii_lower`).
pub fn lower_ascii_char(c: char) -> (r: char)
    ensures
        r == ascii_lower(c),
{
    if 'A' <= c && c <= 'Z' {
        let b: u8 = c as u8;
        assert(b as u32 == c as u32);
        ((b + 32) as u8) as char
    } else {
        c
    }
}

/// Whether `c` is whitespace (see `is_white_space`).
pub fn white_space(c: char) -> (r: bool)
    ensures
        r == is_white_space(c),
{
    ('\u{9}' <= c && c <= '\u{D}') || c == ' ' || c == '\u{85}' || c == '\u{A0}' || c
        == '\u{1680}' || ('\u{2000}' <= c && c <= '\u{200A}') || c == '\u{2028}' || c
        == '\u{2029}' || c == '\u{202F}' || c == '\u{205F}' || c == '\u{3000}'
}

// ---------------------------------------------------------------------------
// Conversions between `str`/`String` and character vectors
// ---------------------------------------------------------------------------

/// The characters of `s`, in order.
pub fn chars_of(s: &str) -> (r: Vec<char>)
    ensures
        r@ == s@,
{
    let mut out: Vec<char> = Vec::new();
    for c in it: s.chars()
        invariant
            out@ == it.seq().take(it.index() as int),
            it.seq() == s@,
    {
        out.push(c);
    }
    out
}

/// Builds a `String` holding exactly the given characters (std's `FromIterator<char>`).
#[verifier::external_body]
pub(crate) fn string_from_chars(v: &Vec<char>) -> (r: String)
    ensures
        r@ == v@,
{
    v.iter().collect()
}

/// Appends all of `s` to `out`.
pub fn push_all(out: &mut Vec<char>, s: &Vec<char>)
    ensures
        final(out)@ == old(out)@ + s@,
{
    let mut i: usize = 0;
    while i < s.len()
        invariant
            i <= s.len(),
            out@ == old(out)@ + s@.take(i as int),
        decreases s.len() - i,
    {
        out.push(s[i]);
        i = i + 1;
        assert(s@.take(i as int) == s@.take(i - 1) + seq![s@[i - 1]]);
    }
    assert(s@.take(s.len() as int) == s@);
}

/// The characters of `s` from index `a` up to (not including) `b`.
pub fn slice_chars(s: &Vec<char>, a: usize, b: usize) -> (r: Vec<char>)
    requires
        a <= b <= s.len(),
    ensures
        r@ == s@.subrange(a as int, b as int),
{
    let mut out: Vec<char> = Vec::new();
    let mut i: usize = a;
    while i < b
        invariant
            a <= i <= b <= s.len(),
            out@ == s@.subrange(a as int, i as int),
        decreases b - i,
    {
        out.push(s[i]);
        i = i + 1;
        assert(s@.subrange(a as int, i as int) == s@.subrange(a as int, i - 1) + seq![s@[i - 1]]);
    }
    out
}

/// Whether two character vectors are equal.
pub fn chars_eq(a: &Vec<char>, b: &Vec<char>) -> (r: bool)
    ensures
        r == (a@ == b@),
{
    if a.len() != b.len() {
        return false;
    }
    let mut i: usize = 0;
    while i < a.len()
        invariant
            a.len() == b.len(),
            i <= a.len(),
            forall|k: int| 0 <= k < i ==> a@[k] == b@[k],
        decreases a.len() - i,
    {
        if a[i] != b[i] {
            return false;
        }
        i = i + 1;
    }
    assert(a@ =~= b@);
    true
}

// ---------------------------------------------------------------------------
// Searching
// ---------------------------------------------------------------------------

/// `p` occurs in `s` at index `i`; with `ci`, each character of `s` is compared
/// after ASCII lower-casing (so `p` is expected in lower case).
pub open spec fn matches_at(s: Seq<char>, i: int, p: Seq<char>, ci: bool) -> bool {
    &&& 0 <= i
    &&& i + p.len() <= s.len()
    &&& forall|k: int|
        0 <= k < p.len() ==> (if ci {
            ascii_lower(#[trigger] s[i + k]) == p[k]
        } else {
            s[i + k] == p[k]
        })
}

/// The first index at or after `start` where `p` occurs in `s`.
pub open spec fn find_from(s: Seq<char>, p: Seq<char>, start: int, ci: bool) -> Option<int>
    decreases s.len() - start,
{
    if start < 0 || start + p.len() > s.len() {
        None
    } else if matches_at(s, start, p, ci) {
        Some(start)
    } else {
        find_from(s, p, start + 1, ci)
    }
}

pub proof fn lemma_find_from_bounds(s: Seq<char>, p: Seq<char>, start: int, ci: bool)
    requires
        0 <= start,
    ensures
        find_from(s, p, start, ci) matches Some(i) ==> start <= i && matches_at(s, i, p, ci)
            && forall|j: int| start <= j < i ==> !#[trigger] matches_at(s, j, p, ci),
        find_from(s, p, start, ci) is None ==> forall|j: int|
            start <= j ==> !#[trigger] matches_at(s, j, p, ci),
    decreases s.len() - start,
{
    if start + p.len() > s.len() {
    } else if matches_at(s, start, p, ci) {
    } else {
        lemma_find_from_bounds(s, p, start + 1, ci);
    }
}


/// Whether `p` occurs in `s` at index `i` (see `matches_at`).
pub fn match_at(s: &Vec<char>, i: usize, p: &Vec<char>, ci: bool) -> (r: bool)
    ensures
        r == matches_at(s@, i as int, p@, ci),
{
    if i > s.len() || p.len() > s.len() - i {
        return false;
    }
    let mut k: usize = 0;
    while k < p.len()
        invariant
            i + p.len() <= s.len(),
            k <= p.len(),
            forall|j: int|
                0 <= j < k ==> (if ci {
                    ascii_lower(#[trigger] s@[i + j]) == p@[j]
                } else {
                    s@[i + j] == p@[j]
                }),
        decreases p.len() - k,
    {
        let c = if ci {
            lower_ascii_char(s[i + k])
        } else {
            s[i + k]
        };
        if c != p[k] {
            assert(!(if ci {
                ascii_lower(s@[i + k as int]) == p@[k as int]
            } else {
                s@[i + k as int] == p@[k as int]
            }));
            return false;
        }
        k = k + 1;
    }
    true
}

/// The first index at or after `start` where `p` occurs in `s` (std's `str::find`
/// on the suffix, counted in characters).
pub fn find(s: &Vec<char>, p: &Vec<char>, start: usize, ci: bool) -> (r: Option<usize>)
    ensures
        r is None <==> find_from(s@, p@, start as int, ci) is None,
        r matches Some(i) ==> find_from(s@, p@, start as int, ci) == Some(i as int) && start <= i
            && i + p@.len() <= s@.len(),
{
    proof {
        lemma_find_from_bounds(s@, p@, start as int, ci);
    }
    let mut i: usize = start;
    while i <= s.len() && p.len() <= s.len() - i
        invariant
            start <= i,
            find_from(s@, p@, start as int, ci) == find_from(s@, p@, i as int, ci),
        decreases s.len() + 1 - i,
    {
        if match_at(s, i, p, ci) {
            return Some(i);
        }
        i = i + 1;
    }
    None
}

// ---------------------------------------------------------------------------
// Replacing (std's `str::replace`: left to right, non-overlapping)
// ---------------------------------------------------------------------------

pub open spec fn replace_from(s: Seq<char>, p: Seq<char>, r: Seq<char>, pos: int) -> Seq<char>
    recommends
        p.len() > 0,
    decreases s.len() - pos,
{
    if pos < 0 || pos > s.len() || p.len() == 0 {
        seq![]
    } else {
        proof {
            lemma_find_from_bounds(s, p, pos, false);
        }
        match find_from(s, p, pos, false) {
            None => s.subrange(pos, s.len() as int),
            Some(i) => if pos <= i {
                s.subrange(pos, i) + r + replace_from(s, p, r, i + p.len())
            } else {
                seq![]
            },
        }
    }
}

/// Every occurrence of `p` in `s` replaced by `r`, scanning left to right.
pub open spec fn replace_all(s: Seq<char>, p: Seq<char>, r: Seq<char>) -> Seq<char> {
    replace_from(s, p, r, 0)
}

pub fn replace(s: &Vec<char>, p: &Vec<char>, r: &Vec<char>) -> (out: Vec<char>)
    requires
        p@.len() > 0,
    ensures
        out@ == replace_all(s@, p@, r@),
{
    let mut out: Vec<char> = Vec::new();
    let mut pos: usize = 0;
    loop
        invariant
            pos <= s.len(),
            p@.len() > 0,
            replace_all(s@, p@, r@) == out@ + replace_from(s@, p@, r@, pos as int),
        decreases s.len() - pos,
    {
        proof {
            lemma_find_from_bounds(s@, p@, pos as int, false);
        }
        match find(s, p, pos, false) {
            None => {
                let rest = slice_chars(s, pos, s.len());
                push_all(&mut out, &rest);
                return out;
            },
            Some(i) => {
                let piece = slice_chars(s, pos, i);
                push_all(&mut out, &piece);
                push_all(&mut out, r);
                assert(replace_from(s@, p@, r@, pos as int) == s@.subrange(pos as int, i as int) + r@
                    + replace_from(s@, p@, r@, i + p@.len()));
                pos = i + p.len();
            },
        }
    }
}

// ---------------------------------------------------------------------------
// Trimming (std's `str::trim`, which strips `White_Space` characters)
// ---------------------------------------------------------------------------

pub open spec fn trim_start(s: Seq<char>) -> Seq<char>
    decreases s.len(),
{
    if s.len() > 0 && is_white_space(s[0]) {
        trim_start(s.drop_first())
    } else {
        s
    }
}

pub open spec fn trim_end(s: Seq<char>) -> Seq<char>
    decreases s.len(),
{
    if s.len() > 0 && is_white_space(s.last()) {
        trim_end(s.drop_last())
    } else {
        s
    }
}

pub open spec fn trim(s: Seq<char>) -> Seq<char> {
    trim_end(trim_start(s))
}

pub fn trim_chars(s: &Vec<char>) -> (r: Vec<char>)
    ensures
        r@ == trim(s@),
{
    let mut a: usize = 0;
    assert(s@.subrange(0, s@.len() as int) == s@);
    while a < s.len() && white_space(s[a])
        invariant
            a <= s.len(),
            trim_start(s@) == trim_start(s@.subrange(a as int, s@.len() as int)),
        decreases s.len() - a,
    {
        assert(s@.subrange(a as int, s@.len() as int).drop_first() == s@.subrange(
            a + 1,
            s@.len() as int,
        ));
        a = a + 1;
    }
    let ghost t = s@.subrange(a as int, s@.len() as int);
    assert(trim_start(t) == t);
    let mut b: usize = s.len();
    while b > a && white_space(s[b - 1])
        invariant
            a <= b <= s.len(),
            t == s@.subrange(a as int, s@.len() as int),
            trim_end(t) == trim_end(s@.subrange(a as int, b as int)),
        decreases b,
    {
        assert(s@.subrange(a as int, b as int).drop_last() == s@.subrange(a as int, b - 1));
        b = b - 1;
    }
    slice_chars(s, a, b)
}


/// The replacements of `pairs` applied one after another, each to the whole text.
pub open spec fn replace_each(s: Seq<char>, pairs: Seq<(Seq<char>, Seq<char>)>) -> Seq<char>
    decreases pairs.len(),
{
    if pairs.len() == 0 {
        s
    } else {
        replace_each(replace_all(s, pairs[0].0, pairs[0].1), pairs.drop_first())
    }
}

/// The views of a list of (pattern, replacement) string pairs.
pub open spec fn pair_views(pairs: Seq<(&str, &str)>) -> Seq<(Seq<char>, Seq<char>)> {
    pairs.map_values(|p: (&str, &str)| (p.0@, p.1@))
}

pub fn replace_pairs(s: Vec<char>, pairs: &Vec<(&str, &str)>) -> (r: Vec<char>)
    requires
        forall|i: int| 0 <= i < pairs@.len() ==> (#[trigger] pairs@[i]).0@.len() > 0,
    ensures
        r@ == replace_each(s@, pair_views(pairs@)),
{
    let mut cur = s;
    let mut i: usize = 0;
    assert(pair_views(pairs@).skip(0) == pair_views(pairs@));
    while i < pairs.len()
        invariant
            i <= pairs@.len(),
            forall|j: int| 0 <= j < pairs@.len() ==> (#[trigger] pairs@[j]).0@.len() > 0,
            replace_each(s@, pair_views(pairs@)) == replace_each(
                cur@,
                pair_views(pairs@).skip(i as int),
            ),
        decreases pairs.len() - i,
    {
        let (p, r) = pairs[i];
        let pv = chars_of(p);
        let rv = chars_of(r);
        assert(pair_views(pairs@).skip(i as int).drop_first() == pair_views(pairs@).skip(i + 1));
        assert(pair_views(pairs@).skip(i as int)[0] == (p@, r@));
        cur = replace(&cur, &pv, &rv);
        i = i + 1;
    }
    cur
}


// ---------------------------------------------------------------------------
// Unsigned numbers (std's `from_str_radix` / `str::parse` for unsigned types)
// ---------------------------------------------------------------------------

/// The value of one digit in base `radix` (10 or 16), as `char::to_digit` gives it.
pub open spec fn digit_value(c: char, radix: nat) -> Option<nat> {
    if '0' <= c && c <= '9' && (c as nat) - ('0' as nat) < radix {
        Some(((c as nat) - ('0' as nat)) as nat)
    } else if radix == 16 && 'a' <= c && c <= 'f' {
        Some(((c as nat) - ('a' as nat) + 10) as nat)
    } else if radix == 16 && 'A' <= c && c <= 'F' {
        Some(((c as nat) - ('A' as nat) + 10) as nat)
    } else {
        None
    }
}

/// The value of a run of digits, or `None` when some character is not a digit.
pub open spec fn digits_value(d: Seq<char>, radix: nat) -> Option<nat>
    decreases d.len(),
{
    if d.len() == 0 {
        Some(0)
    } else {
        match (digits_value(d.drop_last(), radix), digit_value(d.last(), radix)) {
            (Some(v), Some(x)) => Some(v * radix + x),
            _ => None,
        }
    }
}

/// What an unsigned `from_str_radix` reads from `s` before its range check: an
/// optional `+` followed by at least one digit.
pub open spec fn unsigned_value(s: Seq<char>, radix: nat) -> Option<nat> {
    let d = if s.len() > 0 && s[0] == '+' {
        s.drop_first()
    } else {
        s
    };
    if d.len() == 0 {
        None
    } else {
        digits_value(d, radix)
    }
}

/// The number that an unsigned integer type with maximum `limit` parses from `s`.
pub open spec fn parse_unsigned_spec(s: Seq<char>, radix: nat, limit: nat) -> Option<nat> {
    match unsigned_value(s, radix) {
        Some(v) => if v <= limit {
            Some(v)
        } else {
            None
        },
        None => None,
    }
}

proof fn lemma_digits_prefix(d: Seq<char>, radix: nat, k: int)
    requires
        0 <= k <= d.len(),
        radix >= 1,
    ensures
        digits_value(d.take(k), radix) is None ==> digits_value(d, radix) is None,
        digits_value(d, radix) matches Some(v) ==> digits_value(d.take(k), radix) matches Some(
            w,
        ) && w <= v,
    decreases d.len(),
{
    if k == d.len() {
        assert(d.take(k) == d);
    } else {
        assert(d.drop_last().take(k) == d.take(k));
        lemma_digits_prefix(d.drop_last(), radix, k);
        if let Some(v) = digits_value(d, radix) {
            let v0 = digits_value(d.drop_last(), radix).unwrap();
            assert(v0 * radix >= v0) by (nonlinear_arith)
                requires
                    radix >= 1,
            ;
        }
    }
}

fn digit_of(c: char, radix: u32) -> (r: Option<u32>)
    requires
        radix == 10 || radix == 16,
    ensures
        r matches Some(x) ==> digit_value(c, radix as nat) == Some(x as nat) && x < radix,
        r is None ==> digit_value(c, radix as nat) is None,
{
    if '0' <= c && c <= '9' && (c as u32) - ('0' as u32) < radix {
        Some((c as u32) - ('0' as u32))
    } else if radix == 16 && 'a' <= c && c <= 'f' {
        Some((c as u32) - ('a' as u32) + 10)
    } else if radix == 16 && 'A' <= c && c <= 'F' {
        Some((c as u32) - ('A' as u32) + 10)
    } else {
        None
    }
}

/// Parses an unsigned number in base 10 or 16 with an optional leading `+`,
/// refusing values above `limit`.
pub fn parse_unsigned(s: &Vec<char>, radix: u32, limit: u64) -> (r: Option<u64>)
    requires
        radix == 10 || radix == 16,
    ensures
        r matches Some(v) ==> parse_unsigned_spec(s@, radix as nat, limit as nat) == Some(
            v as nat,
        ),
        r is None ==> parse_unsigned_spec(s@, radix as nat, limit as nat) is None,
{
    let start: usize = if s.len() > 0 && s[0] == '+' {
        1
    } else {
        0
    };
    let ghost d = if s@.len() > 0 && s@[0] == '+' {
        s@.drop_first()
    } else {
        s@
    };
    assert(d == s@.skip(start as int));
    if start >= s.len() {
        return None;
    }
    let mut acc: u64 = 0;
    let mut i: usize = start;
    assert(d.take(0) == Seq::<char>::empty());
    while i < s.len()
        invariant
            start <= i <= s.len(),
            d == s@.skip(start as int),
            d.len() > 0,
            unsigned_value(s@, radix as nat) == digits_value(d, radix as nat),
            radix == 10 || radix == 16,
            acc <= limit,
            digits_value(d.take(i - start), radix as nat) == Some(acc as nat),
        decreases s.len() - i,
    {
        let ghost k = i - start;
        assert(d.take(k + 1).drop_last() == d.take(k));
        assert(d.take(k + 1).last() == s@[i as int]);
        proof {
            lemma_digits_prefix(d, radix as nat, k + 1);
        }
        match digit_of(s[i], radix) {
            None => {
                return None;
            },
            Some(x) => {
                let big: u128 = (acc as u128) * (radix as u128) + (x as u128);
                assert(big == acc * radix + x);
                if big > limit as u128 {
                    return None;
                }
                acc = big as u64;
            },
        }
        i = i + 1;
    }
    assert(d.take(s.len() - start) == d);
    Some(acc)
}

/// The decimal digits of `n`, most significant first.
pub open spec fn decimal(n: nat) -> Seq<char>
    decreases n,
{
    if n < 10 {
        seq![((n + 48) as u32) as char]
    } else {
        decimal(n / 10) + seq![(((n % 10) + 48) as u32) as char]
    }
}

/// The decimal digits of `n`.
pub fn decimal_chars(n: u64) -> (r: Vec<char>)
    ensures
        r@ == decimal(n as nat),
    decreases n,
{
    if n < 10 {
        let d: u8 = (n as u8) + 48;
        let mut v: Vec<char> = Vec::new();
        v.push(d as char);
        v
    } else {
        let mut v = decimal_chars(n / 10);
        let d: u8 = ((n % 10) as u8) + 48;
        v.push(d as char);
        v
    }
}


/// `s` ends with `p`.
pub open spec fn ends_with(s: Seq<char>, p: Seq<char>) -> bool {
    p.len() <= s.len() && matches_at(s, s.len() - p.len(), p, false)
}

/// Whether `s` ends with `p`.
pub fn str_ends_with(s: &str, p: &str) -> (r: bool)
    ensures
        r == ends_with(s@, p@),
{
    let sv = chars_of(s);
    let pv = chars_of(p);
    if pv.len() > sv.len() {
        return false;
    }
    match_at(&sv, sv.len() - pv.len(), &pv, false)
}

// ---------------------------------------------------------------------------
// Bytes to text
// ---------------------------------------------------------------------------

/// The text `String::from_utf8_lossy` makes of `bytes`.
pub uninterp spec fn lossy_utf8(bytes: Seq<u8>) -> Seq<char>;

/// std's `String::from_utf8_lossy`. Trusted: the result is `lossy_utf8(bytes)`, and
/// for valid UTF-8 it is the decoded text.
#[verifier::external_body]
pub(crate) fn utf8_lossy(bytes: &Vec<u8>) -> (r: String)
    ensures
        r@ == lossy_utf8(bytes@),
        valid_utf8(bytes@) ==> r@ == decode_utf8(bytes@),
{
    String::from_utf8_lossy(bytes).into_owned()
}


proof fn lemma_trim_start_shape(s: Seq<char>)
    ensures
        trim_start(s).len() == 0 || !is_white_space(trim_start(s)[0]),
    decreases s.len(),
{
    if s.len() > 0 && is_white_space(s[0]) {
        lemma_trim_start_shape(s.drop_first());
    }
}

proof fn lemma_trim_end_shape(s: Seq<char>)
    ensures
        trim_end(s).len() <= s.len(),
        trim_end(s) == s.take(trim_end(s).len() as int),
        trim_end(s).len() == 0 || !is_white_space(trim_end(s).last()),
    decreases s.len(),
{
    if s.len() > 0 && is_white_space(s.last()) {
        lemma_trim_end_shape(s.drop_last());
        assert(s.drop_last().take(trim_end(s).len() as int) == s.take(trim_end(s).len() as int));
    } else {
        assert(s.take(s.len() as int) == s);
    }
}

/// Trimming twice is trimming once: a trimmed text neither starts nor ends with
/// whitespace.
pub proof fn law_trim_idempotent(s: Seq<char>)
    ensures
        trim(trim(s)) == trim(s),
        trim(s).len() == 0 || (!is_white_space(trim(s)[0]) && !is_white_space(trim(s).last())),
{
    let a = trim_start(s);
    lemma_trim_start_shape(s);
    lemma_trim_end_shape(a);
    let t = trim_end(a);
    if t.len() > 0 {
        assert(t[0] == a[0]);
    }
    assert(trim_start(t) == t);
    assert(trim_end(t) == t);
}

/// Replacing a pattern that does not occur changes nothing.
pub proof fn law_replace_absent(s: Seq<char>, p: Seq<char>, r: Seq<char>)
    requires
        p.len() > 0,
        find_from(s, p, 0, false) is None,
    ensures
        replace_all(s, p, r) == s,
{
    assert(s.subrange(0, s.len() as int) == s);
}


proof fn lemma_trim_start_suffix(s: Seq<char>)
    ensures
        trim_start(s).len() <= s.len(),
        trim_start(s) == s.skip(s.len() - trim_start(s).len()),
    decreases s.len(),
{
    if s.len() > 0 && is_white_space(s[0]) {
        lemma_trim_start_suffix(s.drop_first());
        assert(s.drop_first().skip(s.drop_first().len() - trim_start(s).len()) == s.skip(
            s.len() - trim_start(s).len(),
        ));
    } else {
        assert(s.skip(0) == s);
    }
}

/// A trimmed text is a contiguous piece of the text, starting at the returned offset.
pub proof fn lemma_trim_offset(s: Seq<char>) -> (off: int)
    ensures
        0 <= off,
        off + trim(s).len() <= s.len(),
        forall|k: int| 0 <= k < trim(s).len() ==> #[trigger] trim(s)[k] == s[off + k],
{
    lemma_trim_start_suffix(s);
    let a = trim_start(s);
    lemma_trim_end_shape(a);
    let off = s.len() - a.len();
    assert forall|k: int| 0 <= k < trim(s).len() implies #[trigger] trim(s)[k] == s[off + k] by {
        assert(trim(s)[k] == a[k]);
    }
    off
}

/// Every character of a trimmed text is a character of the text.
pub proof fn lemma_trim_chars(s: Seq<char>)
    ensures
        forall|k: int| 0 <= k < trim(s).len() ==> exists|j: int| 0 <= j < s.len() && s[j] == #[trigger] trim(s)[k],
{
    lemma_trim_start_suffix(s);
    let a = trim_start(s);
    lemma_trim_end_shape(a);
    let off = s.len() - a.len();
    assert forall|k: int| 0 <= k < trim(s).len() implies exists|j: int| 0 <= j < s.len() && s[j]
        == #[trigger] trim(s)[k] by {
        assert(trim(s)[k] == a[k]);
        assert(a[k] == s[off + k]);
    }
}

} // verus!
