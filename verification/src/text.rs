//! Characters and strings: whitespace, ASCII classes, trimming, word
//! splitting, decimal numbers and building strings.
//!
//! Everything is stated over `Seq<char>`, the view of `str` and `String`. The
//! three Unicode tables lacuna relies on (lower case mapping, upper and lower
//! case letters, alphanumerics) come from std and are named here, not rebuilt.

use vstd::prelude::*;

verus! {

// ---------------------------------------------------------------- classes

/// Unicode `White_Space`, the set `char::is_whitespace` tests for.
pub open spec fn is_space(c: char) -> bool {
    ||| ('\t' <= c && c <= '\r')
    ||| c == ' '
    ||| c == '\u{85}'
    ||| c == '\u{a0}'
    ||| c == '\u{1680}'
    ||| ('\u{2000}' <= c && c <= '\u{200a}')
    ||| c == '\u{2028}'
    ||| c == '\u{2029}'
    ||| c == '\u{202f}'
    ||| c == '\u{205f}'
    ||| c == '\u{3000}'
}

pub fn space(c: char) -> (r: bool)
    ensures
        r == is_space(c),
{
    ('\t' <= c && c <= '\r') || c == ' ' || c == '\u{85}' || c == '\u{a0}' || c == '\u{1680}'
        || ('\u{2000}' <= c && c <= '\u{200a}') || c == '\u{2028}' || c == '\u{2029}'
        || c == '\u{202f}' || c == '\u{205f}' || c == '\u{3000}'
}

/// True when every character is whitespace, which is when `trim` leaves nothing.
pub open spec fn all_space(s: Seq<char>) -> bool {
    forall|i: int| 0 <= i < s.len() ==> #[trigger] is_space(s[i])
}

pub fn blank_chars(v: &Vec<char>) -> (r: bool)
    ensures
        r == all_space(v@),
{
    let mut i: usize = 0;
    while i < v.len()
        invariant
            i <= v.len(),
            forall|j: int| 0 <= j < i ==> #[trigger] is_space(v@[j]),
        decreases v.len() - i,
    {
        if !space(v[i]) {
            return false;
        }
        i += 1;
    }
    true
}

pub open spec fn is_ascii_lower(c: char) -> bool {
    'a' <= c && c <= 'z'
}

pub open spec fn is_ascii_upper(c: char) -> bool {
    'A' <= c && c <= 'Z'
}

/// `char::is_ascii_punctuation`: the four ASCII punctuation blocks.
pub open spec fn is_ascii_punct(c: char) -> bool {
    ||| ('!' <= c && c <= '/')
    ||| (':' <= c && c <= '@')
    ||| ('[' <= c && c <= '`')
    ||| ('{' <= c && c <= '~')
}

pub fn ascii_punct(c: char) -> (r: bool)
    ensures
        r == is_ascii_punct(c),
{
    ('!' <= c && c <= '/') || (':' <= c && c <= '@') || ('[' <= c && c <= '`') || ('{' <= c
        && c <= '~')
}

/// `char::to_ascii_uppercase`.
pub open spec fn upper_ascii(c: char) -> char {
    if is_ascii_lower(c) {
        ((c as u32) - 32) as char
    } else {
        c
    }
}

/// `char::to_ascii_lowercase`.
pub open spec fn lower_ascii(c: char) -> char {
    if is_ascii_upper(c) {
        ((c as u32) + 32) as char
    } else {
        c
    }
}

pub fn char_upper_ascii(c: char) -> (r: char)
    ensures
        r == upper_ascii(c),
{
    if 'a' <= c && c <= 'z' {
        let n: u8 = (c as u8) - 32;
        n as char
    } else {
        c
    }
}

pub fn char_lower_ascii(c: char) -> (r: char)
    ensures
        r == lower_ascii(c),
{
    if 'A' <= c && c <= 'Z' {
        let n: u8 = (c as u8) + 32;
        n as char
    } else {
        c
    }
}

/// `str::to_ascii_uppercase`.
pub open spec fn upper_ascii_str(s: Seq<char>) -> Seq<char> {
    s.map_values(|c: char| upper_ascii(c))
}

/// `str::to_ascii_lowercase`.
pub open spec fn lower_ascii_str(s: Seq<char>) -> Seq<char> {
    s.map_values(|c: char| lower_ascii(c))
}

pub fn to_upper_ascii(v: &Vec<char>) -> (r: Vec<char>)
    ensures
        r@ == upper_ascii_str(v@),
{
    let mut r: Vec<char> = Vec::new();
    let mut i: usize = 0;
    while i < v.len()
        invariant
            i <= v.len(),
            r@ == upper_ascii_str(v@.take(i as int)),
        decreases v.len() - i,
    {
        r.push(char_upper_ascii(v[i]));
        i += 1;
        assert(upper_ascii_str(v@.take(i as int)) =~= upper_ascii_str(v@.take(i - 1)).push(
            upper_ascii(v@[i - 1]),
        ));
    }
    assert(v@.take(v.len() as int) =~= v@);
    r
}

pub fn to_lower_ascii(v: &Vec<char>) -> (r: Vec<char>)
    ensures
        r@ == lower_ascii_str(v@),
{
    let mut r: Vec<char> = Vec::new();
    let mut i: usize = 0;
    while i < v.len()
        invariant
            i <= v.len(),
            r@ == lower_ascii_str(v@.take(i as int)),
        decreases v.len() - i,
    {
        r.push(char_lower_ascii(v[i]));
        i += 1;
        assert(lower_ascii_str(v@.take(i as int)) =~= lower_ascii_str(v@.take(i - 1)).push(
            lower_ascii(v@[i - 1]),
        ));
    }
    assert(v@.take(v.len() as int) =~= v@);
    r
}

// ---------------------------------------------------------------- Unicode tables

/// What `str::to_lowercase` gives for a string: Unicode's full lower case
/// mapping, which is not always one character for one.
pub uninterp spec fn lowercase_of(s: Seq<char>) -> Seq<char>;

/// Whether `char::is_uppercase` holds: Unicode's `Uppercase` property.
pub uninterp spec fn is_upper_char(c: char) -> bool;

/// Whether `char::is_lowercase` holds: Unicode's `Lowercase` property.
pub uninterp spec fn is_lower_char(c: char) -> bool;

/// Whether `char::is_alphanumeric` holds: Unicode's `Alphabetic` or `Numeric`.
pub uninterp spec fn is_alnum_char(c: char) -> bool;

/// Calls `str::to_lowercase`. The result is Unicode's lower case mapping of the
/// whole string, named `lowercase_of`; its contents are not stated here.
#[verifier::external_body]
pub(crate) fn to_lowercase(s: &str) -> (r: String)
    ensures
        r@ == lowercase_of(s@),
{
    s.to_lowercase()
}

/// Calls `char::is_uppercase`, named `is_upper_char`.
#[verifier::external_body]
pub(crate) fn upper_char(c: char) -> (r: bool)
    ensures
        r == is_upper_char(c),
{
    c.is_uppercase()
}

/// Calls `char::is_lowercase`, named `is_lower_char`.
#[verifier::external_body]
pub(crate) fn lower_char(c: char) -> (r: bool)
    ensures
        r == is_lower_char(c),
{
    c.is_lowercase()
}

/// Calls `char::is_alphanumeric`, named `is_alnum_char`.
#[verifier::external_body]
pub(crate) fn alnum_char(c: char) -> (r: bool)
    ensures
        r == is_alnum_char(c),
{
    c.is_alphanumeric()
}

/// `str::to_lowercase` on a sequence of characters.
pub fn lowercase_chars(v: &Vec<char>) -> (r: Vec<char>)
    ensures
        r@ == lowercase_of(v@),
{
    let s = string_of(v);
    let l = to_lowercase(s.as_str());
    chars_of(l.as_str())
}

// ---------------------------------------------------------------- building

/// The characters of a string slice, in order.
pub fn chars_of(s: &str) -> (r: Vec<char>)
    ensures
        r@ == s@,
{
    let mut r: Vec<char> = Vec::new();
    for c in it: s.chars()
        invariant
            r@ == it.seq().take(it.index()),
    {
        r.push(c);
    }
    r
}

/// `String::push` appends one character to the end of the string, as its
/// documentation says; that is all this states of it.
pub assume_specification[ String::push ](s: &mut String, ch: char)
    ensures
        final(s)@ == old(s)@.push(ch),
;

/// A string holding exactly the given characters.
pub fn string_of(v: &Vec<char>) -> (r: String)
    ensures
        r@ == v@,
{
    let mut r = String::new();
    let mut i: usize = 0;
    while i < v.len()
        invariant
            i <= v.len(),
            r@ == v@.take(i as int),
        decreases v.len() - i,
    {
        r.push(v[i]);
        i += 1;
        assert(r@ =~= v@.take(i as int));
    }
    assert(v@.take(v.len() as int) =~= v@);
    r
}

/// Append the characters of `s` to `v`.
pub fn push_str(v: &mut Vec<char>, s: &str)
    ensures
        final(v)@ == old(v)@ + s@,
{
    let mut add = chars_of(s);
    v.append(&mut add);
}

/// Append the characters of `w` to `v`.
pub fn push_chars(v: &mut Vec<char>, w: &Vec<char>)
    ensures
        final(v)@ == old(v)@ + w@,
{
    let mut i: usize = 0;
    let ghost start = v@;
    while i < w.len()
        invariant
            i <= w.len(),
            v@ == start + w@.take(i as int),
        decreases w.len() - i,
    {
        v.push(w[i]);
        i += 1;
        assert(v@ =~= start + w@.take(i as int));
    }
    assert(w@.take(w.len() as int) =~= w@);
}

/// A copy of a character sequence.
pub fn copy_chars(v: &Vec<char>) -> (r: Vec<char>)
    ensures
        r@ == v@,
{
    let mut r: Vec<char> = Vec::new();
    push_chars(&mut r, v);
    assert(r@ =~= v@);
    r
}

/// Whether two character sequences are equal.
pub fn same_chars(a: &Vec<char>, b: &Vec<char>) -> (r: bool)
    ensures
        r == (a@ == b@),
{
    if a.len() != b.len() {
        return false;
    }
    let mut i: usize = 0;
    while i < a.len()
        invariant
            a.len() == b.len(),
            i <= a.len(),
            forall|j: int| 0 <= j < i ==> a@[j] == b@[j],
        decreases a.len() - i,
    {
        if a[i] != b[i] {
            return false;
        }
        i += 1;
    }
    assert(a@ =~= b@);
    true
}

/// Whether a character sequence spells out a string slice.
pub fn spells(a: &Vec<char>, s: &str) -> (r: bool)
    ensures
        r == (a@ == s@),
{
    let b = chars_of(s);
    same_chars(a, &b)
}

// ---------------------------------------------------------------- trimming

/// Drop leading characters for which `p` holds.
pub open spec fn strip_start(s: Seq<char>, p: spec_fn(char) -> bool) -> Seq<char>
    decreases s.len(),
{
    if s.len() > 0 && p(s[0]) {
        strip_start(s.drop_first(), p)
    } else {
        s
    }
}

/// Drop trailing characters for which `p` holds.
pub open spec fn strip_end(s: Seq<char>, p: spec_fn(char) -> bool) -> Seq<char>
    decreases s.len(),
{
    if s.len() > 0 && p(s.last()) {
        strip_end(s.drop_last(), p)
    } else {
        s
    }
}

/// `str::trim_matches` with a predicate: leading and trailing matches removed.
pub open spec fn strip(s: Seq<char>, p: spec_fn(char) -> bool) -> Seq<char> {
    strip_end(strip_start(s, p), p)
}

/// `str::trim`: leading and trailing whitespace removed.
pub open spec fn trim(s: Seq<char>) -> Seq<char> {
    strip(s, |c: char| is_space(c))
}

/// Stripping from the front skips exactly the leading run of matches.
pub proof fn lemma_strip_start_skip(s: Seq<char>, p: spec_fn(char) -> bool, k: int)
    requires
        0 <= k <= s.len(),
        forall|j: int| 0 <= j < k ==> #[trigger] p(s[j]),
    ensures
        strip_start(s, p) == strip_start(s.skip(k), p),
    decreases k,
{
    if k > 0 {
        assert(p(s[0]));
        assert(s.drop_first().skip(k - 1) =~= s.skip(k));
        assert forall|j: int| 0 <= j < k - 1 implies #[trigger] p(s.drop_first()[j]) by {
            assert(s.drop_first()[j] == s[j + 1]);
        }
        lemma_strip_start_skip(s.drop_first(), p, k - 1);
    } else {
        assert(s.skip(0) =~= s);
    }
}

/// Stripping from the back keeps exactly up to the last non-match.
pub proof fn lemma_strip_end_take(s: Seq<char>, p: spec_fn(char) -> bool, k: int)
    requires
        0 <= k <= s.len(),
        forall|j: int| k <= j < s.len() ==> #[trigger] p(s[j]),
    ensures
        strip_end(s, p) == strip_end(s.take(k), p),
    decreases s.len() - k,
{
    if k < s.len() {
        assert(p(s.last()));
        assert(s.drop_last().take(k) =~= s.take(k));
        assert forall|j: int| k <= j < s.len() - 1 implies #[trigger] p(s.drop_last()[j]) by {
            assert(s.drop_last()[j] == s[j]);
        }
        lemma_strip_end_take(s.drop_last(), p, k);
    } else {
        assert(s.take(k) =~= s);
    }
}

/// Whitespace removed from both ends.
pub fn trim_chars(v: &Vec<char>) -> (r: Vec<char>)
    ensures
        r@ == trim(v@),
{
    let ghost p = |c: char| is_space(c);
    let mut a: usize = 0;
    while a < v.len() && space(v[a])
        invariant
            a <= v.len(),
            p == (|c: char| is_space(c)),
            forall|j: int| 0 <= j < a ==> #[trigger] p(v@[j]),
        decreases v.len() - a,
    {
        a += 1;
    }
    proof {
        lemma_strip_start_skip(v@, p, a as int);
    }
    let mut b: usize = v.len();
    while b > a && space(v[b - 1])
        invariant
            a <= b <= v.len(),
            p == (|c: char| is_space(c)),
            forall|j: int| b <= j < v.len() ==> #[trigger] p(v@[j]),
        decreases b,
    {
        b -= 1;
    }
    let mut r: Vec<char> = Vec::new();
    let mut i: usize = a;
    while i < b
        invariant
            a <= i <= b,
            b <= v.len(),
            r@ == v@.subrange(a as int, i as int),
        decreases b - i,
    {
        r.push(v[i]);
        i += 1;
        assert(r@ =~= v@.subrange(a as int, i as int));
    }
    proof {
        let t = v@.skip(a as int);
        assert(strip_start(t, p) == t);
        let k = b - a;
        assert forall|j: int| k <= j < t.len() implies #[trigger] p(t[j]) by {
            assert(t[j] == v@[j + a]);
        }
        lemma_strip_end_take(t, p, k);
        assert(t.take(k) =~= v@.subrange(a as int, b as int));
        if k > 0 {
            assert(!p(t.take(k).last()));
        }
        assert(strip_end(t.take(k), p) == t.take(k));
        assert(p =~= (|c: char| is_space(c)));
    }
    r
}

// ---------------------------------------------------------------- words

/// The whitespace separated words of `s`, what `str::split_whitespace` yields.
pub open spec fn words(s: Seq<char>) -> Seq<Seq<char>>
    decreases s.len(),
{
    if s.len() == 0 {
        seq![]
    } else {
        let rest = words(s.drop_last());
        let c = s.last();
        if is_space(c) {
            rest
        } else if s.len() >= 2 && !is_space(s[s.len() - 2]) {
            rest.update(rest.len() - 1, rest.last().push(c))
        } else {
            rest.push(seq![c])
        }
    }
}

/// Words joined by single spaces.
pub open spec fn join_spaced(ws: Seq<Seq<char>>) -> Seq<char>
    decreases ws.len(),
{
    if ws.len() == 0 {
        seq![]
    } else if ws.len() == 1 {
        ws[0]
    } else {
        join_spaced(ws.drop_last()) + seq![' '] + ws.last()
    }
}

/// Inner whitespace collapsed to one space and outer whitespace dropped:
/// `s.split_whitespace().collect::<Vec<_>>().join(" ")`.
pub open spec fn collapse(s: Seq<char>) -> Seq<char> {
    join_spaced(words(s))
}

/// A string that ends in a non space character has at least one word.
pub proof fn lemma_words_nonempty(s: Seq<char>)
    requires
        s.len() > 0,
        !is_space(s.last()),
    ensures
        words(s).len() > 0,
    decreases s.len(),
{
    if s.len() >= 2 && !is_space(s[s.len() - 2]) {
        lemma_words_nonempty(s.drop_last());
    }
}

/// Joining is empty exactly when there are no words, as long as no word is empty.
proof fn lemma_join_empty(ws: Seq<Seq<char>>)
    requires
        forall|i: int| 0 <= i < ws.len() ==> #[trigger] ws[i].len() > 0,
    ensures
        (join_spaced(ws).len() == 0) == (ws.len() == 0),
    decreases ws.len(),
{
    if ws.len() > 1 {
        lemma_join_empty(ws.drop_last());
    }
}

/// No word is empty.
proof fn lemma_words_nonempty_each(s: Seq<char>)
    ensures
        forall|i: int| 0 <= i < words(s).len() ==> #[trigger] words(s)[i].len() > 0,
    decreases s.len(),
{
    if s.len() > 0 {
        lemma_words_nonempty_each(s.drop_last());
        if !is_space(s.last()) && s.len() >= 2 && !is_space(s[s.len() - 2]) {
            lemma_words_nonempty(s.drop_last());
        }
    }
}

/// Extending the last word extends the joined string by one character.
proof fn lemma_join_extend_last(ws: Seq<Seq<char>>, c: char)
    requires
        ws.len() > 0,
    ensures
        join_spaced(ws.update(ws.len() - 1, ws.last().push(c))) == join_spaced(ws).push(c),
{
    let u = ws.update(ws.len() - 1, ws.last().push(c));
    if ws.len() > 1 {
        assert(u.drop_last() =~= ws.drop_last());
        assert(join_spaced(u) =~= join_spaced(ws).push(c));
    } else {
        assert(join_spaced(u) =~= join_spaced(ws).push(c));
    }
}

/// `s.split_whitespace().collect::<Vec<_>>().join(" ")`.
pub fn collapse_chars(v: &Vec<char>) -> (r: Vec<char>)
    ensures
        r@ == collapse(v@),
{
    let mut r: Vec<char> = Vec::new();
    let mut i: usize = 0;
    while i < v.len()
        invariant
            i <= v.len(),
            r@ == collapse(v@.take(i as int)),
        decreases v.len() - i,
    {
        let c = v[i];
        let ghost pre = v@.take(i as int);
        let ghost next = v@.take(i + 1);
        proof {
            assert(next.drop_last() =~= pre);
            assert(next.last() == c);
            lemma_words_nonempty_each(pre);
            lemma_join_empty(words(pre));
        }
        if space(c) {
        } else if i > 0 && !space(v[i - 1]) {
            proof {
                assert(next[next.len() - 2] == v@[i - 1]);
                lemma_words_nonempty(pre);
                lemma_join_extend_last(words(pre), c);
            }
            r.push(c);
        } else {
            if r.len() > 0 {
                r.push(' ');
            }
            r.push(c);
            proof {
                let ws = words(pre);
                let ws2 = ws.push(seq![c]);
                assert(ws2.drop_last() =~= ws);
                if ws.len() == 0 {
                    assert(join_spaced(ws2) =~= seq![c]);
                }
            }
        }
        i += 1;
        proof {
            assert(r@ =~= collapse(next));
        }
    }
    assert(v@.take(v.len() as int) =~= v@);
    r
}

/// The character sequences held by some vectors.
pub open spec fn views_of(ws: Seq<Vec<char>>) -> Seq<Seq<char>> {
    ws.map_values(|w: Vec<char>| w@)
}

/// The words of a text, in order: `str::split_whitespace`.
pub fn split_words(v: &Vec<char>) -> (r: Vec<Vec<char>>)
    ensures
        views_of(r@) == words(v@),
{
    let mut r: Vec<Vec<char>> = Vec::new();
    let mut i: usize = 0;
    while i < v.len()
        invariant
            i <= v.len(),
            views_of(r@) == words(v@.take(i as int)),
        decreases v.len() - i,
    {
        let c = v[i];
        let ghost pre = v@.take(i as int);
        let ghost next = v@.take(i + 1);
        let ghost before = views_of(r@);
        proof {
            assert(next.drop_last() =~= pre);
            assert(next.last() == c);
        }
        if space(c) {
        } else if i > 0 && !space(v[i - 1]) {
            proof {
                assert(next[next.len() - 2] == v@[i - 1]);
                assert(pre.last() == v@[i - 1]);
                lemma_words_nonempty(pre);
            }
            let mut w = r.pop().unwrap();
            w.push(c);
            r.push(w);
            proof {
                assert(views_of(r@) =~= before.update(before.len() - 1, before.last().push(c)));
            }
        } else {
            let mut w: Vec<char> = Vec::new();
            w.push(c);
            r.push(w);
            proof {
                assert(w@ =~= seq![c]);
                assert(views_of(r@) =~= before.push(seq![c]));
            }
        }
        i += 1;
        proof {
            assert(views_of(r@) == words(next));
        }
    }
    assert(v@.take(v.len() as int) =~= v@);
    r
}

/// One word: not empty, and no whitespace in it.
pub open spec fn one_word(w: Seq<char>) -> bool {
    w.len() > 0 && forall|i: int| 0 <= i < w.len() ==> !is_space(#[trigger] w[i])
}

/// A word written after whitespace, or at the start, is one more word.
proof fn lemma_words_append_word(s: Seq<char>, w: Seq<char>)
    requires
        one_word(w),
        s.len() == 0 || is_space(s.last()),
    ensures
        words(s + w) == words(s).push(w),
    decreases w.len(),
{
    let t = s + w;
    if w.len() == 1 {
        assert(t.drop_last() =~= s);
        assert(t.last() == w[0]);
        if t.len() >= 2 {
            assert(t[t.len() - 2] == s.last());
        }
        assert(w =~= seq![w[0]]);
    } else {
        let v = w.drop_last();
        assert(one_word(v)) by {
            assert forall|i: int| 0 <= i < v.len() implies !is_space(#[trigger] v[i]) by {
                assert(v[i] == w[i]);
            }
        }
        lemma_words_append_word(s, v);
        assert(t.drop_last() =~= s + v);
        assert(t.last() == w.last());
        assert(t[t.len() - 2] == w[w.len() - 2]);
        assert(!is_space(w[w.len() - 2]));
        assert(v.push(w.last()) =~= w);
    }
}

/// Single words joined by spaces split back into the same words.
pub proof fn lemma_words_of_joined(ws: Seq<Seq<char>>)
    requires
        forall|k: int| 0 <= k < ws.len() ==> one_word(#[trigger] ws[k]),
    ensures
        words(join_spaced(ws)) == ws,
    decreases ws.len(),
{
    if ws.len() == 0 {
    } else if ws.len() == 1 {
        lemma_words_append_word(Seq::<char>::empty(), ws[0]);
        assert(Seq::<char>::empty() + ws[0] =~= ws[0]);
        assert(Seq::<Seq<char>>::empty().push(ws[0]) =~= ws);
    } else {
        let prev = ws.drop_last();
        assert forall|k: int| 0 <= k < prev.len() implies one_word(#[trigger] prev[k]) by {
            assert(prev[k] == ws[k]);
        }
        lemma_words_of_joined(prev);
        let s = join_spaced(prev).push(' ');
        assert(s.drop_last() =~= join_spaced(prev));
        assert(words(s) == words(join_spaced(prev)));
        lemma_words_append_word(s, ws.last());
        assert(join_spaced(ws) =~= s + ws.last());
        assert(prev.push(ws.last()) =~= ws);
    }
}

/// A leading space does not change the words.
pub proof fn lemma_words_leading_space(s: Seq<char>)
    requires
        s.len() > 0,
        is_space(s[0]),
    ensures
        words(s) == words(s.drop_first()),
    decreases s.len(),
{
    if s.len() == 1 {
        assert(s.drop_last() =~= Seq::<char>::empty());
        assert(s.drop_first() =~= Seq::<char>::empty());
    } else {
        let d = s.drop_last();
        let t = s.drop_first();
        assert(t.drop_last() =~= d.drop_first());
        assert(d[0] == s[0]);
        lemma_words_leading_space(d);
        assert(t.last() == s.last());
        if t.len() >= 2 {
            assert(t[t.len() - 2] == s[s.len() - 2]);
        }
    }
}

/// Leading whitespace does not change the words.
pub proof fn lemma_words_strip_start(s: Seq<char>)
    ensures
        words(strip_start(s, |c: char| is_space(c))) == words(s),
    decreases s.len(),
{
    let p = |c: char| is_space(c);
    if s.len() > 0 && p(s[0]) {
        lemma_words_leading_space(s);
        lemma_words_strip_start(s.drop_first());
    }
}

/// Trailing whitespace does not change the words.
pub proof fn lemma_words_strip_end(s: Seq<char>)
    ensures
        words(strip_end(s, |c: char| is_space(c))) == words(s),
    decreases s.len(),
{
    let p = |c: char| is_space(c);
    if s.len() > 0 && p(s.last()) {
        lemma_words_strip_end(s.drop_last());
    }
}

/// Trimming first does not change the words, so it does not change the
/// collapsed form either.
pub proof fn lemma_collapse_trim(s: Seq<char>)
    ensures
        words(trim(s)) == words(s),
        collapse(trim(s)) == collapse(s),
{
    let p = |c: char| is_space(c);
    lemma_words_strip_start(s);
    lemma_words_strip_end(strip_start(s, p));
}

// ---------------------------------------------------------------- numbers

/// The decimal digit for `d < 10`.
pub open spec fn digit(d: nat) -> char {
    (('0' as u32) + d) as char
}

/// `n` written in decimal with no leading zeros, what `Display` gives for an
/// unsigned integer.
pub open spec fn decimal(n: nat) -> Seq<char>
    decreases n,
{
    if n < 10 {
        seq![digit(n)]
    } else {
        decimal(n / 10).push(digit(n % 10))
    }
}

/// A signed integer in decimal, with a leading minus when negative.
pub open spec fn signed_decimal(n: int) -> Seq<char> {
    if n < 0 {
        seq!['-'] + decimal((-n) as nat)
    } else {
        decimal(n as nat)
    }
}

fn digit_char(d: u64) -> (r: char)
    requires
        d < 10,
    ensures
        r == digit(d as nat),
{
    let b: u8 = 48u8 + (d as u8);
    b as char
}

/// `n.to_string()` for an unsigned integer.
pub fn decimal_chars(n: u64) -> (r: Vec<char>)
    ensures
        r@ == decimal(n as nat),
    decreases n,
{
    if n < 10 {
        let mut r: Vec<char> = Vec::new();
        r.push(digit_char(n));
        proof {
            assert(r@ =~= decimal(n as nat));
        }
        r
    } else {
        let mut r = decimal_chars(n / 10);
        r.push(digit_char(n % 10));
        r
    }
}

/// `n.to_string()` for a signed integer.
pub fn signed_decimal_chars(n: i64) -> (r: Vec<char>)
    ensures
        r@ == signed_decimal(n as int),
{
    if n < 0 {
        let m: u64 = if n == i64::MIN {
            9223372036854775808u64
        } else {
            (-n) as u64
        };
        let d = decimal_chars(m);
        let mut r: Vec<char> = Vec::new();
        r.push('-');
        push_chars(&mut r, &d);
        proof {
            assert(r@ =~= seq!['-'] + decimal((-n) as nat));
        }
        r
    } else {
        decimal_chars(n as u64)
    }
}

} // verus!
