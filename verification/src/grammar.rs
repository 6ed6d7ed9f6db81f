//! The grammar this parser recognizes, written as specification functions
//! over the character sequence of the input buffer.

use vstd::prelude::*;

verus! {

/// The Unicode white space characters, the set that `char::is_whitespace`
/// recognizes.
pub open spec fn is_ws(c: char) -> bool {
    ||| c == ' '
    ||| c == '\t'
    ||| c == '\n'
    ||| c == '\u{b}'
    ||| c == '\u{c}'
    ||| c == '\r'
    ||| c == '\u{85}'
    ||| c == '\u{a0}'
    ||| c == '\u{1680}'
    ||| ('\u{2000}' <= c && c <= '\u{200a}')
    ||| c == '\u{2028}'
    ||| c == '\u{2029}'
    ||| c == '\u{202f}'
    ||| c == '\u{205f}'
    ||| c == '\u{3000}'
}

/// Decides `is_ws` in executable code.
pub fn is_ws_char(c: char) -> (r: bool)
    ensures
        r == is_ws(c),
{
    c == ' ' || c == '\t' || c == '\n' || c == '\u{b}' || c == '\u{c}' || c == '\r'
        || c == '\u{85}' || c == '\u{a0}' || c == '\u{1680}'
        || ('\u{2000}' <= c && c <= '\u{200a}') || c == '\u{2028}' || c == '\u{2029}'
        || c == '\u{202f}' || c == '\u{205f}' || c == '\u{3000}'
}

/// An ASCII decimal digit.
pub open spec fn is_digit(c: char) -> bool {
    '0' <= c && c <= '9'
}

/// Decides `is_digit` in executable code.
pub fn digit_char(c: char) -> (r: bool)
    ensures
        r == is_digit(c),
{
    '0' <= c && c <= '9'
}

/// The first index at or after `i` holding a character that is not white
/// space, or the length of `s` when only white space remains.
pub open spec fn skip_ws_idx(s: Seq<char>, i: int) -> int
    decreases s.len() - i,
    when 0 <= i
{
    if i >= s.len() {
        s.len() as int
    } else if is_ws(s[i]) {
        skip_ws_idx(s, i + 1)
    } else {
        i
    }
}

/// The index of the first character at or after `i` that belongs to no
/// number literal: the scan admits digits and at most one decimal point
/// (`ok` says whether a point is still admitted). Running into a second
/// point, or off the end of the input, yields no index at all.
pub open spec fn num_end(s: Seq<char>, i: int, ok: bool) -> Option<int>
    decreases s.len() - i,
    when 0 <= i
{
    if i >= s.len() {
        None
    } else if is_digit(s[i]) {
        num_end(s, i + 1, ok)
    } else if s[i] == '.' {
        if ok {
            num_end(s, i + 1, false)
        } else {
            None
        }
    } else {
        Some(i)
    }
}

pub proof fn lemma_num_end(s: Seq<char>, i: int, ok: bool)
    requires
        0 <= i <= s.len(),
    ensures
        num_end(s, i, ok) matches Some(e) ==> i <= e < s.len() && !is_digit(s[e]) && s[e] != '.',
    decreases s.len() - i,
{
    if i < s.len() && (is_digit(s[i]) || s[i] == '.') {
        lemma_num_end(s, i + 1, ok && !(s[i] == '.'));
        if is_digit(s[i]) {
            lemma_num_end(s, i + 1, ok);
        }
    }
}

/// The index of the closing quote of a string literal whose content starts
/// at `i`, with `esc` saying whether the previous character was an unmatched
/// backslash. A backslash may only escape a quote or a second backslash;
/// any other escaped character, or the end of the input before an unescaped
/// quote, yields no index at all.
pub open spec fn str_scan(s: Seq<char>, i: int, esc: bool) -> Option<int>
    decreases s.len() - i,
    when 0 <= i
{
    if i >= s.len() {
        None
    } else if esc {
        if s[i] == '"' || s[i] == '\\' {
            str_scan(s, i + 1, false)
        } else {
            None
        }
    } else if s[i] == '"' {
        Some(i)
    } else if s[i] == '\\' {
        str_scan(s, i + 1, true)
    } else {
        str_scan(s, i + 1, false)
    }
}

pub proof fn lemma_str_scan(s: Seq<char>, i: int, esc: bool)
    requires
        0 <= i <= s.len(),
    ensures
        str_scan(s, i, esc) matches Some(q) ==> i <= q < s.len() && s[q] == '"',
    decreases s.len() - i,
{
    if i < s.len() {
        lemma_str_scan(s, i + 1, false);
        lemma_str_scan(s, i + 1, true);
    }
}

/// A character on which a boolean literal may end.
pub open spec fn is_term(c: char) -> bool {
    c == ',' || c == ']' || c == '}' || is_ws(c)
}

/// Decides `is_term` in executable code.
pub fn term_char(c: char) -> (r: bool)
    ensures
        r == is_term(c),
{
    c == ',' || c == ']' || c == '}' || is_ws_char(c)
}

/// The index just past a boolean literal starting at `i`: exactly `true` or
/// `false`, and only when the following character terminates it.
pub open spec fn tf_end(s: Seq<char>, i: int) -> Option<int> {
    if i + 4 < s.len() && s[i] == 't' && s[i + 1] == 'r' && s[i + 2] == 'u' && s[i + 3] == 'e'
        && is_term(s[i + 4]) {
        Some(i + 4)
    } else if i + 5 < s.len() && s[i] == 'f' && s[i + 1] == 'a' && s[i + 2] == 'l' && s[i + 3]
        == 's' && s[i + 4] == 'e' && is_term(s[i + 5]) {
        Some(i + 5)
    } else {
        None
    }
}

/// What a scalar read returns when the character at `i` opens one: the raw
/// text of the scalar, and the index on which the cursor lands afterwards
/// (the delimiter for numbers and booleans; the first non-white-space
/// character after the closing quote for strings).
pub open spec fn scan_scalar(s: Seq<char>, i: int) -> Option<(Seq<char>, int)> {
    if is_digit(s[i]) {
        match num_end(s, i, true) {
            Some(e) => Some((s.subrange(i, e), e)),
            None => None,
        }
    } else if s[i] == '"' {
        match str_scan(s, i + 1, false) {
            Some(q) => Some((s.subrange(i + 1, q), skip_ws_idx(s, q + 1))),
            None => None,
        }
    } else if s[i] == 't' || s[i] == 'f' {
        match tf_end(s, i) {
            Some(e) => Some((s.subrange(i, e), e)),
            None => None,
        }
    } else {
        None
    }
}

/// A parsed JSON value, as mathematics: a scalar is the raw text it was
/// written with, an array is the sequence of its elements, and an object is
/// a map from raw key text to value.
pub enum JVal {
    Text(Seq<char>),
    Arr(Seq<JVal>),
    Obj(Map<Seq<char>, JVal>),
}

/// A character that may open an element inside an array: a digit, a quote,
/// or a bracket. `t` and `f` are deliberately absent, so arrays of boolean
/// literals are not recognized.
pub open spec fn starts_elem(c: char) -> bool {
    is_digit(c) || c == '"' || c == '[' || c == '{'
}

/// A character that may open a value where one is dispatched on lookahead.
pub open spec fn starts_field(c: char) -> bool {
    is_digit(c) || c == '"' || c == 't' || c == 'f' || c == '[' || c == '{'
}

/// `j` forced into `[lo, hi]`; the readers always stay inside that range,
/// so in every reachable state this is `j` itself. It keeps the recursion
/// measures of the parse functions visibly decreasing.
pub open spec fn clip_to(lo: int, hi: int, j: int) -> int {
    if j < lo {
        lo
    } else if j > hi {
        hi
    } else {
        j
    }
}

/// Where the colon after an object key is found, when the cursor landed on
/// index `k1` after reading the key: either directly, or after white space.
pub open spec fn colon_idx(s: Seq<char>, k1: int) -> Option<int> {
    if k1 >= s.len() {
        None
    } else if s[k1] == ':' {
        Some(k1)
    } else if is_ws(s[k1]) {
        if skip_ws_idx(s, k1 + 1) < s.len() && s[skip_ws_idx(s, k1 + 1)] == ':' {
            Some(skip_ws_idx(s, k1 + 1))
        } else {
            None
        }
    } else {
        None
    }
}

/// What a value read returns when the character at `i` opens one: the value
/// and the index on which the cursor lands afterwards.
pub open spec fn parse_field(s: Seq<char>, i: int) -> Option<(JVal, int)>
    decreases s.len() - i, 2int,
    when 0 <= i < s.len()
{
    if is_digit(s[i]) || s[i] == '"' || s[i] == 't' || s[i] == 'f' {
        match scan_scalar(s, i) {
            Some(pair) => Some((JVal::Text(pair.0), pair.1)),
            None => None,
        }
    } else if s[i] == '{' {
        parse_obj(s, i)
    } else if s[i] == '[' {
        parse_vec(s, i)
    } else {
        None
    }
}

/// What an array read returns when the cursor sits on the `[` at index `i`.
pub open spec fn parse_vec(s: Seq<char>, i: int) -> Option<(JVal, int)>
    decreases s.len() - i, 1int,
    when 0 <= i < s.len()
{
    parse_vec_items(s, clip_to(i + 1, s.len() as int, skip_ws_idx(s, i + 1)), Seq::empty())
}

/// The element loop of an array read, at index `k` with the elements read
/// so far in `acc`.
pub open spec fn parse_vec_items(s: Seq<char>, k: int, acc: Seq<JVal>) -> Option<(JVal, int)>
    decreases s.len() - k, 3int,
    when 0 <= k
{
    if k >= s.len() {
        None
    } else if starts_elem(s[k]) {
        match parse_field(s, k) {
            Some(pair) => parse_vec_items(
                s,
                clip_to(k + 1, s.len() as int, pair.1),
                acc.push(pair.0),
            ),
            None => None,
        }
    } else if s[k] == ',' {
        parse_vec_items(s, clip_to(k + 1, s.len() as int, skip_ws_idx(s, k + 1)), acc)
    } else if s[k] == ']' {
        Some((JVal::Arr(acc), skip_ws_idx(s, k + 1)))
    } else {
        None
    }
}

/// What an object read returns when the cursor sits on the `{` at index `i`.
pub open spec fn parse_obj(s: Seq<char>, i: int) -> Option<(JVal, int)>
    decreases s.len() - i, 1int,
    when 0 <= i < s.len()
{
    parse_obj_items(
        s,
        clip_to(i + 1, s.len() as int, skip_ws_idx(s, i + 1)),
        Map::<Seq<char>, JVal>::empty(),
    )
}

/// The member loop of an object read, at index `k` with the members read so
/// far in `acc`; a key read again overwrites the value it had.
pub open spec fn parse_obj_items(s: Seq<char>, k: int, acc: Map<Seq<char>, JVal>) -> Option<
    (JVal, int),
>
    decreases s.len() - k, 3int,
    when 0 <= k
{
    if k >= s.len() {
        None
    } else if is_digit(s[k]) || s[k] == '"' {
        match scan_scalar(s, k) {
            Some(kp) => match colon_idx(s, kp.1) {
                Some(ci) => {
                    let v0 = skip_ws_idx(s, ci + 1);
                    if v0 >= s.len() {
                        None
                    } else {
                        match parse_field(s, clip_to(k + 1, s.len() as int, v0)) {
                            Some(pair) => parse_obj_items(
                                s,
                                clip_to(k + 1, s.len() as int, pair.1),
                                acc.insert(kp.0, pair.0),
                            ),
                            None => None,
                        }
                    }
                },
                None => None,
            },
            None => None,
        }
    } else if s[k] == ',' {
        parse_obj_items(s, clip_to(k + 1, s.len() as int, skip_ws_idx(s, k + 1)), acc)
    } else if s[k] == '}' {
        Some((JVal::Obj(acc), skip_ws_idx(s, k + 1)))
    } else {
        None
    }
}

/// What parsing a whole buffer returns: leading white space is skipped, one
/// value is read, and anything after it is never looked at. An empty or
/// white-space-only buffer holds no value.
pub open spec fn parse_text(s: Seq<char>) -> Option<JVal> {
    if skip_ws_idx(s, 0) >= s.len() {
        None
    } else {
        match parse_field(s, skip_ws_idx(s, 0)) {
            Some(pair) => Some(pair.0),
            None => None,
        }
    }
}

pub proof fn lemma_skip_ws_idx(s: Seq<char>, i: int)
    requires
        0 <= i <= s.len(),
    ensures
        i <= skip_ws_idx(s, i) <= s.len(),
        skip_ws_idx(s, i) < s.len() ==> !is_ws(s[skip_ws_idx(s, i)]),
        forall|k: int| i <= k < skip_ws_idx(s, i) ==> is_ws(s[k]),
    decreases s.len() - i,
{
    if i < s.len() && is_ws(s[i]) {
        lemma_skip_ws_idx(s, i + 1);
    }
}

/// Law: skipping white space from `i` over a stretch that is all white
/// space up to `w` lands exactly on `w`, the first meaningful character.
/// With the number reader's own contract this pins down what reading a
/// number after leading white space returns: exactly the literal's text,
/// with the cursor on the delimiter that ended it.
pub proof fn lemma_skip_ws_exact(s: Seq<char>, i: int, w: int)
    requires
        0 <= i <= w <= s.len(),
        forall|k: int| i <= k < w ==> is_ws(s[k]),
        w < s.len() ==> !is_ws(s[w]),
    ensures
        skip_ws_idx(s, i) == w,
    decreases w - i,
{
    if i < w {
        lemma_skip_ws_exact(s, i + 1, w);
    }
}

/// Law: a buffer holding only white space, or nothing at all, parses to no
/// value.
pub proof fn lemma_blank_input_no_value(s: Seq<char>)
    requires
        forall|i: int| 0 <= i < s.len() ==> is_ws(s[i]),
    ensures
        parse_text(s) is None,
{
    lemma_skip_ws_idx(s, 0);
}

/// Law: a key written again keeps only the value written last, whatever was
/// bound to it before; this is what an object read does with a duplicate
/// key, and what `ObjMap::insert` promises of its view.
pub proof fn lemma_duplicate_key_last_wins(
    m: Map<Seq<char>, JVal>,
    k: Seq<char>,
    v1: JVal,
    v2: JVal,
)
    ensures
        m.insert(k, v1).insert(k, v2) == m.insert(k, v2),
{
    assert(m.insert(k, v1).insert(k, v2) =~= m.insert(k, v2));
}

} // verus!
