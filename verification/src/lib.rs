//! A minimal zero-copy JSON reader: it turns a text buffer into a tree of
//! borrowed slices without allocating new string storage.

pub mod buffer_walk;
pub mod grammar;
pub mod obj_map;

use vstd::prelude::*;

use crate::buffer_walk::CharIter;
use crate::grammar::{
    digit_char, is_digit, is_ws_char, lemma_num_end, lemma_skip_ws_idx, lemma_str_scan, num_end,
    parse_field, parse_obj, parse_obj_items, parse_text, parse_vec, parse_vec_items, scan_scalar,
    skip_ws_idx, starts_field, str_scan, term_char, tf_end, JVal,
};
use crate::obj_map::{sorted_entries, ObjMap};

verus! {

/// A parsed JSON value: a scalar kept verbatim as a borrowed slice of the
/// input (quotes stripped for strings), an object, or an array. Every slice
/// in the tree borrows from the buffer it was parsed from.
#[derive(Debug)]
pub enum Json<'a> {
    Var(&'a str),
    Obj(ObjMap<'a>),
    Vec(Vec<Json<'a>>),
}

/// The sequence of parsed values a vector of nodes stands for.
pub open spec fn seq_view_of<'a>(s: Seq<Json<'a>>) -> Seq<JVal>
    decreases s,
{
    if s.len() == 0 {
        Seq::empty()
    } else {
        seq_view_of(s.subrange(0, s.len() - 1)).push(s[s.len() - 1].jview())
    }
}

/// The map an association vector stands for, binding each key to the value
/// of its last occurrence.
pub open spec fn map_view_of<'a>(es: Seq<(&'a str, Json<'a>)>) -> Map<Seq<char>, JVal>
    decreases es,
{
    if es.len() == 0 {
        Map::empty()
    } else {
        map_view_of(es.subrange(0, es.len() - 1)).insert(
            es[es.len() - 1].0@,
            es[es.len() - 1].1.jview(),
        )
    }
}

/// No key text occurs twice.
pub open spec fn keys_unique<'a>(es: Seq<(&'a str, Json<'a>)>) -> bool {
    forall|i: int, j: int| 0 <= i < j < es.len() ==> es[i].0@ != es[j].0@
}

/// Every value of an association vector is well formed.
pub open spec fn entries_wf<'a>(es: Seq<(&'a str, Json<'a>)>) -> bool
    decreases es,
{
    es.len() == 0 || (entries_wf(es.subrange(0, es.len() - 1)) && es[es.len() - 1].1.jwf())
}

/// Every node of a vector is well formed.
pub open spec fn seq_wf<'a>(s: Seq<Json<'a>>) -> bool
    decreases s,
{
    s.len() == 0 || (seq_wf(s.subrange(0, s.len() - 1)) && s[s.len() - 1].jwf())
}

impl<'a> Json<'a> {
    /// Parses a whole buffer: leading white space is skipped, one value is
    /// read, and anything after it is never looked at. An empty or
    /// white-space-only buffer, like any malformed one, holds no value.
    pub fn new<'b>(buffer: &'b str) -> (r: Option<Json<'b>>)
        requires
            buffer@.len() < usize::MAX,
        ensures
            match parse_text(buffer@) {
                Some(v) => r matches Some(js) && js.jview() == v && js.jwf(),
                None => r is None,
            },
    {
        let mut c = CharIter::new(buffer);
        proof {
            lemma_skip_ws_idx(buffer@, 0);
        }
        let _ = c.skip_whitespace();
        read_field(&mut c)
    }

    /// Whether this node is a scalar.
    pub fn is_var(&self) -> (r: bool)
        ensures
            r == (self.jview() is Text),
    {
        match self {
            Json::Var(_) => true,
            _ => false,
        }
    }

    /// Whether this node is an object.
    pub fn is_obj(&self) -> (r: bool)
        ensures
            r == (self.jview() is Obj),
    {
        match self {
            Json::Obj(_) => true,
            _ => false,
        }
    }

    /// Whether this node is an array.
    pub fn is_vec(&self) -> (r: bool)
        ensures
            r == (self.jview() is Arr),
    {
        match self {
            Json::Vec(_) => true,
            _ => false,
        }
    }

    /// The raw text of a scalar, or nothing for another node.
    pub fn get_var(&self) -> (r: Option<&'a str>)
        ensures
            match r {
                Some(t) => self.jview() == JVal::Text(t@),
                None => !(self.jview() is Text),
            },
    {
        match self {
            Json::Var(x) => Some(x),
            _ => None,
        }
    }

    /// The elements of an array, or nothing for another node.
    pub fn get_vec(&'a self) -> (r: Option<&'a Vec<Json<'a>>>)
        ensures
            match r {
                Some(v) => {
                    &&& self.jview() == JVal::Arr(seq_view_of(v@))
                    &&& seq_view_of(v@).len() == v@.len()
                    &&& forall|i: int| 0 <= i < v@.len() ==> seq_view_of(v@)[i] == v@[i].jview()
                },
                None => !(self.jview() is Arr),
            },
    {
        match self {
            Json::Vec(x) => {
                proof {
                    lemma_seq_view(x@);
                }
                Some(x)
            },
            _ => None,
        }
    }

    /// The mapping of an object, or nothing for another node.
    pub fn get_obj(&'a self) -> (r: Option<&'a ObjMap<'a>>)
        ensures
            match r {
                Some(m) => self.jview() == JVal::Obj(m.view()),
                None => !(self.jview() is Obj),
            },
    {
        match self {
            Json::Obj(x) => Some(x),
            _ => None,
        }
    }

    /// Looks `key` up in an object node, returning the node its last
    /// occurrence bound it to; an absent key, or a node that is not an
    /// object, yields nothing.
    pub fn search_obj(&'a self, key: &str) -> (r: Option<&'a Json<'a>>)
        requires
            self.jwf(),
        ensures
            match r {
                Some(v) => {
                    &&& self.jview() matches JVal::Obj(m)
                    &&& m.contains_key(key@)
                    &&& v.jview() == m[key@]
                    &&& v.jwf()
                },
                None => self.jview() matches JVal::Obj(m) ==> !m.contains_key(key@),
            },
    {
        match self {
            Json::Obj(x) => x.get(key),
            _ => None,
        }
    }

    /// The parsed value this node stands for, as mathematics.
    pub open spec fn jview(self) -> JVal
        decreases self,
    {
        match self {
            Json::Var(t) => JVal::Text(t@),
            Json::Obj(m) => JVal::Obj(map_view_of(m.entries@)),
            Json::Vec(v) => JVal::Arr(seq_view_of(v@)),
        }
    }

    /// Every object in the tree holds its keys in strictly increasing
    /// order, so no key occurs twice.
    pub open spec fn jwf(self) -> bool
        decreases self,
    {
        match self {
            Json::Var(_) => true,
            Json::Obj(m) => sorted_entries(m.entries@) && entries_wf(m.entries@),
            Json::Vec(v) => seq_wf(v@),
        }
    }
}

impl<'a> Clone for Json<'a> {
    /// A structural copy of the tree; every slice in the copy still
    /// borrows from the buffer the original was parsed from.
    fn clone(&self) -> Self
        decreases self,
    {
        match self {
            Json::Var(t) => Json::Var(t),
            Json::Obj(m) => {
                let mut entries: Vec<(&'a str, Json<'a>)> = Vec::new();
                let mut i: usize = 0;
                while i < m.entries.len()
                    invariant
                        self is Obj,
                        *m == self->Obj_0,
                    decreases m.entries.len() - i,
                {
                    proof {
                        assert(decreases_to!(*self => self->Obj_0.entries@[i as int].1));
                    }
                    entries.push((m.entries[i].0, m.entries[i].1.clone()));
                    i = i + 1;
                }
                Json::Obj(ObjMap { entries })
            },
            Json::Vec(v) => {
                let mut out: Vec<Json<'a>> = Vec::new();
                let mut i: usize = 0;
                while i < v.len()
                    invariant
                        self is Vec,
                        *v == self->Vec_0,
                    decreases v.len() - i,
                {
                    proof {
                        assert(decreases_to!(*self => self->Vec_0@[i as int]));
                    }
                    out.push(v[i].clone());
                    i = i + 1;
                }
                Json::Vec(out)
            },
        }
    }
}

pub proof fn lemma_seq_view_push<'a>(s: Seq<Json<'a>>, x: Json<'a>)
    ensures
        seq_view_of(s.push(x)) == seq_view_of(s).push(x.jview()),
        seq_wf(s) && x.jwf() ==> seq_wf(s.push(x)),
{
    assert(s.push(x).subrange(0, s.push(x).len() - 1) =~= s);
}

pub proof fn lemma_seq_view<'a>(s: Seq<Json<'a>>)
    ensures
        seq_view_of(s).len() == s.len(),
        forall|i: int| 0 <= i < s.len() ==> seq_view_of(s)[i] == s[i].jview(),
        seq_wf(s) ==> forall|i: int| 0 <= i < s.len() ==> s[i].jwf(),
    decreases s.len(),
{
    if s.len() > 0 {
        let front = s.subrange(0, s.len() - 1);
        lemma_seq_view(front);
        assert(forall|i: int| 0 <= i < front.len() ==> front[i] == s[i]);
    }
}

/// Reads a maximal run of digits with at most one decimal point, starting
/// at the cursor's current character, and returns its raw text; the cursor
/// is left on the delimiter that ended the run. A second decimal point, or
/// the end of the input before a delimiter, fails.
pub fn read_number<'a>(buffer: &mut CharIter<'a>) -> (r: Option<&'a str>)
    requires
        old(buffer).wf(),
        old(buffer).at() >= 1,
    ensures
        final(buffer).wf(),
        final(buffer).text() == old(buffer).text(),
        old(buffer).cur() is None ==> r is None && *final(buffer) == *old(buffer),
        old(buffer).cur() is Some ==> match num_end(
            old(buffer).text(),
            old(buffer).at() - 1,
            true,
        ) {
            Some(e) => {
                &&& r matches Some(t) && t@ == old(buffer).text().subrange(
                    old(buffer).at() - 1,
                    e,
                )
                &&& final(buffer).landed(e)
            },
            None => r is None,
        },
{
    let start = buffer.position();
    let mut count = start;
    let mut ok = true;
    loop
        invariant
            buffer.wf(),
            buffer.text() == old(buffer).text(),
            start == old(buffer).at() - 1,
            start <= count,
            old(buffer).cur() is None ==> *buffer == *old(buffer),
            old(buffer).cur() is Some ==> {
                &&& buffer.cur() matches Some(c) ==> count == buffer.at() - 1 && count
                    < buffer.text().len() && c == buffer.text()[count as int]
                &&& buffer.cur() is None ==> count == buffer.text().len() && buffer.at()
                    == count + 1
                &&& num_end(buffer.text(), start as int, true) == num_end(
                    buffer.text(),
                    count as int,
                    ok,
                )
            },
        decreases buffer.text().len() - count,
    {
        match buffer.current() {
            None => {
                return None;
            },
            Some(c) => {
                if digit_char(c) {
                } else if c == '.' {
                    if ok {
                        ok = false;
                    } else {
                        return None;
                    }
                } else {
                    return Some(buffer.get_sub_string(start, count));
                }
            },
        }
        count = count + 1;
        let _ = buffer.next();
    }
}

/// Reads exactly the literal `true` or `false` starting at the cursor's
/// current character and returns its raw text; the literal must be followed
/// by `,`, `]`, `}` or white space, and the cursor is left on that
/// terminator. Anything else, including the end of the input, fails.
pub fn read_tf<'a>(buffer: &mut CharIter<'a>) -> (r: Option<&'a str>)
    requires
        old(buffer).wf(),
        old(buffer).at() >= 1,
    ensures
        final(buffer).wf(),
        final(buffer).text() == old(buffer).text(),
        old(buffer).cur() is None ==> r is None && *final(buffer) == *old(buffer),
        old(buffer).cur() is Some ==> match tf_end(old(buffer).text(), old(buffer).at() - 1) {
            Some(e) => {
                &&& r matches Some(t) && t@ == old(buffer).text().subrange(
                    old(buffer).at() - 1,
                    e,
                )
                &&& final(buffer).landed(e)
            },
            None => r is None,
        },
{
    let start = buffer.position();
    let c0 = match buffer.current() {
        Some(c) => c,
        None => {
            return None;
        },
    };
    if c0 == 't' {
        match buffer.next() {
            Some(c) => {
                if c != 'r' {
                    return None;
                }
            },
            None => {
                return None;
            },
        }
        match buffer.next() {
            Some(c) => {
                if c != 'u' {
                    return None;
                }
            },
            None => {
                return None;
            },
        }
        match buffer.next() {
            Some(c) => {
                if c != 'e' {
                    return None;
                }
            },
            None => {
                return None;
            },
        }
        match buffer.next() {
            Some(c) => {
                if term_char(c) {
                    Some(buffer.get_sub_string(start, start + 4))
                } else {
                    None
                }
            },
            None => None,
        }
    } else if c0 == 'f' {
        match buffer.next() {
            Some(c) => {
                if c != 'a' {
                    return None;
                }
            },
            None => {
                return None;
            },
        }
        match buffer.next() {
            Some(c) => {
                if c != 'l' {
                    return None;
                }
            },
            None => {
                return None;
            },
        }
        match buffer.next() {
            Some(c) => {
                if c != 's' {
                    return None;
                }
            },
            None => {
                return None;
            },
        }
        match buffer.next() {
            Some(c) => {
                if c != 'e' {
                    return None;
                }
            },
            None => {
                return None;
            },
        }
        match buffer.next() {
            Some(c) => {
                if term_char(c) {
                    Some(buffer.get_sub_string(start, start + 5))
                } else {
                    None
                }
            },
            None => None,
        }
    } else {
        None
    }
}

/// Reads a string literal: an opening quote (consumed if the cursor still
/// sits on it), then characters up to an unescaped closing quote, where a
/// backslash may escape a quote or a second backslash. Returns the raw text
/// between the quotes, escapes left undecoded, and leaves the cursor past
/// any white space that followed the literal. Reaching the end of the input
/// first fails.
pub fn read_string<'a>(buffer: &mut CharIter<'a>) -> (r: Option<&'a str>)
    requires
        old(buffer).wf(),
        old(buffer).at() >= 1,
    ensures
        final(buffer).wf(),
        final(buffer).text() == old(buffer).text(),
        old(buffer).cur() is None ==> r is None && *final(buffer) == *old(buffer),
        old(buffer).cur() is Some ==> {
            let p = if old(buffer).cur() == Some('"') {
                old(buffer).at()
            } else {
                old(buffer).at() - 1
            };
            match str_scan(old(buffer).text(), p, false) {
                Some(q) => {
                    &&& r matches Some(t) && t@ == old(buffer).text().subrange(p, q)
                    &&& final(buffer).landed(skip_ws_idx(old(buffer).text(), q + 1))
                },
                None => r is None,
            }
        },
{
    match buffer.current() {
        Some(c) => {
            if c == '"' {
                let _ = buffer.next();
            }
        },
        None => {
            return None;
        },
    }
    let ghost p: int = if old(buffer).cur() == Some('"') {
        old(buffer).at()
    } else {
        old(buffer).at() - 1
    };
    let mut esc = false;
    let start = buffer.position();
    let mut count = start;
    loop
        invariant
            buffer.wf(),
            buffer.text() == old(buffer).text(),
            old(buffer).cur() is Some,
            p == if old(buffer).cur() == Some('"') {
                old(buffer).at()
            } else {
                old(buffer).at() - 1
            },
            0 <= p <= buffer.text().len(),
            start <= count,
            buffer.cur() matches Some(c) ==> {
                &&& count == buffer.at() - 1
                &&& count < buffer.text().len()
                &&& c == buffer.text()[count as int]
                &&& start == p
                &&& str_scan(buffer.text(), p, false) == str_scan(
                    buffer.text(),
                    count as int,
                    esc,
                )
            },
            buffer.cur() is None ==> str_scan(buffer.text(), p, false) is None,
        decreases buffer.text().len() - count,
    {
        match buffer.current() {
            None => {
                return None;
            },
            Some(c) => {
                if esc {
                    if c == '"' || c == '\\' {
                        esc = false;
                    } else {
                        return None;
                    }
                } else if c == '"' {
                    let rv = Some(buffer.get_sub_string(start, count));
                    let _ = buffer.skip_whitespace();
                    return rv;
                } else if c == '\\' {
                    esc = true;
                }
            },
        }
        count = count + 1;
        let _ = buffer.next();
    }
}

/// Reads whichever scalar the cursor's current character opens: a digit
/// starts a number, a quote a string, `t` or `f` a boolean literal.
/// Anything else fails without moving the cursor.
pub fn read_str<'a>(buffer: &mut CharIter<'a>) -> (r: Option<&'a str>)
    requires
        old(buffer).wf(),
        old(buffer).at() >= 1,
    ensures
        final(buffer).wf(),
        final(buffer).text() == old(buffer).text(),
        old(buffer).cur() is None ==> r is None && *final(buffer) == *old(buffer),
        old(buffer).cur() matches Some(c) ==> {
            if is_digit(c) || c == '"' || c == 't' || c == 'f' {
                match scan_scalar(old(buffer).text(), old(buffer).at() - 1) {
                    Some(pair) => {
                        &&& r matches Some(t) && t@ == pair.0
                        &&& final(buffer).landed(pair.1)
                    },
                    None => r is None,
                }
            } else {
                r is None && *final(buffer) == *old(buffer)
            }
        },
        r is Some ==> final(buffer).at() > old(buffer).at(),
{
    let ghost s = old(buffer).text();
    let ghost p0 = old(buffer).at() - 1;
    match buffer.current() {
        Some(c) => {
            if digit_char(c) {
                let r = read_number(buffer);
                proof {
                    if r is Some {
                        lemma_num_end(s, p0 + 1, true);
                    }
                }
                r
            } else if c == '"' {
                let r = read_string(buffer);
                proof {
                    if r is Some {
                        lemma_str_scan(s, p0 + 1, false);
                        let q = str_scan(s, p0 + 1, false)->0;
                        lemma_skip_ws_idx(s, q + 1);
                    }
                }
                r
            } else if c == 't' || c == 'f' {
                read_tf(buffer)
            } else {
                None
            }
        },
        None => None,
    }
}

/// Reads a scalar, as `read_str` does, and wraps its raw text in a node.
pub fn read_var<'a>(buffer: &mut CharIter<'a>) -> (r: Option<Json<'a>>)
    requires
        old(buffer).wf(),
        old(buffer).at() >= 1,
    ensures
        final(buffer).wf(),
        final(buffer).text() == old(buffer).text(),
        old(buffer).cur() is None ==> r is None && *final(buffer) == *old(buffer),
        old(buffer).cur() matches Some(c) ==> {
            if is_digit(c) || c == '"' || c == 't' || c == 'f' {
                match scan_scalar(old(buffer).text(), old(buffer).at() - 1) {
                    Some(pair) => {
                        &&& r matches Some(js) && js.jview() == JVal::Text(pair.0) && js.jwf()
                        &&& final(buffer).landed(pair.1)
                    },
                    None => r is None,
                }
            } else {
                r is None && *final(buffer) == *old(buffer)
            }
        },
        r is Some ==> final(buffer).at() > old(buffer).at(),
{
    match read_str(buffer) {
        Some(x) => Some(Json::Var(x)),
        None => None,
    }
}

/// Reads whichever value the cursor's current character opens: `{` starts
/// an object, `[` an array, and a digit, quote, `t` or `f` a scalar.
/// Anything else fails without moving the cursor.
pub fn read_field<'a>(buffer: &mut CharIter<'a>) -> (r: Option<Json<'a>>)
    requires
        old(buffer).wf(),
    ensures
        final(buffer).wf(),
        final(buffer).text() == old(buffer).text(),
        old(buffer).cur() is None ==> r is None && *final(buffer) == *old(buffer),
        old(buffer).cur() matches Some(c) ==> {
            if starts_field(c) {
                match parse_field(old(buffer).text(), old(buffer).at() - 1) {
                    Some(pair) => {
                        &&& r matches Some(js) && js.jview() == pair.0 && js.jwf()
                        &&& final(buffer).landed(pair.1)
                    },
                    None => r is None,
                }
            } else {
                r is None && *final(buffer) == *old(buffer)
            }
        },
        r is Some ==> final(buffer).at() > old(buffer).at(),
    decreases old(buffer).text().len() + 1 - old(buffer).at(), 1int,
{
    match buffer.current() {
        Some(c) => {
            if c == '{' {
                read_obj(buffer)
            } else if c == '[' {
                read_vec(buffer)
            } else if digit_char(c) || c == '"' || c == 't' || c == 'f' {
                read_var(buffer)
            } else {
                None
            }
        },
        None => None,
    }
}

/// Reads an array: the opening `[` is consumed, then elements opened by a
/// digit, quote or bracket are read in source order, separated by commas,
/// until the closing `]`; the cursor is left past any trailing white space.
/// A `t` or `f` where an element should start fails, as does anything else
/// outside the element grammar.
pub fn read_vec<'a>(buffer: &mut CharIter<'a>) -> (r: Option<Json<'a>>)
    requires
        old(buffer).wf(),
        old(buffer).cur() is None || old(buffer).cur() == Some('['),
    ensures
        final(buffer).wf(),
        final(buffer).text() == old(buffer).text(),
        old(buffer).cur() is None ==> r is None && *final(buffer) == *old(buffer),
        old(buffer).cur() is Some ==> match parse_vec(old(buffer).text(), old(buffer).at() - 1) {
            Some(pair) => {
                &&& r matches Some(js) && js.jview() == pair.0 && js.jwf()
                &&& final(buffer).landed(pair.1)
            },
            None => r is None,
        },
        r is Some ==> final(buffer).at() > old(buffer).at(),
    decreases old(buffer).text().len() + 1 - old(buffer).at(), 0int,
{
    let ghost s = old(buffer).text();
    let ghost p0 = old(buffer).at() - 1;
    match buffer.current() {
        Some(_c) => {
            let ghost a0 = buffer.at();
            let _ = buffer.skip_whitespace();
            proof {
                lemma_skip_ws_idx(s, a0);
            }
        },
        None => {
            return None;
        },
    }
    let mut v: Vec<Json<'a>> = Vec::new();
    loop
        invariant
            buffer.wf(),
            buffer.text() == s,
            s == old(buffer).text(),
            old(buffer).cur() == Some('['),
            p0 == old(buffer).at() - 1,
            0 <= p0 < s.len(),
            s[p0] == '[',
            buffer.cur() is Some ==> buffer.at() > old(buffer).at(),
            buffer.at() >= old(buffer).at(),
            buffer.at() <= s.len() + 1,
            seq_wf(v@),
            parse_vec(s, p0) == parse_vec_items(s, buffer.idx(), seq_view_of(v@)),
        decreases s.len() + 1 - buffer.at(),
    {
        match buffer.current() {
            Some(c) => {
                if digit_char(c) || c == '"' || c == '[' || c == '{' {
                    match read_field(buffer) {
                        Some(x) => {
                            proof {
                                lemma_seq_view_push(v@, x);
                            }
                            v.push(x);
                        },
                        None => {
                            return None;
                        },
                    }
                } else if c == ',' {
                    let ghost a0 = buffer.at();
                    match buffer.skip_whitespace() {
                        Some(_) => {
                            proof {
                                lemma_skip_ws_idx(s, a0);
                            }
                        },
                        None => {
                            proof {
                                lemma_skip_ws_idx(s, a0);
                                assert(parse_vec_items(s, s.len() as int, seq_view_of(v@))
                                    is None);
                            }
                            return None;
                        },
                    }
                } else if c == ']' {
                    let ghost a0 = buffer.at();
                    let _ = buffer.skip_whitespace();
                    proof {
                        lemma_skip_ws_idx(s, a0);
                    }
                    return Some(Json::Vec(v));
                } else {
                    return None;
                }
            },
            None => {
                return None;
            },
        }
    }
}

/// Reads an object: the opening `{` is consumed, then members are read
/// until the closing `}`: a key opened by a digit or quote, a colon that
/// may follow white space, and a value read by lookahead dispatch. A key
/// read again overwrites the value it had. The cursor is left past any
/// trailing white space.
pub fn read_obj<'a>(buffer: &mut CharIter<'a>) -> (r: Option<Json<'a>>)
    requires
        old(buffer).wf(),
        old(buffer).cur() is None || old(buffer).cur() == Some('{'),
    ensures
        final(buffer).wf(),
        final(buffer).text() == old(buffer).text(),
        old(buffer).cur() is None ==> r is None && *final(buffer) == *old(buffer),
        old(buffer).cur() is Some ==> match parse_obj(old(buffer).text(), old(buffer).at() - 1) {
            Some(pair) => {
                &&& r matches Some(js) && js.jview() == pair.0 && js.jwf()
                &&& final(buffer).landed(pair.1)
            },
            None => r is None,
        },
        r is Some ==> final(buffer).at() > old(buffer).at(),
    decreases old(buffer).text().len() + 1 - old(buffer).at(), 0int,
{
    let ghost s = old(buffer).text();
    let ghost p0 = old(buffer).at() - 1;
    match buffer.current() {
        Some(_c) => {
            let ghost a0 = buffer.at();
            let _ = buffer.skip_whitespace();
            proof {
                lemma_skip_ws_idx(s, a0);
            }
        },
        None => {
            return None;
        },
    }
    let mut b = ObjMap::new();
    loop
        invariant
            buffer.wf(),
            buffer.text() == s,
            s == old(buffer).text(),
            old(buffer).cur() == Some('{'),
            p0 == old(buffer).at() - 1,
            0 <= p0 < s.len(),
            s[p0] == '{',
            buffer.cur() is Some ==> buffer.at() > old(buffer).at(),
            buffer.at() >= old(buffer).at(),
            buffer.at() <= s.len() + 1,
            b.wf(),
            parse_obj(s, p0) == parse_obj_items(s, buffer.idx(), b.view()),
        decreases s.len() + 1 - buffer.at(),
    {
        match buffer.current() {
            Some(c) => {
                if digit_char(c) || c == '"' {
                    let ghost k = buffer.idx();
                    let key = match read_str(buffer) {
                        Some(x) => x,
                        None => {
                            return None;
                        },
                    };
                    let ghost k1 = (scan_scalar(s, k)->0).1;
                    match buffer.current() {
                        Some(c2) => {
                            if c2 == ':' {
                            } else if is_ws_char(c2) {
                                let ghost a1 = buffer.at();
                                match buffer.skip_whitespace() {
                                    Some(c3) => {
                                        proof {
                                            lemma_skip_ws_idx(s, a1);
                                        }
                                        if c3 != ':' {
                                            return None;
                                        }
                                    },
                                    None => {
                                        proof {
                                            lemma_skip_ws_idx(s, a1);
                                        }
                                        return None;
                                    },
                                }
                            } else {
                                return None;
                            }
                        },
                        None => {
                            return None;
                        },
                    }
                    let ghost a2 = buffer.at();
                    let _ = buffer.skip_whitespace();
                    proof {
                        lemma_skip_ws_idx(s, a2);
                    }
                    let value = match read_field(buffer) {
                        Some(x) => x,
                        None => {
                            return None;
                        },
                    };
                    b.insert(key, value);
                } else if c == ',' {
                    let ghost a0 = buffer.at();
                    match buffer.skip_whitespace() {
                        Some(_) => {
                            proof {
                                lemma_skip_ws_idx(s, a0);
                            }
                        },
                        None => {
                            proof {
                                lemma_skip_ws_idx(s, a0);
                                assert(parse_obj_items(s, s.len() as int, b.view())
                                    is None);
                            }
                            return None;
                        },
                    }
                } else if c == '}' {
                    let ghost a0 = buffer.at();
                    let _ = buffer.skip_whitespace();
                    proof {
                        lemma_skip_ws_idx(s, a0);
                    }
                    return Some(Json::Obj(b));
                } else {
                    return None;
                }
            },
            None => {
                return None;
            },
        }
    }
}

} // verus!
