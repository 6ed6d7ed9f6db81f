//! The mapping a JSON object is stored in: an association vector with
//! unique keys, viewed in contracts as a mathematical map from raw key text
//! to parsed value. Writing a key again overwrites the value it had.

use vstd::prelude::*;
use vstd::string::StrSliceExecFns;
use crate::{entries_wf, keys_unique, map_view_of, Json};
use crate::grammar::JVal;

verus! {

/// Key text `a` comes strictly before `b`: lexicographic order on the
/// characters, by code point, a proper prefix first.
pub open spec fn key_lt(a: Seq<char>, b: Seq<char>) -> bool
    decreases a.len(),
{
    if b.len() == 0 {
        false
    } else if a.len() == 0 {
        true
    } else if (a[0] as u32) < (b[0] as u32) {
        true
    } else if a[0] == b[0] {
        key_lt(a.subrange(1, a.len() as int), b.subrange(1, b.len() as int))
    } else {
        false
    }
}

/// Keys stand in strictly increasing order.
pub open spec fn sorted_entries<'a>(es: Seq<(&'a str, Json<'a>)>) -> bool {
    forall|i: int, j: int| 0 <= i < j < es.len() ==> key_lt(es[i].0@, es[j].0@)
}

pub proof fn lemma_key_lt_ne(a: Seq<char>, b: Seq<char>)
    requires
        key_lt(a, b),
    ensures
        a != b,
    decreases a.len(),
{
    if a.len() > 0 && b.len() > 0 && a[0] == b[0] {
        lemma_key_lt_ne(a.subrange(1, a.len() as int), b.subrange(1, b.len() as int));
        if a == b {
            assert(a.subrange(1, a.len() as int) == b.subrange(1, b.len() as int));
        }
    } else if a == b {
        assert(a.len() == b.len());
        if a.len() > 0 {
            assert(a[0] == b[0]);
        }
    }
}

pub proof fn lemma_key_lt_trans(a: Seq<char>, b: Seq<char>, c: Seq<char>)
    requires
        key_lt(a, b),
        key_lt(b, c),
    ensures
        key_lt(a, c),
    decreases a.len(),
{
    if a.len() > 0 && b.len() > 0 && c.len() > 0 && a[0] == b[0] && b[0] == c[0] {
        lemma_key_lt_trans(
            a.subrange(1, a.len() as int),
            b.subrange(1, b.len() as int),
            c.subrange(1, c.len() as int),
        );
    }
}

pub proof fn lemma_key_lt_conn(a: Seq<char>, b: Seq<char>)
    requires
        a != b,
    ensures
        key_lt(a, b) || key_lt(b, a),
    decreases a.len(),
{
    if a.len() == 0 && b.len() == 0 {
        assert(a =~= b);
    } else if a.len() > 0 && b.len() > 0 && a[0] == b[0] {
        let a1 = a.subrange(1, a.len() as int);
        let b1 = b.subrange(1, b.len() as int);
        if a1 == b1 {
            assert(a1.len() == b1.len());
            assert(a.len() == b.len());
            assert forall|k: int| 0 <= k < a.len() implies a[k] == b[k] by {
                if k > 0 {
                    assert(a1[k - 1] == a[k]);
                    assert(b1[k - 1] == b[k]);
                    assert(a1[k - 1] == b1[k - 1]);
                }
            }
            assert(a =~= b);
        } else {
            lemma_key_lt_conn(a1, b1);
        }
    } else if a.len() > 0 && b.len() > 0 {
        assert(a[0] != b[0]);
        if (a[0] as u32) == (b[0] as u32) {
            vstd::utf8::char_u32_cast(a[0], a[0] as u32);
            vstd::utf8::char_u32_cast(b[0], b[0] as u32);
        }
    }
}

/// In a strictly ordered vector no key text occurs twice.
pub proof fn lemma_sorted_unique<'a>(es: Seq<(&'a str, Json<'a>)>)
    requires
        sorted_entries(es),
    ensures
        keys_unique(es),
{
    assert forall|i: int, j: int| 0 <= i < j < es.len() implies es[i].0@ != es[j].0@ by {
        lemma_key_lt_ne(es[i].0@, es[j].0@);
    }
}

/// Three-way comparison of two string slices in the order of `key_lt`:
/// negative, zero or positive as `a` comes before, equals, or comes after
/// `b`.
pub fn str_cmp(a: &str, b: &str) -> (r: i8)
    ensures
        r == 0 ==> a@ == b@,
        r < 0 ==> key_lt(a@, b@),
        r > 0 ==> key_lt(b@, a@),
{
    let na = a.unicode_len();
    let nb = b.unicode_len();
    let n = if na < nb {
        na
    } else {
        nb
    };
    let mut i: usize = 0;
    while i < n
        invariant
            na == a@.len(),
            nb == b@.len(),
            n <= na,
            n <= nb,
            n == na || n == nb,
            i <= n,
            forall|j: int| 0 <= j < i ==> a@[j] == b@[j],
        decreases n - i,
    {
        let ca = a.get_char(i);
        let cb = b.get_char(i);
        if (ca as u32) < (cb as u32) {
            proof {
                lemma_key_lt_from(a@, b@, i as int);
            }
            return -1;
        }
        if (cb as u32) < (ca as u32) {
            proof {
                lemma_key_lt_from(b@, a@, i as int);
            }
            return 1;
        }
        i = i + 1;
    }
    if na < nb {
        proof {
            lemma_key_lt_from(a@, b@, na as int);
        }
        return -1;
    }
    if nb < na {
        proof {
            lemma_key_lt_from(b@, a@, nb as int);
        }
        return 1;
    }
    proof {
        assert(a@ =~= b@);
    }
    0
}

/// With equal characters before `i`, text `a` comes before `b` when it ends
/// at `i` while `b` goes on, or when its character at `i` is the smaller.
pub proof fn lemma_key_lt_from(a: Seq<char>, b: Seq<char>, i: int)
    requires
        0 <= i <= a.len(),
        i <= b.len(),
        forall|j: int| 0 <= j < i ==> a[j] == b[j],
        (i == a.len() && i < b.len()) || (i < a.len() && i < b.len() && (a[i] as u32) < (
        b[i] as u32)),
    ensures
        key_lt(a, b),
    decreases i,
{
    if i > 0 {
        let a1 = a.subrange(1, a.len() as int);
        let b1 = b.subrange(1, b.len() as int);
        assert(forall|j: int| 0 <= j < i - 1 ==> a1[j] == a[j + 1] && b1[j] == b[j + 1]);
        if i < a.len() {
            assert(a1[i - 1] == a[i] && b1[i - 1] == b[i]);
        }
        lemma_key_lt_from(a1, b1, i - 1);
    }
}

/// Whether two string slices hold the same characters.
pub fn str_eq(a: &str, b: &str) -> (r: bool)
    ensures
        r == (a@ == b@),
{
    let na = a.unicode_len();
    let nb = b.unicode_len();
    if na != nb {
        return false;
    }
    let mut i: usize = 0;
    while i < na
        invariant
            na == a@.len(),
            na == b@.len(),
            i <= na,
            forall|j: int| 0 <= j < i ==> a@[j] == b@[j],
        decreases na - i,
    {
        if a.get_char(i) != b.get_char(i) {
            return false;
        }
        i = i + 1;
    }
    proof {
        assert(a@ =~= b@);
    }
    true
}

#[derive(Debug)]
pub struct ObjMap<'a> {
    pub entries: Vec<(&'a str, Json<'a>)>,
}

impl<'a> ObjMap<'a> {
    /// The mapping held, as mathematics.
    pub open spec fn view(self) -> Map<Seq<char>, JVal> {
        map_view_of(self.entries@)
    }

    /// Keys stand in strictly increasing order — so each occurs at most
    /// once — and every stored value is well formed.
    pub open spec fn wf(self) -> bool {
        sorted_entries(self.entries@) && entries_wf(self.entries@)
    }

    /// An empty mapping.
    pub fn new() -> (r: ObjMap<'a>)
        ensures
            r.wf(),
            r.view() == Map::<Seq<char>, JVal>::empty(),
            r.entries@.len() == 0,
    {
        ObjMap { entries: Vec::new() }
    }

    /// Binds `key` to `value`, overwriting any value the key had; a new key
    /// takes the place its order assigns it.
    pub fn insert(&mut self, key: &'a str, value: Json<'a>)
        requires
            old(self).wf(),
            value.jwf(),
        ensures
            final(self).wf(),
            final(self).view() == old(self).view().insert(key@, value.jview()),
    {
        let n = self.entries.len();
        let mut i: usize = 0;
        while i < n
            invariant
                self == old(self),
                n == self.entries@.len(),
                i <= n,
                old(self).wf(),
                value.jwf(),
                forall|j: int| 0 <= j < i ==> key_lt(self.entries@[j].0@, key@),
            decreases n - i,
        {
            let c = str_cmp(self.entries[i].0, key);
            if c == 0 {
                proof {
                    let es = self.entries@;
                    let es2 = es.update(i as int, (key, value));
                    lemma_sorted_unique(es);
                    lemma_map_view_update(es, i as int, (key, value));
                    assert forall|a: int, b: int| 0 <= a < b < es2.len() implies key_lt(
                        es2[a].0@,
                        es2[b].0@,
                    ) by {
                        assert(es2[a].0@ == es[a].0@ && es2[b].0@ == es[b].0@);
                    }
                }
                self.entries.set(i, (key, value));
                return ;
            }
            if c > 0 {
                proof {
                    let es = self.entries@;
                    let k = key@;
                    assert forall|j: int| 0 <= j < es.len() implies es[j].0@ != k by {
                        if j < i {
                            lemma_key_lt_ne(es[j].0@, k);
                        } else if j == i {
                            lemma_key_lt_ne(k, es[j].0@);
                        } else {
                            lemma_key_lt_trans(k, es[i as int].0@, es[j].0@);
                            lemma_key_lt_ne(k, es[j].0@);
                        }
                    }
                    lemma_map_view_insert_at(es, i as int, (key, value));
                    let es2 = es.insert(i as int, (key, value));
                    assert forall|a: int, b: int| 0 <= a < b < es2.len() implies key_lt(
                        es2[a].0@,
                        es2[b].0@,
                    ) by {
                        if b < i {
                            assert(es2[a] == es[a] && es2[b] == es[b]);
                        } else if b == i {
                            assert(es2[a] == es[a]);
                        } else if a < i {
                            assert(es2[a] == es[a] && es2[b] == es[b - 1]);
                        } else if a == i {
                            assert(es2[b] == es[b - 1]);
                            if b - 1 > i {
                                lemma_key_lt_trans(k, es[i as int].0@, es[b - 1].0@);
                            }
                        } else {
                            assert(es2[a] == es[a - 1] && es2[b] == es[b - 1]);
                        }
                    }
                }
                self.entries.insert(i, (key, value));
                return ;
            }
            i = i + 1;
        }
        proof {
            let es = self.entries@;
            assert forall|j: int| 0 <= j < es.len() implies es[j].0@ != key@ by {
                lemma_key_lt_ne(es[j].0@, key@);
            }
            lemma_map_view_push(es, (key, value));
            let es2 = es.push((key, value));
            assert forall|a: int, b: int| 0 <= a < b < es2.len() implies key_lt(
                es2[a].0@,
                es2[b].0@,
            ) by {
                assert(es2[a] == es[a]);
                if b < es2.len() - 1 {
                    assert(es2[b] == es[b]);
                }
            }
        }
        self.entries.push((key, value));
    }

    /// Looks `key` up, returning the value bound to it, if any.
    pub fn get(&self, key: &str) -> (r: Option<&Json<'a>>)
        requires
            self.wf(),
        ensures
            match r {
                Some(v) => {
                    &&& self.view().contains_key(key@)
                    &&& v.jview() == self.view()[key@]
                    &&& v.jwf()
                },
                None => !self.view().contains_key(key@),
            },
    {
        let n = self.entries.len();
        let mut i: usize = 0;
        while i < n
            invariant
                self.wf(),
                n == self.entries@.len(),
                i <= n,
                forall|j: int| 0 <= j < i ==> self.entries@[j].0@ != key@,
            decreases n - i,
        {
            if str_eq(self.entries[i].0, key) {
                proof {
                    lemma_sorted_unique(self.entries@);
                    lemma_map_view_get(self.entries@, i as int);
                }
                return Some(&self.entries[i].1);
            }
            i = i + 1;
        }
        proof {
            lemma_map_view_no_key(self.entries@, key@);
        }
        None
    }
}

pub proof fn lemma_map_view_push<'a>(es: Seq<(&'a str, Json<'a>)>, p: (&'a str, Json<'a>))
    ensures
        map_view_of(es.push(p)) == map_view_of(es).insert(p.0@, p.1.jview()),
        entries_wf(es) && p.1.jwf() ==> entries_wf(es.push(p)),
{
    assert(es.push(p).subrange(0, es.push(p).len() - 1) =~= es);
}

pub proof fn lemma_map_view_update<'a>(es: Seq<(&'a str, Json<'a>)>, i: int, p: (&'a str, Json<'a>))
    requires
        0 <= i < es.len(),
        keys_unique(es),
        es[i].0@ == p.0@,
    ensures
        map_view_of(es.update(i, p)) == map_view_of(es).insert(p.0@, p.1.jview()),
        entries_wf(es) && p.1.jwf() ==> entries_wf(es.update(i, p)),
        keys_unique(es.update(i, p)),
    decreases es.len(),
{
    let front = es.subrange(0, es.len() - 1);
    let last = es[es.len() - 1];
    if i == es.len() - 1 {
        assert(es.update(i, p).subrange(0, es.len() - 1) =~= front);
        assert(map_view_of(front).insert(last.0@, last.1.jview()).insert(p.0@, p.1.jview())
            =~= map_view_of(front).insert(p.0@, p.1.jview()));
    } else {
        assert(keys_unique(front)) by {
            assert(forall|a: int, b: int|
                0 <= a < b < front.len() ==> front[a] == es[a] && front[b] == es[b]);
        }
        lemma_map_view_update(front, i, p);
        assert(es.update(i, p).subrange(0, es.len() - 1) =~= front.update(i, p));
        assert(es.update(i, p)[es.len() - 1] == last);
        assert(p.0@ != last.0@);
        assert(map_view_of(front).insert(p.0@, p.1.jview()).insert(last.0@, last.1.jview())
            =~= map_view_of(front).insert(last.0@, last.1.jview()).insert(p.0@, p.1.jview()));
        if entries_wf(es) && p.1.jwf() {
            assert(entries_wf(front.update(i, p)));
            assert(entries_wf(es.update(i, p)));
        }
    }
}

pub proof fn lemma_map_view_insert_at<'a>(
    es: Seq<(&'a str, Json<'a>)>,
    i: int,
    p: (&'a str, Json<'a>),
)
    requires
        0 <= i <= es.len(),
        forall|j: int| 0 <= j < es.len() ==> es[j].0@ != p.0@,
    ensures
        map_view_of(es.insert(i, p)) == map_view_of(es).insert(p.0@, p.1.jview()),
        entries_wf(es) && p.1.jwf() ==> entries_wf(es.insert(i, p)),
    decreases es.len(),
{
    if i == es.len() {
        assert(es.insert(i, p) =~= es.push(p));
        lemma_map_view_push(es, p);
    } else {
        let front = es.subrange(0, es.len() - 1);
        let last = es[es.len() - 1];
        let es2 = es.insert(i, p);
        assert(es2[es2.len() - 1] == last);
        assert(es2.subrange(0, es2.len() - 1) =~= front.insert(i, p));
        assert(forall|j: int| 0 <= j < front.len() ==> front[j] == es[j]);
        lemma_map_view_insert_at(front, i, p);
        assert(last.0@ != p.0@);
        assert(map_view_of(front).insert(p.0@, p.1.jview()).insert(last.0@, last.1.jview())
            =~= map_view_of(front).insert(last.0@, last.1.jview()).insert(p.0@, p.1.jview()));
        if entries_wf(es) && p.1.jwf() {
            assert(entries_wf(front.insert(i, p)));
            assert(entries_wf(es2));
        }
    }
}

pub proof fn lemma_map_view_get<'a>(es: Seq<(&'a str, Json<'a>)>, i: int)
    requires
        0 <= i < es.len(),
        keys_unique(es),
    ensures
        map_view_of(es).contains_key(es[i].0@),
        map_view_of(es)[es[i].0@] == es[i].1.jview(),
        entries_wf(es) ==> es[i].1.jwf(),
    decreases es.len(),
{
    let front = es.subrange(0, es.len() - 1);
    let last = es[es.len() - 1];
    if i == es.len() - 1 {
    } else {
        assert(keys_unique(front)) by {
            assert(forall|a: int, b: int|
                0 <= a < b < front.len() ==> front[a] == es[a] && front[b] == es[b]);
        }
        lemma_map_view_get(front, i);
        assert(es[i].0@ != last.0@);
    }
}

pub proof fn lemma_map_view_no_key<'a>(es: Seq<(&'a str, Json<'a>)>, k: Seq<char>)
    requires
        forall|i: int| 0 <= i < es.len() ==> es[i].0@ != k,
    ensures
        !map_view_of(es).contains_key(k),
    decreases es.len(),
{
    if es.len() > 0 {
        let front = es.subrange(0, es.len() - 1);
        assert(forall|i: int| 0 <= i < front.len() ==> front[i] == es[i]);
        lemma_map_view_no_key(front, k);
    }
}

} // verus!
