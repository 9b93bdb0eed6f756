//! JSON values as the library handles them.
use vstd::prelude::*;
use crate::text::{owned, str_eq};

verus! {

/// A JSON value. Numbers are carried by the bit pattern of their binary64 value;
/// object members keep their insertion order.
#[derive(Debug, PartialEq)]
pub enum J {
    Null,
    Bool(bool),
    Num(u64),
    Str(String),
    Arr(Vec<J>),
    Obj(Vec<(String, J)>),
}

/// The mathematical view of a JSON value.
pub enum JV {
    Null,
    Bool(bool),
    Num(u64),
    Str(Seq<char>),
    Arr(Seq<JV>),
    Obj(Seq<(Seq<char>, JV)>),
}

pub open spec fn jv(j: J) -> JV
    decreases j,
{
    match j {
        J::Null => JV::Null,
        J::Bool(b) => JV::Bool(b),
        J::Num(n) => JV::Num(n),
        J::Str(s) => JV::Str(s@),
        J::Arr(v) => JV::Arr(jv_items(v@)),
        J::Obj(v) => JV::Obj(jv_members(v@)),
    }
}

pub open spec fn jv_items(s: Seq<J>) -> Seq<JV>
    decreases s,
{
    if s.len() == 0 {
        Seq::empty()
    } else {
        seq![jv(s[0])] + jv_items(s.subrange(1, s.len() as int))
    }
}

pub open spec fn jv_members(s: Seq<(String, J)>) -> Seq<(Seq<char>, JV)>
    decreases s,
{
    if s.len() == 0 {
        Seq::empty()
    } else {
        seq![(s[0].0@, jv(s[0].1))] + jv_members(s.subrange(1, s.len() as int))
    }
}

impl View for J {
    type V = JV;

    open spec fn view(&self) -> JV {
        jv(*self)
    }
}


pub proof fn lemma_jv_items(s: Seq<J>)
    ensures
        #[trigger] jv_items(s).len() == s.len(),
        forall|i: int| 0 <= i < s.len() ==> #[trigger] jv_items(s)[i] == jv(s[i]),
    decreases s.len(),
{
    if s.len() > 0 {
        let t = s.subrange(1, s.len() as int);
        lemma_jv_items(t);
        assert forall|i: int| 0 <= i < s.len() implies #[trigger] jv_items(s)[i] == jv(s[i]) by {
            if i > 0 {
                assert(t[i - 1] == s[i]);
            }
        }
    }
}

pub proof fn lemma_jv_members(s: Seq<(String, J)>)
    ensures
        #[trigger] jv_members(s).len() == s.len(),
        forall|i: int| 0 <= i < s.len() ==> #[trigger] jv_members(s)[i] == (s[i].0@, jv(s[i].1)),
    decreases s.len(),
{
    if s.len() > 0 {
        let t = s.subrange(1, s.len() as int);
        lemma_jv_members(t);
        assert forall|i: int| 0 <= i < s.len() implies #[trigger] jv_members(s)[i] == (s[i].0@, jv(s[i].1)) by {
            if i > 0 {
                assert(t[i - 1] == s[i]);
            }
        }
    }
}

/// The value of the first member named `k`, if any.
pub open spec fn find_key<V>(m: Seq<(Seq<char>, V)>, k: Seq<char>) -> Option<V>
    decreases m.len(),
{
    if m.len() == 0 {
        None
    } else if m[0].0 == k {
        Some(m[0].1)
    } else {
        find_key(m.subrange(1, m.len() as int), k)
    }
}

/// Looking past members whose names differ from `k`.
pub proof fn lemma_find_key_skip<V>(m: Seq<(Seq<char>, V)>, k: Seq<char>, i: int)
    requires
        0 <= i < m.len(),
        m[i].0 != k,
    ensures
        find_key(m.subrange(i, m.len() as int), k) == find_key(m.subrange(i + 1, m.len() as int), k),
{
    let t = m.subrange(i, m.len() as int);
    assert(t.subrange(1, t.len() as int) =~= m.subrange(i + 1, m.len() as int));
}

/// `find_key` finds the first member named `k`.
pub proof fn lemma_find_key_first<V>(m: Seq<(Seq<char>, V)>, k: Seq<char>, i: int)
    requires
        0 <= i < m.len(),
        m[i].0 == k,
        forall|j: int| 0 <= j < i ==> m[j].0 != k,
    ensures find_key(m, k) == Some(m[i].1),
    decreases i,
{
    if i > 0 {
        let t = m.subrange(1, m.len() as int);
        lemma_find_key_first(t, k, i - 1);
    }
}

/// `find_key` finds nothing when no member is named `k`.
pub proof fn lemma_find_key_none<V>(m: Seq<(Seq<char>, V)>, k: Seq<char>)
    requires forall|j: int| 0 <= j < m.len() ==> m[j].0 != k,
    ensures find_key(m, k) is None,
    decreases m.len(),
{
    if m.len() > 0 {
        let t = m.subrange(1, m.len() as int);
        lemma_find_key_none(t, k);
    }
}

impl JV {
    /// Member `k` of an object; null when absent or when this is no object.
    pub open spec fn get(self, k: Seq<char>) -> JV {
        match self {
            JV::Obj(m) => match find_key(m, k) {
                Some(v) => v,
                None => JV::Null,
            },
            _ => JV::Null,
        }
    }

    /// The characters of a string; empty for any other value.
    pub open spec fn text(self) -> Seq<char> {
        match self {
            JV::Str(s) => s,
            _ => Seq::empty(),
        }
    }

    /// The items of an array; empty for any other value.
    pub open spec fn items(self) -> Seq<JV> {
        match self {
            JV::Arr(a) => a,
            _ => Seq::empty(),
        }
    }

    /// The members of an object; empty for any other value.
    pub open spec fn members(self) -> Seq<(Seq<char>, JV)> {
        match self {
            JV::Obj(m) => m,
            _ => Seq::empty(),
        }
    }

    /// The number's bit pattern; that of 0.0 for any other value.
    pub open spec fn num(self) -> u64 {
        match self {
            JV::Num(n) => n,
            _ => 0,
        }
    }
}

impl J {
    /// Member `k` of an object (the first one, should the name repeat);
    /// null when absent or when this is no object.
    #[verifier::loop_isolation(false)]
    pub fn get(&self, k: &str) -> (r: &J)
        ensures r@ == self@.get(k@),
    {
        match self {
            J::Obj(v) => {
                proof { lemma_jv_members(v@); }
                let ghost m = jv_members(v@);
                assert(m.subrange(0, m.len() as int) =~= m);
                let mut i: usize = 0;
                while i < v.len()
                    invariant
                        i <= v@.len(),
                        m == jv_members(v@),
                        m.len() == v@.len(),
                        forall|j: int| 0 <= j < v@.len() ==> #[trigger] m[j] == (v@[j].0@, jv(v@[j].1)),
                        find_key(m, k@) == find_key(m.subrange(i as int, m.len() as int), k@),
                    decreases v@.len() - i,
                {
                    if str_eq(v[i].0.as_str(), k) {
                        let ghost t = m.subrange(i as int, m.len() as int);
                        assert(t[0] == m[i as int]);
                        return &v[i].1;
                    }
                    proof { lemma_find_key_skip(m, k@, i as int); }
                    i = i + 1;
                }
                &J::Null
            },
            _ => &J::Null,
        }
    }

    /// The characters of a string; empty for any other value.
    pub fn str(&self) -> (r: &str)
        ensures r@ == self@.text(),
    {
        match self {
            J::Str(s) => s.as_str(),
            _ => {
                proof { reveal_strlit(""); }
                ""
            },
        }
    }

    /// The items of an array; empty for any other value.
    pub fn arr(&self) -> (r: &[J])
        ensures
            r@.len() == self@.items().len(),
            forall|i: int| 0 <= i < r@.len() ==> #[trigger] r@[i]@ == self@.items()[i],
    {
        match self {
            J::Arr(v) => {
                proof { lemma_jv_items(v@); }
                v.as_slice()
            },
            _ => &[],
        }
    }

    /// The members of an object; empty for any other value.
    pub fn obj(&self) -> (r: &[(String, J)])
        ensures
            r@.len() == self@.members().len(),
            forall|i: int| 0 <= i < r@.len() ==> (#[trigger] r@[i]).0@ == self@.members()[i].0
                && r@[i].1@ == self@.members()[i].1,
    {
        match self {
            J::Obj(v) => {
                proof { lemma_jv_members(v@); }
                v.as_slice()
            },
            _ => &[],
        }
    }

    /// The number's bit pattern; that of 0.0 for any other value.
    pub fn num(&self) -> (r: u64)
        ensures r == self@.num(),
    {
        match self {
            J::Num(n) => *n,
            _ => 0,
        }
    }

    pub fn is_null(&self) -> (r: bool)
        ensures r == (self@ == JV::Null),
    {
        match self {
            J::Null => true,
            _ => false,
        }
    }

    /// A string value.
    pub fn s(s: &str) -> (r: J)
        ensures r@ == JV::Str(s@),
    {
        J::Str(owned(s))
    }

    /// An object with the given members, in order.
    pub fn object(p: Vec<(&str, J)>) -> (r: J)
        ensures
            r@ matches JV::Obj(m) && m.len() == p@.len()
                && forall|i: int| 0 <= i < p@.len() ==> #[trigger] m[i] == (p@[i].0@, p@[i].1@),
    {
        let mut out: Vec<(String, J)> = Vec::new();
        let mut p = p;
        let ghost orig = p@;
        // Take the members from the back, then restore their order.
        let mut rev: Vec<(String, J)> = Vec::new();
        while p.len() > 0
            invariant
                p@.len() + rev@.len() == orig.len(),
                p@ == orig.subrange(0, p@.len() as int),
                forall|i: int| 0 <= i < rev@.len() ==> #[trigger] rev@[i].0@ == orig[orig.len() - 1 - i].0@
                    && rev@[i].1@ == orig[orig.len() - 1 - i].1@,
            decreases p@.len(),
        {
            let (k, v) = p.pop().unwrap();
            rev.push((owned(k), v));
        }
        while rev.len() > 0
            invariant
                out@.len() + rev@.len() == orig.len(),
                forall|i: int| 0 <= i < rev@.len() ==> #[trigger] rev@[i].0@ == orig[orig.len() - 1 - i].0@
                    && rev@[i].1@ == orig[orig.len() - 1 - i].1@,
                forall|i: int| 0 <= i < out@.len() ==> #[trigger] out@[i].0@ == orig[i].0@
                    && out@[i].1@ == orig[i].1@,
            decreases rev@.len(),
        {
            let e = rev.pop().unwrap();
            out.push(e);
        }
        proof { lemma_jv_members(out@); }
        J::Obj(out)
    }

    /// A copy of this value.
    #[verifier::loop_isolation(false)]
    pub fn copy(&self) -> (r: J)
        ensures r@ == self@,
        decreases self,
    {
        match self {
            J::Null => J::Null,
            J::Bool(b) => J::Bool(*b),
            J::Num(n) => J::Num(*n),
            J::Str(s) => J::Str(s.clone()),
            J::Arr(v) => {
                let mut out: Vec<J> = Vec::new();
                let mut i: usize = 0;
                while i < v.len()
                    invariant
                        i <= v@.len(),
                        out@.len() == i,
                        forall|j: int| 0 <= j < i ==> #[trigger] out@[j]@ == v@[j]@,
                    decreases v@.len() - i,
                {
                    proof {
                        assert(decreases_to!(*self => *v));
                        assert(decreases_to!(*v => v@));
                        assert(decreases_to!(v@ => v@[i as int]));
                    }
                    out.push(v[i].copy());
                    i = i + 1;
                }
                proof {
                    lemma_jv_items(out@);
                    lemma_jv_items(v@);
                }
                let r = J::Arr(out);
                assert forall|j: int| 0 <= j < v@.len() implies jv_items(out@)[j] == jv_items(v@)[j] by {
                    assert(out@[j]@ == v@[j]@);
                }
                assert(jv_items(out@) =~= jv_items(v@));
                r
            },
            J::Obj(v) => {
                let mut out: Vec<(String, J)> = Vec::new();
                let mut i: usize = 0;
                while i < v.len()
                    invariant
                        i <= v@.len(),
                        out@.len() == i,
                        forall|j: int| 0 <= j < i ==> #[trigger] out@[j].0@ == v@[j].0@
                            && out@[j].1@ == v@[j].1@,
                    decreases v@.len() - i,
                {
                    proof {
                        assert(decreases_to!(*self => *v));
                        assert(decreases_to!(*v => v@));
                        assert(decreases_to!(v@ => v@[i as int]));
                        assert(decreases_to!(v@[i as int] => v@[i as int].1));
                    }
                    out.push((v[i].0.clone(), v[i].1.copy()));
                    i = i + 1;
                }
                proof {
                    lemma_jv_members(out@);
                    lemma_jv_members(v@);
                }
                let r = J::Obj(out);
                assert(jv_members(out@) =~= jv_members(v@));
                r
            },
        }
    }
}

impl Clone for J {
    fn clone(&self) -> (r: J)
        ensures r@ == self@,
    {
        self.copy()
    }
}

} // verus!
