//! OpenThai-SystemOne: question parsing and the causal control-token layout.
use vstd::prelude::*;
use crate::json::{J, JV};
use crate::models::laya::kind_of;
use crate::number::{f64_small_whole, f64_small_whole_spec, usize_of_f64, usize_of_f64_spec};
use crate::text::{decimal, decimal_string, holds, owned, replace_all, replaced, replaced_from, str_eq, trim, trimmed, views};
use crate::tokenizer::{encode_spec, specials_ok, Tokenizer, TokenizerV};
use vstd::slice::{slice_subrange, slice_to_vec};
use crate::unicode::{is_white, white};

verus! {

/// One OpenThai question: its id, kind, instructions, option names and option descriptions.
#[derive(Debug)]
pub struct Spec {
    id: String,
    kind: usize,
    ins: String,
    names: Vec<String>,
    desc: Vec<String>,
}

pub struct SpecV {
    pub id: Seq<char>,
    pub kind: usize,
    pub ins: Seq<char>,
    pub names: Seq<Seq<char>>,
    pub desc: Seq<Seq<char>>,
}

impl View for Spec {
    type V = SpecV;

    closed spec fn view(&self) -> SpecV {
        SpecV { id: self.id@, kind: self.kind, ins: self.ins@, names: views(self.names@), desc: views(self.desc@) }
    }
}

impl Spec {
    /// The question's id.
    pub fn id(&self) -> (r: &String)
        ensures r@ == self@.id,
    {
        &self.id
    }

    /// The question's kind: 0 choice, 1 score, 2 noul.
    pub fn kind(&self) -> (r: usize)
        ensures r == self@.kind,
    {
        self.kind
    }

    /// The option names, in request order.
    pub fn names(&self) -> (r: &Vec<String>)
        ensures views(r@) == self@.names,
    {
        &self.names
    }

    /// The option descriptions, empty where there is none.
    pub fn desc(&self) -> (r: &Vec<String>)
        ensures views(r@) == self@.desc,
    {
        &self.desc
    }

    /// Names and descriptions pair up.
    pub closed spec fn wf(&self) -> bool {
        &&& self.names@.len() == self.desc@.len()
        &&& self.kind < 3
        &&& self.kind == 0 ==> 1 <= self.names@.len() <= 255
    }
}

/// Nothing but whitespace (`trim()` leaves it empty).
pub open spec fn blank(s: Seq<char>) -> bool {
    forall|i: int| 0 <= i < s.len() ==> #[trigger] white(s[i])
}

/// A description is a string or null.
pub open spec fn describable(v: JV) -> bool {
    v is Str || v is Null
}

/// The first invalid choice option from `i` on.
pub open spec fn choice_error(id: Seq<char>, m: Seq<(Seq<char>, JV)>, i: int) -> Option<Seq<char>>
    decreases m.len() - i,
{
    if i < 0 || i >= m.len() {
        None
    } else if blank(m[i].0) {
        Some(id + ": option name is empty"@)
    } else if !describable(m[i].1) {
        Some(id + ": descriptions must be strings or null"@)
    } else {
        choice_error(id, m, i + 1)
    }
}

/// The first score level from `i` on that is not a string.
pub open spec fn score_error(id: Seq<char>, a: Seq<JV>, i: int) -> Option<Seq<char>>
    decreases a.len() - i,
{
    if i < 0 || i >= a.len() {
        None
    } else if !(a[i] is Str) {
        Some(id + ": score descriptions must be strings"@)
    } else {
        score_error(id, a, i + 1)
    }
}

/// Whether noul criteria name anything but `false` and `true`.
pub open spec fn stray_key(m: Seq<(Seq<char>, JV)>) -> bool {
    exists|i: int| 0 <= i < m.len() && #[trigger] m[i].0 != "false"@ && m[i].0 != "true"@
}

/// Why member `(id, q)` is no valid OpenThai question, if it is not.
pub open spec fn spec_error(id: Seq<char>, q: JV) -> Option<Seq<char>> {
    match kind_of(q.get("type"@).text()) {
        None => Some(id + ": invalid question type"@),
        Some(k) => {
            let c = q.get("criteria"@);
            if !(q.get("instructions"@) is Str) {
                Some(id + ": instructions must be a string"@)
            } else if k == 0 {
                if c.members().len() == 0 || c.members().len() > 255 {
                    Some(id + ": choice requires 1..255 options"@)
                } else {
                    choice_error(id, c.members(), 0)
                }
            } else if k == 1 {
                if c.items().len() < 2 || c.items().len() > 10 {
                    Some(id + ": score requires 2..10 levels"@)
                } else {
                    score_error(id, c.items(), 0)
                }
            } else if !(c is Null || c is Obj) || stray_key(c.members()) {
                Some(id + ": noul criteria keys must be false/true"@)
            } else if !describable(c.get("false"@)) || !describable(c.get("true"@)) {
                Some(id + ": descriptions must be strings or null"@)
            } else {
                None
            }
        },
    }
}

/// The question that a valid member `(id, q)` describes.
pub open spec fn spec_of(id: Seq<char>, q: JV) -> SpecV {
    let k = kind_of(q.get("type"@).text())->Some_0;
    let c = q.get("criteria"@);
    SpecV {
        id,
        kind: k,
        ins: q.get("instructions"@).text(),
        names: if k == 0 {
            Seq::new(c.members().len(), |i: int| c.members()[i].0)
        } else if k == 1 {
            Seq::new(c.items().len(), |i: int| decimal(i as nat))
        } else {
            seq!["no"@, "yes"@]
        },
        desc: if k == 0 {
            Seq::new(c.members().len(), |i: int| c.members()[i].1.text())
        } else if k == 1 {
            Seq::new(c.items().len(), |i: int| c.items()[i].text())
        } else {
            seq![c.get("false"@).text(), c.get("true"@).text()]
        },
    }
}

/// The first invalid member from `i` on.
pub open spec fn first_spec_error(m: Seq<(Seq<char>, JV)>, i: int) -> Option<Seq<char>>
    decreases m.len() - i,
{
    if i < 0 || i >= m.len() {
        None
    } else {
        match spec_error(m[i].0, m[i].1) {
            Some(e) => Some(e),
            None => first_spec_error(m, i + 1),
        }
    }
}

/// An explicit permutation count is a whole number from 1 to 32.
pub open spec fn permutations_valid(v: JV) -> bool {
    match v {
        JV::Num(b) => f64_small_whole_spec(b) matches Some(x) && 1 <= x <= 32,
        JV::Null => true,
        _ => false,
    }
}

/// Why an OpenThai request is rejected, if it is.
pub open spec fn request_error(req: JV) -> Option<Seq<char>> {
    let m = req.get("questions"@).members();
    let st = req.get("state"@);
    if m.len() == 0 || m.len() > 256 {
        Some("questions must contain 1..256 named questions"@)
    } else if !(st is Str || st is Obj || st is Arr) {
        Some("OpenThai state must be a string, object, or array"@)
    } else if first_spec_error(m, 0) is Some {
        first_spec_error(m, 0)
    } else if !(req.get("order_invariant"@) is Null || req.get("order_invariant"@) is Bool) {
        Some("order_invariant must be boolean"@)
    } else if !permutations_valid(req.get("permutations"@)) {
        Some("permutations must be 1..32"@)
    } else {
        None
    }
}

/// `id` followed by `msg`.
fn tagged(id: &str, msg: &str) -> (r: String)
    ensures r@ == id@ + msg@,
{
    let mut m = owned(id);
    m.append(msg);
    m
}

/// Whether `s` is nothing but whitespace.
fn is_blank_text(s: &str) -> (r: bool)
    ensures r == blank(s@),
{
    let cs = crate::text::chars_of(s);
    let mut i: usize = 0;
    while i < cs.len()
        invariant
            cs@ == s@,
            i <= cs@.len(),
            forall|j: int| 0 <= j < i ==> #[trigger] white(cs@[j]),
        decreases cs@.len() - i,
    {
        if !is_white(cs[i]) {
            return false;
        }
        i = i + 1;
    }
    true
}

/// A description: the string, or nothing for null.
fn description(v: &J) -> (r: Option<String>)
    ensures
        describable(v@) ==> (r matches Some(t) && t@ == v@.text()),
        !describable(v@) ==> r is None,
{
    match v {
        J::Str(s) => Some(s.clone()),
        J::Null => Some(String::new()),
        _ => None,
    }
}

/// The question that member `(id, q)` describes.
#[verifier::rlimit(30)]
#[verifier::loop_isolation(false)]
fn spec_member(id: &String, q: &J) -> (r: Result<Spec, String>)
    ensures
        match spec_error(id@, q@) {
            Some(e) => r matches Err(m) && m@ == e,
            None => r matches Ok(x) && x@ == spec_of(id@, q@) && x.wf(),
        },
{
    let t = q.get("type").str();
    let kind: usize = if str_eq(t, "choice") {
        0
    } else if str_eq(t, "score") {
        1
    } else if str_eq(t, "noul") {
        2
    } else {
        return Err(tagged(id.as_str(), ": invalid question type"));
    };
    let ins = match q.get("instructions") {
        J::Str(s) => s.clone(),
        _ => {
            return Err(tagged(id.as_str(), ": instructions must be a string"));
        },
    };
    let c = q.get("criteria");
    let ghost goal = spec_of(id@, q@);
    let mut names: Vec<String> = Vec::new();
    let mut desc: Vec<String> = Vec::new();
    if kind == 0 {
        let m = c.obj();
        if m.len() == 0 || m.len() > 255 {
            return Err(tagged(id.as_str(), ": choice requires 1..255 options"));
        }
        let ghost mm = c@.members();
        let mut i: usize = 0;
        while i < m.len()
            invariant
                mm == c@.members(),
                m@.len() == mm.len(),
                forall|j: int| 0 <= j < m@.len() ==> (#[trigger] m@[j]).0@ == mm[j].0 && m@[j].1@ == mm[j].1,
                i <= m@.len(),
                choice_error(id@, mm, 0) == choice_error(id@, mm, i as int),
                names@.len() == i && desc@.len() == i,
                forall|j: int| 0 <= j < i ==> #[trigger] names@[j]@ == mm[j].0 && desc@[j]@ == mm[j].1.text(),
            decreases m@.len() - i,
        {
            assert(m@[i as int].0@ == mm[i as int].0);
            if is_blank_text(m[i].0.as_str()) {
                return Err(tagged(id.as_str(), ": option name is empty"));
            }
            match description(&m[i].1) {
                Some(d) => {
                    names.push(m[i].0.clone());
                    desc.push(d);
                },
                None => {
                    return Err(tagged(id.as_str(), ": descriptions must be strings or null"));
                },
            }
            i = i + 1;
        }
        assert(views(names@) =~= goal.names);
        assert forall|j: int| 0 <= j < desc@.len() implies views(desc@)[j] == goal.desc[j] by {
            assert(names@[j]@ == mm[j].0);
        }
        assert(views(desc@) =~= goal.desc);
    } else if kind == 1 {
        let a = c.arr();
        if a.len() < 2 || a.len() > 10 {
            return Err(tagged(id.as_str(), ": score requires 2..10 levels"));
        }
        let ghost aa = c@.items();
        let mut i: usize = 0;
        while i < a.len()
            invariant
                aa == c@.items(),
                a@.len() == aa.len(),
                forall|j: int| 0 <= j < a@.len() ==> #[trigger] a@[j]@ == aa[j],
                i <= a@.len(),
                score_error(id@, aa, 0) == score_error(id@, aa, i as int),
                names@.len() == i && desc@.len() == i,
                forall|j: int| 0 <= j < i ==> #[trigger] names@[j]@ == decimal(j as nat) && desc@[j]@ == aa[j].text(),
            decreases a@.len() - i,
        {
            assert(a@[i as int]@ == aa[i as int]);
            match &a[i] {
                J::Str(s) => {
                    names.push(decimal_string(i as u64));
                    desc.push(s.clone());
                },
                _ => {
                    return Err(tagged(id.as_str(), ": score descriptions must be strings"));
                },
            }
            i = i + 1;
        }
        assert(views(names@) =~= goal.names);
        assert forall|j: int| 0 <= j < desc@.len() implies views(desc@)[j] == goal.desc[j] by {
            assert(names@[j]@ == decimal(j as nat));
        }
        assert(views(desc@) =~= goal.desc);
    } else {
        let is_obj = match c {
            J::Obj(_) => true,
            _ => false,
        };
        let is_null = match c {
            J::Null => true,
            _ => false,
        };
        let m = c.obj();
        let mut stray = false;
        let mut i: usize = 0;
        while i < m.len()
            invariant
                m@.len() == c@.members().len(),
                forall|j: int| 0 <= j < m@.len() ==> (#[trigger] m@[j]).0@ == c@.members()[j].0,
                i <= m@.len(),
                stray == exists|j: int| 0 <= j < i && #[trigger] c@.members()[j].0 != "false"@ && c@.members()[j].0 != "true"@,
            decreases m@.len() - i,
        {
            assert(m@[i as int].0@ == c@.members()[i as int].0);
            if !str_eq(m[i].0.as_str(), "false") && !str_eq(m[i].0.as_str(), "true") {
                stray = true;
            }
            i = i + 1;
        }
        if !(is_obj || is_null) || stray {
            return Err(tagged(id.as_str(), ": noul criteria keys must be false/true"));
        }
        let f = description(c.get("false"));
        let t = description(c.get("true"));
        match (f, t) {
            (Some(f), Some(t)) => {
                names.push(owned("no"));
                names.push(owned("yes"));
                desc.push(f);
                desc.push(t);
            },
            _ => {
                return Err(tagged(id.as_str(), ": descriptions must be strings or null"));
            },
        }
        assert(views(names@) =~= goal.names);
        assert(views(desc@) =~= goal.desc);
    }
    let x = Spec { id: id.clone(), kind, ins, names, desc };
    Ok(x)
}

/// The questions of an OpenThai request, in request order, after the request's options are checked.
#[verifier::loop_isolation(false)]
pub fn questions(req: &J) -> (r: Result<Vec<Spec>, String>)
    ensures
        match request_error(req@) {
            Some(e) => r matches Err(m) && m@ == e,
            None => r matches Ok(qs) && qs@.len() == req@.get("questions"@).members().len()
                && forall|i: int| 0 <= i < qs@.len() ==> (#[trigger] qs@[i]).wf() && qs@[i]@ == spec_of(
                    req@.get("questions"@).members()[i].0, req@.get("questions"@).members()[i].1),
        },
{
    let qs = req.get("questions");
    let m = qs.obj();
    if m.len() == 0 || m.len() > 256 {
        return Err(owned("questions must contain 1..256 named questions"));
    }
    let good_state = match req.get("state") {
        J::Str(_) | J::Obj(_) | J::Arr(_) => true,
        _ => false,
    };
    if !good_state {
        return Err(owned("OpenThai state must be a string, object, or array"));
    }
    let ghost mv = qs@.members();
    let mut out: Vec<Spec> = Vec::new();
    let mut i: usize = 0;
    while i < m.len()
        invariant
            mv == req@.get("questions"@).members(),
            m@.len() == mv.len(),
            forall|j: int| 0 <= j < m@.len() ==> (#[trigger] m@[j]).0@ == mv[j].0 && m@[j].1@ == mv[j].1,
            i <= m@.len(),
            first_spec_error(mv, 0) == first_spec_error(mv, i as int),
            out@.len() == i,
            forall|j: int| 0 <= j < i ==> (#[trigger] out@[j]).wf() && out@[j]@ == spec_of(mv[j].0, mv[j].1),
        decreases m@.len() - i,
    {
        assert(m@[i as int].0@ == mv[i as int].0);
        match spec_member(&m[i].0, &m[i].1) {
            Ok(x) => {
                out.push(x);
            },
            Err(e) => {
                return Err(e);
            },
        }
        i = i + 1;
    }
    let oi = match req.get("order_invariant") {
        J::Null | J::Bool(_) => true,
        _ => false,
    };
    if !oi {
        return Err(owned("order_invariant must be boolean"));
    }
    let pv = match req.get("permutations") {
        J::Num(b) => match f64_small_whole(*b) {
            Some(x) => 1 <= x && x <= 32,
            None => false,
        },
        J::Null => true,
        _ => false,
    };
    if !pv {
        return Err(owned("permutations must be 1..32"));
    }
    Ok(out)
}

/// The widest choice among `qs[..n]` (number of options), if there is a choice.
pub open spec fn widest_choice(qs: Seq<SpecV>, n: int) -> Option<int>
    decreases n,
{
    if n <= 0 {
        None
    } else {
        let prev = widest_choice(qs, n - 1);
        if qs[n - 1].kind == 0 {
            match prev {
                Some(w) => Some(if qs[n - 1].names.len() > w { qs[n - 1].names.len() as int } else { w }),
                None => Some(qs[n - 1].names.len() as int),
            }
        } else {
            prev
        }
    }
}

/// How many option orders the request asks for before capping.
pub open spec fn requested_orders(req: JV, k: int) -> int {
    match req.get("permutations"@) {
        JV::Num(b) => usize_of_f64_spec(b),
        _ => match req.get("order_invariant"@) {
            JV::Bool(false) => 1,
            JV::Bool(true) => 8,
            _ => if k >= 11 { 8 } else { 1 },
        },
    }
}

/// `n` capped to `1..=k`.
pub open spec fn capped(n: int, k: int) -> int {
    let m = if n < k { n } else { k };
    if m < 1 { 1 } else { m }
}

/// The number of option orders a request is decided over.
pub open spec fn permutation_count(req: JV, qs: Seq<SpecV>) -> int {
    let k = match widest_choice(qs, qs.len() as int) { Some(w) => w, None => 1 };
    capped(requested_orders(req, k), k)
}

/// A request is decided over at least one order and at most as many as its widest choice has
/// options; `"order_invariant": false` without `permutations` asks for one.
pub proof fn lemma_permutation_bounds(req: JV, qs: Seq<SpecV>)
    ensures
        1 <= permutation_count(req, qs),
        permutation_count(req, qs) <= match widest_choice(qs, qs.len() as int) { Some(w) => if w > 1 { w } else { 1 }, None => 1 },
        req.get("permutations"@) is Null && req.get("order_invariant"@) == JV::Bool(false) ==> permutation_count(req, qs) == 1,
{
}

pub open spec fn spec_views(qs: Seq<Spec>) -> Seq<SpecV> {
    Seq::new(qs.len(), |i: int| qs[i]@)
}

/// The number of option orders to average for `req`'s questions.
pub fn permutations(req: &J, qs: &[Spec]) -> (r: usize)
    ensures r == permutation_count(req@, spec_views(qs@)),
{
    let ghost sv = spec_views(qs@);
    let mut widest: Option<usize> = None;
    let mut i: usize = 0;
    while i < qs.len()
        invariant
            sv == spec_views(qs@),
            i <= qs@.len(),
            match widest_choice(sv, i as int) {
                Some(w) => widest == Some(w as usize) && 0 <= w <= usize::MAX,
                None => widest is None,
            },
        decreases qs@.len() - i,
    {
        assert(sv[i as int] == qs@[i as int]@);
        if qs[i].kind == 0 {
            let w = qs[i].names.len();
            assert(w == sv[i as int].names.len());
            widest = match widest {
                Some(x) => Some(if w > x { w } else { x }),
                None => Some(w),
            };
        }
        i = i + 1;
    }
    let k: usize = match widest {
        Some(w) => w,
        None => 1,
    };
    let n: usize = match req.get("permutations") {
        J::Num(b) => usize_of_f64(*b),
        _ => match req.get("order_invariant") {
            J::Bool(b) => if *b { 8 } else { 1 },
            _ => if k >= 11 { 8 } else { 1 },
        },
    };
    let m = if n < k { n } else { k };
    if m < 1 { 1 } else { m }
}

/// Where the `j`-th of `m` evenly spread rotations of `k` options starts (ties to even).
pub open spec fn offset(k: int, m: int, j: int) -> int {
    let a = j * k;
    let d = a / m;
    let rem = a % m;
    (d + if rem * 2 > m || (rem * 2 == m && d % 2 == 1) { 1int } else { 0int }) % k
}

/// `v` is one of the offsets.
pub open spec fn is_offset(k: int, m: int, v: int) -> bool {
    exists|j: int| 0 <= j < m && #[trigger] offset(k, m, j) == v
}

/// `v` occurs in `s`.
pub open spec fn listed(s: Seq<usize>, v: int) -> bool {
    exists|i: int| 0 <= i < s.len() && #[trigger] s[i] == v
}

/// The options `0..k` rotated to start at `off`.
pub open spec fn rotation(k: int, off: int) -> Seq<usize> {
    Seq::new(k as nat, |i: int| ((i + off) % k) as usize)
}

/// `s` lists the distinct offsets in increasing order.
pub open spec fn offsets_listed(k: int, m: int, s: Seq<usize>) -> bool {
    &&& forall|a: int, b: int| 0 <= a < b < s.len() ==> #[trigger] s[a] < #[trigger] s[b]
    &&& forall|i: int| 0 <= i < s.len() ==> #[trigger] is_offset(k, m, s[i] as int)
    &&& forall|j: int| 0 <= j < m ==> #[trigger] listed(s, offset(k, m, j))
}

/// Inserts `v` into the increasing `s` unless it is there.
fn insert_offset(s: &mut Vec<usize>, v: usize)
    requires forall|a: int, b: int| 0 <= a < b < old(s)@.len() ==> #[trigger] old(s)@[a] < #[trigger] old(s)@[b],
    ensures
        forall|a: int, b: int| 0 <= a < b < final(s)@.len() ==> #[trigger] final(s)@[a] < #[trigger] final(s)@[b],
        forall|x: int| #[trigger] listed(final(s)@, x) <==> (listed(old(s)@, x) || x == v),
{
    let mut j: usize = 0;
    while j < s.len() && s[j] < v
        invariant
            j <= s@.len(),
            forall|a: int| 0 <= a < j ==> #[trigger] s@[a] < v,
        decreases s@.len() - j,
    {
        j = j + 1;
    }
    let ghost old_s = s@;
    if j < s.len() && s[j] == v {
        assert(listed(old_s, v as int)) by { assert(old_s[j as int] == v); }
        return;
    }
    s.insert(j, v);
    proof {
        assert(s@ =~= old_s.insert(j as int, v));
        assert forall|a: int, b: int| 0 <= a < b < s@.len() implies #[trigger] s@[a] < #[trigger] s@[b] by {
            if b < j {
            } else if b == j {
            } else if a < j {
                assert(s@[b] == old_s[b - 1]);
            } else if a == j {
                assert(s@[b] == old_s[b - 1]);
                if b - 1 > j {
                    assert(old_s[j as int] < old_s[b - 1]);
                }
            } else {
                assert(s@[a] == old_s[a - 1] && s@[b] == old_s[b - 1]);
            }
        }
        assert forall|x: int| #[trigger] listed(s@, x) <==> (listed(old_s, x) || x == v) by {
            if listed(s@, x) {
                let i = choose|i: int| 0 <= i < s@.len() && #[trigger] s@[i] == x;
                if i < j {
                    assert(old_s[i] == x);
                } else if i > j {
                    assert(old_s[i - 1] == x);
                }
            }
            if listed(old_s, x) {
                let i = choose|i: int| 0 <= i < old_s.len() && #[trigger] old_s[i] == x;
                if i < j {
                    assert(s@[i] == x);
                } else {
                    assert(s@[i + 1] == x);
                }
            }
            if x == v {
                assert(s@[j as int] == x);
            }
        }
    }
}

/// The option orders of a `k`-option choice averaged over `n` passes: distinct rotations,
/// spread evenly, in increasing order of their first option.
pub fn orders(k: usize, n: usize) -> (r: Vec<Vec<usize>>)
    requires
        k >= 1,
        k * k <= usize::MAX,
    ensures
        r@.len() == orders_spec(k as int, n as int).len(),
        r@.len() >= 1,
        forall|i: int| 0 <= i < r@.len() ==> #[trigger] r@[i]@ == orders_spec(k as int, n as int)[i],
        forall|i: int, j: int| 0 <= i < r@.len() && 0 <= j < k ==> r@[i]@.len() == k && #[trigger] r@[i]@[j] < k,
        forall|i: int, a: int, b: int| 0 <= i < r@.len() && 0 <= a < b < k ==> #[trigger] r@[i]@[a] != #[trigger] r@[i]@[b],
        r@[0]@ == identity(k as int),
{
    let m = if n < k { n } else { k };
    let m = if m < 1 { 1 } else { m };
    let mut offs: Vec<usize> = Vec::new();
    let mut j: usize = 0;
    while j < m
        invariant
            k >= 1,
            k * k <= usize::MAX,
            1 <= m <= k,
            m == capped(n as int, k as int),
            j <= m,
            forall|a: int, b: int| 0 <= a < b < offs@.len() ==> #[trigger] offs@[a] < #[trigger] offs@[b],
            forall|x: int| #[trigger] listed(offs@, x) <==> exists|i: int| 0 <= i < j && #[trigger] offset(k as int, m as int, i) == x,
        decreases m - j,
    {
        assert(j * k <= k * k) by (nonlinear_arith) requires j < m, m <= k;
        let a = j * k;
        let d = a / m;
        let rem = a % m;
        assert(a < k * k) by (nonlinear_arith) requires a == j * k, j < m, m <= k, k >= 1;
        assert(d <= a) by (nonlinear_arith) requires d == a / m, m >= 1, a >= 0;
        assert(rem < m) by (nonlinear_arith) requires rem == a % m, m >= 1;
        assert(rem * 2 <= k * k) by (nonlinear_arith) requires rem < m, m <= k, k >= 1;
        let up: usize = if rem * 2 > m || (rem * 2 == m && d % 2 == 1) { 1 } else { 0 };
        let off = (d + up) % k;
        assert(off as int == offset(k as int, m as int, j as int));
        let ghost before = offs@;
        insert_offset(&mut offs, off);
        proof {
            assert forall|x: int| #[trigger] listed(offs@, x) <==> exists|i: int| 0 <= i < j + 1 && #[trigger] offset(k as int, m as int, i) == x by {
                if listed(offs@, x) && x != off {
                    assert(listed(before, x));
                }
                if exists|i: int| 0 <= i < j + 1 && #[trigger] offset(k as int, m as int, i) == x {
                    let i = choose|i: int| 0 <= i < j + 1 && #[trigger] offset(k as int, m as int, i) == x;
                    if i < j {
                        assert(listed(before, x));
                    }
                }
            }
        }
        j = j + 1;
    }
    proof {
        assert forall|i: int| 0 <= i < offs@.len() implies #[trigger] is_offset(k as int, m as int, offs@[i] as int) by {
            assert(listed(offs@, offs@[i] as int));
        }
        assert forall|i: int| 0 <= i < m implies #[trigger] listed(offs@, offset(k as int, m as int, i)) by {
            let v = offset(k as int, m as int, i);
            assert(0 <= i < j && offset(k as int, m as int, i) == v);
        }
        assert(offsets_listed(k as int, m as int, offs@));
        let chosen = offsets_of(k as int, m as int);
        assert(offsets_listed(k as int, m as int, chosen));
        lemma_offsets_unique(k as int, m as int, offs@, chosen);
        assert(listed(offs@, offset(k as int, m as int, 0)));
        assert(0 * (k as int) == 0);
        assert(0int / (m as int) == 0 && 0int % (m as int) == 0 && 0int % (k as int) == 0) by (nonlinear_arith)
            requires m >= 1, k >= 1;
        assert(offset(k as int, m as int, 0) == 0);
        let z = choose|z: int| 0 <= z < offs@.len() && #[trigger] offs@[z] == 0;
        if z > 0 {
            assert(offs@[0] < offs@[z]);
        }
        assert(offs@[0] == 0);
    }
    let mut out: Vec<Vec<usize>> = Vec::new();
    let mut q: usize = 0;
    while q < offs.len()
        invariant
            k >= 1,
            k * k <= usize::MAX,
            q <= offs@.len(),
            forall|i: int| 0 <= i < offs@.len() ==> #[trigger] is_offset(k as int, m as int, offs@[i] as int),
            out@.len() == q,
            forall|i: int| 0 <= i < q ==> #[trigger] out@[i]@ == rotation(k as int, offs@[i] as int),
            forall|i: int, j: int| 0 <= i < q && 0 <= j < k ==> out@[i]@.len() == k && #[trigger] out@[i]@[j] < k,
            forall|i: int, a: int, b: int| 0 <= i < q && 0 <= a < b < k ==> #[trigger] out@[i]@[a] != #[trigger] out@[i]@[b],
            offs@.len() >= 1,
            offs@[0] == 0,
            q > 0 ==> out@[0]@ == identity(k as int),
        decreases offs@.len() - q,
    {
        let off = offs[q];
        proof {
            assert(is_offset(k as int, m as int, off as int));
            let jj = choose|jj: int| 0 <= jj < m && #[trigger] offset(k as int, m as int, jj) == off;
            assert(0 <= off < k) by {
                vstd::arithmetic::div_mod::lemma_mod_bound(
                    ((jj * k) / (m as int) + if (jj * k) % (m as int) * 2 > m || ((jj * k) % (m as int) * 2 == m && ((jj * k) / (m as int)) % 2 == 1) { 1int } else { 0int }),
                    k as int);
            }
        }
        let mut row: Vec<usize> = Vec::new();
        let mut i: usize = 0;
        while i < k
            invariant
                k >= 1,
                k * k <= usize::MAX,
                off < k,
                i <= k,
                row@.len() == i,
                forall|t: int| 0 <= t < i ==> #[trigger] row@[t] == ((t + off) % (k as int)) as usize,
            decreases k - i,
        {
            assert(i + off < 2 * k);
            assert(2 * k <= k * k || k == 1) by (nonlinear_arith) requires k >= 1;
            row.push((i + off) % k);
            i = i + 1;
        }
        assert(row@ =~= rotation(k as int, off as int));
        assert forall|t: int| 0 <= t < k implies #[trigger] row@[t] < k by {
            vstd::arithmetic::div_mod::lemma_mod_bound(t + off, k as int);
        }
        proof {
            lemma_rotation_distinct(k as int, off as int);
            if q == 0 {
                assert forall|t: int| 0 <= t < k implies #[trigger] row@[t] == identity(k as int)[t] by {
                    vstd::arithmetic::div_mod::lemma_small_mod(t as nat, k as nat);
                }
                assert(row@ =~= identity(k as int));
            }
        }
        out.push(row);
        q = q + 1;
    }
    assert(offs@ == offsets_of(k as int, m as int));
    out
}

/// A rotation of `k` options shows each option once.
pub proof fn lemma_rotation_distinct(k: int, off: int)
    requires
        0 <= off < k,
        k <= usize::MAX,
    ensures
        forall|a: int, b: int| 0 <= a < b < k ==> #[trigger] rotation(k, off)[a] != #[trigger] rotation(k, off)[b],
{
    assert forall|a: int, b: int| 0 <= a < b < k implies #[trigger] rotation(k, off)[a] != #[trigger] rotation(k, off)[b] by {
        let x = a + off;
        let y = b + off;
        assert(x % k == (if x < k { x } else { x - k })) by (nonlinear_arith) requires 0 <= x < 2 * k, k > 0;
        assert(y % k == (if y < k { y } else { y - k })) by (nonlinear_arith) requires 0 <= y < 2 * k, k > 0;
    }
}

/// The offsets of the `m` rotations of `k` options, distinct and increasing.
pub open spec fn offsets_of(k: int, m: int) -> Seq<usize> {
    choose|s: Seq<usize>| offsets_listed(k, m, s)
}

/// The option orders for a `k`-option choice over `n` passes.
pub open spec fn orders_spec(k: int, n: int) -> Seq<Seq<usize>> {
    let offs = offsets_of(k, capped(n, k));
    Seq::new(offs.len(), |i: int| rotation(k, offs[i] as int))
}

/// Two increasing sequences holding the same values are the same.
pub proof fn lemma_increasing_unique(s1: Seq<usize>, s2: Seq<usize>)
    requires
        forall|a: int, b: int| 0 <= a < b < s1.len() ==> #[trigger] s1[a] < #[trigger] s1[b],
        forall|a: int, b: int| 0 <= a < b < s2.len() ==> #[trigger] s2[a] < #[trigger] s2[b],
        forall|x: int| #![trigger listed(s1, x)] #![trigger listed(s2, x)] listed(s1, x) <==> listed(s2, x),
    ensures s1 == s2,
    decreases s1.len() + s2.len(),
{
    if s1.len() == 0 || s2.len() == 0 {
        if s2.len() > 0 {
            assert(s2[0] == s2[0]);
            assert(listed(s2, s2[0] as int));
        }
        if s1.len() > 0 {
            assert(s1[0] == s1[0]);
            assert(listed(s1, s1[0] as int));
        }
        assert(s1 =~= s2);
    } else {
        assert(s1[0] == s1[0] && s2[0] == s2[0]);
        assert(listed(s1, s1[0] as int));
        assert(listed(s2, s2[0] as int));
        let i = choose|i: int| 0 <= i < s2.len() && #[trigger] s2[i] == s1[0];
        let j = choose|j: int| 0 <= j < s1.len() && #[trigger] s1[j] == s2[0];
        if i > 0 && j > 0 {
            assert(s2[0] < s2[i]);
            assert(s1[0] < s1[j]);
        }
        assert(s1[0] == s2[0]);
        let t1 = s1.drop_first();
        let t2 = s2.drop_first();
        assert forall|x: int| #![trigger listed(t1, x)] #![trigger listed(t2, x)] listed(t1, x) <==> listed(t2, x) by {
            if listed(t1, x) {
                let a = choose|a: int| 0 <= a < t1.len() && #[trigger] t1[a] == x;
                assert(s1[a + 1] == x);
                assert(listed(s1, x));
                let b = choose|b: int| 0 <= b < s2.len() && #[trigger] s2[b] == x;
                assert(s1[0] < s1[a + 1]);
                assert(b > 0);
                assert(t2[b - 1] == x);
            }
            if listed(t2, x) {
                let a = choose|a: int| 0 <= a < t2.len() && #[trigger] t2[a] == x;
                assert(s2[a + 1] == x);
                assert(listed(s2, x));
                let b = choose|b: int| 0 <= b < s1.len() && #[trigger] s1[b] == x;
                assert(s2[0] < s2[a + 1]);
                assert(b > 0);
                assert(t1[b - 1] == x);
            }
        }
        lemma_increasing_unique(t1, t2);
        assert(s1 =~= seq![s1[0]] + t1);
        assert(s2 =~= seq![s2[0]] + t2);
    }
}

/// The offsets of the rotations are determined by `k` and `m`.
pub proof fn lemma_offsets_unique(k: int, m: int, s1: Seq<usize>, s2: Seq<usize>)
    requires offsets_listed(k, m, s1), offsets_listed(k, m, s2),
    ensures s1 == s2,
{
    assert forall|x: int| #![trigger listed(s1, x)] #![trigger listed(s2, x)] listed(s1, x) <==> listed(s2, x) by {
        if listed(s1, x) {
            let a = choose|a: int| 0 <= a < s1.len() && #[trigger] s1[a] == x;
            assert(is_offset(k, m, s1[a] as int));
            let j = choose|j: int| 0 <= j < m && #[trigger] offset(k, m, j) == s1[a] as int;
            assert(listed(s2, offset(k, m, j)));
        }
        if listed(s2, x) {
            let a = choose|a: int| 0 <= a < s2.len() && #[trigger] s2[a] == x;
            assert(is_offset(k, m, s2[a] as int));
            let j = choose|j: int| 0 <= j < m && #[trigger] offset(k, m, j) == s2[a] as int;
            assert(listed(s1, offset(k, m, j)));
        }
    }
    lemma_increasing_unique(s1, s2);
}

/// The values `py_state` hands to `dump`, in order: scalars and strings, and each member's name
/// (as a string) before its value's.
pub open spec fn leaves(v: JV) -> Seq<JV>
    decreases v,
{
    match v {
        JV::Arr(a) => item_leaves(a),
        JV::Obj(m) => member_leaves(m),
        _ => seq![v],
    }
}

pub open spec fn item_leaves(a: Seq<JV>) -> Seq<JV>
    decreases a,
{
    if a.len() == 0 {
        Seq::empty()
    } else {
        item_leaves(a.subrange(0, a.len() - 1)) + leaves(a[a.len() - 1])
    }
}

pub open spec fn member_leaves(m: Seq<(Seq<char>, JV)>) -> Seq<JV>
    decreases m,
{
    if m.len() == 0 {
        Seq::empty()
    } else {
        member_leaves(m.subrange(0, m.len() - 1)) + seq![JV::Str(m[m.len() - 1].0)] + leaves(m[m.len() - 1].1)
    }
}

/// The Python-style rendering of `v` (`", "` and `": "` separators, insertion order), each
/// leaf written as `outs` has it.
pub open spec fn py_text(v: JV, outs: Seq<Seq<char>>) -> Seq<char>
    decreases v,
{
    match v {
        JV::Arr(a) => "["@ + items_text(a, outs) + "]"@,
        JV::Obj(m) => "{"@ + members_text(m, outs) + "}"@,
        _ => outs[0],
    }
}

pub open spec fn items_text(a: Seq<JV>, outs: Seq<Seq<char>>) -> Seq<char>
    decreases a,
{
    if a.len() == 0 {
        Seq::empty()
    } else {
        let p = a.subrange(0, a.len() - 1);
        let n = item_leaves(p).len() as int;
        let last = py_text(a[a.len() - 1], outs.subrange(n, outs.len() as int));
        if a.len() == 1 { last } else { items_text(p, outs.subrange(0, n)) + ", "@ + last }
    }
}

pub open spec fn members_text(m: Seq<(Seq<char>, JV)>, outs: Seq<Seq<char>>) -> Seq<char>
    decreases m,
{
    if m.len() == 0 {
        Seq::empty()
    } else {
        let p = m.subrange(0, m.len() - 1);
        let n = member_leaves(p).len() as int;
        let last = outs[n] + ": "@ + py_text(m[m.len() - 1].1, outs.subrange(n + 1, outs.len() as int));
        if m.len() == 1 { last } else { members_text(p, outs.subrange(0, n)) + ", "@ + last }
    }
}

/// `out` is some text that `dump` gives for a value equal to `leaf`.
#[verifier::opaque]
pub open spec fn dumped<F: Fn(&J) -> String>(dump: F, leaf: JV, out: Seq<char>) -> bool {
    exists|x: J, s: String| x@ == leaf && call_ensures(dump, (&x,), s) && s@ == out
}

/// Each leaf has its dump.
pub open spec fn all_dumped<F: Fn(&J) -> String>(dump: F, ls: Seq<JV>, outs: Seq<Seq<char>>) -> bool {
    outs.len() == ls.len() && forall|i: int| 0 <= i < ls.len() ==> #[trigger] dumped(dump, ls[i], outs[i])
}

fn dump_leaf<F: Fn(&J) -> String>(x: &J, dump: &F) -> (r: String)
    requires forall|y: &J| call_requires(*dump, (y,)),
    ensures dumped(*dump, x@, r@),
{
    let s = dump(x);
    proof { reveal(dumped); }
    s
}

/// The Python-style rendering of a JSON value, with the outputs of `dump` for its leaves.
#[verifier::loop_isolation(false)]
fn py_state<F: Fn(&J) -> String>(v: &J, dump: &F) -> (r: (String, Ghost<Seq<Seq<char>>>))
    requires forall|y: &J| call_requires(*dump, (y,)),
    ensures
        all_dumped(*dump, leaves(v@), r.1@),
        r.0@ == py_text(v@, r.1@),
    decreases v,
{
    match v {
        J::Arr(a) => {
            proof { crate::json::lemma_jv_items(a@); }
            let ghost av = crate::json::jv_items(a@);
            let mut text = owned("[");
            let ghost mut outs: Seq<Seq<char>> = Seq::empty();
            let mut i: usize = 0;
            while i < a.len()
                invariant
                    forall|y: &J| call_requires(*dump, (y,)),
                    av == crate::json::jv_items(a@),
                    av.len() == a@.len(),
                    forall|j: int| 0 <= j < a@.len() ==> #[trigger] av[j] == a@[j]@,
                    i <= a@.len(),
                    all_dumped(*dump, item_leaves(av.subrange(0, i as int)), outs),
                    text@ == "["@ + items_text(av.subrange(0, i as int), outs),
                decreases a@.len() - i,
            {
                proof {
                    assert(decreases_to!(*v => *a));
                    assert(decreases_to!(*a => a@));
                    assert(decreases_to!(a@ => a@[i as int]));
                }
                let (t, g) = py_state(&a[i], dump);
                let ghost p = av.subrange(0, i as int);
                let ghost q = av.subrange(0, i + 1);
                assert(q.subrange(0, q.len() - 1) =~= p);
                assert(q[q.len() - 1] == a@[i as int]@);
                if i > 0 {
                    text.append(", ");
                }
                text.append(t.as_str());
                proof {
                    let n = outs.len() as int;
                    let no = outs + g@;
                    assert(no.subrange(0, n) =~= outs);
                    assert(no.subrange(n, no.len() as int) =~= g@);
                    assert(item_leaves(q) == item_leaves(p) + leaves(a@[i as int]@));
                    assert forall|j: int| 0 <= j < item_leaves(q).len() implies #[trigger] dumped(*dump, item_leaves(q)[j], no[j]) by {
                        if j < n {
                            assert(item_leaves(q)[j] == item_leaves(p)[j]);
                        } else {
                            assert(item_leaves(q)[j] == leaves(a@[i as int]@)[j - n]);
                        }
                    }
                    if i == 0 {
                        assert(p.len() == 0);
                        assert(outs.len() == 0);
                    }
                    outs = no;
                }
                i = i + 1;
            }
            text.append("]");
            assert(av.subrange(0, a@.len() as int) =~= av);
            (text, Ghost(outs))
        },
        J::Obj(m) => {
            proof { crate::json::lemma_jv_members(m@); }
            let ghost mv = crate::json::jv_members(m@);
            let mut text = owned("{");
            let ghost mut outs: Seq<Seq<char>> = Seq::empty();
            let mut i: usize = 0;
            while i < m.len()
                invariant
                    forall|y: &J| call_requires(*dump, (y,)),
                    mv == crate::json::jv_members(m@),
                    mv.len() == m@.len(),
                    forall|j: int| 0 <= j < m@.len() ==> #[trigger] mv[j] == (m@[j].0@, m@[j].1@),
                    i <= m@.len(),
                    all_dumped(*dump, member_leaves(mv.subrange(0, i as int)), outs),
                    text@ == "{"@ + members_text(mv.subrange(0, i as int), outs),
                decreases m@.len() - i,
            {
                proof {
                    assert(decreases_to!(*v => *m));
                    assert(decreases_to!(*m => m@));
                    assert(decreases_to!(m@ => m@[i as int]));
                    assert(decreases_to!(m@[i as int] => m@[i as int].1));
                }
                let key = J::s(m[i].0.as_str());
                let k = dump_leaf(&key, dump);
                let (t, g) = py_state(&m[i].1, dump);
                let ghost p = mv.subrange(0, i as int);
                let ghost q = mv.subrange(0, i + 1);
                assert(q.subrange(0, q.len() - 1) =~= p);
                assert(q[q.len() - 1] == (m@[i as int].0@, m@[i as int].1@));
                if i > 0 {
                    text.append(", ");
                }
                text.append(k.as_str());
                text.append(": ");
                text.append(t.as_str());
                proof {
                    let n = outs.len() as int;
                    let no = outs + seq![k@] + g@;
                    assert(no.subrange(0, n) =~= outs);
                    assert(no.subrange(n + 1, no.len() as int) =~= g@);
                    assert(no[n] == k@);
                    assert(member_leaves(q) == member_leaves(p) + seq![JV::Str(m@[i as int].0@)] + leaves(m@[i as int].1@));
                    assert forall|j: int| 0 <= j < member_leaves(q).len() implies #[trigger] dumped(*dump, member_leaves(q)[j], no[j]) by {
                        if j < n {
                            assert(member_leaves(q)[j] == member_leaves(p)[j]);
                        } else if j == n {
                            assert(member_leaves(q)[j] == JV::Str(m@[i as int].0@));
                        } else {
                            assert(member_leaves(q)[j] == leaves(m@[i as int].1@)[j - n - 1]);
                        }
                    }
                    if i == 0 {
                        assert(p.len() == 0);
                        assert(outs.len() == 0);
                    }
                    outs = no;
                }
                i = i + 1;
            }
            text.append("}");
            assert(mv.subrange(0, m@.len() as int) =~= mv);
            (text, Ghost(outs))
        },
        _ => {
            let out = dump_leaf(v, dump);
            let ghost outs = seq![out@];
            (out, Ghost(outs))
        },
    }
}

/// `s` with every TypeSafe control-token opening `<|ts_` broken by a zero-width space.
pub open spec fn clean_spec(s: Seq<char>) -> Seq<char> {
    replaced(s, "<|ts_"@, "<\u{200b}|ts_"@)
}

/// Breaks every `<|ts_` in `s` with a zero-width space, so that text cannot pose as a control token.
pub fn clean(s: &str) -> (r: String)
    ensures r@ == clean_spec(s@),
{
    replace_all(s, "<|ts_", "<\u{200b}|ts_")
}

/// Text whose replacement starts with `q` (which holds no `<`) starts with `q` itself.
proof fn lemma_clean_prefix(s: Seq<char>, i: int, q: Seq<char>)
    requires
        0 <= i,
        q.len() >= 1,
        forall|t: int| 0 <= t < q.len() ==> q[t] != '<',
        replaced_from(s, "<|ts_"@, "<\u{200b}|ts_"@, i).len() >= q.len(),
        replaced_from(s, "<|ts_"@, "<\u{200b}|ts_"@, i).subrange(0, q.len() as int) == q,
    ensures
        i + q.len() <= s.len(),
        s.subrange(i, i + q.len()) == q,
    decreases q.len(),
{
    reveal_strlit("<|ts_");
    reveal_strlit("<\u{200b}|ts_");
    let p = "<|ts_"@;
    let w = "<\u{200b}|ts_"@;
    let r = replaced_from(s, p, w, i);
    assert(r.subrange(0, q.len() as int)[0] == r[0]);
    if holds(s, i, p) {
        assert(r == w + replaced_from(s, p, w, i + 5));
        assert(r[0] == w[0]);
    } else {
        let r1 = replaced_from(s, p, w, i + 1);
        assert(r == seq![s[i]] + r1);
        if q.len() > 1 {
            let q1 = q.drop_first();
            assert(r1.subrange(0, q1.len() as int) =~= r.subrange(0, q.len() as int).drop_first());
            lemma_clean_prefix(s, i + 1, q1);
            assert(s.subrange(i, i + q.len()) =~= seq![s[i]] + s.subrange(i + 1, i + q.len()));
            assert(s.subrange(i, i + q.len()) =~= q);
        } else {
            assert(s.subrange(i, i + 1) =~= q);
        }
    }
}

/// No `<|ts_` occurs in the replacement of `s[i..]`.
proof fn lemma_clean_from(s: Seq<char>, i: int)
    requires 0 <= i,
    ensures
        forall|j: int| !#[trigger] holds(replaced_from(s, "<|ts_"@, "<\u{200b}|ts_"@, i), j, "<|ts_"@),
    decreases s.len() - i,
{
    reveal_strlit("<|ts_");
    reveal_strlit("<\u{200b}|ts_");
    let p = "<|ts_"@;
    let w = "<\u{200b}|ts_"@;
    let r = replaced_from(s, p, w, i);
    if i >= s.len() {
        assert(r.len() == 0);
    } else if holds(s, i, p) {
        lemma_clean_from(s, i + 5);
        let rest = replaced_from(s, p, w, i + 5);
        assert(r == w + rest);
        assert forall|j: int| !#[trigger] holds(r, j, p) by {
            if holds(r, j, p) {
                assert(r.subrange(j, j + 5)[0] == r[j]);
                assert(r.subrange(j, j + 5)[1] == r[j + 1]);
                if j < 6 {
                    assert(r[j] == w[j]);
                } else {
                    assert(rest.subrange(j - 6, j - 1) =~= r.subrange(j, j + 5));
                    assert(holds(rest, j - 6, p));
                }
            }
        }
    } else {
        lemma_clean_from(s, i + 1);
        let rest = replaced_from(s, p, w, i + 1);
        assert(r == seq![s[i]] + rest);
        assert forall|j: int| !#[trigger] holds(r, j, p) by {
            if holds(r, j, p) {
                if j == 0 {
                    let q = p.drop_first();
                    assert(rest.subrange(0, 4) =~= r.subrange(0, 5).drop_first());
                    lemma_clean_prefix(s, i + 1, q);
                    assert(r.subrange(0, 5)[0] == r[0]);
                    assert(s.subrange(i, i + 5) =~= seq![s[i]] + s.subrange(i + 1, i + 5));
                    assert(s.subrange(i, i + 5) =~= p);
                } else {
                    assert(rest.subrange(j - 1, j + 4) =~= r.subrange(j, j + 5));
                    assert(holds(rest, j - 1, p));
                }
            }
        }
    }
}

/// Cleaned text holds no TypeSafe control-token opening `<|ts_`, so text taken from a request
/// cannot pose as a control token.
pub proof fn lemma_clean_no_control(s: Seq<char>)
    ensures forall|j: int| !#[trigger] holds(clean_spec(s), j, "<|ts_"@),
{
    reveal_strlit("<|ts_");
    lemma_clean_from(s, 0);
}

/// The options in their given order.
pub open spec fn identity(k: int) -> Seq<usize> {
    Seq::new(k as nat, |i: int| i as usize)
}

/// The option order of question `q` in pass `pass` of `n`.
pub open spec fn order_for(q: SpecV, n: int, pass: int) -> Seq<usize> {
    if q.kind == 0 {
        let all = orders_spec(q.names.len() as int, n);
        all[pass % (all.len() as int)]
    } else {
        identity(q.names.len() as int)
    }
}

/// The line for the option shown in slot `slot`, which is option `i` of `q`.
pub open spec fn option_line(q: SpecV, slot: int, i: int) -> Seq<char> {
    "<|ts_opt_"@ + decimal(slot as nat) + "|> "@ + trimmed(clean_spec(q.names[i]))
        + (if q.desc[i].len() > 0 { ": "@ + trimmed(clean_spec(q.desc[i])) } else { Seq::<char>::empty() }) + "\n"@
}

/// The lines of the first `n` slots of order `ord`.
pub open spec fn option_lines(q: SpecV, ord: Seq<usize>, n: int) -> Seq<char>
    decreases n,
{
    if n <= 0 { Seq::empty() } else { option_lines(q, ord, n - 1) + option_line(q, n - 1, ord[n - 1] as int) }
}

/// The control-token text of question `q` with its options in order `ord`.
pub open spec fn block_text(q: SpecV, ord: Seq<usize>) -> Seq<char> {
    "<|ts_q|><|ts_"@ + crate::models::laya::kind_name(q.kind) + "|> "@ + trimmed(clean_spec(q.ins)) + "\n"@
        + option_lines(q, ord, ord.len() as int) + "<|ts_answer|>\n"@
}

/// Earlier option lines stay at the front as more slots are written.
proof fn lemma_option_lines_prefix(q: SpecV, ord: Seq<usize>, s: int, n: int)
    requires 0 <= s <= n,
    ensures option_lines(q, ord, s).is_prefix_of(option_lines(q, ord, n)),
    decreases n - s,
{
    if s < n {
        lemma_option_lines_prefix(q, ord, s, n - 1);
        let a = option_lines(q, ord, s);
        let b = option_lines(q, ord, n - 1);
        let c = option_lines(q, ord, n);
        assert(c == b + option_line(q, n - 1, ord[n - 1] as int));
        assert forall|j: int| 0 <= j < a.len() implies a[j] == #[trigger] c[j] by {
            assert(a[j] == b[j]);
        }
    }
}

/// Every option shown in a question's prompt text has its own line: the slot's option marker,
/// the option's cleaned and trimmed name, then, when the option has a description, `": "` and
/// its cleaned and trimmed description, then a line break.
#[verifier::spinoff_prover]
pub proof fn lemma_block_shows_options(q: SpecV, ord: Seq<usize>, s: int)
    requires 0 <= s < ord.len(),
    ensures
        ({
            let i = ord[s] as int;
            let lead = "<|ts_opt_"@ + decimal(s as nat) + "|> "@ + trimmed(clean_spec(q.names[i]));
            let about = ": "@ + trimmed(clean_spec(q.desc[i]));
            &&& q.desc[i].len() == 0 ==> exists|at: int| #[trigger] holds(block_text(q, ord), at, lead + "\n"@)
            &&& q.desc[i].len() > 0 ==> exists|at: int| #[trigger] holds(block_text(q, ord), at, lead + about + "\n"@)
        }),
{
    let i = ord[s] as int;
    let lead = "<|ts_opt_"@ + decimal(s as nat) + "|> "@ + trimmed(clean_spec(q.names[i]));
    let about = ": "@ + trimmed(clean_spec(q.desc[i]));
    let piece = if q.desc[i].len() == 0 { lead + "\n"@ } else { lead + about + "\n"@ };
    let head = "<|ts_q|><|ts_"@ + crate::models::laya::kind_name(q.kind) + "|> "@ + trimmed(clean_spec(q.ins)) + "\n"@;
    let all = option_lines(q, ord, ord.len() as int);
    let before = option_lines(q, ord, s);
    let upto = option_lines(q, ord, s + 1);
    lemma_option_lines_prefix(q, ord, s + 1, ord.len() as int);
    assert(upto == before + option_line(q, s, i));
    assert(option_line(q, s, i) =~= piece);
    assert(upto.len() <= all.len());
    let text = block_text(q, ord);
    assert(text == head + all + "<|ts_answer|>\n"@);
    let at: int = (head.len() + before.len()) as int;
    assert(at + piece.len() <= text.len());
    let window = text.subrange(at, at + piece.len());
    assert(window.len() == piece.len());
    assert forall|j: int| 0 <= j < piece.len() implies #[trigger] window[j] == piece[j] by {
        assert(window[j] == text[at + j]);
        assert(text[at + j] == all[before.len() + j]);
        assert(all[before.len() + j] == upto[before.len() + j]);
        assert(upto[before.len() + j] == option_line(q, s, i)[j]);
    }
    assert(window =~= piece);
    assert(holds(text, at, piece));
}

/// The token blocks of `qs[k..]` in pass `pass` of `n`.
pub open spec fn blocks_spec(t: TokenizerV, qs: Seq<SpecV>, n: int, pass: int, k: int) -> Result<Seq<Seq<usize>>, Seq<char>>
    decreases qs.len() - k,
{
    if k < 0 || k >= qs.len() {
        Ok(Seq::empty())
    } else {
        match encode_spec(t, block_text(qs[k], order_for(qs[k], n, pass))) {
            Err(e) => Err(e),
            Ok(b) => match blocks_spec(t, qs, n, pass, k + 1) {
                Err(e) => Err(e),
                Ok(rest) => Ok(seq![b] + rest),
            },
        }
    }
}

/// The id of OpenThai's answer marker.
pub open spec fn answer_id() -> usize {
    248082
}

/// The last position of the answer marker in `b`, if any.
pub open spec fn last_answer(b: Seq<usize>, n: int) -> Option<int>
    decreases n,
{
    if n <= 0 { None } else if b[n - 1] == answer_id() { Some(n - 1) } else { last_answer(b, n - 1) }
}

/// The state line.
pub open spec fn state_line(st: Seq<char>) -> Seq<char> {
    "<|ts_state|> "@ + trimmed(clean_spec(st)) + "\n"@
}

/// An encoded OpenThai request: ids, where each question's answer is read, each question's
/// option order, and whether the state was cut.
pub struct EncodedV {
    pub ids: Seq<usize>,
    pub positions: Seq<usize>,
    pub order: Seq<Seq<usize>>,
    pub truncated: bool,
}

/// The state ids kept within `budget`: the state marker and the tail.
pub open spec fn kept_state(ids: Seq<usize>, budget: int) -> Seq<usize> {
    if ids.len() > budget { seq![ids[0]] + ids.subrange(ids.len() - (budget - 1), ids.len() as int) } else { ids }
}

/// Where each block's answer marker lands after `base` ids.
pub open spec fn answer_positions(base: int, bs: Seq<Seq<usize>>) -> Seq<usize> {
    Seq::new(bs.len(), |i: int| (base + crate::models::laya::total_len(bs.take(i)) + last_answer(bs[i], bs[i].len() as int)->Some_0) as usize)
}

/// The encoding of questions `qs` about a state written `st`, in pass `pass` of `n`.
pub open spec fn ot_encode(t: TokenizerV, qs: Seq<SpecV>, n: int, pass: int, max_tokens: int, max_state: int,
    st: Seq<char>) -> Result<EncodedV, Seq<char>>
{
    match blocks_spec(t, qs, n, pass, 0) {
        Err(e) => Err(e),
        Ok(bs) => {
            let total = crate::models::laya::total_len(bs);
            if total >= max_tokens {
                Err("question tokens exceed OpenThai context budget"@)
            } else {
                match encode_spec(t, state_line(st)) {
                    Err(e) => Err(e),
                    Ok(ids0) => {
                        let budget = if max_state < max_tokens - total { max_state } else { max_tokens - total };
                        let ids1 = kept_state(ids0, budget);
                        if exists|i: int| 0 <= i < bs.len() && #[trigger] last_answer(bs[i], bs[i].len() as int) is None {
                            Err("missing OpenThai answer token"@)
                        } else {
                            Ok(EncodedV {
                                ids: ids1 + crate::models::laya::flat(bs),
                                positions: answer_positions(ids1.len() as int, bs),
                                order: Seq::new(qs.len(), |i: int| order_for(qs[i], n, pass)),
                                truncated: ids0.len() > budget,
                            })
                        }
                    },
                }
            }
        },
    }
}

/// The state as the model reads it: a string as itself, any other value in Python style.
pub open spec fn state_text(req: JV, outs: Seq<Seq<char>>) -> Seq<char> {
    match req.get("state"@) {
        JV::Str(s) => s,
        v => py_text(v, outs),
    }
}

/// An encoded OpenThai request.
#[derive(Debug)]
pub struct Encoded {
    pub ids: Vec<usize>,
    pub positions: Vec<usize>,
    order: Vec<Vec<usize>>,
    pub truncated: bool,
}

impl View for Encoded {
    type V = EncodedV;

    closed spec fn view(&self) -> EncodedV {
        EncodedV {
            ids: self.ids@,
            positions: self.positions@,
            order: crate::models::laya::id_views(self.order@),
            truncated: self.truncated,
        }
    }
}

impl Encoded {
    /// The option order used for question `i`: slot `s` shows option `order(i)[s]`.
    pub fn order(&self, i: usize) -> (r: &Vec<usize>)
        requires i < self@.order.len(),
        ensures r@ == self@.order[i as int],
    {
        &self.order[i]
    }
}

/// The option order of question `q` in pass `pass` of `n`.
fn order_of(q: &Spec, n: usize, pass: usize) -> (r: Vec<usize>)
    requires q.wf(),
    ensures
        r@ == order_for(q@, n as int, pass as int),
        forall|i: int| 0 <= i < r@.len() ==> #[trigger] r@[i] < q@.names.len(),
{
    let k = q.names.len();
    if q.kind == 0 {
        assert(k * k <= 255 * 255) by (nonlinear_arith) requires k <= 255;
        let mut all = orders(k, n);
        let idx = pass % all.len();
        let o = all.swap_remove(idx);
        o
    } else {
        let mut o: Vec<usize> = Vec::new();
        let mut i: usize = 0;
        while i < k
            invariant
                i <= k,
                o@.len() == i,
                forall|j: int| 0 <= j < i ==> #[trigger] o@[j] == j,
            decreases k - i,
        {
            o.push(i);
            i = i + 1;
        }
        assert(o@ =~= identity(k as int));
        o
    }
}

/// The control-token text of `q` with its options in order `ord`.
fn block(q: &Spec, ord: &Vec<usize>) -> (r: String)
    requires
        q.wf(),
        forall|i: int| 0 <= i < ord@.len() ==> #[trigger] ord@[i] < q@.names.len(),
    ensures r@ == block_text(q@, ord@),
{
    let kind = if q.kind == 0 { "choice" } else if q.kind == 1 { "score" } else { "noul" };
    let mut text = owned("<|ts_q|><|ts_");
    text.append(kind);
    text.append("|> ");
    let ins = trim(clean(q.ins.as_str()).as_str());
    text.append(ins.as_str());
    text.append("\n");
    let ghost head = text@;
    let mut slot: usize = 0;
    while slot < ord.len()
        invariant
            q.wf(),
            forall|i: int| 0 <= i < ord@.len() ==> #[trigger] ord@[i] < q@.names.len(),
            slot <= ord@.len(),
            text@ == head + option_lines(q@, ord@, slot as int),
        decreases ord@.len() - slot,
    {
        let i = ord[slot];
        assert(i < q@.names.len());
        let mut line = owned("<|ts_opt_");
        line.append(decimal_string(slot as u64).as_str());
        line.append("|> ");
        line.append(trim(clean(q.names[i].as_str()).as_str()).as_str());
        assert(q@.desc[i as int] == q.desc@[i as int]@);
        assert(q@.names[i as int] == q.names@[i as int]@);
        if !crate::text::is_empty_text(q.desc[i].as_str()) {
            line.append(": ");
            line.append(trim(clean(q.desc[i].as_str()).as_str()).as_str());
        }
        line.append("\n");
        assert(line@ == option_line(q@, slot as int, i as int));
        text.append(line.as_str());
        slot = slot + 1;
    }
    text.append("<|ts_answer|>\n");
    text
}

/// The last position of the answer marker in `b`.
fn last_answer_in(b: &Vec<usize>) -> (r: Option<usize>)
    ensures
        match last_answer(b@, b@.len() as int) {
            Some(p) => r matches Some(x) && x == p && p < b@.len(),
            None => r is None,
        },
{
    let mut n = b.len();
    while n > 0
        invariant
            n <= b@.len(),
            last_answer(b@, b@.len() as int) == last_answer(b@, n as int),
        decreases n,
    {
        if b[n - 1] == 248082 {
            return Some(n - 1);
        }
        n = n - 1;
    }
    None
}

/// `r` is what encoding gives when the state reads `st`.
pub open spec fn encode_result(t: TokenizerV, qs: Seq<SpecV>, n: int, pass: int, max_tokens: int, max_state: int,
    st: Seq<char>, r: Result<EncodedV, Seq<char>>) -> bool
{
    ot_encode(t, qs, n, pass, max_tokens, max_state, st) == r
}

/// `r` is the encoding of `req`'s questions `qs`: its state read as a string, or rendered with
/// what `dump` gives for the state's leaves.
pub open spec fn encodes<F: Fn(&J) -> String>(dump: F, t: TokenizerV, req: JV, qs: Seq<SpecV>, n: int, pass: int,
    max_tokens: int, max_state: int, r: Result<EncodedV, Seq<char>>) -> bool
{
    match req.get("state"@) {
        JV::Str(s) => encode_result(t, qs, n, pass, max_tokens, max_state, s, r),
        v => exists|outs: Seq<Seq<char>>| #[trigger] all_dumped(dump, leaves(v), outs)
            && encode_result(t, qs, n, pass, max_tokens, max_state, py_text(v, outs), r),
    }
}

/// The view of an encoding outcome.
pub open spec fn outcome(r: Result<Encoded, String>) -> Result<EncodedV, Seq<char>> {
    match r {
        Ok(e) => Ok(e@),
        Err(m) => Err(m@),
    }
}

/// The Python-style rendering of `v` (`", "` and `": "` separators, insertion order), each leaf
/// and each member name written by `leaf`.
pub fn python_text<F: Fn(&J) -> String>(v: &J, leaf: &F) -> (r: String)
    requires forall|y: &J| call_requires(*leaf, (y,)),
    ensures exists|outs: Seq<Seq<char>>| all_dumped(*leaf, leaves(v@), outs) && r@ == py_text(v@, outs),
{
    let (text, outs) = py_state(v, leaf);
    assert(all_dumped(*leaf, leaves(v@), outs@) && text@ == py_text(v@, outs@));
    text
}

/// The state as the model reads it, with the outputs of `dump` that it was made of.
fn state_of<F: Fn(&J) -> String>(req: &J, dump: &F) -> (r: (String, Ghost<Seq<Seq<char>>>))
    requires forall|y: &J| call_requires(*dump, (y,)),
    ensures
        match req@.get("state"@) {
            JV::Str(s) => r.0@ == s,
            v => all_dumped(*dump, leaves(v), r.1@) && r.0@ == py_text(v, r.1@),
        },
{
    match req.get("state") {
        J::Str(s) => {
            let ghost none: Seq<Seq<char>> = Seq::empty();
            (s.clone(), Ghost(none))
        },
        v => py_state(v, dump),
    }
}

/// Question tokens (with each pass's option order), then the state within its budget, keeping
/// the state marker and the state's tail; answers are read at each question's answer marker.
pub fn encode<F: Fn(&J) -> String>(max_tokens: usize, max_state: usize, t: &Tokenizer, req: &J, qs: &[Spec],
    n: usize, pass: usize, dump: &F) -> (r: Result<Encoded, String>)
    requires
        t.wf(),
        specials_ok(t@),
        max_state >= 1,
        forall|i: int| 0 <= i < qs@.len() ==> (#[trigger] qs@[i]).wf(),
        forall|y: &J| call_requires(*dump, (y,)),
    ensures encodes(*dump, t@, req@, spec_views(qs@), n as int, pass as int, max_tokens as int, max_state as int, outcome(r)),
{
    let (st, outs) = state_of(req, dump);
    let r = encode_text(max_tokens, max_state, t, qs, n, pass, &st);
    proof {
        match req@.get("state"@) {
            JV::Str(x) => {},
            v => {
                assert(all_dumped(*dump, leaves(v), outs@));
            },
        }
    }
    r
}

/// `encode` for a state already read as text.
#[verifier::rlimit(40)]
fn encode_text(max_tokens: usize, max_state: usize, t: &Tokenizer, qs: &[Spec], n: usize, pass: usize,
    st: &String) -> (r: Result<Encoded, String>)
    requires
        t.wf(),
        specials_ok(t@),
        max_state >= 1,
        forall|i: int| 0 <= i < qs@.len() ==> (#[trigger] qs@[i]).wf(),
    ensures encode_result(t@, spec_views(qs@), n as int, pass as int, max_tokens as int, max_state as int, st@, outcome(r)),
{
    let ghost qv = spec_views(qs@);
    let mut blocks: Vec<Vec<usize>> = Vec::new();
    let mut order: Vec<Vec<usize>> = Vec::new();
    let mut k: usize = 0;
    let mut total: usize = 0;
    while k < qs.len()
        invariant
            t.wf(),
            specials_ok(t@),
            forall|i: int| 0 <= i < qs@.len() ==> (#[trigger] qs@[i]).wf(),
            qv == spec_views(qs@),
            k <= qs@.len(),
            blocks_spec(t@, qv, n as int, pass as int, 0) == (match blocks_spec(t@, qv, n as int, pass as int, k as int) {
                Ok(rest) => Ok(crate::models::laya::id_views(blocks@) + rest),
                Err(e) => Err(e),
            }),
            blocks@.len() == k,
            total == (if crate::models::laya::total_len(crate::models::laya::id_views(blocks@)) < usize::MAX {
                crate::models::laya::total_len(crate::models::laya::id_views(blocks@)) } else { usize::MAX as int }),
            order@.len() == k,
            forall|i: int| 0 <= i < k ==> #[trigger] order@[i]@ == order_for(qv[i], n as int, pass as int),
        decreases qs@.len() - k,
    {
        assert(qv[k as int] == qs@[k as int]@);
        let ord = order_of(&qs[k], n, pass);
        let text = block(&qs[k], &ord);
        let b = match t.encode(text.as_str()) {
            Ok(b) => b,
            Err(e) => {
                assert(blocks_spec(t@, qv, n as int, pass as int, k as int) == Err::<Seq<Seq<usize>>, Seq<char>>(e@));
                return Err(e);
            },
        };
        let ghost bv = crate::models::laya::id_views(blocks@);
        proof {
            crate::models::laya::lemma_flat_len(bv);
            crate::models::laya::lemma_flat_len(bv.push(b@));
            assert(bv.push(b@).drop_last() =~= bv);
        }
        total = if total > usize::MAX - b.len() { usize::MAX } else { total + b.len() };
        blocks.push(b);
        order.push(ord);
        proof {
            assert(crate::models::laya::id_views(blocks@) =~= bv.push(b@));
            if let Ok(rest) = blocks_spec(t@, qv, n as int, pass as int, k + 1) {
                assert(bv + (seq![b@] + rest) =~= bv.push(b@) + rest);
            }
        }
        k = k + 1;
    }
    let ghost bs = crate::models::laya::id_views(blocks@);
    assert(bs + Seq::<Seq<usize>>::empty() =~= bs);
    assert(blocks_spec(t@, qv, n as int, pass as int, 0) == Ok::<Seq<Seq<usize>>, Seq<char>>(bs));
    if total >= max_tokens {
        return Err(owned("question tokens exceed OpenThai context budget"));
    }
    let mut line = owned("<|ts_state|> ");
    line.append(trim(clean(st.as_str()).as_str()).as_str());
    line.append("\n");
    let mut ids = t.encode(line.as_str())?;
    let ghost ids0 = ids@;
    let room = max_tokens - total;
    let budget = if max_state < room { max_state } else { room };
    let truncated = ids.len() > budget;
    if truncated {
        let start = ids.len() - (budget - 1);
        let mut tail = slice_to_vec(slice_subrange(ids.as_slice(), start, ids.len()));
        ids.truncate(1);
        ids.append(&mut tail);
    }
    assert(ids@ =~= kept_state(ids0, budget as int));
    let ghost base = ids@.len();
    assert(ids@.len() <= budget);
    let mut positions: Vec<usize> = Vec::new();
    let mut i: usize = 0;
    proof { crate::models::laya::lemma_flat_len(bs); }
    while i < blocks.len()
        invariant
            bs == crate::models::laya::id_views(blocks@),
            qv == spec_views(qs@),
            blocks_spec(t@, qv, n as int, pass as int, 0) == Ok::<Seq<Seq<usize>>, Seq<char>>(bs),
            crate::models::laya::total_len(bs) < max_tokens,
            encode_spec(t@, state_line(st@)) == Ok::<Seq<usize>, Seq<char>>(ids0),
            budget == (if max_state < max_tokens - crate::models::laya::total_len(bs) { max_state as int }
                else { max_tokens - crate::models::laya::total_len(bs) }),
            i <= bs.len(),
            base + crate::models::laya::total_len(bs) <= max_tokens,
            ids@ == kept_state(ids0, budget as int) + crate::models::laya::flat(bs.take(i as int)),
            base == kept_state(ids0, budget as int).len(),
            positions@.len() == i,
            forall|j: int| 0 <= j < i ==> last_answer(#[trigger] bs[j], bs[j].len() as int) is Some,
            forall|j: int| 0 <= j < i ==> #[trigger] positions@[j] == answer_positions(base as int, bs)[j],
        decreases bs.len() - i,
    {
        proof {
            crate::models::laya::lemma_take_step(bs, i as int);
            crate::models::laya::lemma_flat_len(bs.take(i as int));
            lemma_total_prefix(bs, i as int);
        }
        let p = match last_answer_in(&blocks[i]) {
            Some(p) => p,
            None => {
                assert(last_answer(bs[i as int], bs[i as int].len() as int) is None);
                return Err(owned("missing OpenThai answer token"));
            },
        };
        positions.push(ids.len() + p);
        let mut b = blocks[i].clone();
        assert(b@ =~= bs[i as int]);
        ids.append(&mut b);
        i = i + 1;
    }
    assert(bs.take(bs.len() as int) =~= bs);
    assert(positions@ =~= answer_positions(base as int, bs));
    let e = Encoded { ids, positions, order, truncated };
    assert(e@.order =~= Seq::new(qv.len(), |j: int| order_for(qv[j], n as int, pass as int)));
    Ok(e)
}

/// Block lengths before `i` add up to no more than all of them.
proof fn lemma_total_prefix(bs: Seq<Seq<usize>>, i: int)
    requires 0 <= i <= bs.len(),
    ensures crate::models::laya::total_len(bs.take(i)) + (if i < bs.len() { bs[i].len() as int } else { 0 })
        <= crate::models::laya::total_len(bs),
    decreases bs.len() - i,
{
    if i < bs.len() {
        lemma_total_prefix(bs, i + 1);
        crate::models::laya::lemma_take_step(bs, i);
        if i + 1 < bs.len() {
            assert(bs[i + 1].len() >= 0);
        }
    } else {
        assert(bs.take(i) =~= bs);
    }
}

proof fn lemma_last_answer(b: Seq<usize>, n: int)
    requires n <= b.len(),
    ensures last_answer(b, n) matches Some(i) ==> 0 <= i < n && b[i] == answer_id(),
    decreases n,
{
    if n > 0 && b[n - 1] != answer_id() {
        lemma_last_answer(b, n - 1);
    }
}

proof fn lemma_blocks_len(t: TokenizerV, qs: Seq<SpecV>, n: int, pass: int, k: int)
    requires 0 <= k <= qs.len(),
    ensures blocks_spec(t, qs, n, pass, k) matches Ok(bs) ==> bs.len() == qs.len() - k,
    decreases qs.len() - k,
{
    if k < qs.len() {
        lemma_blocks_len(t, qs, n, pass, k + 1);
    }
}

/// An encoding fits the context budget, begins with the state marker, and reads each
/// question's answer at an answer marker, in question order.
pub proof fn lemma_encoding_fits(t: TokenizerV, qs: Seq<SpecV>, n: int, pass: int, max_tokens: int,
    max_state: int, st: Seq<char>)
    requires
        1 <= max_state,
        max_tokens <= usize::MAX,
        ot_encode(t, qs, n, pass, max_tokens, max_state, st) is Ok,
    ensures ({
        let e = ot_encode(t, qs, n, pass, max_tokens, max_state, st)->Ok_0;
        let ids0 = encode_spec(t, state_line(st))->Ok_0;
        &&& e.ids.len() <= max_tokens
        &&& e.positions.len() == qs.len()
        &&& e.order.len() == qs.len()
        &&& ids0.len() > 0 ==> e.ids[0] == ids0[0]
        &&& forall|i: int| 0 <= i < qs.len() ==>
            #[trigger] e.positions[i] < e.ids.len() && e.ids[e.positions[i] as int] == answer_id()
    }),
{
    let e = ot_encode(t, qs, n, pass, max_tokens, max_state, st)->Ok_0;
    let bs = blocks_spec(t, qs, n, pass, 0)->Ok_0;
    let total = crate::models::laya::total_len(bs);
    let ids0 = encode_spec(t, state_line(st))->Ok_0;
    let budget = if max_state < max_tokens - total { max_state } else { max_tokens - total };
    let ids1 = kept_state(ids0, budget);
    lemma_blocks_len(t, qs, n, pass, 0);
    crate::models::laya::lemma_flat_len(bs);
    assert(e.ids == ids1 + crate::models::laya::flat(bs));
    assert(ids1.len() <= budget);
    assert forall|i: int| 0 <= i < qs.len() implies
        #[trigger] e.positions[i] < e.ids.len() && e.ids[e.positions[i] as int] == answer_id() by {
        assert(last_answer(bs[i], bs[i].len() as int) is Some);
        lemma_last_answer(bs[i], bs[i].len() as int);
        let j = last_answer(bs[i], bs[i].len() as int)->Some_0;
        crate::models::laya::lemma_flat_index(bs, i, j);
        lemma_total_prefix(bs, i);
        crate::models::laya::lemma_flat_len(bs.take(i));
        let v = ids1.len() + crate::models::laya::total_len(bs.take(i)) + j;
        assert(0 <= v < e.ids.len());
        assert(e.positions[i] == v as usize);
        assert(e.positions[i] as int == v);
        assert(e.ids[v] == crate::models::laya::flat(bs)[v - ids1.len()]);
    }
}

/// The questions of a request that `questions` accepts.
pub open spec fn specs_of(req: JV) -> Seq<SpecV> {
    let m = req.get("questions"@).members();
    Seq::new(m.len(), |i: int| spec_of(m[i].0, m[i].1))
}

/// Pass `p` encodes.
pub open spec fn pass_ok<F: Fn(&J) -> String>(dump: F, t: TokenizerV, req: JV, n: int, p: int, max_tokens: int, max_state: int) -> bool {
    exists|e: EncodedV| encodes(dump, t, req, specs_of(req), n, p, max_tokens, max_state, Ok(e))
}

/// Pass `p` fails with `msg`.
pub open spec fn pass_fails<F: Fn(&J) -> String>(dump: F, t: TokenizerV, req: JV, n: int, p: int, max_tokens: int, max_state: int, msg: Seq<char>) -> bool {
    encodes(dump, t, req, specs_of(req), n, p, max_tokens, max_state, Err(msg))
}

pub open spec fn outcome_unit(r: Result<(), String>) -> Result<(), Seq<char>> {
    match r {
        Ok(u) => Ok(u),
        Err(m) => Err(m@),
    }
}

/// Every pass encodes when `r` is `Ok`; when `r` fails, some pass failed that way.
pub open spec fn passes_checked<F: Fn(&J) -> String>(dump: F, t: TokenizerV, req: JV, max_tokens: int, max_state: int,
    r: Result<(), Seq<char>>) -> bool
{
    let n = permutation_count(req, specs_of(req));
    if r is Ok {
        forall|p: int| 0 <= p < n ==> #[trigger] pass_ok(dump, t, req, n, p, max_tokens, max_state)
    } else {
        exists|p: int| 0 <= p < n && #[trigger] pass_fails(dump, t, req, n, p, max_tokens, max_state, r->Err_0)
    }
}

/// Checks a request without inference: its questions, and every permutation's encoding
/// (option orders change token counts).
pub fn validate<F: Fn(&J) -> String>(max_tokens: usize, max_state: usize, t: &Tokenizer, req: &J, dump: &F) -> (r: Result<(), String>)
    requires
        t.wf(),
        specials_ok(t@),
        max_state >= 1,
        forall|y: &J| call_requires(*dump, (y,)),
    ensures
        match request_error(req@) {
            Some(e) => r matches Err(m) && m@ == e,
            None => passes_checked(*dump, t@, req@, max_tokens as int, max_state as int, outcome_unit(r)),
        },
{
    let qs = questions(req)?;
    let n = permutations(req, qs.as_slice());
    let ghost qv = spec_views(qs@);
    assert(qv =~= specs_of(req@));
    let mut pass: usize = 0;
    while pass < n
        invariant
            t.wf(),
            specials_ok(t@),
            max_state >= 1,
            forall|y: &J| call_requires(*dump, (y,)),
            forall|i: int| 0 <= i < qs@.len() ==> (#[trigger] qs@[i]).wf(),
            qv == spec_views(qs@),
            qv == specs_of(req@),
            request_error(req@) is None,
            n == permutation_count(req@, qv),
            pass <= n,
            forall|p: int| 0 <= p < pass ==> #[trigger] pass_ok(*dump, t@, req@, n as int, p, max_tokens as int, max_state as int),
        decreases n - pass,
    {
        let r = encode(max_tokens, max_state, t, req, qs.as_slice(), n, pass, dump);
        match r {
            Ok(e) => {
                assert(encodes(*dump, t@, req@, qv, n as int, pass as int, max_tokens as int, max_state as int, Ok(e@)));
                assert(pass_ok(*dump, t@, req@, n as int, pass as int, max_tokens as int, max_state as int));
            },
            Err(m) => {
                let ghost nn = permutation_count(req@, specs_of(req@));
                assert(nn == n);
                assert(pass_fails(*dump, t@, req@, nn, pass as int, max_tokens as int, max_state as int, m@));
                assert(0 <= pass < nn);
                let ghost mv = m@;
                let r: Result<(), String> = Err(m);
                assert(outcome_unit(r)->Err_0 == mv);
                assert(passes_checked(*dump, t@, req@, max_tokens as int, max_state as int, outcome_unit(r)));
                return r;
            },
        }
        pass = pass + 1;
    }
    Ok(())
}

} // verus!
