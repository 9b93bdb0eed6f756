//! Preset expansion: a request may name a built-in preset instead of carrying questions.
use vstd::prelude::*;
use crate::json::{jv_members, lemma_jv_members, J, JV};
use crate::text::{is_empty_text, str_eq};

verus! {

/// The first member of `m` named `k`.
pub open spec fn first_named(m: Seq<(Seq<char>, JV)>, k: Seq<char>, i: int) -> Option<int>
    decreases m.len() - i,
{
    if i < 0 || i >= m.len() {
        None
    } else if m[i].0 == k {
        Some(i)
    } else {
        first_named(m, k, i + 1)
    }
}

/// `state` with its member `key` set to the string `text` (the first such member, or a new last one);
/// a state that is no object becomes `text` itself.
pub open spec fn with_text(state: JV, key: Seq<char>, text: Seq<char>) -> JV {
    match state {
        JV::Obj(m) => match first_named(m, key, 0) {
            Some(i) => JV::Obj(m.update(i, (key, JV::Str(text)))),
            None => JV::Obj(m.push((key, JV::Str(text)))),
        },
        _ => JV::Str(text),
    }
}

/// The request that `req` stands for once its preset, if any, is expanded.
pub open spec fn resolve_spec(req: JV, presets: JV) -> Result<JV, Seq<char>> {
    if req.get("questions"@) is Null && req.get("preset"@).text().len() > 0 {
        let p = presets.get(req.get("preset"@).text());
        if p is Null {
            Err("unknown preset"@)
        } else {
            let base = if req.get("state"@) is Null { p.get("state"@) } else { req.get("state"@) };
            let state = match req.get("text"@) {
                JV::Str(text) => with_text(base, p.get("state_key"@).text(), text),
                _ => base,
            };
            Ok(JV::Obj(seq![
                ("state"@, state),
                ("questions"@, p.get("questions"@)),
                ("id"@, req.get("id"@)),
                ("order_invariant"@, req.get("order_invariant"@)),
                ("permutations"@, req.get("permutations"@)),
            ]))
        }
    } else {
        Ok(req)
    }
}

/// `state` with its member `key` set to the string `text`, or `text` itself when it is no object.
#[verifier::loop_isolation(false)]
pub fn set_text(state: J, key: &str, text: &String) -> (r: J)
    ensures r@ == with_text(state@, key@, text@),
{
    match state {
        J::Obj(mut v) => {
            proof { lemma_jv_members(v@); }
            let ghost m = jv_members(v@);
            let mut i: usize = 0;
            while i < v.len()
                invariant
                    m == jv_members(v@),
                    m.len() == v@.len(),
                    forall|j: int| 0 <= j < v@.len() ==> #[trigger] m[j] == (v@[j].0@, v@[j].1@),
                    i <= v@.len(),
                    first_named(m, key@, 0) == first_named(m, key@, i as int),
                decreases v@.len() - i,
            {
                assert(m[i as int] == (v@[i as int].0@, v@[i as int].1@));
                if str_eq(v[i].0.as_str(), key) {
                    let name = v[i].0.clone();
                    v.set(i, (name, J::Str(text.clone())));
                    proof {
                        lemma_jv_members(v@);
                        assert(jv_members(v@) =~= m.update(i as int, (key@, JV::Str(text@))));
                    }
                    return J::Obj(v);
                }
                i = i + 1;
            }
            v.push((crate::text::owned(key), J::Str(text.clone())));
            proof {
                lemma_jv_members(v@);
                assert(jv_members(v@) =~= m.push((key@, JV::Str(text@))));
            }
            J::Obj(v)
        },
        _ => J::Str(text.clone()),
    }
}

/// Expands a preset request (`preset` named, no `questions`) into the preset's questions and
/// state, with `text` filled into the preset's state key; any other request is returned as it is.
pub fn resolve(req: &J, presets: &J) -> (r: Result<J, String>)
    ensures
        match resolve_spec(req@, presets@) {
            Ok(v) => r matches Ok(x) && x@ == v,
            Err(e) => r matches Err(m) && m@ == e,
        },
{
    if req.get("questions").is_null() && !is_empty_text(req.get("preset").str()) {
        let p = presets.get(req.get("preset").str());
        if p.is_null() {
            return Err(crate::text::owned("unknown preset"));
        }
        let base = if req.get("state").is_null() { p.get("state").copy() } else { req.get("state").copy() };
        let state = match req.get("text") {
            J::Str(text) => set_text(base, p.get("state_key").str(), text),
            _ => base,
        };
        let r = J::object(vec![
            ("state", state),
            ("questions", p.get("questions").copy()),
            ("id", req.get("id").copy()),
            ("order_invariant", req.get("order_invariant").copy()),
            ("permutations", req.get("permutations").copy()),
        ]);
        proof {
            let m = r@->Obj_0;
            assert(m =~= resolve_spec(req@, presets@)->Ok_0->Obj_0);
        }
        Ok(r)
    } else {
        Ok(req.copy())
    }
}

/// The preset named `name`, or `email` when none is named.
pub open spec fn preset_name(name: Option<Seq<char>>) -> Seq<char> {
    match name {
        Some(n) => n,
        None => "email"@,
    }
}

/// The preset that a `decide` command line names, or why there is none.
pub fn chosen_preset(presets: &J, name: Option<&String>) -> (r: Result<J, String>)
    ensures
        r is Ok <==> !(presets@.get(preset_name(match name { Some(n) => Some(n@), None => None })) is Null),
        r is Ok ==> r->Ok_0@ == presets@.get(preset_name(match name { Some(n) => Some(n@), None => None })),
        r is Err ==> r->Err_0@ == "unknown preset"@,
{
    let p = match name {
        Some(n) => presets.get(n.as_str()),
        None => presets.get("email"),
    };
    if p.is_null() {
        Err(crate::text::owned("unknown preset"))
    } else {
        Ok(p.copy())
    }
}

/// The request that `decide` sends for a preset: the given state or the preset's, with `text`
/// filled into the preset's state key, and the given questions or the preset's.
pub open spec fn preset_request_spec(preset: JV, state: Option<JV>, text: Option<Seq<char>>, questions: Option<JV>) -> JV {
    let base = match state {
        Some(s) => s,
        None => preset.get("state"@),
    };
    let filled = match text {
        Some(t) => with_text(base, preset.get("state_key"@).text(), t),
        None => base,
    };
    JV::Obj(seq![
        ("state"@, filled),
        ("questions"@, match questions {
            Some(q) => q,
            None => preset.get("questions"@),
        }),
    ])
}

/// Values by their views.
pub open spec fn opt_view(o: Option<J>) -> Option<JV> {
    match o {
        Some(j) => Some(j@),
        None => None,
    }
}

/// Builds the request of a `decide` command line from its preset and the overrides it gives.
pub fn preset_request(preset: &J, state: Option<J>, text: Option<&String>, questions: Option<J>) -> (r: J)
    ensures
        r@ == preset_request_spec(preset@, opt_view(state), match text { Some(t) => Some(t@), None => None }, opt_view(questions)),
{
    let base = match state {
        Some(s) => s,
        None => preset.get("state").copy(),
    };
    let filled = match text {
        Some(t) => set_text(base, preset.get("state_key").str(), t),
        None => base,
    };
    let qs = match questions {
        Some(q) => q,
        None => preset.get("questions").copy(),
    };
    let r = J::object(vec![("state", filled), ("questions", qs)]);
    proof {
        assert(r@->Obj_0 =~= preset_request_spec(preset@, opt_view(state), match text { Some(t) => Some(t@), None => None }, opt_view(questions))->Obj_0);
    }
    r
}

/// A request that carries questions, or names no preset, resolves to itself.
pub proof fn lemma_resolve_identity(req: JV, presets: JV)
    requires !(req.get("questions"@) is Null) || req.get("preset"@).text().len() == 0,
    ensures resolve_spec(req, presets) == Ok::<JV, Seq<char>>(req),
{
}

/// Where `find_key` looks: the first member named `k`, or none.
proof fn lemma_find_key_index(m: Seq<(Seq<char>, JV)>, k: Seq<char>)
    ensures
        match crate::json::find_key(m, k) {
            Some(v) => exists|i: int| 0 <= i < m.len() && m[i].0 == k && m[i].1 == v
                && forall|j: int| 0 <= j < i ==> #[trigger] m[j].0 != k,
            None => forall|j: int| 0 <= j < m.len() ==> #[trigger] m[j].0 != k,
        },
    decreases m.len(),
{
    if m.len() > 0 {
        let t = m.subrange(1, m.len() as int);
        lemma_find_key_index(t, k);
        if m[0].0 == k {
            assert(m[0].0 == k && m[0].1 == m[0].1);
        } else {
            match crate::json::find_key(t, k) {
                Some(v) => {
                    let i = choose|i: int| 0 <= i < t.len() && t[i].0 == k && t[i].1 == v
                        && forall|j: int| 0 <= j < i ==> #[trigger] t[j].0 != k;
                    assert(m[i + 1] == t[i]);
                    assert forall|j: int| 0 <= j < i + 1 implies #[trigger] m[j].0 != k by {
                        if j > 0 { assert(m[j] == t[j - 1]); }
                    }
                },
                None => {
                    assert forall|j: int| 0 <= j < m.len() implies #[trigger] m[j].0 != k by {
                        if j > 0 { assert(m[j] == t[j - 1]); }
                    }
                },
            }
        }
    }
}

/// `first_named` is the index of the first member named `k`.
proof fn lemma_first_named(m: Seq<(Seq<char>, JV)>, k: Seq<char>, i: int)
    requires 0 <= i,
    ensures
        match first_named(m, k, i) {
            Some(x) => i <= x < m.len() && m[x].0 == k && forall|j: int| i <= j < x ==> #[trigger] m[j].0 != k,
            None => forall|j: int| i <= j < m.len() ==> #[trigger] m[j].0 != k,
        },
    decreases m.len() - i,
{
    if i < m.len() && m[i].0 != k {
        lemma_first_named(m, k, i + 1);
    }
}

/// Filling in text sets the state's member `key` to that text and leaves every other member
/// as it was; a state that is no object is replaced by the text.
pub proof fn lemma_with_text_sets(state: JV, key: Seq<char>, text: Seq<char>, other: Seq<char>)
    requires other != key,
    ensures
        state is Obj ==> with_text(state, key, text) is Obj
            && with_text(state, key, text).get(key) == JV::Str(text)
            && with_text(state, key, text).get(other) == state.get(other),
        !(state is Obj) ==> with_text(state, key, text) == JV::Str(text),
{
    if let JV::Obj(m) = state {
        lemma_first_named(m, key, 0);
        let m2 = with_text(state, key, text)->Obj_0;
        lemma_find_key_index(m, other);
        match first_named(m, key, 0) {
            Some(i) => {
                assert(m2 == m.update(i, (key, JV::Str(text))));
                crate::json::lemma_find_key_first(m2, key, i);
                assert forall|j: int| 0 <= j < m2.len() implies #[trigger] m2[j].0 == m[j].0 by {}
                match crate::json::find_key(m, other) {
                    Some(v) => {
                        let x = choose|x: int| 0 <= x < m.len() && m[x].0 == other && m[x].1 == v
                            && forall|j: int| 0 <= j < x ==> #[trigger] m[j].0 != other;
                        assert(m2[x] == m[x]);
                        assert forall|j: int| 0 <= j < x implies #[trigger] m2[j].0 != other by {
                            assert(m2[j].0 == m[j].0);
                        }
                        crate::json::lemma_find_key_first(m2, other, x);
                    },
                    None => {
                        assert forall|j: int| 0 <= j < m2.len() implies #[trigger] m2[j].0 != other by {
                            assert(m2[j].0 == m[j].0);
                        }
                        crate::json::lemma_find_key_none(m2, other);
                    },
                }
            },
            None => {
                assert(m2 == m.push((key, JV::Str(text))));
                crate::json::lemma_find_key_first(m2, key, m.len() as int);
                match crate::json::find_key(m, other) {
                    Some(v) => {
                        let x = choose|x: int| 0 <= x < m.len() && m[x].0 == other && m[x].1 == v
                            && forall|j: int| 0 <= j < x ==> #[trigger] m[j].0 != other;
                        assert(m2[x] == m[x]);
                        assert forall|j: int| 0 <= j < x implies #[trigger] m2[j].0 != other by {
                            assert(m2[j] == m[j]);
                        }
                        crate::json::lemma_find_key_first(m2, other, x);
                    },
                    None => {
                        assert forall|j: int| 0 <= j < m2.len() implies #[trigger] m2[j].0 != other by {
                            if j < m.len() { assert(m2[j] == m[j]); }
                        }
                        crate::json::lemma_find_key_none(m2, other);
                    },
                }
            },
        }
    }
}

/// A preset request that brings its own state keeps it: without text the expanded request's
/// state is the request's state; with text it is the request's state with the preset's state
/// key set to the text and every other member kept. Without a state of its own, the preset's
/// state is used. The questions are the preset's.
pub proof fn lemma_resolve_keeps_request_state(req: JV, presets: JV, other: Seq<char>)
    requires
        req.get("questions"@) is Null,
        req.get("preset"@).text().len() > 0,
        !(presets.get(req.get("preset"@).text()) is Null),
    ensures
        resolve_spec(req, presets) matches Ok(r) && ({
            let p = presets.get(req.get("preset"@).text());
            let given = req.get("state"@);
            let own = if given is Null { p.get("state"@) } else { given };
            let key = p.get("state_key"@).text();
            let st = r.get("state"@);
            &&& r.get("questions"@) == p.get("questions"@)
            &&& !(req.get("text"@) is Str) ==> st == own
            &&& req.get("text"@) matches JV::Str(t) ==> {
                &&& own is Obj ==> st is Obj && st.get(key) == JV::Str(t)
                    && (other != key ==> st.get(other) == own.get(other))
                &&& !(own is Obj) ==> st == JV::Str(t)
            }
        }),
{
    reveal_strlit("state");
    reveal_strlit("questions");
    let p = presets.get(req.get("preset"@).text());
    let r = resolve_spec(req, presets)->Ok_0;
    let m = r->Obj_0;
    crate::json::lemma_find_key_first(m, "state"@, 0);
    assert(m[0].0 == "state"@ && "state"@.len() != "questions"@.len());
    crate::json::lemma_find_key_first(m, "questions"@, 1);
    let given = req.get("state"@);
    let own = if given is Null { p.get("state"@) } else { given };
    let key = p.get("state_key"@).text();
    if let JV::Str(t) = req.get("text"@) {
        lemma_with_text_sets(own, key, t, if other != key { other } else { key + seq!['x'] });
        if own is Obj && other != key {
            lemma_with_text_sets(own, key, t, other);
        }
    }
}

} // verus!
