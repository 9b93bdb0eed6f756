//! Laya: question parsing and sequence layout for the encoder's decision head.
use vstd::prelude::*;
use crate::json::{J, JV};
use crate::text::{views, decimal, decimal_string, is_empty_text, owned, replace_all, replaced, str_eq};
use crate::gguf::{Gguf, GgufV};
use crate::tokenizer::{encode_spec, specials_ok, Tokenizer, TokenizerV};

verus! {

/// One question of a decision request.
#[derive(Debug)]
pub struct Question {
    pub id: String,
    pub kind: usize,
    pub ins: String,
    pub labels: Vec<String>,
    pub opts: Vec<String>,
}

pub struct QuestionV {
    pub id: Seq<char>,
    pub kind: usize,
    pub ins: Seq<char>,
    pub labels: Seq<Seq<char>>,
    pub opts: Seq<Seq<char>>,
}

impl View for Question {
    type V = QuestionV;

    open spec fn view(&self) -> QuestionV {
        QuestionV {
            id: self.id@,
            kind: self.kind,
            ins: self.ins@,
            labels: views(self.labels@),
            opts: views(self.opts@),
        }
    }
}

/// The question kind named `t`: 0 choice, 1 score, 2 noul.
pub open spec fn kind_of(t: Seq<char>) -> Option<usize> {
    if t == "choice"@ {
        Some(0)
    } else if t == "score"@ {
        Some(1)
    } else if t == "noul"@ {
        Some(2)
    } else {
        None
    }
}

/// The name of question kind `k`.
pub open spec fn kind_name(k: usize) -> Seq<char> {
    if k == 0 { "choice"@ } else if k == 1 { "score"@ } else { "noul"@ }
}

/// How many options a question of kind `k` with criteria `c` has.
pub open spec fn option_count(k: usize, c: JV) -> int {
    if k == 0 { c.members().len() as int } else if k == 1 { c.items().len() as int } else { 2 }
}

/// Why member `(id, q)` of `questions` is not a valid question, if it is not.
pub open spec fn member_error(id: Seq<char>, q: JV) -> Option<Seq<char>> {
    match kind_of(q.get("type"@).text()) {
        None => Some(id + ": type must be choice, score, or noul"@),
        Some(kind) => {
            let c = q.get("criteria"@);
            if !(q.get("instructions"@) is Str || q.get("instructions"@) is Null) {
                Some(id + ": instructions must be a string"@)
            } else if kind == 0 && c.members().len() == 0 {
                Some(id + ": choice requires a criteria object"@)
            } else if kind == 1 && c.items().len() < 2 {
                Some(id + ": score requires at least two ordered criteria"@)
            } else if option_count(kind, c) > 16 {
                Some(id + ": requires 1..16 options"@)
            } else {
                None
            }
        },
    }
}

/// The first invalid member from `i` on.
pub open spec fn first_member_error(m: Seq<(Seq<char>, JV)>, i: int) -> Option<Seq<char>>
    decreases m.len() - i,
{
    if i < 0 || i >= m.len() {
        None
    } else {
        match member_error(m[i].0, m[i].1) {
            Some(e) => Some(e),
            None => first_member_error(m, i + 1),
        }
    }
}

/// Why a request's questions are rejected, if they are.
pub open spec fn questions_error(req: JV) -> Option<Seq<char>> {
    let m = req.get("questions"@).members();
    if m.len() == 0 || m.len() > 256 {
        Some("questions must contain 1..256 named questions"@)
    } else {
        first_member_error(m, 0)
    }
}

/// `t` is how a criterion `v` reads: a string as itself, null as nothing, any other value
/// as `render` writes it.
#[verifier::opaque]
pub open spec fn rendered<F: Fn(&J) -> String>(render: F, v: JV, t: Seq<char>) -> bool {
    match v {
        JV::Str(s) => t == s,
        JV::Null => t == Seq::<char>::empty(),
        _ => exists|x: J, s: String| x@ == v && call_ensures(render, (&x,), s) && s@ == t,
    }
}

/// Choice option `key` reads `t`: labelled by its key, its line is the key and the text.
pub open spec fn choice_line<F: Fn(&J) -> String>(render: F, key: Seq<char>, v: JV, t: Seq<char>, label: Seq<char>, line: Seq<char>) -> bool {
    rendered(render, v, t) && label == key && line == (if t.len() == 0 { key } else { key + ": "@ + t })
}

/// Score level `j` reads `t`: its label is `t` and its option line says so.
pub open spec fn score_line<F: Fn(&J) -> String>(render: F, v: JV, t: Seq<char>, label: Seq<char>, line: Seq<char>, j: int) -> bool {
    rendered(render, v, t) && label == t && line == "level "@ + decimal(j as nat) + ": "@ + t
}

/// A noul answer's line: `head` then the text, or `fallback` when there is none.
pub open spec fn noul_line<F: Fn(&J) -> String>(render: F, v: JV, t: Seq<char>, line: Seq<char>, head: Seq<char>, fallback: Seq<char>) -> bool {
    rendered(render, v, t) && line == head + (if t.len() == 0 { fallback } else { t })
}

/// Choice option `i` has some text by which its label and line are made.
pub open spec fn choice_ok<F: Fn(&J) -> String>(render: F, c: JV, labels: Seq<Seq<char>>, opts: Seq<Seq<char>>, i: int) -> bool {
    exists|t: Seq<char>| #[trigger] choice_line(render, c.members()[i].0, c.members()[i].1, t, labels[i], opts[i])
}

/// Score level `i` has some text by which its label and line are made.
pub open spec fn score_ok<F: Fn(&J) -> String>(render: F, c: JV, labels: Seq<Seq<char>>, opts: Seq<Seq<char>>, i: int) -> bool {
    exists|t: Seq<char>| #[trigger] score_line(render, c.items()[i], t, labels[i], opts[i], i)
}

/// The answer labels and the option lines of a question of kind `k` with criteria `c`.
pub open spec fn options_of<F: Fn(&J) -> String>(render: F, k: usize, c: JV, labels: Seq<Seq<char>>, opts: Seq<Seq<char>>) -> bool {
    if k == 0 {
        &&& labels.len() == c.members().len() && opts.len() == c.members().len()
        &&& forall|i: int| 0 <= i < c.members().len() ==> #[trigger] choice_ok(render, c, labels, opts, i)
    } else if k == 1 {
        &&& labels.len() == c.items().len() && opts.len() == c.items().len()
        &&& forall|i: int| 0 <= i < c.items().len() ==> #[trigger] score_ok(render, c, labels, opts, i)
    } else {
        &&& labels == seq!["false"@, "true"@]
        &&& opts.len() == 2
        &&& exists|t: Seq<char>| #[trigger] noul_line(render, c.get("false"@), t, opts[0], "false: "@,
            "no, the statement does not hold"@)
        &&& exists|t: Seq<char>| #[trigger] noul_line(render, c.get("true"@), t, opts[1], "true: "@,
            "yes, the statement holds"@)
    }
}

/// `x` is the question that member `(id, q)` describes.
pub open spec fn question_of<F: Fn(&J) -> String>(render: F, id: Seq<char>, q: JV, x: QuestionV) -> bool {
    &&& x.id == id
    &&& kind_of(q.get("type"@).text()) == Some(x.kind)
    &&& x.ins == q.get("instructions"@).text()
    &&& options_of(render, x.kind, q.get("criteria"@), x.labels, x.opts)
}

/// `id` followed by `msg`.
fn tagged(id: &str, msg: &str) -> (r: String)
    ensures r@ == id@ + msg@,
{
    let mut m = owned(id);
    m.append(msg);
    m
}

/// How criterion `v` reads.
fn criterion_text<F: Fn(&J) -> String>(v: &J, render: &F) -> (t: String)
    requires forall|x: &J| call_requires(*render, (x,)),
    ensures rendered(*render, v@, t@),
{
    reveal(rendered);
    match v {
        J::Str(s) => s.clone(),
        J::Null => String::new(),
        _ => {
            let t = render(v);
            assert(v@ == v@ && call_ensures(*render, (v,), t));
            t
        },
    }
}

/// The question that member `(id, q)` describes.
fn question<F: Fn(&J) -> String>(id: &String, q: &J, render: &F) -> (r: Result<Question, String>)
    requires forall|x: &J| call_requires(*render, (x,)),
    ensures
        match member_error(id@, q@) {
            Some(e) => r matches Err(m) && m@ == e,
            None => r matches Ok(x) && question_of(*render, id@, q@, x@),
        },
{
    let t = q.get("type").str();
    let kind: usize = if str_eq(t, "choice") {
        0
    } else if str_eq(t, "score") {
        1
    } else if str_eq(t, "noul") {
        2
    } else {
        return Err(tagged(id.as_str(), ": type must be choice, score, or noul"));
    };
    let ins = match q.get("instructions") {
        J::Str(s) => s.clone(),
        J::Null => String::new(),
        _ => {
            return Err(tagged(id.as_str(), ": instructions must be a string"));
        },
    };
    let c = q.get("criteria");
    let mut labels: Vec<String> = Vec::new();
    let mut opts: Vec<String> = Vec::new();
    let ghost mut texts: Seq<Seq<char>> = Seq::empty();
    if kind == 0 {
        let m = c.obj();
        if m.len() == 0 {
            return Err(tagged(id.as_str(), ": choice requires a criteria object"));
        }
        let ghost mm = c@.members();
        let mut i: usize = 0;
        while i < m.len()
            invariant
                forall|x: &J| call_requires(*render, (x,)),
                mm == c@.members(),
                m@.len() == mm.len(),
                forall|j: int| 0 <= j < m@.len() ==> (#[trigger] m@[j]).0@ == mm[j].0 && m@[j].1@ == mm[j].1,
                i <= m@.len(),
                labels@.len() == i && opts@.len() == i && texts.len() == i,
                forall|j: int| #![trigger labels@[j]] 0 <= j < i ==> choice_line(*render, mm[j].0, mm[j].1, texts[j], labels@[j]@, opts@[j]@),
            decreases m@.len() - i,
        {
            let desc = criterion_text(&m[i].1, render);
            let key = m[i].0.clone();
            let line = if is_empty_text(desc.as_str()) {
                m[i].0.clone()
            } else {
                let mut l = m[i].0.clone();
                l.append(": ");
                l.append(desc.as_str());
                l
            };
            proof {
                assert(m@[i as int].0@ == mm[i as int].0);
                texts = texts.push(desc@);
            }
            let ghost (l0, o0) = (labels@, opts@);
            labels.push(key);
            opts.push(line);
            i = i + 1;
            assert forall|j: int| #![trigger labels@[j]] 0 <= j < i implies choice_line(*render, mm[j].0, mm[j].1, texts[j], labels@[j]@, opts@[j]@) by {
                if j < i - 1 {
                    assert(labels@[j] == l0[j]);
                    assert(opts@[j] == o0[j]);
                    assert(l0[j]@ == mm[j].0);
                } else {
                    assert(j == i - 1);
                    assert(labels@[j]@ == mm[j].0);
                    assert(rendered(*render, mm[j].1, texts[j]));
                    assert(opts@[j]@ == (if texts[j].len() == 0 { mm[j].0 } else { mm[j].0 + ": "@ + texts[j] }));
                }
            }
        }
    } else if kind == 1 {
        let a = c.arr();
        if a.len() < 2 {
            return Err(tagged(id.as_str(), ": score requires at least two ordered criteria"));
        }
        let ghost aa = c@.items();
        let mut i: usize = 0;
        while i < a.len()
            invariant
                forall|x: &J| call_requires(*render, (x,)),
                aa == c@.items(),
                a@.len() == aa.len(),
                forall|j: int| 0 <= j < a@.len() ==> #[trigger] a@[j]@ == aa[j],
                i <= a@.len(),
                labels@.len() == i && opts@.len() == i && texts.len() == i,
                forall|j: int| #![trigger labels@[j]] 0 <= j < i ==> score_line(*render, aa[j], texts[j], labels@[j]@, opts@[j]@, j),
            decreases a@.len() - i,
        {
            let desc = criterion_text(&a[i], render);
            let mut line = owned("level ");
            let num = decimal_string(i as u64);
            line.append(num.as_str());
            line.append(": ");
            line.append(desc.as_str());
            proof {
                assert(a@[i as int]@ == aa[i as int]);
                texts = texts.push(desc@);
            }
            let ghost (l0, o0) = (labels@, opts@);
            let ghost line_v = line@;
            labels.push(desc);
            opts.push(line);
            i = i + 1;
            assert forall|j: int| #![trigger labels@[j]] 0 <= j < i implies score_line(*render, aa[j], texts[j], labels@[j]@, opts@[j]@, j) by {
                if j < i - 1 {
                    assert(labels@[j] == l0[j]);
                    assert(opts@[j] == o0[j]);
                    assert(l0[j]@ == texts[j]);
                } else {
                    assert(labels@[j]@ == texts[j]);
                    assert(rendered(*render, aa[j], texts[j]));
                    assert(opts@[j]@ == line_v);
                    assert(line_v == "level "@ + decimal(j as nat) + ": "@ + texts[j]);
                }
            }
        }
    } else {
        let f = criterion_text(c.get("false"), render);
        let mut l0 = owned("false: ");
        if is_empty_text(f.as_str()) {
            l0.append("no, the statement does not hold");
        } else {
            l0.append(f.as_str());
        }
        let t = criterion_text(c.get("true"), render);
        let mut l1 = owned("true: ");
        if is_empty_text(t.as_str()) {
            l1.append("yes, the statement holds");
        } else {
            l1.append(t.as_str());
        }
        labels.push(owned("false"));
        labels.push(owned("true"));
        proof {
            texts = seq![f@, t@];
        }
        opts.push(l0);
        opts.push(l1);
    }
    if opts.len() > 16 {
        return Err(tagged(id.as_str(), ": requires 1..16 options"));
    }
    let ghost (lv, ov) = (labels@, opts@);
    let x = Question { id: id.clone(), kind, ins, labels, opts };
    proof {
        assert(x@.labels.len() == lv.len());
        assert(opts@.len() == option_count(kind, c@));
        if kind == 2 {
            assert(x@.labels =~= seq!["false"@, "true"@]);
        }
        assert(x@.id == id@);
        assert(kind_of(q@.get("type"@).text()) == Some(kind));
        assert(x@.ins == q@.get("instructions"@).text());
        if kind == 0 {
            assert forall|j: int| 0 <= j < c@.members().len() implies #[trigger] choice_ok(*render, c@, x@.labels, x@.opts, j) by {
                assert(x@.labels[j] == lv[j]@ && x@.opts[j] == ov[j]@);
                assert(choice_line(*render, c@.members()[j].0, c@.members()[j].1, texts[j], lv[j]@, ov[j]@));
            }
            assert(x@.labels.len() == c@.members().len() && x@.opts.len() == c@.members().len());
        } else if kind == 1 {
            assert forall|j: int| 0 <= j < c@.items().len() implies #[trigger] score_ok(*render, c@, x@.labels, x@.opts, j) by {
                assert(x@.labels[j] == lv[j]@ && x@.opts[j] == ov[j]@);
                assert(score_line(*render, c@.items()[j], texts[j], lv[j]@, ov[j]@, j));
            }
            assert(x@.labels.len() == c@.items().len() && x@.opts.len() == c@.items().len());
        } else {
            assert(x@.labels == seq!["false"@, "true"@]);
            assert(x@.opts.len() == 2);
            assert(noul_line(*render, c@.get("false"@), texts[0], x@.opts[0], "false: "@, "no, the statement does not hold"@));
            assert(noul_line(*render, c@.get("true"@), texts[1], x@.opts[1], "true: "@, "yes, the statement holds"@));
        }
        assert(options_of(*render, kind, c@, x@.labels, x@.opts));
    }
    Ok(x)
}

/// Why a file is no compiled Laya checkpoint with the 16-option head, if it is not.
pub open spec fn laya_file_error(g: GgufV) -> Option<Seq<char>> {
    if g.get("general.architecture"@).text() != "ggmlc"@
        || crate::tokenizer::first_from(g.get("laya.checkpoint"@).text(), "laya"@, 0) is None {
        Some("expected a compiled Laya GGUF (Kev and other architectures are outside this port)"@)
    } else if g.num("laya.max_opts"@, 16) != 16 {
        Some("expected 16-option Laya head"@)
    } else {
        None
    }
}

/// Checks that a file holds a compiled Laya checkpoint (its checkpoint name holds `laya`) with
/// the 16-option decision head.
pub fn check_laya_file(g: &Gguf) -> (r: Result<(), String>)
    ensures
        match laya_file_error(g@) {
            Some(e) => r matches Err(m) && m@ == e,
            None => r is Ok,
        },
{
    let arch = g.get("general.architecture").str();
    let ck = crate::text::chars_of(g.get("laya.checkpoint").str());
    let w = crate::text::chars_of("laya");
    if !str_eq(arch, "ggmlc") || crate::tokenizer::find_from(ck.as_slice(), w.as_slice(), 0).is_none() {
        return Err(owned("expected a compiled Laya GGUF (Kev and other architectures are outside this port)"));
    }
    if g.num("laya.max_opts", 16) != 16 {
        return Err(owned("expected 16-option Laya head"));
    }
    Ok(())
}

/// How many of the tensors `pre i suf` are present for `i = start, start + 1, ...` in a row,
/// counting no further than `cap`.
pub open spec fn run_from(g: GgufV, pre: Seq<char>, suf: Seq<char>, start: nat, cap: nat) -> nat
    decreases cap - start,
{
    if start >= cap || g.tensor(pre + decimal(start) + suf) is None {
        start
    } else {
        run_from(g, pre, suf, start + 1, cap)
    }
}

/// The sizes of a Laya encoder: layers, head layers, width, vocabulary and attention head width.
pub struct LayaShape {
    pub layers: usize,
    pub heads: usize,
    pub d: usize,
    pub vocab: usize,
    pub hd: usize,
}

/// The sizes of the Laya encoder in `g`, or why they are unsupported.
pub open spec fn laya_shape_spec(g: GgufV) -> Result<(usize, usize, usize, usize, usize), Seq<char>> {
    let layers = run_from(g, "qkv."@, ".weight"@, 0, 65);
    let heads = run_from(g, "head_qkv."@, ".weight"@, 0, 3);
    if layers == 0 || layers > 64 || heads != 2 {
        Err("unsupported Laya encoder/head layout"@)
    } else {
        match g.tensor("tok_emb.weight"@) {
            None => Err("missing embedding"@),
            Some(et) => match g.tensor("cos_full"@) {
                None => Err("missing RoPE tables"@),
                Some(c) => {
                    let d = et.dims[0];
                    let hd = c.dims[0];
                    if d == 0 || hd == 0 || hd % 2 != 0 || d % hd != 0 {
                        Err("invalid attention dimensions"@)
                    } else {
                        Ok((layers as usize, heads as usize, d, et.dims[1], hd))
                    }
                },
            },
        }
    }
}

/// Counts the tensors `pre 0 suf`, `pre 1 suf`, ... that are present in a row, up to `cap`.
fn count_run(g: &Gguf, pre: &str, suf: &str, cap: usize) -> (r: usize)
    ensures r == run_from(g@, pre@, suf@, 0, cap as nat),
{
    let mut i: usize = 0;
    while i < cap
        invariant
            i <= cap,
            run_from(g@, pre@, suf@, 0, cap as nat) == run_from(g@, pre@, suf@, i as nat, cap as nat),
        decreases cap - i,
    {
        let mut name = owned(pre);
        let num = decimal_string(i as u64);
        name.append(num.as_str());
        name.append(suf);
        assert(name@ == pre@ + decimal(i as nat) + suf@);
        if g.tensor(name.as_str()).is_none() {
            return i;
        }
        i = i + 1;
    }
    i
}

/// The sizes of the Laya encoder in `g`: 1 to 64 encoder layers and 2 head layers, an embedding
/// and RoPE tables whose widths divide evenly into attention heads.
pub fn laya_shape(g: &Gguf) -> (r: Result<LayaShape, String>)
    requires
        g@.tensor("tok_emb.weight"@) matches Some(et) ==> et.dims.len() >= 2,
        g@.tensor("cos_full"@) matches Some(c) ==> c.dims.len() >= 1,
    ensures
        match laya_shape_spec(g@) {
            Ok((layers, heads, d, vocab, hd)) => r matches Ok(x) && x.layers == layers && x.heads == heads
                && x.d == d && x.vocab == vocab && x.hd == hd,
            Err(e) => r matches Err(m) && m@ == e,
        },
{
    let layers = count_run(g, "qkv.", ".weight", 65);
    let heads = count_run(g, "head_qkv.", ".weight", 3);
    if layers == 0 || layers > 64 || heads != 2 {
        return Err(owned("unsupported Laya encoder/head layout"));
    }
    let et = match g.tensor("tok_emb.weight") {
        Some(t) => t,
        None => return Err(owned("missing embedding")),
    };
    let c = match g.tensor("cos_full") {
        Some(t) => t,
        None => return Err(owned("missing RoPE tables")),
    };
    let d = et.dims[0];
    let vocab = et.dims[1];
    let hd = c.dims[0];
    if d == 0 || hd == 0 || hd % 2 != 0 || d % hd != 0 {
        return Err(owned("invalid attention dimensions"));
    }
    Ok(LayaShape { layers, heads, d, vocab, hd })
}

/// The library's own check that questions keep the request's order: of a request whose first
/// question `z` is a choice with criteria `zebra` then `apple`, the first question read is `z`,
/// and its first label is `zebra`. `render` writes criteria that are neither text nor null.
pub fn self_test<F: Fn(&J) -> String>(render: &F) -> (r: Result<(), String>)
    requires forall|x: &J| call_requires(*render, (x,)),
    ensures r is Ok,
{
    let crit = J::object(vec![("zebra", J::Null), ("apple", J::s("fruit"))]);
    let ghost cv = crit@;
    let z = J::object(vec![("type", J::s("choice")), ("criteria", crit)]);
    let ghost zv = z@;
    let a = J::object(vec![("type", J::s("noul"))]);
    let ghost av = a@;
    let qs = J::object(vec![("z", z), ("a", a)]);
    let ghost qv = qs@;
    let req = J::object(vec![("state", J::s("test")), ("questions", qs)]);
    proof {
        reveal_strlit("zebra");
        reveal_strlit("apple");
        reveal_strlit("type");
        reveal_strlit("criteria");
        reveal_strlit("instructions");
        reveal_strlit("choice");
        reveal_strlit("score");
        reveal_strlit("noul");
        reveal_strlit("state");
        reveal_strlit("questions");
        reveal_strlit("z");
        reveal_strlit("a");
        let m = req@->Obj_0;
        assert(m[0].0 == "state"@ && "state"@.len() != "questions"@.len());
        crate::json::lemma_find_key_first(m, "questions"@, 1);
        assert(req@.get("questions"@) == qv);
        let qm = qv->Obj_0;
        assert(qv.members() == qm);
        let zm = zv->Obj_0;
        crate::json::lemma_find_key_first(zm, "type"@, 0);
        assert(zm[0].0 == "type"@ && "type"@.len() != "criteria"@.len());
        crate::json::lemma_find_key_first(zm, "criteria"@, 1);
        crate::json::lemma_find_key_none(zm, "instructions"@);
        assert(zv.get("type"@).text() == "choice"@);
        assert(zv.get("criteria"@) == cv);
        assert(cv.members().len() == 2);
        assert(member_error(qm[0].0, qm[0].1) is None);
        let am = av->Obj_0;
        crate::json::lemma_find_key_first(am, "type"@, 0);
        crate::json::lemma_find_key_none(am, "instructions"@);
        assert(av.get("type"@).text() == "noul"@);
        assert(member_error(qm[1].0, qm[1].1) is None);
        assert(first_member_error(qm, 2) is None);
        assert(first_member_error(qm, 1) is None);
        assert(first_member_error(qm, 0) is None);
        assert(questions_error(req@) is None);
    }
    let q = match questions(&req, render) {
        Ok(q) => q,
        Err(e) => return Err(e),
    };
    proof {
        let qm = qv->Obj_0;
        assert(question_of(*render, qm[0].0, qm[0].1, q@[0]@));
        assert(q@[0]@.kind == 0);
        assert(choice_ok(*render, cv, q@[0]@.labels, q@[0]@.opts, 0));
        assert(q@[0]@.labels[0] == "zebra"@);
        assert(q@[0]@.labels[0] == q@[0].labels@[0]@);
    }
    if !str_eq(q[0].id.as_str(), "z") || !str_eq(q[0].labels[0].as_str(), "zebra") {
        return Err(owned("criteria order lost"));
    }
    Ok(())
}

/// The questions of a decision request, in request order.
pub fn questions<F: Fn(&J) -> String>(req: &J, render: &F) -> (r: Result<Vec<Question>, String>)
    requires forall|x: &J| call_requires(*render, (x,)),
    ensures
        match questions_error(req@) {
            Some(e) => r matches Err(m) && m@ == e,
            None => r matches Ok(qs) && qs@.len() == req@.get("questions"@).members().len()
                && forall|i: int| 0 <= i < qs@.len() ==> question_of(*render,
                    req@.get("questions"@).members()[i].0, req@.get("questions"@).members()[i].1, #[trigger] qs@[i]@),
        },
{
    let obj = req.get("questions");
    let m = obj.obj();
    if m.len() == 0 || m.len() > 256 {
        return Err(owned("questions must contain 1..256 named questions"));
    }
    let ghost mv = obj@.members();
    let mut out: Vec<Question> = Vec::new();
    let mut i: usize = 0;
    while i < m.len()
        invariant
            forall|x: &J| call_requires(*render, (x,)),
            mv == req@.get("questions"@).members(),
            m@.len() == mv.len(),
            forall|j: int| 0 <= j < m@.len() ==> (#[trigger] m@[j]).0@ == mv[j].0 && m@[j].1@ == mv[j].1,
            0 < mv.len() <= 256,
            i <= m@.len(),
            first_member_error(mv, 0) == first_member_error(mv, i as int),
            out@.len() == i,
            forall|j: int| 0 <= j < i ==> question_of(*render, mv[j].0, mv[j].1, #[trigger] out@[j]@),
        decreases m@.len() - i,
    {
        assert(m@[i as int].0@ == mv[i as int].0);
        match question(&m[i].0, &m[i].1, render) {
            Ok(x) => {
                out.push(x);
            },
            Err(e) => {
                return Err(e);
            },
        }
        i = i + 1;
    }
    Ok(out)
}

/// The first `n` items of `s` (all of them when there are fewer), as `truncate` leaves them.
pub open spec fn take<T>(s: Seq<T>, n: int) -> Seq<T> {
    if 0 <= n < s.len() { s.subrange(0, n) } else { s }
}

/// How many ids the option blocks hold together.
pub open spec fn total_len(os: Seq<Seq<usize>>) -> int
    decreases os.len(),
{
    if os.len() == 0 { 0 } else { total_len(os.drop_last()) + os.last().len() }
}

/// The option blocks one after the other.
pub open spec fn flat(os: Seq<Seq<usize>>) -> Seq<usize>
    decreases os.len(),
{
    if os.len() == 0 { Seq::empty() } else { flat(os.drop_last()) + os.last() }
}

/// Each block cut to at most `n` ids.
pub open spec fn cut(os: Seq<Seq<usize>>, n: int) -> Seq<Seq<usize>> {
    Seq::new(os.len(), |i: int| take(os[i], n))
}

/// Where each option block starts when the blocks follow `base` ids.
pub open spec fn marker_positions(base: int, os: Seq<Seq<usize>>) -> Seq<usize> {
    Seq::new(os.len(), |i: int| (base + total_len(os.take(i))) as usize)
}

/// `a - b`, or 0 when `b` is larger (`saturating_sub`).
pub open spec fn sat_sub(a: int, b: int) -> int {
    if a > b { a - b } else { 0 }
}

/// `x as isize` for a `usize`.
pub open spec fn isize_of(x: usize) -> int {
    if x <= isize::MAX { x as int } else { x - (usize::MAX + 1) }
}

/// Two's-complement wrapping into the `isize` range, for a difference of two `isize` values.
pub open spec fn wrapped(d: int) -> int {
    if d < isize::MIN { d + (usize::MAX + 1) } else if d > isize::MAX { d - (usize::MAX + 1) } else { d }
}

/// Whether the option blocks leave the head fewer than 16 ids (the budget's signed difference).
pub open spec fn crowded(head_max: usize, sum: int) -> bool {
    wrapped(isize_of(head_max) - sum) < 16
}

/// The ids each option block keeps when the blocks crowd the head.
pub open spec fn per_option(head_max: usize, n: int) -> int {
    let per = (head_max - 16) / n;
    if per > 4 { per } else { 4 }
}

/// The option blocks after crowding is relieved.
pub open spec fn fitted(head_max: usize, os: Seq<Seq<usize>>) -> Seq<Seq<usize>> {
    if crowded(head_max, total_len(os)) { cut(os, per_option(head_max, os.len() as int)) } else { os }
}

/// The ids up to and including the separator after the options, with the option markers.
pub open spec fn laya_prefix(head_max: usize, cls: usize, sep: usize, head: Seq<usize>, os: Seq<Seq<usize>>) -> (Seq<usize>, Seq<usize>) {
    let os2 = fitted(head_max, os);
    let h = take(head, if sat_sub(head_max as int, total_len(os2)) > 8 { sat_sub(head_max as int, total_len(os2)) } else { 8 });
    let prefix = seq![cls] + h + seq![sep];
    (prefix + flat(os2) + seq![sep], marker_positions(prefix.len() as int, os2))
}

/// The encoder input: `[CLS] head [SEP] options [SEP] state [SEP]`, cut to `max` ids.
pub open spec fn laya_layout(max: usize, head_max: usize, cls: usize, sep: usize, head: Seq<usize>,
    os: Seq<Seq<usize>>, st: Seq<usize>) -> Result<(Seq<usize>, Seq<usize>), Seq<char>>
{
    let (body, markers) = laya_prefix(head_max, cls, sep, head, os);
    let ids = take(body + take(st, sat_sub(max as int, body.len() + 1int)) + seq![sep], max as int);
    if exists|i: int| 0 <= i < markers.len() && #[trigger] markers[i] >= ids.len() {
        Err("option markers exceed context"@)
    } else {
        Ok((ids, markers))
    }
}

/// The id sequences of `v`.
pub open spec fn id_views(v: Seq<Vec<usize>>) -> Seq<Seq<usize>> {
    Seq::new(v.len(), |i: int| v[i]@)
}

pub proof fn lemma_take_step(os: Seq<Seq<usize>>, i: int)
    requires 0 <= i < os.len(),
    ensures
        total_len(os.take(i + 1)) == total_len(os.take(i)) + os[i].len(),
        flat(os.take(i + 1)) == flat(os.take(i)) + os[i],
{
    assert(os.take(i + 1).drop_last() =~= os.take(i));
}

pub proof fn lemma_total_bound(os: Seq<Seq<usize>>, n: int)
    requires
        forall|i: int| 0 <= i < os.len() ==> #[trigger] os[i].len() <= n,
        n >= 0,
    ensures 0 <= total_len(os) <= n * os.len(),
        flat(os).len() == total_len(os),
    decreases os.len(),
{
    if os.len() > 0 {
        lemma_total_bound(os.drop_last(), n);
        assert(os.drop_last().len() == os.len() - 1);
        assert(n * (os.len() - 1) + n == n * os.len()) by (nonlinear_arith);
    }
}

/// Sum of the block lengths.
fn total(os: &Vec<Vec<usize>>) -> (r: usize)
    requires
        forall|i: int| 0 <= i < os@.len() ==> #[trigger] os@[i]@.len() <= 49,
        os@.len() * 49 <= usize::MAX,
    ensures r == total_len(id_views(os@)),
{
    let ghost v = id_views(os@);
    let mut sum: usize = 0;
    let mut i: usize = 0;
    while i < os.len()
        invariant
            v == id_views(os@),
            forall|j: int| 0 <= j < os@.len() ==> #[trigger] os@[j]@.len() <= 49,
            os@.len() * 49 <= usize::MAX,
            i <= os@.len(),
            sum == total_len(v.take(i as int)),
        decreases os@.len() - i,
    {
        proof {
            lemma_take_step(v, i as int);
            lemma_total_bound(v.take(i + 1), 49);
            assert((i + 1) * 49 <= os@.len() * 49) by (nonlinear_arith) requires i + 1 <= os@.len();
        }
        sum = sum + os[i].len();
        i = i + 1;
    }
    assert(v.take(os@.len() as int) =~= v);
    sum
}

/// Whether some marker is `len` or more.
fn some_at_or_past(markers: &Vec<usize>, len: usize) -> (r: bool)
    ensures r == exists|i: int| 0 <= i < markers@.len() && #[trigger] markers@[i] >= len,
{
    let mut k: usize = 0;
    while k < markers.len()
        invariant
            k <= markers@.len(),
            forall|j: int| 0 <= j < k ==> markers@[j] < len,
        decreases markers@.len() - k,
    {
        if markers[k] >= len {
            assert(markers@[k as int] >= len);
            return true;
        }
        k = k + 1;
    }
    false
}

/// Lays out `[CLS] head [SEP] options [SEP] state [SEP]` within the budgets.
#[verifier::rlimit(30)]
fn layout(max: usize, head_max: usize, cls: usize, sep: usize, head: Vec<usize>, opts: Vec<Vec<usize>>,
    st: Vec<usize>) -> (r: Result<(Vec<usize>, Vec<usize>), String>)
    requires
        32 <= head_max < max,
        forall|i: int| 0 <= i < opts@.len() ==> #[trigger] opts@[i]@.len() <= 49,
        opts@.len() * 49 <= usize::MAX,
        opts@.len() > 0 || !crowded(head_max, total_len(id_views(opts@))),
    ensures
        match laya_layout(max, head_max, cls, sep, head@, id_views(opts@), st@) {
            Ok((ids, markers)) => r matches Ok((a, b)) && a@ == ids && b@ == markers,
            Err(e) => r matches Err(m) && m@ == e,
        },
{
    let ghost os = id_views(opts@);
    let ghost head0 = head@;
    let ghost st0 = st@;
    let mut opts = opts;
    let mut head = head;
    let mut st = st;
    let sum = total(&opts);
    let hm: i128 = if head_max <= isize::MAX as usize {
        head_max as i128
    } else {
        (head_max as i128) - (usize::MAX as i128) - 1
    };
    let mut d: i128 = hm - (sum as i128);
    if d < isize::MIN as i128 {
        d = d + (usize::MAX as i128) + 1;
    }
    assert(d == wrapped(isize_of(head_max) - total_len(os)));
    if d < 16 {
        let q = (head_max - 16) / opts.len();
        let per = if q > 4 { q } else { 4 };
        let mut i: usize = 0;
        while i < opts.len()
            invariant
                os.len() == opts@.len(),
                per == per_option(head_max, os.len() as int),
                i <= opts@.len(),
                forall|j: int| 0 <= j < i ==> #[trigger] opts@[j]@ == take(os[j], per as int),
                forall|j: int| i <= j < opts@.len() ==> #[trigger] opts@[j]@ == os[j],
            decreases opts@.len() - i,
        {
            let mut o = opts.remove(i);
            o.truncate(per);
            opts.insert(i, o);
            i = i + 1;
        }
    }
    let ghost os2 = id_views(opts@);
    assert(os2 =~= fitted(head_max, os));
    proof {
        lemma_total_bound(os, 49);
        assert forall|j: int| 0 <= j < opts@.len() implies #[trigger] opts@[j]@.len() <= 49 by {
            if d < 16 {
                assert(opts@[j]@ == take(os[j], per_option(head_max, os.len() as int)));
            }
        }
    }
    let sum2 = total(&opts);
    let keep = if head_max > sum2 && head_max - sum2 > 8 { head_max - sum2 } else { 8 };
    head.truncate(keep);
    let mut ids: Vec<usize> = Vec::new();
    ids.push(cls);
    let ghost h = head@;
    ids.append(&mut head);
    ids.push(sep);
    let ghost prefix = ids@;
    assert(prefix =~= seq![cls] + h + seq![sep]);
    let mut markers: Vec<usize> = Vec::new();
    let mut i: usize = 0;
    let n = opts.len();
    proof { lemma_total_bound(os2, 49); }
    while i < n
        invariant
            n == os2.len(),
            os2 == id_views(opts@),
            forall|j: int| 0 <= j < os2.len() ==> #[trigger] os2[j].len() <= 49,
            os2.len() * 49 <= usize::MAX,
            i <= n,
            ids@ == prefix + flat(os2.take(i as int)),
            prefix.len() == h.len() + 2,
            h.len() <= head_max + 8,
            head_max < max,
            markers@.len() == i,
            forall|j: int| 0 <= j < i ==> #[trigger] markers@[j] == prefix.len() + total_len(os2.take(j)),
        decreases n - i,
    {
        proof {
            lemma_take_step(os2, i as int);
            lemma_total_bound(os2.take(i as int), 49);
            assert(i * 49 <= os2.len() * 49) by (nonlinear_arith) requires i <= os2.len();
        }
        markers.push(ids.len());
        let mut block = opts[i].clone();
        ids.append(&mut block);
        i = i + 1;
    }
    ids.push(sep);
    let ghost body = ids@;
    assert(os2.take(n as int) =~= os2);
    assert(h == take(head0, keep as int));
    assert(body == laya_prefix(head_max, cls, sep, head0, os).0);
    assert(markers@ =~= laya_prefix(head_max, cls, sep, head0, os).1);
    let room = if max > ids.len() && max - ids.len() > 1 { max - ids.len() - 1 } else { 0 };
    st.truncate(room);
    ids.append(&mut st);
    ids.push(sep);
    ids.truncate(max);
    assert(ids@ =~= take(body + take(st0, sat_sub(max as int, body.len() + 1int)) + seq![sep], max as int));
    if some_at_or_past(&markers, ids.len()) {
        return Err(owned("option markers exceed context"));
    }
    Ok((ids, markers))
}

/// The option blocks for `opts[k..]`: the mask id, then at most 48 ids of the option's text.
pub open spec fn option_blocks(t: TokenizerV, opts: Seq<Seq<char>>, mask: usize, k: int) -> Result<Seq<Seq<usize>>, Seq<char>>
    decreases opts.len() - k,
{
    if k < 0 || k >= opts.len() {
        Ok(Seq::empty())
    } else {
        match encode_spec(t, " "@ + replaced(opts[k], t.mask, " "@)) {
            Err(e) => Err(e),
            Ok(ids) => match option_blocks(t, opts, mask, k + 1) {
                Err(e) => Err(e),
                Ok(rest) => Ok(seq![seq![mask] + take(ids, 48)] + rest),
            },
        }
    }
}

/// The head text of question `q`, the mask token's text blanked out.
pub open spec fn head_text(t: TokenizerV, q: QuestionV) -> Seq<char> {
    kind_name(q.kind) + " question: "@ + replaced(q.ins, t.mask, " "@)
}

/// The encoder input for question `q` about `state`, with the position of each option's mask.
pub open spec fn laya_encode(g: GgufV, t: TokenizerV, state: Seq<char>, q: QuestionV) -> Result<(Seq<usize>, Seq<usize>), Seq<char>> {
    let max = g.num("laya.max_len"@, 512);
    let head_max = g.num("laya.head_max_len"@, 192);
    if head_max < 32 || head_max >= max {
        Err("invalid sequence budgets"@)
    } else {
        let mask = g.num("laya.mask_token_id"@, 50284) as usize;
        let sep = g.num("laya.sep_token_id"@, 50282) as usize;
        let cls = g.num("laya.cls_token_id"@, 50281) as usize;
        match encode_spec(t, head_text(t, q)) {
            Err(e) => Err(e),
            Ok(head) => match option_blocks(t, q.opts, mask, 0) {
                Err(e) => Err(e),
                Ok(os) => match encode_spec(t, replaced(state, t.mask, " "@)) {
                    Err(e) => Err(e),
                    Ok(st) => laya_layout(max as usize, head_max as usize, cls, sep, head, os, st),
                },
            },
        }
    }
}

proof fn lemma_option_blocks(t: TokenizerV, opts: Seq<Seq<char>>, mask: usize, k: int)
    requires 0 <= k <= opts.len(),
    ensures
        option_blocks(t, opts, mask, k) matches Ok(os) ==> os.len() == opts.len() - k
            && forall|i: int| 0 <= i < os.len() ==> (#[trigger] os[i]).len() >= 1 && os[i].len() <= 49 && os[i][0] == mask,
    decreases opts.len() - k,
{
    if k < opts.len() {
        lemma_option_blocks(t, opts, mask, k + 1);
        if let Ok(os) = option_blocks(t, opts, mask, k) {
            let rest = option_blocks(t, opts, mask, k + 1)->Ok_0;
            assert forall|i: int| 0 <= i < os.len() implies (#[trigger] os[i]).len() >= 1 && os[i].len() <= 49 && os[i][0] == mask by {
                if i > 0 {
                    assert(os[i] == rest[i - 1]);
                }
            }
        }
    }
}

/// The input opens with `[CLS]` and the ids of the question itself: the kind's name, then
/// `" question: "`, then the instructions with the mask text blanked out. These ids are kept
/// from the front: all of them when they and 49 ids per option fit the head budget with 16 to
/// spare, and never fewer than 8 otherwise. Unless the input is cut right there, `[SEP]` follows.
pub proof fn lemma_input_opens_with_question(g: GgufV, t: TokenizerV, state: Seq<char>, q: QuestionV)
    ensures
        laya_encode(g, t, state, q) matches Ok((ids, markers)) ==> ({
            let asked = kind_name(q.kind) + (" question: "@ + replaced(q.ins, t.mask, " "@));
            let head_max = g.num("laya.head_max_len"@, 192);
            encode_spec(t, asked) matches Ok(words) && exists|h: int| {
                &&& 0 <= h <= words.len()
                &&& h + 1 <= ids.len()
                &&& ids[0] == g.num("laya.cls_token_id"@, 50281)
                &&& ids.subrange(1, h + 1) == #[trigger] words.subrange(0, h)
                &&& h + 1 < ids.len() ==> ids[h + 1] == g.num("laya.sep_token_id"@, 50282)
                &&& (h == words.len() || h >= 8)
                &&& words.len() + 49 * q.opts.len() + 16 <= head_max ==> h == words.len()
            }
        }),
{
    if let Ok((ids, markers)) = laya_encode(g, t, state, q) {
        let asked = kind_name(q.kind) + (" question: "@ + replaced(q.ins, t.mask, " "@));
        assert(head_text(t, q) =~= asked);
        g.lemma_num_range("laya.max_len"@, 512);
        g.lemma_num_range("laya.head_max_len"@, 192);
        g.lemma_num_range("laya.cls_token_id"@, 50281);
        g.lemma_num_range("laya.sep_token_id"@, 50282);
        g.lemma_num_range("laya.mask_token_id"@, 50284);
        let max = g.num("laya.max_len"@, 512);
        let head_max = g.num("laya.head_max_len"@, 192);
        let mask = g.num("laya.mask_token_id"@, 50284) as usize;
        let sep = g.num("laya.sep_token_id"@, 50282) as usize;
        let cls = g.num("laya.cls_token_id"@, 50281) as usize;
        let words = encode_spec(t, asked)->Ok_0;
        let os = option_blocks(t, q.opts, mask, 0)->Ok_0;
        let st = encode_spec(t, replaced(state, t.mask, " "@))->Ok_0;
        lemma_option_blocks(t, q.opts, mask, 0);
        assert(laya_layout(max as usize, head_max as usize, cls, sep, words, os, st) == Ok::<(Seq<usize>, Seq<usize>), Seq<char>>((ids, markers)));
        let hm = head_max as usize;
        let os2 = fitted(hm, os);
        assert forall|k: int| 0 <= k < os2.len() implies (#[trigger] os2[k]).len() <= 49 by {
            if crowded(hm, total_len(os)) {
                assert(os2[k] == take(os[k], per_option(hm, os.len() as int)));
            }
        }
        lemma_total_bound(os2, 49);
        let tt = total_len(os2);
        let b = if sat_sub(hm as int, tt) > 8 { sat_sub(hm as int, tt) } else { 8 };
        let hh = take(words, b);
        let prefix = seq![cls] + hh + seq![sep];
        let body = prefix + flat(os2) + seq![sep];
        let full = body + take(st, sat_sub(max as usize as int, body.len() + 1int)) + seq![sep];
        assert(ids == take(full, max as usize as int));
        assert(b <= head_max);
        assert(hh.len() <= b);
        let h: int = if hh.len() + 1 <= max - 1 { hh.len() as int } else { max - 1 };
        assert(ids.len() == if max < full.len() { max } else { full.len() as int });
        assert(forall|j: int| 0 <= j < ids.len() ==> #[trigger] ids[j] == full[j]);
        assert(forall|j: int| 0 <= j < prefix.len() ==> #[trigger] full[j] == prefix[j]);
        assert(hh =~= words.subrange(0, hh.len() as int));
        assert(ids.subrange(1, h + 1) =~= words.subrange(0, h)) by {
            assert forall|j: int| 0 <= j < h implies #[trigger] ids.subrange(1, h + 1)[j] == words.subrange(0, h)[j] by {
                assert(ids[1 + j] == full[1 + j]);
                assert(full[1 + j] == prefix[1 + j]);
                assert(prefix[1 + j] == hh[j]);
            }
        }
        if h + 1 < ids.len() {
            assert(h == hh.len());
            assert(ids[h + 1] == prefix[h + 1]);
        }
        if words.len() + 49 * q.opts.len() + 16 <= head_max {
            assert(tt <= 49 * q.opts.len());
            assert(hh == words);
        }
        assert(ids[0] == full[0]);
        assert(ids.subrange(1, h + 1) == words.subrange(0, h));
    }
}

/// The input for question `q` about `state`: `[CLS] head [SEP] options [SEP] state [SEP]`,
/// each option led by the mask token, within the checkpoint's sequence budgets.
#[verifier::loop_isolation(false)]
pub fn encode(g: &Gguf, t: &Tokenizer, state: &str, q: &Question) -> (r: Result<(Vec<usize>, Vec<usize>), String>)
    requires
        t.wf(),
        specials_ok(t@),
        q.kind < 3,
        q@.opts.len() * 49 <= usize::MAX,
        q@.opts.len() > 0 || !crowded(g@.num("laya.head_max_len"@, 192) as usize, 0),
    ensures
        match laya_encode(g@, t@, state@, q@) {
            Ok((ids, markers)) => r matches Ok((a, b)) && a@ == ids && b@ == markers,
            Err(e) => r matches Err(m) && m@ == e,
        },
{
    let max = g.num("laya.max_len", 512);
    let head_max = g.num("laya.head_max_len", 192);
    if head_max < 32 || head_max >= max {
        return Err(owned("invalid sequence budgets"));
    }
    let mask = g.num("laya.mask_token_id", 50284);
    let sep = g.num("laya.sep_token_id", 50282);
    let cls = g.num("laya.cls_token_id", 50281);
    let kind = if q.kind == 0 { "choice" } else if q.kind == 1 { "score" } else { "noul" };
    let mut text = owned(kind);
    text.append(" question: ");
    let ins = replace_all(q.ins.as_str(), t.mask_text(), " ");
    text.append(ins.as_str());
    assert(text@ == head_text(t@, q@));
    let head = t.encode(text.as_str())?;
    let mut opts: Vec<Vec<usize>> = Vec::new();
    let mut k: usize = 0;
    let ghost qo = q@.opts;
    proof { lemma_option_blocks(t@, qo, mask, 0); }
    while k < q.opts.len()
        invariant
            t.wf(),
            specials_ok(t@),
            qo == q@.opts,
            k <= qo.len(),
            option_blocks(t@, qo, mask, 0) == (match option_blocks(t@, qo, mask, k as int) {
                Ok(rest) => Ok(id_views(opts@) + rest),
                Err(e) => Err(e),
            }),
        decreases qo.len() - k,
    {
        let mut line = owned(" ");
        let o = replace_all(q.opts[k].as_str(), t.mask_text(), " ");
        line.append(o.as_str());
        assert(line@ == " "@ + replaced(qo[k as int], t@.mask, " "@));
        let mut tok = t.encode(line.as_str())?;
        let ghost full = tok@;
        tok.truncate(48);
        assert(tok@ =~= take(full, 48));
        let mut v: Vec<usize> = Vec::new();
        v.push(mask);
        v.append(&mut tok);
        let ghost before = id_views(opts@);
        assert(v@ =~= seq![mask] + take(full, 48));
        opts.push(v);
        proof {
            assert(id_views(opts@) =~= before.push(v@));
            if let Ok(rest) = option_blocks(t@, qo, mask, k + 1) {
                assert(before + (seq![v@] + rest) =~= id_views(opts@) + rest);
            }
        }
        k = k + 1;
    }
    assert(id_views(opts@) + Seq::<Seq<usize>>::empty() =~= id_views(opts@));
    let blank = replace_all(state, t.mask_text(), " ");
    let st = t.encode(blank.as_str())?;
    proof {
        let os = id_views(opts@);
        assert forall|i: int| 0 <= i < opts@.len() implies #[trigger] opts@[i]@.len() <= 49 by {
            assert(opts@[i]@ == os[i]);
        }
    }
    layout(max, head_max, cls, sep, head, opts, st)
}

/// Flattened blocks hold block `i`'s items right after the blocks before it.
pub proof fn lemma_flat_index(os: Seq<Seq<usize>>, i: int, j: int)
    requires
        0 <= i < os.len(),
        0 <= j < os[i].len(),
    ensures
        total_len(os.take(i)) + j < flat(os).len(),
        flat(os)[total_len(os.take(i)) + j] == os[i][j],
    decreases os.len(),
{
    let dl = os.drop_last();
    lemma_flat_len(dl);
    lemma_flat_len(os);
    assert(flat(os) == flat(dl) + os.last());
    if i == os.len() - 1 {
        assert(os.take(i) =~= dl);
        assert(flat(os)[flat(dl).len() + j] == os.last()[j]);
    } else {
        assert(os.take(i) =~= dl.take(i));
        assert(dl[i] == os[i]);
        lemma_flat_index(dl, i, j);
        lemma_flat_len(dl.take(i));
        assert(flat(os)[total_len(dl.take(i)) + j] == flat(dl)[total_len(dl.take(i)) + j]);
    }
}

pub proof fn lemma_flat_len(os: Seq<Seq<usize>>)
    ensures flat(os).len() == total_len(os),
    decreases os.len(),
{
    if os.len() > 0 {
        lemma_flat_len(os.drop_last());
    }
}

/// Every option marker of a laid-out input points inside it, at the first id of its block.
pub proof fn lemma_layout_markers(max: usize, head_max: usize, cls: usize, sep: usize, head: Seq<usize>,
    os: Seq<Seq<usize>>, st: Seq<usize>, m: usize)
    requires
        32 <= head_max,
        forall|i: int| 0 <= i < os.len() ==> (#[trigger] os[i]).len() >= 1 && os[i].len() <= 49 && os[i][0] == m,
        head.len() + 49 * os.len() + 3 <= usize::MAX,
    ensures
        laya_layout(max, head_max, cls, sep, head, os, st) matches Ok((ids, markers)) ==>
            markers.len() == os.len() && ids.len() <= max
            && forall|i: int| 0 <= i < markers.len() ==> #[trigger] markers[i] < ids.len() && ids[markers[i] as int] == m,
{
    if let Ok((ids, markers)) = laya_layout(max, head_max, cls, sep, head, os, st) {
        let os2 = fitted(head_max, os);
        let (body, mk) = laya_prefix(head_max, cls, sep, head, os);
        let h = take(head, if sat_sub(head_max as int, total_len(os2)) > 8 { sat_sub(head_max as int, total_len(os2)) } else { 8 });
        let prefix = seq![cls] + h + seq![sep];
        assert forall|i: int| 0 <= i < markers.len() implies #[trigger] markers[i] < ids.len() && ids[markers[i] as int] == m by {
            assert(os2[i].len() >= 1 && os2[i][0] == m) by {
                if crowded(head_max, total_len(os)) {
                    assert(os2[i] == take(os[i], per_option(head_max, os.len() as int)));
                }
            }
            lemma_flat_index(os2, i, 0);
            assert forall|k: int| 0 <= k < os2.len() implies (#[trigger] os2[k]).len() <= 49 by {
                if crowded(head_max, total_len(os)) {
                    assert(os2[k] == take(os[k], per_option(head_max, os.len() as int)));
                }
            }
            lemma_total_bound(os2.take(i), 49);
            assert(i * 49 <= os.len() * 49) by (nonlinear_arith) requires i <= os.len();
            assert(h.len() <= head.len());
            assert(markers[i] == prefix.len() + total_len(os2.take(i)));
            assert(body[markers[i] as int] == flat(os2)[total_len(os2.take(i))]);
        }
    }
}

} // verus!
