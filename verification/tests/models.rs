use laya::gguf::Gguf;
use laya::json::J;
use laya::models::laya::{check_laya_file, laya_shape, questions as laya_questions, self_test};
use laya::models::openthai::{clean, orders, permutations, python_text, questions as ot_questions};
use laya::models::{describe, ModelInfo};
use laya::registry::Registry;

fn put_str(b: &mut Vec<u8>, s: &str) {
    b.extend((s.len() as u64).to_le_bytes());
    b.extend(s.as_bytes());
}

fn gguf_with(pairs: &[(&str, &str)]) -> Gguf {
    let mut b = Vec::new();
    b.extend(b"GGUF");
    b.extend(3u32.to_le_bytes());
    b.extend(0u64.to_le_bytes());
    b.extend((pairs.len() as u64).to_le_bytes());
    for (k, v) in pairs {
        put_str(&mut b, k);
        b.extend(8u32.to_le_bytes());
        put_str(&mut b, v);
    }
    Gguf::open(&b).unwrap()
}

fn render(v: &J) -> String {
    match v {
        J::Bool(b) => b.to_string(),
        _ => "?".to_string(),
    }
}

fn num(x: f64) -> J {
    J::Num(x.to_bits())
}

#[test]
fn describe_reads_identity() {
    let m = describe(&gguf_with(&[("general.architecture", "ggmlc"), ("laya.model_name", "laya")])).unwrap();
    assert_eq!(m.name, "laya");
    assert_eq!(m.family, "english");
    assert_eq!(m.aliases, vec!["english".to_string(), "jev-latest".to_string()]);
    assert_eq!(m.release_date, "2026-09-20");
    let m = describe(&gguf_with(&[("general.architecture", "ggmlc"), ("laya.model_name", "laya-multilingual")])).unwrap();
    assert_eq!(m.aliases, vec!["multilingual".to_string()]);
    let m = describe(&gguf_with(&[("general.architecture", "openthai_systemone")])).unwrap();
    assert_eq!(m.name, "openthai-systemone");
    assert!(m.aliases.is_empty());
    assert_eq!(m.release_date, "2026-09-22");
    assert_eq!(
        describe(&gguf_with(&[("general.architecture", "ggmlc"), ("laya.model_name", "other")])).err().unwrap(),
        "unsupported ggmlc model other"
    );
    assert_eq!(describe(&gguf_with(&[("general.architecture", "llama")])).err().unwrap(), "unsupported GGUF architecture llama");
}

fn english() -> ModelInfo {
    ModelInfo {
        name: "laya".to_string(),
        family: "english".to_string(),
        architecture: "ggmlc".to_string(),
        aliases: vec!["english".to_string(), "jev-latest".to_string()],
        release_date: "2026-09-20",
    }
}

fn openthai() -> ModelInfo {
    ModelInfo {
        name: "openthai-systemone".to_string(),
        family: "openthai-systemone".to_string(),
        architecture: "openthai_systemone".to_string(),
        aliases: vec![],
        release_date: "2026-09-22",
    }
}

#[test]
fn registry_routes_names_and_aliases() {
    let r = Registry::load(vec![Ok(english()), Ok(openthai())], Some("openthai-systemone")).unwrap();
    assert_eq!(r.len(), 2);
    assert_eq!(r.default_model(), 1);
    assert_eq!(r.select(&J::object(vec![])).unwrap(), 1);
    assert_eq!(r.select(&J::object(vec![("model", J::s("jev-latest"))])).unwrap(), 0);
    assert_eq!(r.select(&J::object(vec![("model", J::s("laya"))])).unwrap(), 0);
    assert_eq!(
        r.select(&J::object(vec![("model", J::s("gpt"))])).unwrap_err(),
        "unknown model gpt; see /v1/models"
    );
    assert_eq!(r.select(&J::object(vec![("model", num(1.0))])).unwrap_err(), "model must be a string naming a loaded model");
    assert_eq!(r.select(&J::s("x")).unwrap_err(), "request body must be a JSON object");
    assert_eq!(r.info(0).name, "laya");
    let names = r.loaded_names();
    assert_eq!(names.arr().len(), 2);
    assert_eq!(names.arr()[1].str(), "openthai-systemone");
    let l = r.listing();
    let entries = l.get("models").arr();
    assert_eq!(entries.len(), 4);
    assert_eq!(entries[1].get("name").str(), "english");
    assert_eq!(entries[1].get("canonical_name").str(), "laya");
    assert!(matches!(entries[1].get("default"), J::Bool(false)));
    assert!(matches!(entries[3].get("default"), J::Bool(true)));
    assert_eq!(entries[3].get("description").str(), "Locally loaded openthai-systemone decision model on Goish Rust");
    assert_eq!(l.get("default_model").str(), "openthai-systemone");
}

#[test]
fn registry_refusals() {
    assert_eq!(Registry::load(vec![], None).err().unwrap(), "at least one model is required");
    assert_eq!(
        Registry::load(vec![Ok(english()), Ok(english())], None).err().unwrap(),
        "duplicate model name or alias laya; load one checkpoint per model"
    );
    assert_eq!(
        Registry::load(vec![Ok(english()), Err("cannot open b.gguf".to_string()), Ok(english())], None).err().unwrap(),
        "cannot open b.gguf"
    );
    assert_eq!(
        Registry::load(vec![Ok(english())], Some("openthai")).err().unwrap(),
        "unknown default model openthai"
    );
    let r = Registry::load(vec![Ok(english())], None).unwrap();
    assert_eq!(r.default_model(), 0);
}

fn laya_req(questions: J) -> J {
    J::object(vec![("state", J::s("s")), ("questions", questions)])
}

#[test]
fn laya_questions_keep_order_and_text() {
    let req = laya_req(J::object(vec![
        ("z", J::object(vec![
            ("type", J::s("choice")),
            ("instructions", J::s("Pick")),
            ("criteria", J::object(vec![("zebra", J::Null), ("apple", J::s("fruit")), ("flag", J::Bool(true))])),
        ])),
        ("s", J::object(vec![("type", J::s("score")), ("criteria", J::Arr(vec![J::s("low"), J::s("high")]))])),
        ("n", J::object(vec![("type", J::s("noul")), ("criteria", J::object(vec![("true", J::s("it is"))]))])),
    ]));
    let qs = laya_questions(&req, &render).unwrap();
    assert_eq!(qs.len(), 3);
    assert_eq!(qs[0].id, "z");
    assert_eq!(qs[0].kind, 0);
    assert_eq!(qs[0].ins, "Pick");
    assert_eq!(qs[0].labels, vec!["zebra".to_string(), "apple".to_string(), "flag".to_string()]);
    assert_eq!(qs[0].opts, vec!["zebra".to_string(), "apple: fruit".to_string(), "flag: true".to_string()]);
    assert_eq!(qs[1].labels, vec!["low".to_string(), "high".to_string()]);
    assert_eq!(qs[1].opts, vec!["level 0: low".to_string(), "level 1: high".to_string()]);
    assert_eq!(qs[2].labels, vec!["false".to_string(), "true".to_string()]);
    assert_eq!(
        qs[2].opts,
        vec!["false: no, the statement does not hold".to_string(), "true: it is".to_string()]
    );
}

#[test]
fn laya_question_errors() {
    let e = |q: J| laya_questions(&laya_req(J::object(vec![("q", q)])), &render).err().unwrap();
    assert_eq!(laya_questions(&laya_req(J::object(vec![])), &render).err().unwrap(), "questions must contain 1..256 named questions");
    assert_eq!(e(J::object(vec![("type", J::s("rank"))])), "q: type must be choice, score, or noul");
    assert_eq!(e(J::object(vec![("type", J::s("noul")), ("instructions", num(1.0))])), "q: instructions must be a string");
    assert_eq!(e(J::object(vec![("type", J::s("choice"))])), "q: choice requires a criteria object");
    assert_eq!(
        e(J::object(vec![("type", J::s("score")), ("criteria", J::Arr(vec![J::s("a")]))])),
        "q: score requires at least two ordered criteria"
    );
    let many: Vec<(String, J)> = (0..17).map(|i| (format!("o{i}"), J::Null)).collect();
    assert_eq!(e(J::object(vec![("type", J::s("choice")), ("criteria", J::Obj(many))])), "q: requires 1..16 options");
}

#[test]
fn laya_self_test_passes() {
    assert!(self_test(&render).is_ok());
}

fn ot_req(questions: J) -> J {
    J::object(vec![("state", J::s("s")), ("questions", questions)])
}

fn choice(n: usize) -> J {
    let m: Vec<(String, J)> = (0..n).map(|i| (format!("o{i}"), J::Null)).collect();
    J::object(vec![("type", J::s("choice")), ("instructions", J::s("")), ("criteria", J::Obj(m))])
}

#[test]
fn openthai_question_errors() {
    let e = |req: J| ot_questions(&req).err().unwrap();
    assert_eq!(e(ot_req(J::object(vec![]))), "questions must contain 1..256 named questions");
    assert_eq!(
        e(J::object(vec![("state", num(1.0)), ("questions", J::object(vec![("q", choice(2))]))])),
        "OpenThai state must be a string, object, or array"
    );
    let q = |x: J| e(ot_req(J::object(vec![("q", x)])));
    assert_eq!(q(J::object(vec![("type", J::s("rank"))])), "q: invalid question type");
    assert_eq!(q(J::object(vec![("type", J::s("noul"))])), "q: instructions must be a string");
    assert_eq!(q(choice(0)), "q: choice requires 1..255 options");
    assert_eq!(q(choice(256)), "q: choice requires 1..255 options");
    assert_eq!(
        q(J::object(vec![("type", J::s("choice")), ("instructions", J::s("")), ("criteria", J::object(vec![(" \t", J::Null)]))])),
        "q: option name is empty"
    );
    assert_eq!(
        q(J::object(vec![("type", J::s("choice")), ("instructions", J::s("")), ("criteria", J::object(vec![("a", num(2.0))]))])),
        "q: descriptions must be strings or null"
    );
    assert_eq!(
        q(J::object(vec![("type", J::s("score")), ("instructions", J::s("")), ("criteria", J::Arr(vec![J::s("a")]))])),
        "q: score requires 2..10 levels"
    );
    assert_eq!(
        q(J::object(vec![("type", J::s("score")), ("instructions", J::s("")), ("criteria", J::Arr(vec![J::s("a"), J::Null]))])),
        "q: score descriptions must be strings"
    );
    assert_eq!(
        q(J::object(vec![("type", J::s("noul")), ("instructions", J::s("")), ("criteria", J::object(vec![("maybe", J::Null)]))])),
        "q: noul criteria keys must be false/true"
    );
    assert_eq!(
        q(J::object(vec![("type", J::s("noul")), ("instructions", J::s("")), ("criteria", J::Arr(vec![]))])),
        "q: noul criteria keys must be false/true"
    );
    assert_eq!(
        q(J::object(vec![("type", J::s("noul")), ("instructions", J::s("")), ("criteria", J::object(vec![("true", num(1.0))]))])),
        "q: descriptions must be strings or null"
    );
    let with = |k: &str, v: J| {
        J::object(vec![("state", J::s("s")), ("questions", J::object(vec![("q", choice(2))])), (k, v)])
    };
    assert_eq!(e(with("order_invariant", J::s("yes"))), "order_invariant must be boolean");
    assert_eq!(e(with("permutations", num(0.0))), "permutations must be 1..32");
    assert_eq!(e(with("permutations", num(33.0))), "permutations must be 1..32");
    assert_eq!(e(with("permutations", num(1.5))), "permutations must be 1..32");
    assert_eq!(e(with("permutations", J::s("2"))), "permutations must be 1..32");
    assert!(ot_questions(&with("permutations", num(32.0))).is_ok());
}

#[test]
fn openthai_permutation_counts() {
    let req = |n: usize, extra: Vec<(&str, J)>| {
        let mut p = vec![("state", J::s("s")), ("questions", J::object(vec![("q", choice(n))]))];
        p.extend(extra);
        J::object(p)
    };
    let count = |r: &J| permutations(r, &ot_questions(r).unwrap());
    assert_eq!(count(&req(10, vec![])), 1);
    assert_eq!(count(&req(11, vec![])), 8);
    assert_eq!(count(&req(11, vec![("order_invariant", J::Bool(false))])), 1);
    assert_eq!(count(&req(4, vec![("order_invariant", J::Bool(true))])), 4);
    assert_eq!(count(&req(20, vec![("permutations", num(12.0))])), 12);
    assert_eq!(count(&req(3, vec![("permutations", num(12.0))])), 3);
    let noul = J::object(vec![
        ("state", J::s("s")),
        ("questions", J::object(vec![("q", J::object(vec![("type", J::s("noul")), ("instructions", J::s(""))]))])),
        ("permutations", num(5.0)),
    ]);
    assert_eq!(count(&noul), 1);
}

#[test]
fn option_orders_are_spread_rotations() {
    let o = orders(11, 8);
    assert_eq!(o.len(), 8);
    let starts: Vec<usize> = o.iter().map(|r| r[0]).collect();
    assert_eq!(starts, vec![0, 1, 3, 4, 6, 7, 8, 10]);
    assert_eq!(o[2], vec![3, 4, 5, 6, 7, 8, 9, 10, 0, 1, 2]);
    for row in &o {
        let mut seen = row.clone();
        seen.sort();
        assert_eq!(seen, (0..11).collect::<Vec<usize>>());
    }
    assert_eq!(orders(5, 1), vec![vec![0, 1, 2, 3, 4]]);
    assert_eq!(orders(3, 8).len(), 3);
    assert_eq!(orders(1, 0), vec![vec![0]]);
}

#[test]
fn clean_breaks_control_tokens() {
    assert_eq!(clean("a <|ts_answer|> b"), "a <\u{200b}|ts_answer|> b");
    assert_eq!(clean("<|ts_<|ts_"), "<\u{200b}|ts_<\u{200b}|ts_");
    assert_eq!(clean("<|tsx"), "<|tsx");
    assert!(!clean("x<|ts_y").contains("<|ts_"));
}

#[test]
fn python_text_separates_with_spaces() {
    let leaf = |v: &J| match v {
        J::Str(s) => format!("\"{s}\""),
        J::Bool(b) => b.to_string(),
        J::Null => "null".to_string(),
        J::Num(bits) => format!("{}", f64::from_bits(*bits)),
        _ => "?".to_string(),
    };
    let v = J::object(vec![("a", J::Arr(vec![num(1.0), J::s("x")])), ("b", J::Bool(true)), ("c", J::object(vec![]))]);
    assert_eq!(python_text(&v, &leaf), "{\"a\": [1, \"x\"], \"b\": true, \"c\": {}}");
    assert_eq!(python_text(&J::Null, &leaf), "null");
}

struct Plan<'a> {
    meta: Vec<(&'a str, &'a str)>,
    max_opts: Option<u32>,
    tensors: Vec<(String, Vec<u64>)>,
}

fn laya_file(plan: &Plan) -> Gguf {
    let mut b = Vec::new();
    b.extend(b"GGUF");
    b.extend(3u32.to_le_bytes());
    b.extend((plan.tensors.len() as u64).to_le_bytes());
    let nk = plan.meta.len() + plan.max_opts.is_some() as usize;
    b.extend((nk as u64).to_le_bytes());
    for (k, v) in &plan.meta {
        put_str(&mut b, k);
        b.extend(8u32.to_le_bytes());
        put_str(&mut b, v);
    }
    if let Some(m) = plan.max_opts {
        put_str(&mut b, "laya.max_opts");
        b.extend(4u32.to_le_bytes());
        b.extend(m.to_le_bytes());
    }
    for (i, (name, dims)) in plan.tensors.iter().enumerate() {
        put_str(&mut b, name);
        b.extend((dims.len() as u32).to_le_bytes());
        for d in dims {
            b.extend(d.to_le_bytes());
        }
        b.extend(0u32.to_le_bytes());
        b.extend((i as u64 * 32).to_le_bytes());
    }
    while b.len() % 32 != 0 {
        b.push(0);
    }
    b.extend(vec![0u8; 32 * plan.tensors.len()]);
    Gguf::open(&b).unwrap()
}

fn laya_tensors(layers: usize, heads: usize, d: u64, vocab: u64, hd: u64) -> Vec<(String, Vec<u64>)> {
    let mut t = Vec::new();
    for i in 0..layers {
        t.push((format!("qkv.{}.weight", i), vec![1]));
    }
    for i in 0..heads {
        t.push((format!("head_qkv.{}.weight", i), vec![1]));
    }
    t.push(("tok_emb.weight".to_string(), vec![d, vocab]));
    t.push(("cos_full".to_string(), vec![hd]));
    t
}

fn identity() -> Vec<(&'static str, &'static str)> {
    vec![("general.architecture", "ggmlc"), ("laya.checkpoint", "laya-base")]
}

#[test]
fn laya_file_needs_a_laya_checkpoint_with_sixteen_options() {
    let ok = Plan { meta: identity(), max_opts: None, tensors: vec![] };
    assert_eq!(check_laya_file(&laya_file(&ok)), Ok(()));
    let ok16 = Plan { meta: identity(), max_opts: Some(16), tensors: vec![] };
    assert_eq!(check_laya_file(&laya_file(&ok16)), Ok(()));
    let wrong = "expected a compiled Laya GGUF (Kev and other architectures are outside this port)".to_string();
    let arch = Plan { meta: vec![("general.architecture", "llama"), ("laya.checkpoint", "laya")], max_opts: None, tensors: vec![] };
    assert_eq!(check_laya_file(&laya_file(&arch)), Err(wrong.clone()));
    let kev = Plan { meta: vec![("general.architecture", "ggmlc"), ("laya.checkpoint", "kev-1")], max_opts: None, tensors: vec![] };
    assert_eq!(check_laya_file(&laya_file(&kev)), Err(wrong.clone()));
    let none = Plan { meta: vec![("general.architecture", "ggmlc")], max_opts: None, tensors: vec![] };
    assert_eq!(check_laya_file(&laya_file(&none)), Err(wrong));
    let eight = Plan { meta: identity(), max_opts: Some(8), tensors: vec![] };
    assert_eq!(check_laya_file(&laya_file(&eight)), Err("expected 16-option Laya head".to_string()));
}

#[test]
fn laya_shape_counts_layers_and_checks_widths() {
    let g = laya_file(&Plan { meta: identity(), max_opts: None, tensors: laya_tensors(3, 2, 4, 2, 2) });
    let s = laya_shape(&g).unwrap();
    assert_eq!((s.layers, s.heads, s.d, s.vocab, s.hd), (3, 2, 4, 2, 2));

    let layout = "unsupported Laya encoder/head layout".to_string();
    let g = laya_file(&Plan { meta: identity(), max_opts: None, tensors: laya_tensors(0, 2, 4, 2, 2) });
    assert_eq!(laya_shape(&g).err(), Some(layout.clone()));
    let g = laya_file(&Plan { meta: identity(), max_opts: None, tensors: laya_tensors(2, 1, 4, 2, 2) });
    assert_eq!(laya_shape(&g).err(), Some(layout.clone()));
    let g = laya_file(&Plan { meta: identity(), max_opts: None, tensors: laya_tensors(2, 3, 4, 2, 2) });
    assert_eq!(laya_shape(&g).err(), Some(layout.clone()));
    let g = laya_file(&Plan { meta: identity(), max_opts: None, tensors: laya_tensors(65, 2, 4, 2, 2) });
    assert_eq!(laya_shape(&g).err(), Some(layout));
    let g = laya_file(&Plan { meta: identity(), max_opts: None, tensors: laya_tensors(64, 2, 4, 2, 2) });
    assert_eq!(laya_shape(&g).unwrap().layers, 64);

    let g = laya_file(&Plan { meta: identity(), max_opts: None, tensors: laya_tensors(1, 2, 6, 2, 4) });
    assert_eq!(laya_shape(&g).err(), Some("invalid attention dimensions".to_string()));
    let g = laya_file(&Plan { meta: identity(), max_opts: None, tensors: laya_tensors(1, 2, 3, 2, 3) });
    assert_eq!(laya_shape(&g).err(), Some("invalid attention dimensions".to_string()));

    let mut t = laya_tensors(1, 2, 4, 2, 2);
    t.pop();
    let g = laya_file(&Plan { meta: identity(), max_opts: None, tensors: t });
    assert_eq!(laya_shape(&g).err(), Some("missing RoPE tables".to_string()));
    let mut t = laya_tensors(1, 2, 4, 2, 2);
    t.remove(3);
    let g = laya_file(&Plan { meta: identity(), max_opts: None, tensors: t });
    assert_eq!(laya_shape(&g).err(), Some("missing embedding".to_string()));
}
