use laya::gguf::Gguf;
use laya::json::J;
use laya::models::laya::{encode as laya_encode, Question};
use laya::models::openthai::{encode as ot_encode, questions as ot_questions};
use laya::tokenizer::Tokenizer;

fn put_str(b: &mut Vec<u8>, s: &str) {
    b.extend((s.len() as u64).to_le_bytes());
    b.extend(s.as_bytes());
}

fn kv_u32(b: &mut Vec<u8>, k: &str, v: u32) {
    put_str(b, k);
    b.extend(4u32.to_le_bytes());
    b.extend(v.to_le_bytes());
}

fn kv_str(b: &mut Vec<u8>, k: &str, v: &str) {
    put_str(b, k);
    b.extend(8u32.to_le_bytes());
    put_str(b, v);
}

fn kv_strs(b: &mut Vec<u8>, k: &str, vs: &[String]) {
    put_str(b, k);
    b.extend(9u32.to_le_bytes());
    b.extend(8u32.to_le_bytes());
    b.extend((vs.len() as u64).to_le_bytes());
    for v in vs {
        put_str(b, v);
    }
}

fn kv_i32s(b: &mut Vec<u8>, k: &str, vs: &[i32]) {
    put_str(b, k);
    b.extend(9u32.to_le_bytes());
    b.extend(5u32.to_le_bytes());
    b.extend((vs.len() as u64).to_le_bytes());
    for v in vs {
        b.extend(v.to_le_bytes());
    }
}

/// The character standing for byte `i` in byte-level BPE.
fn byte_char(i: u32) -> String {
    let mut extra = 256u32;
    for b in 0..256u32 {
        let printable = (33..=126).contains(&b) || (161..=172).contains(&b) || (174..=255).contains(&b);
        let cp = if printable {
            b
        } else {
            let c = extra;
            extra += 1;
            c
        };
        if b == i {
            return char::from_u32(cp).unwrap().to_string();
        }
    }
    unreachable!()
}

fn byte_tokens() -> Vec<String> {
    (0..256).map(byte_char).collect()
}

/// A GGUF header with the given metadata writer and no tensors.
fn gguf(nk: u64, body: impl Fn(&mut Vec<u8>)) -> Gguf {
    let mut b = Vec::new();
    b.extend(b"GGUF");
    b.extend(3u32.to_le_bytes());
    b.extend(0u64.to_le_bytes());
    b.extend(nk.to_le_bytes());
    body(&mut b);
    Gguf::open(&b).unwrap()
}

fn gpt2(merges: &[&str], extra: &[&str]) -> Gguf {
    let mut tokens = byte_tokens();
    tokens.push("<mask>".to_string());
    tokens.push("[CLS]".to_string());
    tokens.push("[SEP]".to_string());
    for e in extra {
        tokens.push(e.to_string());
    }
    let merges: Vec<String> = merges.iter().map(|s| s.to_string()).collect();
    gguf(8, move |b| {
        kv_str(b, "tokenizer.ggml.pre", "gpt2");
        kv_strs(b, "tokenizer.ggml.tokens", &tokens);
        kv_strs(b, "tokenizer.ggml.merges", &merges);
        kv_u32(b, "laya.mask_token_id", 256);
        kv_u32(b, "laya.cls_token_id", 257);
        kv_u32(b, "laya.sep_token_id", 258);
        kv_u32(b, "laya.max_len", 64);
        kv_u32(b, "laya.head_max_len", 32);
    })
}

fn bytes_of(s: &str) -> Vec<usize> {
    s.bytes().map(|b| b as usize).collect()
}

#[test]
fn gpt2_merges_by_rank() {
    // ids 259, 260: "ab", "Ġab"
    let g = gpt2(&["a b", "Ġ ab"], &["ab", "Ġab"]);
    let t = Tokenizer::new(&g).unwrap();
    assert_eq!(t.mask, "<mask>");
    assert!(t.specials_usable());
    assert_eq!(t.encode("ab ab<mask>c").unwrap(), vec![259, 260, 256, 99]);
    assert_eq!(t.encode("[SEP]x[CLS]").unwrap(), vec![258, 120, 257]);
}

#[test]
fn gpt2_without_merges_spells_bytes() {
    let g = gpt2(&[], &[]);
    let t = Tokenizer::new(&g).unwrap();
    assert_eq!(t.encode("it's 42!").unwrap(), bytes_of("it's 42!"));
    assert_eq!(t.encode("").unwrap(), Vec::<usize>::new());
}

#[test]
fn missing_piece_is_an_error() {
    let g = gpt2(&["a b"], &[]);
    let t = Tokenizer::new(&g).unwrap();
    assert_eq!(t.encode("ab").unwrap_err(), "missing BPE piece ab");
    let long = "a".repeat(1024 * 1024 + 1);
    assert_eq!(t.encode(&long).unwrap_err(), "text exceeds 1 MiB");
}

#[test]
fn tokenizer_errors() {
    let g = gguf(1, |b| kv_str(b, "tokenizer.ggml.pre", "llama"));
    assert_eq!(Tokenizer::new(&g).err().unwrap(), "unsupported tokenizer llama");
    let g = gguf(1, |b| kv_str(b, "tokenizer.ggml.pre", "gpt2"));
    assert_eq!(Tokenizer::new(&g).err().unwrap(), "missing vocabulary");
    let g = gguf(2, |b| {
        kv_str(b, "tokenizer.ggml.pre", "gpt2");
        kv_strs(b, "tokenizer.ggml.tokens", &["a".to_string()]);
    });
    assert_eq!(Tokenizer::new(&g).err().unwrap(), "mask ID outside vocabulary");
}

#[test]
fn laya_layout_of_a_choice() {
    let g = gpt2(&[], &[]);
    let t = Tokenizer::new(&g).unwrap();
    let q = Question {
        id: "q".to_string(),
        kind: 0,
        ins: String::new(),
        labels: vec!["a".to_string(), "b".to_string()],
        opts: vec!["a".to_string(), "b".to_string()],
    };
    let (ids, markers) = laya_encode(&g, &t, "hi", &q).unwrap();
    let mut want = vec![257];
    want.extend(bytes_of("choice question: "));
    want.push(258);
    want.extend([256, 32, 97, 256, 32, 98, 258, 104, 105, 258]);
    assert_eq!(ids, want);
    assert_eq!(markers, vec![19, 22]);
    assert_eq!(ids[markers[0]], 256);
    assert_eq!(ids[markers[1]], 256);
}

#[test]
fn laya_layout_errors() {
    let g = gpt2(&[], &[]);
    let t = Tokenizer::new(&g).unwrap();
    let opts: Vec<String> = (0..10).map(|i| format!("option {i}")).collect();
    let q = Question { id: "q".to_string(), kind: 0, ins: String::new(), labels: opts.clone(), opts };
    // Ten options crowd the head: each keeps four ids and the head keeps eight.
    let (ids, markers) = laya_encode(&g, &t, "state", &q).unwrap();
    assert_eq!(ids.len(), 57);
    assert_eq!(markers, (0..10).map(|i| 10 + 4 * i).collect::<Vec<usize>>());
    assert!(markers.iter().all(|&m| ids[m] == 256));

    let small = gguf(4, |b| {
        kv_str(b, "tokenizer.ggml.pre", "gpt2");
        kv_strs(b, "tokenizer.ggml.tokens", &byte_tokens());
        kv_u32(b, "laya.mask_token_id", 1);
        kv_u32(b, "laya.head_max_len", 16);
    });
    let t2 = Tokenizer::new(&small).unwrap();
    let q = Question { id: "q".to_string(), kind: 2, ins: String::new(), labels: vec![], opts: vec!["x".to_string()] };
    assert_eq!(laya_encode(&small, &t2, "s", &q).unwrap_err(), "invalid sequence budgets");
}

const ANSWER: usize = 248082;

fn qwen(merges: &[&str]) -> Gguf {
    let mut tokens = byte_tokens();
    let mut types = vec![1i32; 256];
    let specials = ["<|ts_state|>", "<|ts_q|>", "<|ts_choice|>", "<|ts_score|>", "<|ts_noul|>", "<|ts_opt_0|>", "<|ts_opt_1|>"];
    for s in specials {
        tokens.push(s.to_string());
        types.push(3);
    }
    tokens.push("a1".to_string());
    types.push(1);
    while tokens.len() < ANSWER {
        tokens.push(format!("filler{}", tokens.len()));
        types.push(1);
    }
    tokens.push("<|ts_answer|>".to_string());
    types.push(3);
    let merges: Vec<String> = merges.iter().map(|s| s.to_string()).collect();
    gguf(4, move |b| {
        kv_str(b, "tokenizer.ggml.pre", "qwen3");
        kv_strs(b, "tokenizer.ggml.tokens", &tokens);
        kv_strs(b, "tokenizer.ggml.merges", &merges);
        kv_i32s(b, "tokenizer.ggml.token_type", &types);
    })
}

#[test]
fn qwen_normalizes_and_splits_by_category() {
    let g = qwen(&["a 1"]);
    let t = Tokenizer::new(&g).unwrap();
    // NFC composes e + combining acute into U+00E9 (bytes C3 A9).
    assert_eq!(t.encode("e\u{301}").unwrap(), vec![0xc3, 0xa9]);
    // A letter and a digit are separate pieces, so "a1" is never merged.
    assert_eq!(t.encode("a1").unwrap(), vec![97, 49]);
    assert_eq!(t.encode("<|ts_q|>x").unwrap(), vec![257, 120]);
}

#[test]
fn openthai_noul_encoding() {
    let g = qwen(&[]);
    let t = Tokenizer::new(&g).unwrap();
    let req = J::object(vec![
        ("state", J::s("hi")),
        ("questions", J::object(vec![("q", J::object(vec![("type", J::s("noul")), ("instructions", J::s("Is it?"))]))])),
    ]);
    let qs = ot_questions(&req).unwrap();
    let dump = |_: &J| String::new();
    let e = ot_encode(4096, 2048, &t, &req, &qs, 1, 0, &dump).unwrap();
    let mut want = vec![256];
    want.extend(bytes_of(" hi\n"));
    let start = want.len();
    want.extend([257, 260]);
    want.extend(bytes_of(" Is it?\n"));
    want.push(261);
    want.extend(bytes_of(" no\n"));
    want.push(262);
    want.extend(bytes_of(" yes\n"));
    want.push(ANSWER);
    want.extend(bytes_of("\n"));
    assert_eq!(e.ids, want);
    assert_eq!(e.positions, vec![want.len() - 2]);
    assert_eq!(e.ids[e.positions[0]], ANSWER);
    assert!(e.ids.len() <= 4096);
    assert!(start < e.positions[0]);
    assert!(!e.truncated);
    assert_eq!(e.order(0), &vec![0, 1]);
}

#[test]
fn openthai_state_budget_keeps_marker_and_tail() {
    let g = qwen(&[]);
    let t = Tokenizer::new(&g).unwrap();
    let req = J::object(vec![
        ("state", J::s("abcdefghij")),
        ("questions", J::object(vec![("q", J::object(vec![("type", J::s("noul")), ("instructions", J::s(""))]))])),
    ]);
    let qs = ot_questions(&req).unwrap();
    let dump = |_: &J| String::new();
    let e = ot_encode(4096, 4, &t, &req, &qs, 1, 0, &dump).unwrap();
    assert!(e.truncated);
    assert_eq!(&e.ids[..4], &[256, 105, 106, 10]);
    let tight = ot_encode(10, 4, &t, &req, &qs, 1, 0, &dump);
    assert_eq!(tight.err().unwrap(), "question tokens exceed OpenThai context budget");
}

#[test]
fn gemma_marks_words_and_falls_back_to_bytes() {
    let tokens: Vec<String> = ["<pad>", "▁", "a", "▁a", "<0x62>", "<mask>"].iter().map(|s| s.to_string()).collect();
    let g = gguf(4, move |b| {
        kv_str(b, "tokenizer.ggml.pre", "gemma");
        kv_strs(b, "tokenizer.ggml.tokens", &tokens);
        kv_strs(b, "tokenizer.ggml.merges", &["▁ a".to_string()]);
        kv_u32(b, "laya.mask_token_id", 5);
    });
    let t = Tokenizer::new(&g).unwrap();
    assert_eq!(t.mask, "<mask>");
    assert_eq!(t.encode("a b").unwrap(), vec![3, 1, 4]);
    assert_eq!(t.encode("a<mask>").unwrap(), vec![3, 5]);
    assert_eq!(t.encode("c").unwrap_err(), "missing byte fallback");
}
