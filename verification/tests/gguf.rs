use laya::gguf::{layout, Gguf, Reader};
use laya::json::J;

fn put_str(b: &mut Vec<u8>, s: &str) {
    b.extend((s.len() as u64).to_le_bytes());
    b.extend(s.as_bytes());
}

fn header(b: &mut Vec<u8>, nt: u64, nk: u64) {
    b.extend(b"GGUF");
    b.extend(3u32.to_le_bytes());
    b.extend(nt.to_le_bytes());
    b.extend(nk.to_le_bytes());
}

fn kv_u32(b: &mut Vec<u8>, k: &str, v: u32) {
    put_str(b, k);
    b.extend(4u32.to_le_bytes());
    b.extend(v.to_le_bytes());
}

fn kv_str(b: &mut Vec<u8>, k: &str, v: &str) {
    put_str(b, k);
    b.extend(8u32.to_le_bytes());
    put_str(b, v);
}

fn tensor(b: &mut Vec<u8>, name: &str, dims: &[u64], kind: u32, offset: u64) {
    put_str(b, name);
    b.extend((dims.len() as u32).to_le_bytes());
    for d in dims {
        b.extend(d.to_le_bytes());
    }
    b.extend(kind.to_le_bytes());
    b.extend(offset.to_le_bytes());
}

fn pad(b: &mut Vec<u8>, align: usize) {
    while b.len() % align != 0 {
        b.push(0);
    }
}

fn open_err(b: &[u8]) -> String {
    match Gguf::open(b) {
        Err(e) => e,
        Ok(_) => panic!("expected an error"),
    }
}

fn sample() -> Vec<u8> {
    let mut b = Vec::new();
    header(&mut b, 1, 3);
    kv_str(&mut b, "general.name", "tiny");
    kv_str(&mut b, "general.architecture", "laya");
    kv_u32(&mut b, "laya.max_len", 128);
    tensor(&mut b, "w", &[4], 0, 0);
    pad(&mut b, 32);
    for i in 0..16u8 {
        b.push(i);
    }
    b
}

#[test]
fn layouts_of_tensor_types() {
    assert_eq!(layout(0), Ok((1, 4)));
    assert_eq!(layout(1), Ok((1, 2)));
    assert_eq!(layout(2), Ok((32, 18)));
    assert_eq!(layout(8), Ok((32, 34)));
    assert_eq!(layout(12), Ok((256, 144)));
    assert_eq!(layout(14), Ok((256, 210)));
    assert_eq!(
        layout(3),
        Err("unsupported GGML tensor type 3; supported F32/F16/Q4_0/Q8_0/Q4_K/Q6_K".to_string())
    );
}

#[test]
fn opens_a_small_file() {
    let b = sample();
    let g = Gguf::open(&b).unwrap();
    assert_eq!(g.get("general.name").str(), "tiny");
    assert!(g.get("missing").is_null());
    assert_eq!(g.num("laya.max_len", 0), 128);
    assert_eq!(g.num("absent", 7), 7);
    let t = g.tensor("w").unwrap();
    assert_eq!(t.dims, vec![4]);
    assert_eq!(t.offset % 32, 0);
    assert_eq!(t.len, 16);
    let (t2, bytes) = g.data(&b, "w").unwrap();
    assert_eq!(t2.len, 16);
    assert_eq!(bytes, &(0..16u8).collect::<Vec<u8>>()[..]);
    assert_eq!(g.data(&b, "v").unwrap_err(), "missing tensor v");
    let info = g.info();
    assert_eq!(info.get("name").str(), "tiny");
    assert!(info.get("model").is_null());
    assert_eq!(info.get("architecture").str(), "laya");
    assert_eq!(info.get("max_len").num(), 128f64.to_bits());
    assert_eq!(info.get("tensors").num(), 1f64.to_bits());
    assert_eq!(info.get("runtime").str(), "Goish Rust, no_std, CPU");
}

#[test]
fn openthai_info_names_the_model() {
    let mut b = Vec::new();
    header(&mut b, 0, 2);
    kv_str(&mut b, "general.architecture", "openthai_systemone");
    kv_u32(&mut b, "openthai.context_length", 4096);
    let g = Gguf::open(&b).unwrap();
    let info = g.info();
    assert_eq!(info.get("model").str(), "openthai-systemone");
    assert_eq!(info.get("max_len").num(), 4096f64.to_bits());
    assert!(matches!(info.get("checkpoint"), J::Null));
}

#[test]
fn header_errors() {
    assert_eq!(open_err(b"GG"), "truncated GGUF");
    assert_eq!(open_err(b"GGUX\x03\0\0\0"), "not a GGUF file");
    let mut b = Vec::new();
    b.extend(b"GGUF");
    b.extend(2u32.to_le_bytes());
    assert_eq!(open_err(&b), "expected GGUF version 3");
    let mut b = Vec::new();
    header(&mut b, 100001, 0);
    assert_eq!(open_err(&b), "GGUF table too large");
}

#[test]
fn metadata_errors() {
    let mut b = Vec::new();
    header(&mut b, 0, 2);
    kv_u32(&mut b, "a", 1);
    kv_u32(&mut b, "a", 2);
    assert_eq!(open_err(&b), "duplicate GGUF metadata key");

    let mut b = Vec::new();
    header(&mut b, 0, 1);
    put_str(&mut b, "a");
    b.extend(13u32.to_le_bytes());
    assert_eq!(open_err(&b), "unsupported GGUF metadata type 13");

    let mut b = Vec::new();
    header(&mut b, 0, 1);
    put_str(&mut b, "a");
    b.extend(8u32.to_le_bytes());
    b.extend((32u64 * 1024 * 1024 + 1).to_le_bytes());
    assert_eq!(open_err(&b), "GGUF string too large");

    let mut b = Vec::new();
    header(&mut b, 0, 1);
    put_str(&mut b, "a");
    b.extend(8u32.to_le_bytes());
    b.extend(1u64.to_le_bytes());
    b.push(0xff);
    assert_eq!(open_err(&b), "invalid GGUF UTF-8");

    let mut b = Vec::new();
    header(&mut b, 0, 1);
    put_str(&mut b, "a");
    b.extend(9u32.to_le_bytes());
    b.extend(4u32.to_le_bytes());
    b.extend(1000001u64.to_le_bytes());
    assert_eq!(open_err(&b), "GGUF array too large");

    let mut b = Vec::new();
    header(&mut b, 0, 1);
    put_str(&mut b, "a");
    b.extend(9u32.to_le_bytes());
    for _ in 0..5 {
        b.extend(9u32.to_le_bytes());
        b.extend(1u64.to_le_bytes());
    }
    assert_eq!(open_err(&b), "GGUF metadata nesting too deep");
}

#[test]
fn tensor_errors() {
    let one = |dims: &[u64], kind: u32, offset: u64| {
        let mut b = Vec::new();
        header(&mut b, 1, 0);
        tensor(&mut b, "t", dims, kind, offset);
        b
    };
    assert_eq!(open_err(&one(&[], 0, 0)), "invalid tensor rank");
    assert_eq!(open_err(&one(&[1, 1, 1, 1, 1], 0, 0)), "invalid tensor rank");
    assert_eq!(open_err(&one(&[0], 0, 0)), "empty tensor");
    assert_eq!(
        open_err(&one(&[4], 3, 0)),
        "unsupported GGML tensor type 3; supported F32/F16/Q4_0/Q8_0/Q4_K/Q6_K"
    );
    assert_eq!(open_err(&one(&[16], 2, 0)), "invalid quantized row alignment");
    assert_eq!(open_err(&one(&[4], 0, 4)), "unaligned GGUF tensor");
    assert_eq!(open_err(&one(&[4], 0, 0)), "truncated tensor data");

    let mut b = Vec::new();
    header(&mut b, 2, 0);
    tensor(&mut b, "t", &[4], 0, 0);
    tensor(&mut b, "t", &[4], 0, 32);
    assert_eq!(open_err(&b), "duplicate tensor");

    let mut b = Vec::new();
    header(&mut b, 0, 1);
    kv_u32(&mut b, "general.alignment", 3);
    assert_eq!(open_err(&b), "invalid GGUF alignment");
}

#[test]
fn reader_reads_one_value_and_keeps_its_place_on_errors() {
    let b = [0xFFu8];
    let mut r = Reader { b: &b, p: 0 };
    assert_eq!(r.value(1, 0), Ok(J::Num((-1.0f64).to_bits())));
    assert_eq!(r.p, 1);

    let mut r2 = Reader { b: &[], p: 0 };
    assert_eq!(r2.value(13, 0), Err("unsupported GGUF metadata type 13".to_string()));
    assert_eq!(r2.p, 0);

    let mut r3 = Reader { b: &[], p: 0 };
    assert_eq!(r3.value(4, 0), Err("truncated GGUF".to_string()));
    assert_eq!(r3.p, 0);

    let mut r4 = Reader { b: &[], p: 0 };
    assert_eq!(r4.value(9, 5), Err("GGUF metadata nesting too deep".to_string()));
    assert_eq!(r4.p, 0);

    // An array whose header was read before it was refused leaves the place after the header.
    let mut a = Vec::new();
    a.extend(4u32.to_le_bytes());
    a.extend(1000001u64.to_le_bytes());
    let mut r5 = Reader { b: &a, p: 0 };
    assert_eq!(r5.value(9, 0), Err("GGUF array too large".to_string()));
    assert_eq!(r5.p, 12);
}
