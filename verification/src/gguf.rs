//! GGUF v3 headers: metadata, tensor directory and data placement.
use vstd::prelude::*;
use vstd::utf8::*;
use crate::json::{J, JV, jv_items, lemma_jv_items};
use crate::number::{f64_of_nat_spec, usize_of_f64, usize_of_f64_spec, f64_of_f32, f64_of_f32_spec, f64_of_i64, f64_of_int_spec, f64_of_u64, lemma_f64_of_nat_positive};
use crate::text::{bytes_less, bytes_lt, decimal, decimal_string, owned, str_eq, utf8};

verus! {

/// Little-endian value of `n` bytes of `b` starting at `p`.
pub open spec fn le(b: Seq<u8>, p: int, n: nat) -> int
    decreases n,
{
    if n == 0 { 0 } else { b[p] as int + 256 * le(b, p + 1, (n - 1) as nat) }
}

/// Reading `n` bytes at `p`: the position after them.
pub open spec fn sp_take(b: Seq<u8>, p: int, n: int) -> Result<int, Seq<char>> {
    if p + n > usize::MAX {
        Err("GGUF length overflow"@)
    } else if p + n > b.len() {
        Err("truncated GGUF"@)
    } else {
        Ok(p + n)
    }
}

pub open spec fn sp_uint(b: Seq<u8>, p: int, n: nat) -> Result<(int, int), Seq<char>> {
    match sp_take(b, p, n as int) {
        Ok(q) => Ok((le(b, p, n), q)),
        Err(e) => Err(e),
    }
}

/// A length-prefixed UTF-8 string at `p`.
pub open spec fn sp_string(b: Seq<u8>, p: int) -> Result<(Seq<char>, int), Seq<char>> {
    match sp_uint(b, p, 8) {
        Err(e) => Err(e),
        Ok((v, q)) => {
            let n = (v as u64) as usize;
            if n > 33554432 {
                Err("GGUF string too large"@)
            } else {
                match sp_take(b, q, n as int) {
                    Err(e) => Err(e),
                    Ok(r) => if valid_utf8(b.subrange(q, r)) {
                        Ok((decode_utf8(b.subrange(q, r)), r))
                    } else {
                        Err("invalid GGUF UTF-8"@)
                    },
                }
            }
        },
    }
}

/// Two's-complement reading of an `n`-byte unsigned value.
pub open spec fn signed(v: int, n: nat) -> int {
    if v >= vstd::arithmetic::power2::pow2((8 * n - 1) as nat) {
        v - vstd::arithmetic::power2::pow2(8 * n)
    } else {
        v
    }
}

pub open spec fn sp_num(r: Result<(int, int), Seq<char>>, f: spec_fn(int) -> int) -> Result<(JV, int), Seq<char>> {
    match r {
        Ok((v, q)) => Ok((JV::Num(f(v) as u64), q)),
        Err(e) => Err(e),
    }
}

/// A metadata value of type `t` at `p`, nested `depth` arrays deep.
#[verifier::opaque]
pub open spec fn sp_value(b: Seq<u8>, p: int, t: u32, depth: int) -> Result<(JV, int), Seq<char>>
    decreases 5 - depth, 0int,
{
    if depth > 4 {
        Err("GGUF metadata nesting too deep"@)
    } else if t == 0 {
        sp_num(sp_uint(b, p, 1), |v: int| f64_of_int_spec(v))
    } else if t == 1 {
        sp_num(sp_uint(b, p, 1), |v: int| f64_of_int_spec(signed(v, 1)))
    } else if t == 2 {
        sp_num(sp_uint(b, p, 2), |v: int| f64_of_int_spec(v))
    } else if t == 3 {
        sp_num(sp_uint(b, p, 2), |v: int| f64_of_int_spec(signed(v, 2)))
    } else if t == 4 {
        sp_num(sp_uint(b, p, 4), |v: int| f64_of_int_spec(v))
    } else if t == 5 {
        sp_num(sp_uint(b, p, 4), |v: int| f64_of_int_spec(signed(v, 4)))
    } else if t == 6 {
        sp_num(sp_uint(b, p, 4), |v: int| f64_of_f32_spec(v as u32))
    } else if t == 7 {
        match sp_uint(b, p, 1) {
            Ok((v, q)) => Ok((JV::Bool(v != 0), q)),
            Err(e) => Err(e),
        }
    } else if t == 8 {
        match sp_string(b, p) {
            Ok((s, q)) => Ok((JV::Str(s), q)),
            Err(e) => Err(e),
        }
    } else if t == 9 {
        match sp_uint(b, p, 4) {
            Err(e) => Err(e),
            Ok((t2, q)) => match sp_uint(b, q, 8) {
                Err(e) => Err(e),
                Ok((n, r)) => {
                    let n = (n as u64) as usize;
                    if n > 1000000 {
                        Err("GGUF array too large"@)
                    } else {
                        match sp_values(b, r, t2 as u32, depth + 1, n as nat) {
                            Ok((items, s)) => Ok((JV::Arr(items), s)),
                            Err(e) => Err(e),
                        }
                    }
                },
            },
        }
    } else if t == 10 {
        sp_num(sp_uint(b, p, 8), |v: int| f64_of_int_spec(v))
    } else if t == 11 {
        sp_num(sp_uint(b, p, 8), |v: int| f64_of_int_spec(signed(v, 8)))
    } else if t == 12 {
        sp_num(sp_uint(b, p, 8), |v: int| v)
    } else {
        Err("unsupported GGUF metadata type "@ + decimal(t as nat))
    }
}

/// A metadata value of type 6 is a binary32 number: its four bytes, least significant first,
/// are the number's bits, and the value read is the binary64 number equal to it (same sign,
/// same magnitude, infinite or NaN where it is).
pub proof fn lemma_f32_value(b: Seq<u8>, p: int, depth: int)
    requires
        0 <= p,
        p + 4 <= b.len(),
        b.len() <= usize::MAX,
        depth <= 4,
    ensures
        ({
            let bits = b[p] as int + 0x100 * b[p + 1] + 0x1_0000 * b[p + 2] + 0x100_0000 * b[p + 3];
            sp_value(b, p, 6, depth) matches Ok((JV::Num(x), q))
                && q == p + 4 && crate::number::f64_equals_f32(x, bits as u32)
        }),
{
    reveal(sp_value);
    reveal_with_fuel(le, 5);
    lemma_le_bound(b, p, 4);
    vstd::arithmetic::power2::lemma2_to64();
    let bits = b[p] as int + 0x100 * b[p + 1] + 0x1_0000 * b[p + 2] + 0x100_0000 * b[p + 3];
    assert(le(b, p, 4) == bits);
    crate::number::lemma_f64_of_f32_exact(bits as u32);
}

/// `n` consecutive values of type `t` at `p`.
pub open spec fn sp_values(b: Seq<u8>, p: int, t: u32, depth: int, n: nat) -> Result<(Seq<JV>, int), Seq<char>>
    decreases 5 - depth, n + 1,
{
    if n == 0 {
        Ok((Seq::empty(), p))
    } else {
        match sp_value(b, p, t, depth) {
            Err(e) => Err(e),
            Ok((v, q)) => match sp_values(b, q, t, depth, (n - 1) as nat) {
                Ok((vs, r)) => Ok((seq![v] + vs, r)),
                Err(e) => Err(e),
            },
        }
    }
}

pub proof fn lemma_le_sub(b: Seq<u8>, p: int, n: nat)
    requires 0 <= p, p + n <= b.len(),
    ensures le(b, p, n) == le(b.subrange(p, p + n), 0, n),
    decreases n,
{
    if n > 0 {
        lemma_le_sub(b, p + 1, (n - 1) as nat);
        lemma_le_sub(b.subrange(p, p + n), 1, (n - 1) as nat);
        assert(b.subrange(p, p + n).subrange(1, n as int) =~= b.subrange(p + 1, p + n));
    }
}

pub proof fn lemma_le_bound(b: Seq<u8>, p: int, n: nat)
    requires 0 <= p, p + n <= b.len(),
    ensures 0 <= le(b, p, n) < vstd::arithmetic::power2::pow2(8 * n),
    decreases n,
{
    vstd::arithmetic::power2::lemma2_to64();
    if n > 0 {
        lemma_le_bound(b, p + 1, (n - 1) as nat);
        vstd::arithmetic::power2::lemma_pow2_adds(8, (8 * (n - 1)) as nat);
    }
}

/// Little-endian value of up to eight bytes.
fn le_value(s: &[u8]) -> (v: u64)
    requires s@.len() <= 8,
    ensures v == le(s@, 0, s@.len()),
{
    let mut v: u64 = 0;
    let mut i = s.len();
    proof {
        vstd::arithmetic::power2::lemma2_to64();
        vstd::arithmetic::power2::lemma2_to64_rest();
    }
    while i > 0
        invariant
            i <= s@.len() <= 8,
            v == le(s@, i as int, (s@.len() - i) as nat),
        decreases i,
    {
        proof {
            vstd::arithmetic::power2::lemma2_to64();
            vstd::arithmetic::power2::lemma2_to64_rest();
            lemma_le_bound(s@, i as int, (s@.len() - i) as nat);
            let k = (s@.len() - i) as nat;
            if k < 7 { vstd::arithmetic::power2::lemma_pow2_strictly_increases(8 * k, 56); }
            assert(v * 256 + 255 <= u64::MAX) by (nonlinear_arith)
                requires v < vstd::arithmetic::power2::pow2(8 * k), vstd::arithmetic::power2::pow2(8 * k) <= 0x100_0000_0000_0000;
        }
        i = i - 1;
        v = v * 256 + s[i] as u64;
    }
    v
}

/// A cursor over the bytes of a GGUF file.
pub struct Reader<'a> {
    pub b: &'a [u8],
    pub p: usize,
}

impl<'a> Reader<'a> {
    /// The next `n` bytes.
    pub fn take(&mut self, n: usize) -> (r: Result<&'a [u8], String>)
        ensures
            final(self).b == old(self).b,
            match sp_take(old(self).b@, old(self).p as int, n as int) {
                Ok(q) => r matches Ok(s) && s@ == old(self).b@.subrange(old(self).p as int, q)
                    && final(self).p == q,
                Err(e) => r matches Err(m) && m@ == e && final(self).p == old(self).p,
            },
    {
        if n > usize::MAX - self.p {
            return Err(owned("GGUF length overflow"));
        }
        let end = self.p + n;
        if end > self.b.len() {
            return Err(owned("truncated GGUF"));
        }
        let s = vstd::slice::slice_subrange(self.b, self.p, end);
        self.p = end;
        Ok(s)
    }

    fn uint(&mut self, n: usize) -> (r: Result<u64, String>)
        requires n <= 8,
        ensures
            final(self).b == old(self).b,
            match sp_uint(old(self).b@, old(self).p as int, n as nat) {
                Ok((v, q)) => r matches Ok(x) && x as int == v && final(self).p == q
                    && v < vstd::arithmetic::power2::pow2(8 * n as nat),
                Err(e) => r matches Err(m) && m@ == e && final(self).p == old(self).p,
            },
    {
        let s = self.take(n)?;
        proof {
            lemma_le_sub(old(self).b@, old(self).p as int, n as nat);
            lemma_le_bound(old(self).b@, old(self).p as int, n as nat);
        }
        Ok(le_value(s))
    }

    /// A little-endian `u32`.
    pub fn u32(&mut self) -> (r: Result<u32, String>)
        ensures
            final(self).b == old(self).b,
            match sp_uint(old(self).b@, old(self).p as int, 4) {
                Ok((v, q)) => r matches Ok(x) && x as int == v && final(self).p == q,
                Err(e) => r matches Err(m) && m@ == e && final(self).p == old(self).p,
            },
    {
        let v = self.uint(4)?;
        proof {
            vstd::arithmetic::power2::lemma2_to64();
            lemma_le_bound(old(self).b@, old(self).p as int, 4);
        }
        Ok(v as u32)
    }

    /// A little-endian `u64`.
    pub fn u64(&mut self) -> (r: Result<u64, String>)
        ensures
            final(self).b == old(self).b,
            match sp_uint(old(self).b@, old(self).p as int, 8) {
                Ok((v, q)) => r matches Ok(x) && x as int == v && final(self).p == q,
                Err(e) => r matches Err(m) && m@ == e && final(self).p == old(self).p,
            },
    {
        self.uint(8)
    }

    /// A metadata value of type `t`, nested `depth` arrays deep.
    pub fn value(&mut self, t: u32, depth: usize) -> (r: Result<J, String>)
        ensures
            final(self).b == old(self).b,
            match sp_value(old(self).b@, old(self).p as int, t, depth as int) {
                Ok((v, q)) => r matches Ok(j) && j@ == v && final(self).p == q,
                Err(e) => r matches Err(m) && m@ == e,
            },
            old(self).p <= final(self).p,
            final(self).p == old(self).p || final(self).p <= old(self).b@.len(),
            r is Err && (depth > 4 || (t != 8 && t != 9)) ==> final(self).p == old(self).p,
        decreases 5 - depth, 1int,
    {
        proof {
            reveal(sp_value);
            vstd::arithmetic::power2::lemma2_to64();
            vstd::arithmetic::power2::lemma2_to64_rest();
        }
        if depth > 4 {
            return Err(owned("GGUF metadata nesting too deep"));
        }
        if t == 0 || t == 2 || t == 4 || t == 10 {
            let n: usize = if t == 0 { 1 } else if t == 2 { 2 } else if t == 4 { 4 } else { 8 };
            let v = self.uint(n)?;
            proof { lemma_f64_of_nat_positive(v as nat); }
            return Ok(J::Num(f64_of_u64(v)));
        }
        if t == 1 || t == 3 || t == 5 || t == 11 {
            let n: usize = if t == 1 { 1 } else if t == 3 { 2 } else if t == 5 { 4 } else { 8 };
            let v = self.uint(n)?;
            let x: i64 = if n == 1 {
                if v >= 0x80 { v as i64 - 0x100 } else { v as i64 }
            } else if n == 2 {
                if v >= 0x8000 { v as i64 - 0x1_0000 } else { v as i64 }
            } else if n == 4 {
                if v >= 0x8000_0000 { v as i64 - 0x1_0000_0000 } else { v as i64 }
            } else {
                if v >= 0x8000_0000_0000_0000 { -((u64::MAX - v) as i64) - 1 } else { v as i64 }
            };
            proof { lemma_f64_of_nat_positive(if x < 0 { (-x) as nat } else { x as nat }); }
            return Ok(J::Num(f64_of_i64(x)));
        }
        if t == 6 {
            let v = self.uint(4)?;
            proof { lemma_le_bound(old(self).b@, old(self).p as int, 4); }
            return Ok(J::Num(f64_of_f32(v as u32)));
        }
        if t == 12 {
            let v = self.uint(8)?;
            return Ok(J::Num(v));
        }
        if t == 7 {
            let v = self.uint(1)?;
            return Ok(J::Bool(v != 0));
        }
        if t == 8 {
            let s = self.string()?;
            return Ok(J::Str(s));
        }
        if t == 9 {
            return self.array(depth);
        }
        let mut m = owned("unsupported GGUF metadata type ");
        let d = decimal_string(t as u64);
        m.append(d.as_str());
        Err(m)
    }

    /// An array value: element type, count, then the elements, nested `depth` arrays deep.
    #[verifier::loop_isolation(false)]
    #[verifier::spinoff_prover]
    fn array(&mut self, depth: usize) -> (r: Result<J, String>)
        requires depth <= 4,
        ensures
            final(self).b == old(self).b,
            match sp_value(old(self).b@, old(self).p as int, 9, depth as int) {
                Ok((v, q)) => r matches Ok(j) && j@ == v && final(self).p == q,
                Err(e) => r matches Err(m) && m@ == e,
            },
            old(self).p <= final(self).p,
            final(self).p == old(self).p || final(self).p <= old(self).b@.len(),
        decreases 5 - depth, 0int,
    {
        proof {
            reveal(sp_value);
        }
        let t2 = self.u32()?;
        let n = self.u64()? as usize;
        if n > 1000000 {
            return Err(owned("GGUF array too large"));
        }
        let ghost b = self.b@;
        let ghost start = self.p as int;
        let mut a: Vec<J> = Vec::new();
        let mut i: usize = 0;
        assert(jv_items(a@) =~= Seq::<JV>::empty());
        while i < n
            invariant
                self.b@ == b,
                self.b == old(self).b,
                old(self).p <= self.p <= b.len(),
                i <= n,
                depth <= 4,
                match sp_values(b, self.p as int, t2, depth + 1, (n - i) as nat) {
                    Ok((vs, q)) => sp_values(b, start, t2, depth + 1, n as nat) == Ok::<(Seq<JV>, int), Seq<char>>((jv_items(a@) + vs, q)),
                    Err(e) => sp_values(b, start, t2, depth + 1, n as nat) == Err::<(Seq<JV>, int), Seq<char>>(e),
                },
            decreases n - i,
        {
            let ghost before = a@;
            let ghost here = self.p as int;
            let v = match self.value(t2, depth + 1) {
                Ok(v) => v,
                Err(e) => {
                    proof {
                        assert(sp_value(b, here, t2, depth + 1) is Err);
                        assert(sp_values(b, here, t2, depth + 1, (n - i) as nat) == Err::<(Seq<JV>, int), Seq<char>>(e@));
                    }
                    return Err(e);
                },
            };
            a.push(v);
            proof {
                lemma_jv_items(before);
                lemma_jv_items(a@);
                assert(jv_items(a@) =~= jv_items(before) + seq![a@[before.len() as int]@]);
                match sp_values(b, self.p as int, t2, depth + 1, (n - i - 1) as nat) {
                    Ok((vs, q)) => {
                        assert(jv_items(before) + (seq![a@[before.len() as int]@] + vs) =~= jv_items(a@) + vs);
                    },
                    Err(e) => {},
                }
            }
            i = i + 1;
        }
        assert(jv_items(a@) + Seq::<JV>::empty() =~= jv_items(a@));
        Ok(J::Arr(a))
    }

    /// A length-prefixed UTF-8 string.
    pub fn string(&mut self) -> (r: Result<String, String>)
        ensures
            final(self).b == old(self).b,
            match sp_string(old(self).b@, old(self).p as int) {
                Ok((v, q)) => r matches Ok(s) && s@ == v && final(self).p == q,
                Err(e) => r matches Err(m) && m@ == e,
            },
            old(self).p <= final(self).p,
            final(self).p == old(self).p || final(self).p <= old(self).b@.len(),
    {
        let n = self.u64()? as usize;
        if n > 33554432 {
            return Err(owned("GGUF string too large"));
        }
        let bytes = self.take(n)?;
        match utf8(bytes) {
            Some(s) => Ok(owned(s)),
            None => Err(owned("invalid GGUF UTF-8")),
        }
    }
}


/// Elements per block and bytes per block of a GGML tensor type.
pub open spec fn layout_spec(kind: u32) -> Option<(usize, usize)> {
    if kind == 0 {
        Some((1, 4))
    } else if kind == 1 {
        Some((1, 2))
    } else if kind == 2 {
        Some((32, 18))
    } else if kind == 8 {
        Some((32, 34))
    } else if kind == 12 {
        Some((256, 144))
    } else if kind == 14 {
        Some((256, 210))
    } else {
        None
    }
}

pub open spec fn layout_error(kind: u32) -> Seq<char> {
    "unsupported GGML tensor type "@ + decimal(kind as nat) + "; supported F32/F16/Q4_0/Q8_0/Q4_K/Q6_K"@
}

/// Block geometry of the supported tensor types: F32, F16, Q4_0, Q8_0, Q4_K, Q6_K.
pub fn layout(kind: u32) -> (r: Result<(usize, usize), String>)
    ensures
        match layout_spec(kind) {
            Some(g) => r == Ok::<(usize, usize), String>(g),
            None => r matches Err(m) && m@ == layout_error(kind),
        },
{
    if kind == 0 {
        Ok((1, 4))
    } else if kind == 1 {
        Ok((1, 2))
    } else if kind == 2 {
        Ok((32, 18))
    } else if kind == 8 {
        Ok((32, 34))
    } else if kind == 12 {
        Ok((256, 144))
    } else if kind == 14 {
        Ok((256, 210))
    } else {
        let mut m = owned("unsupported GGML tensor type ");
        let d = decimal_string(kind as u64);
        m.append(d.as_str());
        m.append("; supported F32/F16/Q4_0/Q8_0/Q4_K/Q6_K");
        Err(m)
    }
}

/// A tensor's shape, type and byte placement in the file.
#[derive(Debug)]
pub struct Tensor {
    pub dims: Vec<usize>,
    pub kind: u32,
    pub offset: usize,
    pub len: usize,
}

pub struct TensorV {
    pub dims: Seq<usize>,
    pub kind: u32,
    pub offset: usize,
    pub len: usize,
}

impl View for Tensor {
    type V = TensorV;

    open spec fn view(&self) -> TensorV {
        TensorV { dims: self.dims@, kind: self.kind, offset: self.offset, len: self.len }
    }
}

/// The header of a GGUF file: metadata and tensor directory, each in file
/// order with no name twice, and the length of the file it was read from.
#[derive(Debug)]
pub struct Gguf {
    pub meta: Vec<(String, J)>,
    pub tensors: Vec<(String, Tensor)>,
    pub size: usize,
}

pub struct GgufV {
    pub meta: Seq<(Seq<char>, JV)>,
    pub tensors: Seq<(Seq<char>, TensorV)>,
    pub size: nat,
}

pub open spec fn tensor_views(s: Seq<(String, Tensor)>) -> Seq<(Seq<char>, TensorV)> {
    Seq::new(s.len(), |i: int| (s[i].0@, s[i].1@))
}

impl View for Gguf {
    type V = GgufV;

    open spec fn view(&self) -> GgufV {
        GgufV { meta: crate::json::jv_members(self.meta@), tensors: tensor_views(self.tensors@), size: self.size as nat }
    }
}

/// Whether some entry is named `k`.
pub open spec fn has_key<V>(s: Seq<(Seq<char>, V)>, k: Seq<char>) -> bool {
    exists|i: int| 0 <= i < s.len() && #[trigger] s[i].0 == k
}

/// The metadata table: `k` more key/type/value entries at `p`, after `acc`.
pub open spec fn sp_meta(b: Seq<u8>, p: int, k: nat, acc: Seq<(Seq<char>, JV)>) -> Result<(Seq<(Seq<char>, JV)>, int), Seq<char>>
    decreases k,
{
    if k == 0 {
        Ok((acc, p))
    } else {
        match sp_string(b, p) {
            Err(e) => Err(e),
            Ok((key, q)) => match sp_uint(b, q, 4) {
                Err(e) => Err(e),
                Ok((t, r)) => match sp_value(b, r, t as u32, 0) {
                    Err(e) => Err(e),
                    Ok((v, s)) => if has_key(acc, key) {
                        Err("duplicate GGUF metadata key"@)
                    } else {
                        sp_meta(b, s, (k - 1) as nat, acc.push((key, v)))
                    },
                },
            },
        }
    }
}

/// Tensor dimensions: `k` more at `p`, after `acc`, whose product so far is `count`.
pub open spec fn sp_dims(b: Seq<u8>, p: int, k: nat, acc: Seq<usize>, count: int) -> Result<(Seq<usize>, int, int), Seq<char>>
    decreases k,
{
    if k == 0 {
        Ok((acc, count, p))
    } else {
        match sp_uint(b, p, 8) {
            Err(e) => Err(e),
            Ok((d, q)) => {
                let d = (d as u64) as usize;
                if d == 0 {
                    Err("empty tensor"@)
                } else if count * d > usize::MAX {
                    Err("tensor size overflow"@)
                } else {
                    sp_dims(b, q, (k - 1) as nat, acc.push(d), count * d)
                }
            },
        }
    }
}

/// One tensor directory entry at `p`, its offset still relative to the data section.
#[verifier::opaque]
pub open spec fn sp_tensor(b: Seq<u8>, p: int) -> Result<(Seq<char>, TensorV, int), Seq<char>> {
    match sp_string(b, p) {
        Err(e) => Err(e),
        Ok((name, q)) => match sp_uint(b, q, 4) {
            Err(e) => Err(e),
            Ok((nd, r)) => if !(1 <= nd <= 4) {
                Err("invalid tensor rank"@)
            } else {
                match sp_dims(b, r, nd as nat, Seq::empty(), 1) {
                    Err(e) => Err(e),
                    Ok((dims, count, s)) => match sp_uint(b, s, 4) {
                        Err(e) => Err(e),
                        Ok((kind, t)) => match sp_uint(b, t, 8) {
                            Err(e) => Err(e),
                            Ok((offset, u)) => match layout_spec(kind as u32) {
                                None => Err(layout_error(kind as u32)),
                                Some((block, size)) => if dims[0] as int % block as int != 0 {
                                    Err("invalid quantized row alignment"@)
                                } else if (count / block as int) * size > usize::MAX {
                                    Err("tensor byte size overflow"@)
                                } else {
                                    Ok((name, TensorV {
                                        dims,
                                        kind: kind as u32,
                                        offset: (offset as u64) as usize,
                                        len: ((count / block as int) * size) as usize,
                                    }, u))
                                },
                            },
                        },
                    },
                }
            },
        },
    }
}

/// The tensor directory: `k` more entries at `p`, after `acc`.
pub open spec fn sp_tensors(b: Seq<u8>, p: int, k: nat, acc: Seq<(Seq<char>, TensorV)>) -> Result<(Seq<(Seq<char>, TensorV)>, int), Seq<char>>
    decreases k,
{
    if k == 0 {
        Ok((acc, p))
    } else {
        match sp_tensor(b, p) {
            Err(e) => Err(e),
            Ok((name, t, q)) => if has_key(acc, name) {
                Err("duplicate tensor"@)
            } else {
                sp_tensors(b, q, (k - 1) as nat, acc.push((name, t)))
            },
        }
    }
}


/// `usize::is_power_of_two`.
pub open spec fn power_of_two(a: usize) -> bool {
    a > 0 && a & ((a - 1) as usize) == 0
}

/// Why a tensor cannot be placed at `offset + base` in a file of `size` bytes.
pub open spec fn failure(t: TensorV, align: int, base: int, size: int) -> Option<Seq<char>> {
    if t.offset as int % align != 0 {
        Some("unaligned GGUF tensor"@)
    } else if t.offset + base > usize::MAX {
        Some("offset overflow"@)
    } else if t.offset + base + t.len > usize::MAX {
        Some("length overflow"@)
    } else if t.offset + base + t.len > size {
        Some("truncated tensor data"@)
    } else {
        None
    }
}

/// The order of names (byte order of their UTF-8 text).
pub open spec fn name_before(a: Seq<char>, b: Seq<char>) -> bool {
    bytes_lt(encode_utf8(a), encode_utf8(b))
}

/// Among the first `n` entries, the one that cannot be placed and whose name sorts first.
pub open spec fn first_failure(ts: Seq<(Seq<char>, TensorV)>, align: int, base: int, size: int, n: nat) -> Option<int>
    decreases n,
{
    if n == 0 {
        None
    } else {
        let r = first_failure(ts, align, base, size, (n - 1) as nat);
        let i = n - 1;
        if failure(ts[i].1, align, base, size) is Some && (r is None || name_before(ts[i].0, ts[r->0].0)) {
            Some(i)
        } else {
            r
        }
    }
}

/// The entries with their offsets made absolute.
pub open spec fn placed(ts: Seq<(Seq<char>, TensorV)>, base: int) -> Seq<(Seq<char>, TensorV)> {
    Seq::new(ts.len(), |i: int| (ts[i].0, TensorV { offset: (ts[i].1.offset + base) as usize, ..ts[i].1 }))
}

/// The data alignment a metadata table asks for (32 when it names none).
pub open spec fn alignment(meta: Seq<(Seq<char>, JV)>) -> int {
    match crate::json::find_key(meta, "general.alignment"@) {
        Some(v) => usize_of_f64_spec(v.num()),
        None => 32,
    }
}

/// A GGUF v3 header read from the bytes of a whole file.
pub open spec fn sp_gguf(b: Seq<u8>) -> Result<GgufV, Seq<char>> {
    match sp_take(b, 0, 4) {
        Err(e) => Err(e),
        Ok(_) => if b.subrange(0, 4) != seq![71u8, 71u8, 85u8, 70u8] {
            Err("not a GGUF file"@)
        } else {
            match sp_uint(b, 4, 4) {
                Err(e) => Err(e),
                Ok((version, _)) => if version != 3 {
                    Err("expected GGUF version 3"@)
                } else {
                    match sp_uint(b, 8, 8) {
                        Err(e) => Err(e),
                        Ok((nt, _)) => match sp_uint(b, 16, 8) {
                            Err(e) => Err(e),
                            Ok((nk, _)) => if nt > 100000 || nk > 100000 {
                                Err("GGUF table too large"@)
                            } else {
                                match sp_meta(b, 24, nk as nat, Seq::empty()) {
                                    Err(e) => Err(e),
                                    Ok((meta, p)) => match sp_tensors(b, p, nt as nat, Seq::empty()) {
                                        Err(e) => Err(e),
                                        Ok((ts, q)) => {
                                            let align = alignment(meta);
                                            if align == 0 || !power_of_two(align as usize) || align > 4096 {
                                                Err("invalid GGUF alignment"@)
                                            } else if q + align - 1 > usize::MAX {
                                                Err("offset overflow"@)
                                            } else {
                                                let base = ((q + align - 1) / align) * align;
                                                match first_failure(ts, align, base, b.len() as int, ts.len()) {
                                                    Some(i) => Err(failure(ts[i].1, align, base, b.len() as int)->0),
                                                    None => Ok(GgufV { meta, tensors: placed(ts, base), size: b.len() }),
                                                }
                                            }
                                        },
                                    },
                                }
                            },
                        },
                    }
                },
            }
        },
    }
}

/// No two entries share a name.
pub open spec fn distinct_keys<V>(s: Seq<(Seq<char>, V)>) -> bool {
    forall|i: int, j: int| 0 <= i < j < s.len() ==> #[trigger] s[i].0 != #[trigger] s[j].0
}

proof fn lemma_push_distinct<V>(s: Seq<(Seq<char>, V)>, k: Seq<char>, v: V)
    requires distinct_keys(s), !has_key(s, k),
    ensures distinct_keys(s.push((k, v))),
{
    let t = s.push((k, v));
    assert forall|i: int, j: int| 0 <= i < j < t.len() implies #[trigger] t[i].0 != #[trigger] t[j].0 by {
        if j == s.len() {
            assert(t[i] == s[i]);
            if s[i].0 == k {
                assert(has_key(s, k));
            }
        } else {
            assert(t[i] == s[i] && t[j] == s[j]);
        }
    }
}

proof fn lemma_meta_distinct(b: Seq<u8>, p: int, k: nat, acc: Seq<(Seq<char>, JV)>)
    requires distinct_keys(acc),
    ensures sp_meta(b, p, k, acc) matches Ok((m, _)) ==> distinct_keys(m),
    decreases k,
{
    if k > 0 {
        if let Ok((key, q)) = sp_string(b, p) {
            if let Ok((t, r)) = sp_uint(b, q, 4) {
                if let Ok((v, s)) = sp_value(b, r, t as u32, 0) {
                    if !has_key(acc, key) {
                        lemma_push_distinct(acc, key, v);
                        lemma_meta_distinct(b, s, (k - 1) as nat, acc.push((key, v)));
                    }
                }
            }
        }
    }
}

proof fn lemma_tensors_distinct(b: Seq<u8>, p: int, k: nat, acc: Seq<(Seq<char>, TensorV)>)
    requires distinct_keys(acc),
    ensures sp_tensors(b, p, k, acc) matches Ok((ts, _)) ==> distinct_keys(ts),
    decreases k,
{
    if k > 0 {
        if let Ok((name, t, q)) = sp_tensor(b, p) {
            if !has_key(acc, name) {
                lemma_push_distinct(acc, name, t);
                lemma_tensors_distinct(b, q, (k - 1) as nat, acc.push((name, t)));
            }
        }
    }
}

/// A header that reads names every metadata key and every tensor once.
proof fn lemma_gguf_distinct(b: Seq<u8>)
    ensures sp_gguf(b) matches Ok(g) ==> distinct_keys(g.meta) && distinct_keys(g.tensors),
{
    if let Ok(g) = sp_gguf(b) {
        let nt = sp_uint(b, 8, 8)->Ok_0.0;
        let nk = sp_uint(b, 16, 8)->Ok_0.0;
        lemma_meta_distinct(b, 24, nk as nat, Seq::empty());
        let (meta, p) = sp_meta(b, 24, nk as nat, Seq::empty())->Ok_0;
        lemma_tensors_distinct(b, p, nt as nat, Seq::empty());
        let (ts, q) = sp_tensors(b, p, nt as nat, Seq::empty())->Ok_0;
        let align = alignment(meta);
        let base = ((q + align - 1) / align) * align;
        assert(g.tensors == placed(ts, base));
        assert forall|i: int, j: int| 0 <= i < j < g.tensors.len() implies
            #[trigger] g.tensors[i].0 != #[trigger] g.tensors[j].0 by {
            assert(g.tensors[i].0 == ts[i].0 && g.tensors[j].0 == ts[j].0);
        }
    }
}

/// Where the entry named `k` stands, if any.
pub fn position<V>(v: &Vec<(String, V)>, k: &str) -> (r: Option<usize>)
    ensures
        match r {
            Some(i) => i < v@.len() && v@[i as int].0@ == k@ && forall|j: int| 0 <= j < i ==> v@[j].0@ != k@,
            None => forall|j: int| 0 <= j < v@.len() ==> v@[j].0@ != k@,
        },
{
    let mut i: usize = 0;
    while i < v.len()
        invariant
            i <= v@.len(),
            forall|j: int| 0 <= j < i ==> v@[j].0@ != k@,
        decreases v@.len() - i,
    {
        if str_eq(v[i].0.as_str(), k) {
            return Some(i);
        }
        i = i + 1;
    }
    None
}


proof fn lemma_members_push(m: Seq<(String, J)>, k: String, v: J)
    ensures crate::json::jv_members(m.push((k, v))) == crate::json::jv_members(m).push((k@, v@)),
{
    crate::json::lemma_jv_members(m);
    crate::json::lemma_jv_members(m.push((k, v)));
    assert(crate::json::jv_members(m.push((k, v))) =~= crate::json::jv_members(m).push((k@, v@)));
}

/// The metadata table of `nk` entries.
fn read_meta(r: &mut Reader, nk: u64) -> (res: Result<Vec<(String, J)>, String>)
    ensures
        final(r).b == old(r).b,
        match sp_meta(old(r).b@, old(r).p as int, nk as nat, Seq::empty()) {
            Ok((m, q)) => res matches Ok(v) && crate::json::jv_members(v@) == m && final(r).p == q,
            Err(e) => res matches Err(msg) && msg@ == e,
        },
{
    let ghost b = r.b@;
    let ghost p0 = r.p as int;
    let mut meta: Vec<(String, J)> = Vec::new();
    let mut i: u64 = 0;
    proof {
        crate::json::lemma_jv_members(meta@);
        assert(crate::json::jv_members(meta@) =~= Seq::empty());
    }
    while i < nk
        invariant
            r.b == old(r).b,
            r.b@ == b,
            b == old(r).b@,
            p0 == old(r).p as int,
            i <= nk,
            sp_meta(b, p0, nk as nat, Seq::empty()) == sp_meta(b, r.p as int, (nk - i) as nat, crate::json::jv_members(meta@)),
        decreases nk - i,
    {
        let ghost here = r.p as int;
        let ghost acc = crate::json::jv_members(meta@);
        let key = match r.string() {
            Ok(k) => k,
            Err(e) => {
                proof {
                    assert(sp_string(b, here) is Err);
                    assert(sp_meta(b, here, (nk - i) as nat, acc) == Err::<(Seq<(Seq<char>, JV)>, int), Seq<char>>(e@));
                }
                return Err(e);
            },
        };
        let t = r.u32()?;
        let v = r.value(t, 0)?;
        proof { crate::json::lemma_jv_members(meta@); }
        if let Some(j) = position(&meta, key.as_str()) {
            proof { assert(acc[j as int].0 == key@); }
            return Err(owned("duplicate GGUF metadata key"));
        }
        proof {
            lemma_members_push(meta@, key, v);
            assert(!has_key(crate::json::jv_members(meta@), key@));
        }
        meta.push((key, v));
        i = i + 1;
    }
    Ok(meta)
}


fn read_dims(r: &mut Reader, nd: u32) -> (res: Result<(Vec<usize>, usize), String>)
    ensures
        final(r).b == old(r).b,
        match sp_dims(old(r).b@, old(r).p as int, nd as nat, Seq::empty(), 1) {
            Ok((d, c, q)) => res matches Ok((v, n)) && v@ == d && n == c && final(r).p == q
                && v@.len() == nd,
            Err(e) => res matches Err(msg) && msg@ == e,
        },
{
    let ghost b = r.b@;
    let ghost p0 = r.p as int;
    let mut dims: Vec<usize> = Vec::new();
    let mut count: usize = 1;
    let mut i: u32 = 0;
    while i < nd
        invariant
            r.b == old(r).b,
            r.b@ == b,
            b == old(r).b@,
            p0 == old(r).p as int,
            i <= nd,
            dims@.len() == i,
            sp_dims(b, p0, nd as nat, Seq::empty(), 1) == sp_dims(b, r.p as int, (nd - i) as nat, dims@, count as int),
        decreases nd - i,
    {
        let d = r.u64()? as usize;
        if d == 0 {
            return Err(owned("empty tensor"));
        }
        count = match count.checked_mul(d) {
            Some(c) => c,
            None => return Err(owned("tensor size overflow")),
        };
        dims.push(d);
        i = i + 1;
    }
    Ok((dims, count))
}

/// One tensor directory entry.
#[verifier::rlimit(50)]
fn read_tensor(r: &mut Reader) -> (res: Result<(String, Tensor), String>)
    ensures
        final(r).b == old(r).b,
        match sp_tensor(old(r).b@, old(r).p as int) {
            Ok((name, t, q)) => res matches Ok((n, x)) && n@ == name && x@ == t && final(r).p == q,
            Err(e) => res matches Err(msg) && msg@ == e,
        },
{
    proof { reveal(sp_tensor); }
    let name = r.string()?;
    let nd = r.u32()?;
    if nd < 1 || nd > 4 {
        return Err(owned("invalid tensor rank"));
    }
    let (dims, count) = read_dims(r, nd)?;
    let kind = r.u32()?;
    let offset = r.u64()? as usize;
    let (block, size) = layout(kind)?;
    if dims[0] % block != 0 {
        return Err(owned("invalid quantized row alignment"));
    }
    let len = match (count / block).checked_mul(size) {
        Some(l) => l,
        None => return Err(owned("tensor byte size overflow")),
    };
    Ok((name, Tensor { dims, kind, offset, len }))
}

proof fn lemma_tensor_views_push(m: Seq<(String, Tensor)>, k: String, v: Tensor)
    ensures tensor_views(m.push((k, v))) == tensor_views(m).push((k@, v@)),
{
    assert(tensor_views(m.push((k, v))) =~= tensor_views(m).push((k@, v@)));
}

/// The tensor directory of `nt` entries.
fn read_tensors(r: &mut Reader, nt: u64) -> (res: Result<Vec<(String, Tensor)>, String>)
    ensures
        final(r).b == old(r).b,
        match sp_tensors(old(r).b@, old(r).p as int, nt as nat, Seq::empty()) {
            Ok((m, q)) => res matches Ok(v) && tensor_views(v@) == m && final(r).p == q,
            Err(e) => res matches Err(msg) && msg@ == e,
        },
{
    let ghost b = r.b@;
    let ghost p0 = r.p as int;
    let mut ts: Vec<(String, Tensor)> = Vec::new();
    let mut i: u64 = 0;
    assert(tensor_views(ts@) =~= Seq::empty());
    while i < nt
        invariant
            r.b == old(r).b,
            r.b@ == b,
            b == old(r).b@,
            p0 == old(r).p as int,
            i <= nt,
            sp_tensors(b, p0, nt as nat, Seq::empty()) == sp_tensors(b, r.p as int, (nt - i) as nat, tensor_views(ts@)),
        decreases nt - i,
    {
        let ghost acc = tensor_views(ts@);
        let (name, t) = r.read_tensor_entry()?;
        if let Some(j) = position(&ts, name.as_str()) {
            proof { assert(acc[j as int].0 == name@); }
            return Err(owned("duplicate tensor"));
        }
        proof {
            lemma_tensor_views_push(ts@, name, t);
            assert(!has_key(acc, name@));
        }
        ts.push((name, t));
        i = i + 1;
    }
    Ok(ts)
}

impl<'a> Reader<'a> {
    fn read_tensor_entry(&mut self) -> (res: Result<(String, Tensor), String>)
        ensures
            final(self).b == old(self).b,
            match sp_tensor(old(self).b@, old(self).p as int) {
                Ok((name, t, q)) => res matches Ok((n, x)) && n@ == name && x@ == t && final(self).p == q,
                Err(e) => res matches Err(msg) && msg@ == e,
            },
    {
        read_tensor(self)
    }
}


/// Why a tensor cannot be placed, as a message.
fn failure_message(t: &Tensor, align: usize, base: usize, size: usize) -> (r: Option<String>)
    requires align > 0,
    ensures
        match failure(t@, align as int, base as int, size as int) {
            Some(m) => r matches Some(s) && s@ == m,
            None => r is None,
        },
{
    if t.offset % align != 0 {
        Some(owned("unaligned GGUF tensor"))
    } else if t.offset > usize::MAX - base {
        Some(owned("offset overflow"))
    } else if t.len > usize::MAX - (t.offset + base) {
        Some(owned("length overflow"))
    } else if t.offset + base + t.len > size {
        Some(owned("truncated tensor data"))
    } else {
        None
    }
}

/// Whether an entry cannot be placed.
fn fails(t: &Tensor, align: usize, base: usize, size: usize) -> (r: bool)
    requires align > 0,
    ensures r == failure(t@, align as int, base as int, size as int) is Some,
{
    failure_message(t, align, base, size).is_some()
}

proof fn lemma_no_failure(ts: Seq<(Seq<char>, TensorV)>, align: int, base: int, size: int, n: nat)
    requires n <= ts.len(), first_failure(ts, align, base, size, n) is None,
    ensures forall|i: int| 0 <= i < n ==> failure(#[trigger] ts[i].1, align, base, size) is None,
    decreases n,
{
    if n > 0 {
        lemma_no_failure(ts, align, base, size, (n - 1) as nat);
    }
}

proof fn lemma_failure_in_range(ts: Seq<(Seq<char>, TensorV)>, align: int, base: int, size: int, n: nat)
    requires n <= ts.len(),
    ensures
        first_failure(ts, align, base, size, n) matches Some(i) ==> 0 <= i < n
            && failure(ts[i].1, align, base, size) is Some,
    decreases n,
{
    if n > 0 {
        lemma_failure_in_range(ts, align, base, size, (n - 1) as nat);
    }
}

/// Where the entry that cannot be placed and whose name sorts first stands, if any.
fn find_failure(ts: &Vec<(String, Tensor)>, align: usize, base: usize, size: usize) -> (r: Option<usize>)
    requires align > 0,
    ensures
        match first_failure(tensor_views(ts@), align as int, base as int, size as int, ts@.len()) {
            Some(i) => r == Some(i as usize),
            None => r is None,
        },
{
    let ghost v = tensor_views(ts@);
    let mut best: Option<usize> = None;
    let mut i: usize = 0;
    while i < ts.len()
        invariant
            align > 0,
            i <= ts@.len(),
            v == tensor_views(ts@),
            match first_failure(v, align as int, base as int, size as int, i as nat) {
                Some(j) => best == Some(j as usize) && 0 <= j < i,
                None => best is None,
            },
        decreases ts@.len() - i,
    {
        if fails(&ts[i].1, align, base, size) {
            let better = match best {
                None => true,
                Some(j) => bytes_less(ts[i].0.as_str().as_bytes(), ts[j].0.as_str().as_bytes()),
            };
            if better {
                best = Some(i);
            }
        }
        i = i + 1;
    }
    best
}

impl Gguf {
    /// Every tensor's bytes lie inside the file, and no metadata key or tensor name repeats.
    pub open spec fn wf(self) -> bool {
        &&& forall|i: int| 0 <= i < self.tensors@.len() ==>
            (#[trigger] self.tensors@[i]).1.offset + self.tensors@[i].1.len <= self.size
        &&& distinct_keys(self@.meta)
        &&& distinct_keys(self@.tensors)
    }

    /// Reads the header of the GGUF file whose bytes are `b`.
    #[verifier::spinoff_prover]
    pub fn open(b: &[u8]) -> (r: Result<Gguf, String>)
        ensures
            match sp_gguf(b@) {
                Ok(g) => r matches Ok(x) && x@ == g && x.wf(),
                Err(e) => r matches Err(m) && m@ == e,
            },
    {
        proof { lemma_gguf_distinct(b@); }
        let mut r = Reader { b, p: 0 };
        let magic = r.take(4)?;
        if !(magic[0] == 71 && magic[1] == 71 && magic[2] == 85 && magic[3] == 70) {
            return Err(owned("not a GGUF file"));
        }
        proof { assert(magic@ =~= seq![71u8, 71u8, 85u8, 70u8]); }
        if r.u32()? != 3 {
            return Err(owned("expected GGUF version 3"));
        }
        let nt = r.u64()?;
        let nk = r.u64()?;
        if nt > 100000 || nk > 100000 {
            return Err(owned("GGUF table too large"));
        }
        let meta = read_meta(&mut r, nk)?;
        let tensors = read_tensors(&mut r, nt)?;
        let ghost mv = crate::json::jv_members(meta@);
        proof { crate::json::lemma_jv_members(meta@); }
        let align = match position(&meta, "general.alignment") {
            Some(i) => {
                proof { crate::json::lemma_find_key_first(mv, "general.alignment"@, i as int); }
                usize_of_f64(meta[i].1.num())
            },
            None => {
                proof { crate::json::lemma_find_key_none(mv, "general.alignment"@); }
                32
            },
        };
        if align == 0 || align & (align - 1) != 0 || align > 4096 {
            return Err(owned("invalid GGUF alignment"));
        }
        if r.p > usize::MAX - (align - 1) {
            return Err(owned("offset overflow"));
        }
        let top = r.p + (align - 1);
        proof {
            vstd::arithmetic::div_mod::lemma_fundamental_div_mod(top as int, align as int);
            vstd::arithmetic::div_mod::lemma_mod_pos_bound(top as int, align as int);
            vstd::arithmetic::mul::lemma_mul_is_commutative(align as int, (top / align) as int);
        }
        let base = top / align * align;
        let ghost tv = tensor_views(tensors@);
        if let Some(i) = find_failure(&tensors, align, base, b.len()) {
            proof { lemma_failure_in_range(tv, align as int, base as int, b@.len() as int, tv.len()); }
            let m = failure_message(&tensors[i].1, align, base, b.len());
            assert(tv[i as int].1 == tensors@[i as int].1@);
            return match m {
                Some(m) => Err(m),
                None => Err(owned("")),
            };
        }
        proof { lemma_no_failure(tv, align as int, base as int, b@.len() as int, tv.len()); }
        // Make every offset absolute, keeping the order.
        let mut rest = tensors;
        let mut rev: Vec<(String, Tensor)> = Vec::new();
        while rest.len() > 0
            invariant
                rest@.len() + rev@.len() == tv.len(),
                tensor_views(rest@) == tv.subrange(0, rest@.len() as int),
                forall|j: int| 0 <= j < rev@.len() ==> (#[trigger] rev@[j]).0@ == tv[tv.len() - 1 - j].0
                    && rev@[j].1@ == tv[tv.len() - 1 - j].1,
            decreases rest@.len(),
        {
            let ghost before = rest@;
            let e = rest.pop().unwrap();
            proof {
                assert(tensor_views(rest@) =~= tv.subrange(0, rest@.len() as int));
                assert(e.0@ == tensor_views(before)[rest@.len() as int].0);
            }
            rev.push(e);
        }
        let mut out: Vec<(String, Tensor)> = Vec::new();
        while rev.len() > 0
            invariant
                out@.len() + rev@.len() == tv.len(),
                forall|j: int| 0 <= j < rev@.len() ==> (#[trigger] rev@[j]).0@ == tv[tv.len() - 1 - j].0
                    && rev@[j].1@ == tv[tv.len() - 1 - j].1,
                forall|j: int| 0 <= j < out@.len() ==> (#[trigger] out@[j]).0@ == tv[j].0
                    && out@[j].1@ == placed(tv, base as int)[j].1,
                forall|j: int| 0 <= j < tv.len() ==> failure(#[trigger] tv[j].1, align as int, base as int, b@.len() as int) is None,
            decreases rev@.len(),
        {
            let (name, t) = rev.pop().unwrap();
            let ghost j = out@.len() as int;
            assert(failure(tv[j].1, align as int, base as int, b@.len() as int) is None);
            let moved = Tensor { dims: t.dims, kind: t.kind, offset: t.offset + base, len: t.len };
            out.push((name, moved));
        }
        let g = Gguf { meta, tensors: out, size: b.len() };
        proof {
            assert(tensor_views(g.tensors@) =~= placed(tv, base as int));
            assert forall|j: int| 0 <= j < g.tensors@.len() implies
                (#[trigger] g.tensors@[j]).1.offset + g.tensors@[j].1.len <= g.size by {
                assert(failure(tv[j].1, align as int, base as int, b@.len() as int) is None);
            }
        }
        Ok(g)
    }
}


impl GgufV {
    /// Metadata value `k`; null when absent.
    pub open spec fn get(self, k: Seq<char>) -> JV {
        match crate::json::find_key(self.meta, k) {
            Some(v) => v,
            None => JV::Null,
        }
    }

    /// Metadata value `k` as `x as usize` reads its number; `default` when absent.
    pub open spec fn num(self, k: Seq<char>, default: usize) -> int {
        match crate::json::find_key(self.meta, k) {
            Some(v) => usize_of_f64_spec(v.num()),
            None => default as int,
        }
    }

    /// A number read from the metadata is a `usize`.
    pub proof fn lemma_num_range(self, k: Seq<char>, default: usize)
        ensures 0 <= self.num(k, default) <= usize::MAX,
    {
        if let Some(v) = crate::json::find_key(self.meta, k) {
            crate::number::lemma_usize_of_f64_range(v.num());
        }
    }

    /// The directory entry named `k`.
    pub open spec fn tensor(self, k: Seq<char>) -> Option<TensorV> {
        crate::json::find_key(self.tensors, k)
    }

    /// The summary `info` reports.
    pub open spec fn info(self) -> JV {
        JV::Obj(seq![
            ("name"@, self.get("general.name"@)),
            ("model"@, if self.get("general.architecture"@).text() == "openthai_systemone"@ {
                JV::Str("openthai-systemone"@)
            } else {
                self.get("laya.model_name"@)
            }),
            ("architecture"@, self.get("general.architecture"@)),
            ("checkpoint"@, self.get("laya.checkpoint"@)),
            ("max_len"@, JV::Num(f64_of_nat_spec(
                self.num("openthai.context_length"@, self.num("laya.max_len"@, 512) as usize) as nat) as u64)),
            ("tensors"@, JV::Num(f64_of_nat_spec(self.tensors.len()) as u64)),
            ("runtime"@, JV::Str("Goish Rust, no_std, CPU"@)),
        ])
    }
}

impl Gguf {
    /// Metadata value `k`; null when absent.
    pub fn get(&self, k: &str) -> (r: &J)
        ensures r@ == self@.get(k@),
    {
        proof { crate::json::lemma_jv_members(self.meta@); }
        match position(&self.meta, k) {
            Some(i) => {
                proof { crate::json::lemma_find_key_first(crate::json::jv_members(self.meta@), k@, i as int); }
                &self.meta[i].1
            },
            None => {
                proof { crate::json::lemma_find_key_none(crate::json::jv_members(self.meta@), k@); }
                &J::Null
            },
        }
    }

    /// Metadata value `k` as a `usize` (`x as usize` of its number); `default` when absent.
    pub fn num(&self, k: &str, default: usize) -> (r: usize)
        ensures r == self@.num(k@, default),
    {
        proof { crate::json::lemma_jv_members(self.meta@); }
        match position(&self.meta, k) {
            Some(i) => {
                proof { crate::json::lemma_find_key_first(crate::json::jv_members(self.meta@), k@, i as int); }
                usize_of_f64(self.meta[i].1.num())
            },
            None => {
                proof { crate::json::lemma_find_key_none(crate::json::jv_members(self.meta@), k@); }
                default
            },
        }
    }

    /// The directory entry named `k`.
    pub fn tensor(&self, k: &str) -> (r: Option<&Tensor>)
        ensures
            match self@.tensor(k@) {
                Some(t) => r matches Some(x) && x@ == t,
                None => r is None,
            },
    {
        match position(&self.tensors, k) {
            Some(i) => {
                proof { crate::json::lemma_find_key_first(tensor_views(self.tensors@), k@, i as int); }
                Some(&self.tensors[i].1)
            },
            None => {
                proof { crate::json::lemma_find_key_none(tensor_views(self.tensors@), k@); }
                None
            },
        }
    }

    /// The entry named `name` and its bytes in `file`, the file this header was read from.
    pub fn data<'a>(&'a self, file: &'a [u8], name: &str) -> (r: Result<(&'a Tensor, &'a [u8]), String>)
        requires
            self.wf(),
            file@.len() == self.size,
        ensures
            match self@.tensor(name@) {
                Some(t) => r matches Ok((x, bytes)) && x@ == t
                    && bytes@ == file@.subrange(t.offset as int, t.offset + t.len),
                None => r matches Err(m) && m@ == "missing tensor "@ + name@,
            },
    {
        match position(&self.tensors, name) {
            Some(i) => {
                proof { crate::json::lemma_find_key_first(tensor_views(self.tensors@), name@, i as int); }
                let t = &self.tensors[i].1;
                assert(t.offset + t.len <= self.size);
                Ok((t, vstd::slice::slice_subrange(file, t.offset, t.offset + t.len)))
            },
            None => {
                proof { crate::json::lemma_find_key_none(tensor_views(self.tensors@), name@); }
                let mut m = owned("missing tensor ");
                m.append(name);
                Err(m)
            },
        }
    }

    /// A summary of the file: names, architecture, context length and tensor count.
    pub fn info(&self) -> (r: J)
        ensures r@ == self@.info(),
    {
        let arch = self.get("general.architecture");
        let model = if str_eq(arch.str(), "openthai_systemone") {
            J::s("openthai-systemone")
        } else {
            self.get("laya.model_name").copy()
        };
        let max_len = self.num("openthai.context_length", self.num("laya.max_len", 512));
        let r = J::object(vec![
            ("name", self.get("general.name").copy()),
            ("model", model),
            ("architecture", arch.copy()),
            ("checkpoint", self.get("laya.checkpoint").copy()),
            ("max_len", J::Num(f64_of_u64(max_len as u64))),
            ("tensors", J::Num(f64_of_u64(self.tensors.len() as u64))),
            ("runtime", J::s("Goish Rust, no_std, CPU")),
        ]);
        proof {
            assert(r@->Obj_0 =~= self@.info()->Obj_0);
        }
        r
    }
}

} // verus!
