//! Character and string helpers.
use vstd::prelude::*;
use vstd::string::*;
use vstd::utf8::*;

verus! {

broadcast use vstd::utf8::encode_utf8_decode_utf8;

/// Sequences of strings by their characters.
pub open spec fn views(v: Seq<String>) -> Seq<Seq<char>> {
    Seq::new(v.len(), |i: int| v[i]@)
}

/// Whether two strings hold the same characters.
pub fn str_eq(a: &str, b: &str) -> (r: bool)
    ensures r == (a@ == b@),
{
    let x = a.as_bytes();
    let y = b.as_bytes();
    proof {
        assert(decode_utf8(encode_utf8(a@)) == a@);
        assert(decode_utf8(encode_utf8(b@)) == b@);
    }
    if x.len() != y.len() {
        return false;
    }
    let mut i: usize = 0;
    while i < x.len()
        invariant
            x@ == encode_utf8(a@),
            y@ == encode_utf8(b@),
            x@.len() == y@.len(),
            i <= x@.len(),
            forall|j: int| 0 <= j < i ==> x@[j] == y@[j],
        decreases x@.len() - i,
    {
        if x[i] != y[i] {
            return false;
        }
        i = i + 1;
    }
    assert(x@ =~= y@);
    true
}

/// A fresh `String` holding the characters of `s`.
pub fn owned(s: &str) -> (r: String)
    ensures r@ == s@,
{
    String::from_str(s)
}

/// Appends one character (`String::push`).
#[verifier::external_body]
pub(crate) fn push_char(s: &mut String, c: char)
    ensures final(s)@ == old(s)@.push(c),
{
    s.push(c);
}

/// A string of the given characters.
pub fn string_of_chars(cs: &[char]) -> (r: String)
    ensures r@ == cs@,
{
    let mut r = String::new();
    let mut i: usize = 0;
    while i < cs.len()
        invariant
            i <= cs@.len(),
            r@ == cs@.subrange(0, i as int),
        decreases cs@.len() - i,
    {
        push_char(&mut r, cs[i]);
        i = i + 1;
        assert(r@ =~= cs@.subrange(0, i as int));
    }
    assert(cs@.subrange(0, cs@.len() as int) =~= cs@);
    r
}

/// The characters of a string.
pub fn chars_of(s: &str) -> (r: Vec<char>)
    ensures r@ == s@,
{
    broadcast use vstd::string::group_string_axioms;
    let mut r: Vec<char> = Vec::new();
    for c in it: s.chars()
        invariant
            it.seq() == s@,
            r@ == s@.take(it.index() as int),
    {
        r.push(c);
        assert(r@ =~= s@.take(it.index() as int + 1));
    }
    assert(r@ =~= s@);
    r
}


/// The decimal digit character for `d < 10`.
pub open spec fn digit(d: nat) -> char {
    ((48 + d) as u32) as char
}

/// Decimal notation of a natural number, as `to_string` writes it.
pub open spec fn decimal(n: nat) -> Seq<char>
    decreases n,
{
    if n < 10 {
        seq![digit(n)]
    } else {
        decimal(n / 10) + seq![digit(n % 10)]
    }
}

/// Decimal notation of `n`.
pub fn decimal_string(n: u64) -> (r: String)
    ensures r@ == decimal(n as nat),
    decreases n,
{
    let d = ((48 + n % 10) as u8) as char;
    if n < 10 {
        let mut s = String::new();
        push_char(&mut s, d);
        assert(s@ =~= decimal(n as nat));
        s
    } else {
        let mut s = decimal_string(n / 10);
        push_char(&mut s, d);
        s
    }
}

/// `core::str::from_utf8`: the text of `b` when it is valid UTF-8.
#[verifier::external_body]
pub(crate) fn utf8(b: &[u8]) -> (r: Option<&str>)
    ensures
        match r {
            Some(s) => valid_utf8(b@) && s@ == decode_utf8(b@),
            None => !valid_utf8(b@),
        },
{
    core::str::from_utf8(b).ok()
}

/// Strict lexicographic order on byte strings (the order of `str` and `String`).
pub open spec fn bytes_lt(a: Seq<u8>, b: Seq<u8>) -> bool {
    exists|i: int|
        #![trigger a.subrange(0, i)]
        0 <= i <= a.len() && i <= b.len() && a.subrange(0, i) == b.subrange(0, i) && (
            (i == a.len() && i < b.len()) || (i < a.len() && i < b.len() && a[i] < b[i]))
}

/// Whether `a` sorts strictly before `b`.
pub fn bytes_less(a: &[u8], b: &[u8]) -> (r: bool)
    ensures r == bytes_lt(a@, b@),
{
    let mut i: usize = 0;
    while i < a.len() && i < b.len() && a[i] == b[i]
        invariant
            i <= a@.len(),
            i <= b@.len(),
            a@.subrange(0, i as int) == b@.subrange(0, i as int),
        decreases a@.len() - i,
    {
        assert(a@.subrange(0, i + 1) =~= a@.subrange(0, i as int).push(a@[i as int]));
        assert(b@.subrange(0, i + 1) =~= b@.subrange(0, i as int).push(b@[i as int]));
        i = i + 1;
    }
    let r = if i < a.len() && i < b.len() {
        a[i] < b[i]
    } else {
        i == a.len() && i < b.len()
    };
    proof {
        if r {
            assert(a@.subrange(0, i as int) == b@.subrange(0, i as int));
        } else {
            assert forall|k: int|
                0 <= k <= a@.len() && k <= b@.len() && #[trigger] a@.subrange(0, k) == b@.subrange(0, k)
                implies !((k == a@.len() && k < b@.len()) || (k < a@.len() && k < b@.len() && a@[k] < b@[k]))
            by {
                if k < i {
                    assert(a@[k] == a@.subrange(0, i as int)[k]);
                    assert(b@[k] == b@.subrange(0, i as int)[k]);
                } else if k > i {
                    assert(a@[i as int] == a@.subrange(0, k)[i as int]);
                    assert(b@[i as int] == b@.subrange(0, k)[i as int]);
                }
            }
        }
    }
    r
}


/// `char::from_u32`: the character whose scalar value is `u`, when `u` is a Unicode scalar
/// value (no surrogate, at most `0x10FFFF`).
#[verifier::external_body]
pub(crate) fn char_from(u: u32) -> (r: Option<char>)
    ensures
        r matches Some(c) ==> c as u32 == u,
        r is Some <==> (u < 0xD800 || (0xE000 <= u && u <= 0x10FFFF)),
{
    char::from_u32(u)
}

/// `bytes_lt` is transitive on byte strings of one length.
pub proof fn lemma_bytes_lt_trans(a: Seq<u8>, b: Seq<u8>, c: Seq<u8>)
    requires
        bytes_lt(a, b),
        bytes_lt(b, c),
        a.len() == b.len(),
        b.len() == c.len(),
    ensures bytes_lt(a, c),
{
    let i = choose|i: int|
        #![trigger a.subrange(0, i)]
        0 <= i <= a.len() && i <= b.len() && a.subrange(0, i) == b.subrange(0, i) && (
            (i == a.len() && i < b.len()) || (i < a.len() && i < b.len() && a[i] < b[i]));
    let j = choose|j: int|
        #![trigger b.subrange(0, j)]
        0 <= j <= b.len() && j <= c.len() && b.subrange(0, j) == c.subrange(0, j) && (
            (j == b.len() && j < c.len()) || (j < b.len() && j < c.len() && b[j] < c[j]));
    let k = if i < j { i } else { j };
    assert forall|m: int| 0 <= m < k implies a[m] == c[m] by {
        assert(a[m] == a.subrange(0, i)[m]);
        assert(b[m] == b.subrange(0, i)[m]);
        assert(b[m] == b.subrange(0, j)[m]);
        assert(c[m] == c.subrange(0, j)[m]);
    }
    if i < j {
        assert(b[i] == b.subrange(0, j)[i]);
        assert(c[i] == c.subrange(0, j)[i]);
    } else if j < i {
        assert(a[j] == a.subrange(0, i)[j]);
        assert(b[j] == b.subrange(0, i)[j]);
    }
    assert(a.subrange(0, k) =~= c.subrange(0, k));
}

proof fn lemma_bytes_lt_from(a: Seq<u8>, b: Seq<u8>, k: int)
    requires
        a.len() == b.len(),
        a != b,
        0 <= k <= a.len(),
        a.subrange(0, k) == b.subrange(0, k),
    ensures bytes_lt(a, b) || bytes_lt(b, a),
    decreases a.len() - k,
{
    if k == a.len() {
        assert(a =~= a.subrange(0, k));
        assert(b =~= b.subrange(0, k));
    } else if a[k] != b[k] {
        assert(b.subrange(0, k) == a.subrange(0, k));
    } else {
        assert(a.subrange(0, k + 1) =~= a.subrange(0, k).push(a[k]));
        assert(b.subrange(0, k + 1) =~= b.subrange(0, k).push(b[k]));
        lemma_bytes_lt_from(a, b, k + 1);
    }
}

/// Two different byte strings of one length are ordered one way or the other.
pub proof fn lemma_bytes_lt_total(a: Seq<u8>, b: Seq<u8>)
    requires
        a.len() == b.len(),
        a != b,
    ensures bytes_lt(a, b) || bytes_lt(b, a),
{
    assert(a.subrange(0, 0) =~= b.subrange(0, 0));
    lemma_bytes_lt_from(a, b, 0);
}

/// Whether `s` holds `p` at `i`.
pub open spec fn holds(s: Seq<char>, i: int, p: Seq<char>) -> bool {
    0 <= i && i + p.len() <= s.len() && s.subrange(i, i + p.len()) == p
}

/// `s[i..]` with every occurrence of the non-empty `p`, taken left to right without overlap,
/// replaced by `w`.
pub open spec fn replaced_from(s: Seq<char>, p: Seq<char>, w: Seq<char>, i: int) -> Seq<char>
    decreases s.len() - i,
{
    if i < 0 || i >= s.len() || p.len() == 0 {
        Seq::empty()
    } else if holds(s, i, p) {
        w + replaced_from(s, p, w, i + p.len())
    } else {
        seq![s[i]] + replaced_from(s, p, w, i + 1)
    }
}

/// `s[i..]` with `w` before every character.
pub open spec fn interleaved_from(s: Seq<char>, w: Seq<char>, i: int) -> Seq<char>
    decreases s.len() - i,
{
    if i < 0 || i >= s.len() {
        Seq::empty()
    } else {
        w + seq![s[i]] + interleaved_from(s, w, i + 1)
    }
}

/// `str::replace`: every occurrence of `p` in `s` replaced by `w`; an empty `p`
/// matches before every character and at the end.
pub open spec fn replaced(s: Seq<char>, p: Seq<char>, w: Seq<char>) -> Seq<char> {
    if p.len() == 0 {
        interleaved_from(s, w, 0) + w
    } else {
        replaced_from(s, p, w, 0)
    }
}

/// `s` with every occurrence of `p` replaced by `w`.
pub fn replace_all(s: &str, p: &str, w: &str) -> (r: String)
    ensures r@ == replaced(s@, p@, w@),
{
    let cs = chars_of(s);
    let ps = chars_of(p);
    let mut out = String::new();
    let mut i: usize = 0;
    let n = cs.len();
    let k = ps.len();
    while i < n
        invariant
            n == cs@.len(),
            k == ps@.len(),
            cs@ == s@,
            ps@ == p@,
            i <= n,
            (if k == 0 { interleaved_from(s@, w@, 0) } else { replaced_from(s@, p@, w@, 0) })
                == out@ + (if k == 0 { interleaved_from(s@, w@, i as int) } else { replaced_from(s@, p@, w@, i as int) }),
        decreases n - i,
    {
        let mut here = k > 0 && k <= n - i;
        let mut m: usize = 0;
        while here && m < k
            invariant
                n == cs@.len(),
                k == ps@.len(),
                here ==> k > 0 && i + k <= n,
                m <= k,
                forall|j: int| 0 <= j < m ==> cs@[i + j] == ps@[j],
                !here && k > 0 ==> !holds(cs@, i as int, ps@),
            decreases k - m + if here { 1int } else { 0int },
        {
            if cs[i + m] != ps[m] {
                assert(cs@.subrange(i as int, i + k)[m as int] == cs@[i + m]);
                here = false;
            } else {
                m = m + 1;
            }
        }
        let ghost o = out@;
        if here {
            assert(cs@.subrange(i as int, i + k) =~= ps@);
            out.append(w);
            assert(o + (w@ + replaced_from(s@, p@, w@, i + k)) =~= out@ + replaced_from(s@, p@, w@, i + k));
            i = i + k;
        } else {
            if k == 0 {
                out.append(w);
            }
            push_char(&mut out, cs[i]);
            proof {
                if k == 0 {
                    assert(o + (w@ + seq![cs@[i as int]] + interleaved_from(s@, w@, i + 1))
                        =~= out@ + interleaved_from(s@, w@, i + 1));
                } else {
                    assert(o + (seq![cs@[i as int]] + replaced_from(s@, p@, w@, i + 1))
                        =~= out@ + replaced_from(s@, p@, w@, i + 1));
                }
            }
            i = i + 1;
        }
    }
    if k == 0 {
        out.append(w);
    }
    assert(out@ + Seq::<char>::empty() =~= out@);
    out
}

/// Text is empty exactly when its UTF-8 encoding is.
pub proof fn lemma_utf8_empty(s: Seq<char>)
    ensures (encode_utf8(s).len() == 0) == (s.len() == 0),
{
    if s.len() > 0 {
        assert(encode_utf8(s) == encode_scalar(s[0] as u32) + encode_utf8(s.drop_first()));
    }
}

/// Whether `s` is empty.
pub fn is_empty_text(s: &str) -> (r: bool)
    ensures r == (s@.len() == 0),
{
    proof { lemma_utf8_empty(s@); }
    s.as_bytes().len() == 0
}

/// `s` without its leading whitespace.
pub open spec fn trim_start(s: Seq<char>) -> Seq<char>
    decreases s.len(),
{
    if s.len() > 0 && crate::unicode::white(s[0]) { trim_start(s.drop_first()) } else { s }
}

/// `s` without its trailing whitespace.
pub open spec fn trim_end(s: Seq<char>) -> Seq<char>
    decreases s.len(),
{
    if s.len() > 0 && crate::unicode::white(s.last()) { trim_end(s.drop_last()) } else { s }
}

/// `str::trim`: `s` without leading and trailing whitespace.
pub open spec fn trimmed(s: Seq<char>) -> Seq<char> {
    trim_end(trim_start(s))
}

proof fn lemma_trim_start(s: Seq<char>, i: int)
    requires
        0 <= i <= s.len(),
        forall|j: int| 0 <= j < i ==> #[trigger] crate::unicode::white(s[j]),
    ensures trim_start(s) == trim_start(s.subrange(i, s.len() as int)),
    decreases i,
{
    if i > 0 {
        assert(s.drop_first().subrange(i - 1, s.drop_first().len() as int) =~= s.subrange(i, s.len() as int));
        lemma_trim_start(s.drop_first(), i - 1);
    } else {
        assert(s.subrange(0, s.len() as int) =~= s);
    }
}

proof fn lemma_trim_end(s: Seq<char>, e: int)
    requires
        0 <= e <= s.len(),
        forall|j: int| e <= j < s.len() ==> #[trigger] crate::unicode::white(s[j]),
    ensures trim_end(s) == trim_end(s.subrange(0, e)),
    decreases s.len() - e,
{
    if e < s.len() {
        assert(s.drop_last().subrange(0, e) =~= s.subrange(0, e));
        lemma_trim_end(s.drop_last(), e);
    } else {
        assert(s.subrange(0, e) =~= s);
    }
}

/// `s` without leading and trailing whitespace.
pub fn trim(s: &str) -> (r: String)
    ensures r@ == trimmed(s@),
{
    let cs = chars_of(s);
    let mut a: usize = 0;
    while a < cs.len() && crate::unicode::is_white(cs[a])
        invariant
            cs@ == s@,
            a <= cs@.len(),
            forall|j: int| 0 <= j < a ==> #[trigger] crate::unicode::white(cs@[j]),
        decreases cs@.len() - a,
    {
        a = a + 1;
    }
    proof { lemma_trim_start(s@, a as int); }
    let ghost t = s@.subrange(a as int, s@.len() as int);
    assert(trim_start(t) == t);
    let mut e: usize = cs.len();
    while e > a && crate::unicode::is_white(cs[e - 1])
        invariant
            cs@ == s@,
            a <= e <= cs@.len(),
            t == s@.subrange(a as int, s@.len() as int),
            forall|j: int| e <= j < cs@.len() ==> #[trigger] crate::unicode::white(cs@[j]),
        decreases e,
    {
        e = e - 1;
    }
    proof {
        assert forall|j: int| e - a <= j < t.len() implies #[trigger] crate::unicode::white(t[j]) by {
            assert(t[j] == cs@[a + j]);
        }
        lemma_trim_end(t, e - a);
        let u = t.subrange(0, e - a);
        assert(u =~= s@.subrange(a as int, e as int));
        if u.len() > 0 {
            assert(u.last() == cs@[e - 1]);
        }
    }
    string_of_chars(vstd::slice::slice_subrange(cs.as_slice(), a, e))
}

/// Whether `s` holds the character `c`.
pub fn has_char(s: &str, c: char) -> (r: bool)
    ensures r == s@.contains(c),
{
    let cs = chars_of(s);
    let mut i: usize = 0;
    while i < cs.len()
        invariant
            cs@ == s@,
            i <= cs@.len(),
            forall|j: int| 0 <= j < i ==> cs@[j] != c,
        decreases cs@.len() - i,
    {
        if cs[i] == c {
            return true;
        }
        i = i + 1;
    }
    false
}

} // verus!
