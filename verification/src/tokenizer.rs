//! Byte-pair-encoding tokenizers read from GGUF metadata (GPT-2, Gemma and Qwen3 styles).
use vstd::prelude::*;
use vstd::hash_map::StringHashMap;
use vstd::utf8::{decode_utf8, encode_utf8};
use vstd::slice::{slice_subrange, slice_to_vec};
use crate::text::{views, bytes_lt, bytes_less, char_from, str_eq, chars_of, has_char,
    lemma_bytes_lt_total, lemma_bytes_lt_trans, owned, push_char, string_of_chars};
use crate::json::{J, JV};
use crate::gguf::{Gguf, GgufV};
use crate::pretok::{gpt2_end, gpt2_piece_end, lemma_gpt2_end, lemma_qwen_end, qwen_end, qwen_piece_end};
use crate::unicode::{nfc, to_nfc};

verus! {

/// The character that stands for byte `b` in byte-level vocabularies:
/// printable bytes stand for themselves, the others for 256, 257, ... in byte order.
pub open spec fn byte_char_code(b: u8) -> int {
    if b <= 32 {
        256 + b
    } else if b <= 126 {
        b as int
    } else if b <= 160 {
        256 + 33 + (b - 127)
    } else if b <= 172 {
        b as int
    } else if b == 173 {
        323int
    } else {
        b as int
    }
}

pub open spec fn byte_char(b: u8) -> char {
    (byte_char_code(b) as u32) as char
}


/// The key under which the merge of `a` and `b` is ranked: the merge rule's own text.
pub open spec fn pair_key(a: Seq<char>, b: Seq<char>) -> Seq<char> {
    a + seq![' '] + b
}

/// The rank of merging `a` with `b`: merge rules are "a b" with no space in `a`.
pub open spec fn rank(ranks: Map<Seq<char>, usize>, a: Seq<char>, b: Seq<char>) -> Option<usize> {
    if a.contains(' ') || !ranks.contains_key(pair_key(a, b)) {
        None
    } else {
        Some(ranks[pair_key(a, b)])
    }
}

/// The lowest-ranked adjacent pair among the first `n` pairs (leftmost on ties).
pub open spec fn best_pair(ranks: Map<Seq<char>, usize>, w: Seq<Seq<char>>, n: nat) -> Option<(usize, int)>
    decreases n,
{
    if n == 0 {
        None
    } else {
        let prev = best_pair(ranks, w, (n - 1) as nat);
        let i = n - 1;
        match rank(ranks, w[i], w[i + 1]) {
            Some(r) => match prev {
                Some((best, _)) => if r < best { Some((r, i)) } else { prev },
                None => Some((r, i)),
            },
            None => prev,
        }
    }
}

/// The pair that merging picks is a ranked adjacent pair whose rank no other ranked pair
/// among the first `n` beats, and every ranked pair before it ranks strictly higher; when no
/// pair is picked, none of them has a rank.
pub proof fn lemma_best_pair_lowest(ranks: Map<Seq<char>, usize>, w: Seq<Seq<char>>, n: nat)
    ensures
        match best_pair(ranks, w, n) {
            Some((rk, i)) => {
                &&& 0 <= i < n
                &&& rank(ranks, w[i], w[i + 1]) == Some(rk)
                &&& forall|j: int| 0 <= j < n && (#[trigger] rank(ranks, w[j], w[j + 1])) is Some
                        ==> rk <= rank(ranks, w[j], w[j + 1])->0
                &&& forall|j: int| 0 <= j < i && (#[trigger] rank(ranks, w[j], w[j + 1])) is Some
                        ==> rk < rank(ranks, w[j], w[j + 1])->0
            },
            None => forall|j: int| 0 <= j < n ==> (#[trigger] rank(ranks, w[j], w[j + 1])) is None,
        },
    decreases n,
{
    if n > 0 {
        lemma_best_pair_lowest(ranks, w, (n - 1) as nat);
    }
}

/// `w` with pieces `i` and `i + 1` joined.
pub open spec fn merge_at(w: Seq<Seq<char>>, i: int) -> Seq<Seq<char>> {
    w.subrange(0, i) + seq![w[i] + w[i + 1]] + w.subrange(i + 2, w.len() as int)
}

/// Byte-pair merging: join the best-ranked pair until no pair has a rank.
pub open spec fn bpe_merge(ranks: Map<Seq<char>, usize>, w: Seq<Seq<char>>) -> Seq<Seq<char>>
    decreases w.len(),
{
    if w.len() <= 1 {
        w
    } else {
        match best_pair(ranks, w, (w.len() - 1) as nat) {
            Some((_, i)) => {
                if 0 <= i < w.len() - 1 { bpe_merge(ranks, merge_at(w, i)) } else { w }
            },
            None => w,
        }
    }
}

/// Joining two neighbours spells the same text.
proof fn lemma_merge_keeps_text(w: Seq<Seq<char>>, i: int)
    requires 0 <= i < w.len() - 1,
    ensures merge_at(w, i).flatten() == w.flatten(), merge_at(w, i).len() == w.len() - 1,
{
    let pre = w.subrange(0, i);
    let rest = w.subrange(i + 2, w.len() as int);
    let pair = seq![w[i], w[i + 1]];
    let one = seq![w[i] + w[i + 1]];
    assert(w =~= pre + (pair + rest));
    assert(merge_at(w, i) =~= pre + (one + rest));
    vstd::seq_lib::lemma_flatten_concat(pre, pair + rest);
    vstd::seq_lib::lemma_flatten_concat(pair, rest);
    vstd::seq_lib::lemma_flatten_concat(pre, one + rest);
    vstd::seq_lib::lemma_flatten_concat(one, rest);
    assert(pair.drop_first() =~= seq![w[i + 1]]);
    assert(seq![w[i + 1]].drop_first() =~= Seq::<Seq<char>>::empty());
    assert(one.drop_first() =~= Seq::<Seq<char>>::empty());
    let last = seq![w[i + 1]];
    assert(Seq::<Seq<char>>::empty().flatten() == Seq::<char>::empty());
    assert(last.flatten() == last.first() + last.drop_first().flatten());
    assert(pair.flatten() == pair.first() + pair.drop_first().flatten());
    assert(one.flatten() == one.first() + one.drop_first().flatten());
    assert(pair.flatten() =~= w[i] + w[i + 1]);
    assert(one.flatten() =~= w[i] + w[i + 1]);
}

/// Byte-pair merging never changes the text: the merged pieces spell what the pieces spelled,
/// and there are no more of them.
pub proof fn lemma_bpe_keeps_text(ranks: Map<Seq<char>, usize>, w: Seq<Seq<char>>)
    ensures
        bpe_merge(ranks, w).flatten() == w.flatten(),
        bpe_merge(ranks, w).len() <= w.len(),
    decreases w.len(),
{
    if w.len() > 1 {
        match best_pair(ranks, w, (w.len() - 1) as nat) {
            Some((_, i)) => {
                if 0 <= i < w.len() - 1 {
                    lemma_merge_keeps_text(w, i);
                    lemma_bpe_keeps_text(ranks, merge_at(w, i));
                }
            },
            None => {},
        }
    }
}

pub open spec fn hex_digit(d: int) -> char {
    if d < 10 { ((48 + d) as u32) as char } else { ((55 + d) as u32) as char }
}

/// The name of a byte-fallback token, `<0xAB>`.
pub open spec fn hex_name(b: u8) -> Seq<char> {
    "<0x"@ + seq![hex_digit(b as int / 16), hex_digit(b as int % 16)] + ">"@
}

/// `r` with `d` put in front of its ids.
pub open spec fn prefixed(d: Seq<usize>, r: Result<Seq<usize>, Seq<char>>) -> Result<Seq<usize>, Seq<char>> {
    match r {
        Ok(ids) => Ok(d + ids),
        Err(e) => Err(e),
    }
}

/// The ids of `a` followed by those of `b`; the first error otherwise.
pub open spec fn joined(a: Result<Seq<usize>, Seq<char>>, b: Result<Seq<usize>, Seq<char>>) -> Result<Seq<usize>, Seq<char>> {
    match a {
        Ok(x) => prefixed(x, b),
        Err(e) => Err(e),
    }
}

/// A step that appends to `out`: on success the ids were appended; on failure the message is
/// returned, and the ids appended before the failure stay after the old contents.
pub open spec fn appended(spec: Result<Seq<usize>, Seq<char>>, r: Result<(), String>, before: Seq<usize>, after: Seq<usize>) -> bool {
    match spec {
        Ok(ids) => r is Ok && after == before + ids,
        Err(e) => r matches Err(m) && m@ == e && before.is_prefix_of(after),
    }
}

pub proof fn lemma_prefixed_push(d: Seq<usize>, id: usize, r: Result<Seq<usize>, Seq<char>>)
    ensures prefixed(d, prefixed(seq![id], r)) == prefixed(d.push(id), r),
{
    if let Ok(ids) = r {
        assert(d + (seq![id] + ids) =~= d.push(id) + ids);
    }
}

pub proof fn lemma_prefixed_cat(d: Seq<usize>, x: Seq<usize>, r: Result<Seq<usize>, Seq<char>>)
    ensures prefixed(d, prefixed(x, r)) == prefixed(d + x, r),
{
    if let Ok(ids) = r {
        assert(d + (x + ids) =~= (d + x) + ids);
    }
}

/// The byte-level word of `bs`: each byte as the one-character piece standing for it.
pub open spec fn byte_word(bs: Seq<u8>) -> Seq<Seq<char>> {
    Seq::new(bs.len(), |j: int| seq![byte_char(bs[j])])
}

/// Each character as a piece of its own.
pub open spec fn singles(cs: Seq<char>) -> Seq<Seq<char>> {
    Seq::new(cs.len(), |j: int| seq![cs[j]])
}

/// The word-boundary mark of SentencePiece vocabularies, `▁` (U+2581).
pub open spec fn mark() -> char {
    '\u{2581}'
}

/// Text as Gemma sees it: spaces become marks and a mark leads.
pub open spec fn gemma_text(s: Seq<char>) -> Seq<char> {
    let m = s.map_values(|c: char| if c == ' ' { mark() } else { c });
    if m.len() > 0 && m[0] == mark() { m } else { seq![mark()] + m }
}

/// The first mark at or after `j`; the end of `cs` when there is none.
pub open spec fn next_mark(cs: Seq<char>, j: int) -> int
    decreases cs.len() - j,
{
    if j >= cs.len() { cs.len() as int } else if cs[j] == mark() { j } else { next_mark(cs, j + 1) }
}

pub proof fn lemma_next_mark(cs: Seq<char>, j: int)
    requires 0 <= j <= cs.len(),
    ensures
        j <= next_mark(cs, j) <= cs.len(),
        forall|m: int| j <= m < next_mark(cs, j) ==> cs[m] != mark(),
        next_mark(cs, j) < cs.len() ==> cs[next_mark(cs, j)] == mark(),
    decreases cs.len() - j,
{
    if j < cs.len() && cs[j] != mark() {
        lemma_next_mark(cs, j + 1);
    }
}

/// Ids of Gemma text `cs[i..]`, one word per mark.
pub open spec fn gemma_ids(t: TokenizerV, cs: Seq<char>, i: int) -> Result<Seq<usize>, Seq<char>>
    decreases cs.len() - i,
{
    if i < 0 || i >= cs.len() {
        Ok(Seq::empty())
    } else {
        let e = next_mark(cs, i + 1);
        proof { lemma_next_mark(cs, i + 1); }
        joined(bpe_ids(t, singles(cs.subrange(i, e))), gemma_ids(t, cs, e))
    }
}

/// Ids of GPT-2 pre-tokenized bytes `b[i..]`.
pub open spec fn gpt2_ids(t: TokenizerV, b: Seq<u8>, i: int) -> Result<Seq<usize>, Seq<char>>
    decreases b.len() - i,
{
    if i < 0 || i >= b.len() {
        Ok(Seq::empty())
    } else {
        let e = gpt2_end(b, i);
        proof { lemma_gpt2_end(b, i); }
        joined(bpe_ids(t, byte_word(b.subrange(i, e))), gpt2_ids(t, b, e))
    }
}

/// Ids of Qwen pre-tokenized characters `cs[i..]`.
pub open spec fn qwen_ids(t: TokenizerV, cs: Seq<char>, i: int) -> Result<Seq<usize>, Seq<char>>
    decreases cs.len() - i,
{
    if i < 0 || i >= cs.len() {
        Ok(Seq::empty())
    } else {
        proof { lemma_qwen_end(cs, i); }
        match qwen_end(cs, i) {
            None => Err("unsupported Qwen pretokenization character"@),
            Some(e) => joined(bpe_ids(t, byte_word(encode_utf8(cs.subrange(i, e)))), qwen_ids(t, cs, e)),
        }
    }
}

/// Ids of text holding no special token, by the tokenizer's style.
#[verifier::opaque]
pub open spec fn normal_ids(t: TokenizerV, s: Seq<char>) -> Result<Seq<usize>, Seq<char>> {
    if t.qwen {
        qwen_ids(t, nfc(s), 0)
    } else if t.gemma {
        gemma_ids(t, gemma_text(s), 0)
    } else {
        gpt2_ids(t, encode_utf8(s), 0)
    }
}

pub proof fn lemma_joined_step(d: Seq<usize>, a: Result<Seq<usize>, Seq<char>>, rest: Result<Seq<usize>, Seq<char>>)
    ensures
        a matches Ok(x) ==> prefixed(d, joined(a, rest)) == prefixed(d + x, rest),
        a matches Err(e) ==> prefixed(d, joined(a, rest)) == Err::<Seq<usize>, Seq<char>>(e),
{
    if let Ok(x) = a {
        lemma_prefixed_cat(d, x, rest);
    }
}

/// Whether `cs` holds `w` at `p`.
pub open spec fn occurs_at(cs: Seq<char>, p: int, w: Seq<char>) -> bool {
    0 <= p && p + w.len() <= cs.len() && cs.subrange(p, p + w.len()) == w
}

/// The first position at or after `p` where `cs` holds `w`.
pub open spec fn first_from(cs: Seq<char>, w: Seq<char>, p: int) -> Option<int>
    decreases cs.len() + 1 - p,
{
    if p < 0 || p + w.len() > cs.len() {
        None
    } else if occurs_at(cs, p, w) {
        Some(p)
    } else {
        first_from(cs, w, p + 1)
    }
}

/// The earliest match at or after `pos` among the first `n` special tokens,
/// as (position, index); on equal positions the one listed first.
pub open spec fn earliest(sp: Seq<(Seq<char>, usize)>, cs: Seq<char>, pos: int, n: nat) -> Option<(int, int)>
    decreases n,
{
    if n == 0 {
        None
    } else {
        let prev = earliest(sp, cs, pos, (n - 1) as nat);
        match first_from(cs, sp[n - 1].0, pos) {
            None => prev,
            Some(p) => match prev {
                Some((q, _)) => if p < q { Some((p, n - 1)) } else { prev },
                None => Some((p, n - 1)),
            },
        }
    }
}

pub proof fn lemma_first_from(cs: Seq<char>, w: Seq<char>, p: int)
    ensures first_from(cs, w, p) matches Some(q) ==> p <= q && occurs_at(cs, q, w),
    decreases cs.len() + 1 - p,
{
    if !(p < 0 || p + w.len() > cs.len()) && !occurs_at(cs, p, w) {
        lemma_first_from(cs, w, p + 1);
    }
}

pub proof fn lemma_earliest(sp: Seq<(Seq<char>, usize)>, cs: Seq<char>, pos: int, n: nat)
    requires n <= sp.len(),
    ensures earliest(sp, cs, pos, n) matches Some((p, k)) ==> 0 <= k < n && pos <= p && occurs_at(cs, p, sp[k].0),
    decreases n,
{
    if n > 0 {
        lemma_earliest(sp, cs, pos, (n - 1) as nat);
        lemma_first_from(cs, sp[n - 1].0, pos);
    }
}

/// No special token is empty (an empty one would match everywhere without progress).
pub open spec fn specials_ok(t: TokenizerV) -> bool {
    forall|k: int| 0 <= k < t.special.len() ==> #[trigger] t.special[k].0.len() > 0
}

/// Ids of `cs[pos..]`: the text up to the earliest special token, that token's id, and so on.
pub open spec fn encode_from(t: TokenizerV, cs: Seq<char>, pos: int) -> Result<Seq<usize>, Seq<char>>
    decreases cs.len() - pos when specials_ok(t)
{
    if pos < 0 || pos >= cs.len() {
        Ok(Seq::empty())
    } else {
        proof { lemma_earliest(t.special, cs, pos, t.special.len()); }
        match earliest(t.special, cs, pos, t.special.len()) {
            None => normal_ids(t, cs.subrange(pos, cs.len() as int)),
            Some((p, k)) => joined(
                normal_ids(t, cs.subrange(pos, p)),
                prefixed(seq![t.special[k].1], encode_from(t, cs, p + t.special[k].0.len())),
            ),
        }
    }
}

/// Token ids of a text, or why it cannot be encoded.
pub open spec fn encode_spec(t: TokenizerV, s: Seq<char>) -> Result<Seq<usize>, Seq<char>> {
    if encode_utf8(s).len() > 1048576 {
        Err("text exceeds 1 MiB"@)
    } else {
        encode_from(t, s, 0)
    }
}

/// UTF-8 encoding distributes over concatenation.
proof fn lemma_utf8_concat(x: Seq<char>, y: Seq<char>)
    ensures encode_utf8(x + y) == encode_utf8(x) + encode_utf8(y),
    decreases x.len(),
{
    if x.len() == 0 {
        assert(x + y =~= y);
        assert(encode_utf8(x) + encode_utf8(y) =~= encode_utf8(y));
    } else {
        assert((x + y).drop_first() =~= x.drop_first() + y);
        assert((x + y)[0] == x[0]);
        lemma_utf8_concat(x.drop_first(), y);
        assert(encode_utf8(x + y) =~= encode_utf8(x) + encode_utf8(y));
    }
}

/// The first match of `w` at or after `p` comes no later than any match at `r >= p`.
proof fn lemma_first_from_min(cs: Seq<char>, w: Seq<char>, p: int, r: int)
    requires 0 <= p <= r, occurs_at(cs, r, w),
    ensures first_from(cs, w, p) matches Some(q) && q <= r,
    decreases r - p,
{
    if !occurs_at(cs, p, w) {
        lemma_first_from_min(cs, w, p + 1, r);
    }
}

/// Searching `cs` from `p` is searching its suffix from `pos` at `p - pos`.
proof fn lemma_first_from_shift(cs: Seq<char>, w: Seq<char>, pos: int, p: int)
    requires 0 <= pos <= p, pos <= cs.len(),
    ensures
        first_from(cs, w, p) == (match first_from(cs.subrange(pos, cs.len() as int), w, p - pos) {
            Some(q) => Some(q + pos),
            None => None,
        }),
    decreases cs.len() + 1 - p,
{
    let d = cs.subrange(pos, cs.len() as int);
    if !(p + w.len() > cs.len()) {
        assert(occurs_at(cs, p, w) == occurs_at(d, p - pos, w)) by {
            assert(cs.subrange(p, p + w.len()) =~= d.subrange(p - pos, p - pos + w.len()));
        }
        if !occurs_at(cs, p, w) {
            lemma_first_from_shift(cs, w, pos, p + 1);
        }
    }
}

/// The earliest special token of `cs` from `p` is that of its suffix from `pos`, shifted.
proof fn lemma_earliest_shift(sp: Seq<(Seq<char>, usize)>, cs: Seq<char>, pos: int, p: int, n: nat)
    requires 0 <= pos <= p, pos <= cs.len(), n <= sp.len(),
    ensures
        earliest(sp, cs, p, n) == (match earliest(sp, cs.subrange(pos, cs.len() as int), p - pos, n) {
            Some((q, k)) => Some((q + pos, k)),
            None => None,
        }),
    decreases n,
{
    if n > 0 {
        lemma_earliest_shift(sp, cs, pos, p, (n - 1) as nat);
        lemma_first_from_shift(cs, sp[n - 1].0, pos, p);
    }
}

/// Encoding `cs` from `p` is encoding its suffix from `pos` from `p - pos`.
proof fn lemma_encode_from_shift(t: TokenizerV, cs: Seq<char>, pos: int, p: int)
    requires specials_ok(t), 0 <= pos <= p, pos <= cs.len(),
    ensures encode_from(t, cs, p) == encode_from(t, cs.subrange(pos, cs.len() as int), p - pos),
    decreases cs.len() - p,
{
    let d = cs.subrange(pos, cs.len() as int);
    if p < cs.len() {
        lemma_earliest_shift(t.special, cs, pos, p, t.special.len());
        lemma_earliest(t.special, cs, p, t.special.len());
        match earliest(t.special, cs, p, t.special.len()) {
            None => {
                assert(cs.subrange(p, cs.len() as int) =~= d.subrange(p - pos, d.len() as int));
            },
            Some((q, k)) => {
                assert(cs.subrange(p, q) =~= d.subrange(p - pos, q - pos));
                lemma_encode_from_shift(t, cs, pos, q + t.special[k].0.len());
            },
        }
    }
}

/// When no special token starts in `cs` at `p` or later, the rest is plain text.
proof fn lemma_earliest_none(sp: Seq<(Seq<char>, usize)>, cs: Seq<char>, p: int, n: nat)
    requires
        n <= sp.len(),
        forall|j: int, q: int| 0 <= j < n && p <= q ==> !#[trigger] occurs_at(cs, q, sp[j].0),
    ensures earliest(sp, cs, p, n) is None,
    decreases n,
{
    if n > 0 {
        lemma_earliest_none(sp, cs, p, (n - 1) as nat);
        lemma_first_from(cs, sp[n - 1].0, p);
    }
}

/// With no special token starting before `m`, none listed before `k` starting at `m`, and `k`
/// starting at `m`, the earliest match among the first `n` entries is `k` at `m` once `k` is
/// among them, and lies past `m` before.
proof fn lemma_earliest_at(sp: Seq<(Seq<char>, usize)>, cs: Seq<char>, m: int, k: int, n: nat)
    requires
        0 <= m,
        0 <= k < sp.len(),
        n <= sp.len(),
        forall|j: int, q: int| 0 <= j < sp.len() && 0 <= q < m ==> !#[trigger] occurs_at(cs, q, sp[j].0),
        forall|j: int| 0 <= j < k ==> !#[trigger] occurs_at(cs, m, sp[j].0),
        occurs_at(cs, m, sp[k].0),
    ensures
        n <= k ==> (earliest(sp, cs, 0, n) matches Some((q, _)) ==> q > m),
        n > k ==> earliest(sp, cs, 0, n) == Some((m, k)),
    decreases n,
{
    if n > 0 {
        let j = n - 1;
        lemma_earliest_at(sp, cs, m, k, (n - 1) as nat);
        lemma_first_from(cs, sp[j].0, 0);
        if let Some(f) = first_from(cs, sp[j].0, 0) {
            if f < m {
                assert(!occurs_at(cs, f, sp[j].0));
            }
            if j < k && f == m {
                assert(!occurs_at(cs, m, sp[j].0));
            }
        }
        if j == k {
            lemma_first_from_min(cs, sp[k].0, 0, m);
        }
    }
}

/// Text splits at its leftmost special token, and among those starting there at the one listed
/// first (the longest): the ids are those of the text before it, the token's id, then the ids of
/// the text after it. Text before the token that is not empty encodes as plain text.
pub proof fn lemma_special_split(t: TokenizerV, a: Seq<char>, b: Seq<char>, k: int)
    requires
        specials_ok(t),
        0 <= k < t.special.len(),
        encode_utf8(a + t.special[k].0 + b).len() <= 1048576,
        forall|j: int, q: int| 0 <= j < t.special.len() && 0 <= q < a.len() ==>
            !#[trigger] occurs_at(a + t.special[k].0 + b, q, t.special[j].0),
        forall|j: int| 0 <= j < k ==> !#[trigger] occurs_at(a + t.special[k].0 + b, a.len() as int, t.special[j].0),
    ensures
        encode_spec(t, a + t.special[k].0 + b)
            == joined(normal_ids(t, a), prefixed(seq![t.special[k].1], encode_spec(t, b))),
        a.len() > 0 ==> encode_spec(t, a) == normal_ids(t, a),
{
    let tok = t.special[k].0;
    let s = a + tok + b;
    let m = a.len() as int;
    let e = m + tok.len();
    lemma_utf8_concat(a + tok, b);
    lemma_utf8_concat(a, tok);
    assert(s.subrange(m, e) =~= tok);
    assert(occurs_at(s, m, tok));
    lemma_earliest_at(t.special, s, m, k, t.special.len());
    assert(s.subrange(0, m) =~= a);
    assert(s.subrange(e, s.len() as int) =~= b);
    lemma_encode_from_shift(t, s, e, e);
    assert(encode_from(t, s, 0) == joined(normal_ids(t, a), prefixed(seq![t.special[k].1], encode_from(t, s, e))));
    if a.len() > 0 {
        assert forall|j: int, q: int| 0 <= j < t.special.len() && 0 <= q implies
            !#[trigger] occurs_at(a, q, t.special[j].0) by {
            if occurs_at(a, q, t.special[j].0) {
                assert(q < m);
                assert(a.subrange(q, q + t.special[j].0.len()) =~= s.subrange(q, q + t.special[j].0.len()));
                assert(occurs_at(s, q, t.special[j].0));
            }
        }
        lemma_earliest_none(t.special, a, 0, t.special.len());
        assert(a.subrange(0, a.len() as int) =~= a);
    }
}

/// The vocabulary of the first `n` tokens: each token's text to its last index.
pub open spec fn vocab_upto(tokens: Seq<JV>, n: nat) -> Map<Seq<char>, usize>
    decreases n,
{
    if n == 0 {
        Map::empty()
    } else {
        vocab_upto(tokens, (n - 1) as nat).insert(tokens[n - 1].text(), (n - 1) as usize)
    }
}

/// The merge ranks of the first `n` merge rules: each rule holding a space, to its last index.
pub open spec fn ranks_upto(merges: Seq<JV>, n: nat) -> Map<Seq<char>, usize>
    decreases n,
{
    if n == 0 {
        Map::empty()
    } else if merges[n - 1].text().contains(' ') {
        ranks_upto(merges, (n - 1) as nat).insert(merges[n - 1].text(), (n - 1) as usize)
    } else {
        ranks_upto(merges, (n - 1) as nat)
    }
}

/// A token written `<...>` or `[...]`, three bytes or more.
pub open spec fn bracketed(s: Seq<char>) -> bool {
    encode_utf8(s).len() >= 3 && (
        (s[0] == '<' && s[s.len() - 1] == '>') || (s[0] == '[' && s[s.len() - 1] == ']'))
}

/// Token type 3 (control) or 4 (user-defined), as binary64 values.
pub open spec fn control_type(types: Seq<JV>, id: int) -> bool {
    0 <= id < types.len() && (types[id].num() == 0x4008_0000_0000_0000u64
        || types[id].num() == 0x4010_0000_0000_0000u64)
}

/// The tokenizer style named in the file.
pub open spec fn pre_name(g: GgufV) -> Seq<char> {
    g.get("tokenizer.ggml.pre"@).text()
}

pub open spec fn tokens_of(g: GgufV) -> Seq<JV> {
    g.get("tokenizer.ggml.tokens"@).items()
}

pub open spec fn merges_of(g: GgufV) -> Seq<JV> {
    g.get("tokenizer.ggml.merges"@).items()
}

/// Whether vocabulary entry `tok` (with id `id`) is matched as a special token:
/// for Qwen by its token type, otherwise by its brackets.
pub open spec fn special_entry(qwen: bool, types: Seq<JV>, tok: Seq<char>, id: usize) -> bool {
    if qwen { control_type(types, id as int) } else { bracketed(tok) }
}

pub open spec fn is_special(g: GgufV, tok: Seq<char>, id: usize) -> bool {
    special_entry(pre_name(g) == "qwen3"@, g.get("tokenizer.ggml.token_type"@).items(), tok, id)
}

/// Values of a sequence of JSON values.
pub open spec fn jvs(s: Seq<J>) -> Seq<JV> {
    Seq::new(s.len(), |i: int| s[i]@)
}

/// Longer tokens (in bytes) first; equal lengths in byte order.
pub open spec fn special_before(a: Seq<char>, b: Seq<char>) -> bool {
    let x = encode_utf8(a);
    let y = encode_utf8(b);
    x.len() > y.len() || (x.len() == y.len() && bytes_lt(x, y))
}

/// Strictly ordered by `special_before`.
pub open spec fn sorted_special(sp: Seq<(Seq<char>, usize)>) -> bool {
    forall|i: int, j: int| 0 <= i < j < sp.len() ==> special_before(#[trigger] sp[i].0, #[trigger] sp[j].0)
}

/// `sp` lists exactly the special vocabulary entries, in `special_before` order.
pub open spec fn special_list(g: GgufV, vocab: Map<Seq<char>, usize>, sp: Seq<(Seq<char>, usize)>) -> bool {
    &&& forall|i: int| 0 <= i < sp.len() ==> vocab.contains_key(#[trigger] sp[i].0)
        && sp[i].1 == vocab[sp[i].0] && is_special(g, sp[i].0, sp[i].1)
    &&& forall|tok: Seq<char>| vocab.contains_key(tok) && is_special(g, tok, vocab[tok])
        ==> exists|i: int| 0 <= i < sp.len() && #[trigger] sp[i].0 == tok
    &&& sorted_special(sp)
}

/// Why a tokenizer cannot be read from `g`, if it cannot.
pub open spec fn tokenizer_error(g: GgufV) -> Option<Seq<char>> {
    let pre = pre_name(g);
    if pre != "gpt2"@ && pre != "gemma"@ && pre != "qwen3"@ {
        Some("unsupported tokenizer "@ + pre)
    } else if tokens_of(g).len() == 0 {
        Some("missing vocabulary"@)
    } else if g.num("laya.mask_token_id"@, 50284) >= tokens_of(g).len() {
        Some("mask ID outside vocabulary"@)
    } else {
        None
    }
}

/// The tokenizer that the metadata of `g` describes.
pub open spec fn tokenizer_of(g: GgufV, t: TokenizerV) -> bool {
    &&& t.vocab == vocab_upto(tokens_of(g), tokens_of(g).len())
    &&& t.ranks == ranks_upto(merges_of(g), merges_of(g).len())
    &&& special_list(g, t.vocab, t.special)
    &&& t.mask == tokens_of(g)[g.num("laya.mask_token_id"@, 50284)].text()
    &&& t.gemma == (pre_name(g) == "gemma"@)
    &&& t.qwen == (pre_name(g) == "qwen3"@)
}

pub proof fn lemma_vocab_upto(tokens: Seq<JV>, n: nat)
    requires n <= tokens.len() <= usize::MAX,
    ensures
        forall|k: Seq<char>| #[trigger] vocab_upto(tokens, n).contains_key(k) ==>
            vocab_upto(tokens, n)[k] < n && tokens[vocab_upto(tokens, n)[k] as int].text() == k,
        forall|m: int| 0 <= m < n ==> #[trigger] vocab_upto(tokens, n).contains_key(tokens[m].text()),
    decreases n,
{
    if n > 0 {
        lemma_vocab_upto(tokens, (n - 1) as nat);
        let prev = vocab_upto(tokens, (n - 1) as nat);
        let cur = vocab_upto(tokens, n);
        let last = tokens[n - 1].text();
        assert(cur == prev.insert(last, (n - 1) as usize));
        assert forall|k: Seq<char>| #[trigger] cur.contains_key(k) implies
            cur[k] < n && tokens[cur[k] as int].text() == k by {
            if k != last {
                assert(prev.contains_key(k));
            }
        }
        assert forall|m: int| 0 <= m < n implies #[trigger] cur.contains_key(tokens[m].text()) by {
            if m < n - 1 {
                assert(prev.contains_key(tokens[m].text()));
            }
        }
    }
}

pub proof fn lemma_special_before_trans(a: Seq<char>, b: Seq<char>, c: Seq<char>)
    requires special_before(a, b), special_before(b, c),
    ensures special_before(a, c),
{
    let (x, y, z) = (encode_utf8(a), encode_utf8(b), encode_utf8(c));
    if x.len() == y.len() && y.len() == z.len() {
        lemma_bytes_lt_trans(x, y, z);
    }
}

pub proof fn lemma_special_before_total(a: Seq<char>, b: Seq<char>)
    requires a != b,
    ensures special_before(a, b) || special_before(b, a),
{
    let (x, y) = (encode_utf8(a), encode_utf8(b));
    vstd::utf8::encode_utf8_decode_utf8(a);
    vstd::utf8::encode_utf8_decode_utf8(b);
    if x.len() == y.len() {
        lemma_bytes_lt_total(x, y);
    }
}

/// A tokenizer's vocabulary, merge ranks, special tokens and style.
pub struct TokenizerV {
    pub vocab: Map<Seq<char>, usize>,
    pub ranks: Map<Seq<char>, usize>,
    pub special: Seq<(Seq<char>, usize)>,
    pub mask: Seq<char>,
    pub gemma: bool,
    pub qwen: bool,
}

/// Token ids of the byte-fallback tokens of `bs[k..]`.
pub open spec fn fallback_ids(t: TokenizerV, bs: Seq<u8>, k: int) -> Result<Seq<usize>, Seq<char>>
    decreases bs.len() - k,
{
    if k >= bs.len() {
        Ok(Seq::empty())
    } else if !t.vocab.contains_key(hex_name(bs[k])) {
        Err("missing byte fallback"@)
    } else {
        prefixed(seq![t.vocab[hex_name(bs[k])]], fallback_ids(t, bs, k + 1))
    }
}

/// Token ids of the pieces `ps[k..]`.
pub open spec fn piece_ids(t: TokenizerV, ps: Seq<Seq<char>>, k: int) -> Result<Seq<usize>, Seq<char>>
    decreases ps.len() - k,
{
    if k >= ps.len() {
        Ok(Seq::empty())
    } else {
        let here = if t.vocab.contains_key(ps[k]) {
            Ok(seq![t.vocab[ps[k]]])
        } else if t.gemma {
            fallback_ids(t, encode_utf8(ps[k]), 0)
        } else {
            Err("missing BPE piece "@ + ps[k])
        };
        joined(here, piece_ids(t, ps, k + 1))
    }
}

/// Token ids of one pre-tokenized word.
pub open spec fn bpe_ids(t: TokenizerV, w: Seq<Seq<char>>) -> Result<Seq<usize>, Seq<char>> {
    piece_ids(t, bpe_merge(t.ranks, w), 0)
}

pub struct Tokenizer {
    vocab: StringHashMap<usize>,
    ranks: StringHashMap<usize>,
    bytes: Vec<String>,
    special: Vec<(Vec<char>, usize)>,
    pub mask: String,
    gemma: bool,
    qwen: bool,
}

impl View for Tokenizer {
    type V = TokenizerV;

    closed spec fn view(&self) -> TokenizerV {
        TokenizerV {
            vocab: self.vocab@,
            ranks: self.ranks@,
            special: Seq::new(self.special@.len(), |i: int| (self.special@[i].0@, self.special@[i].1)),
            mask: self.mask@,
            gemma: self.gemma,
            qwen: self.qwen,
        }
    }
}

impl Tokenizer {
    /// The byte table holds the character of each byte.
    pub closed spec fn wf(&self) -> bool {
        &&& self.bytes@.len() == 256
        &&& forall|b: int| 0 <= b < 256 ==> #[trigger] self.bytes@[b]@ == seq![byte_char(b as u8)]
    }
}

fn hex_char(d: u8) -> (c: char)
    requires d < 16,
    ensures c == hex_digit(d as int),
{
    if d < 10 { (48 + d) as char } else { (55 + d) as char }
}

/// `<0xAB>` for byte `b`.
fn hex_token(b: u8) -> (s: String)
    ensures s@ == hex_name(b),
{
    let mut s = owned("<0x");
    push_char(&mut s, hex_char(b / 16));
    push_char(&mut s, hex_char(b % 16));
    s.append(">");
    proof {
        reveal_strlit("<0x");
        reveal_strlit(">");
    }
    assert(s@ =~= hex_name(b));
    s
}

impl Tokenizer {
    /// The rank of merging `a` with `b`.
    fn rank_of(&self, a: &String, b: &String) -> (r: Option<usize>)
        ensures r == rank(self@.ranks, a@, b@),
    {
        if has_char(a.as_str(), ' ') {
            return None;
        }
        let mut key = a.clone();
        key.append(" ");
        key.append(b.as_str());
        proof { reveal_strlit(" "); }
        assert(key@ =~= pair_key(a@, b@));
        match self.ranks.get(key.as_str()) {
            Some(r) => Some(*r),
            None => None,
        }
    }

    /// Ids of the byte-fallback tokens of `bs`, appended to `out`.
    fn fallback(&self, bs: &[u8], out: &mut Vec<usize>) -> (r: Result<(), String>)
        ensures appended(fallback_ids(self@, bs@, 0), r, old(out)@, final(out)@),
    {
        let mut k: usize = 0;
        let ghost done: Seq<usize> = Seq::empty();
        while k < bs.len()
            invariant
                k <= bs@.len(),
                out@ == old(out)@ + done,
                fallback_ids(self@, bs@, 0) == prefixed(done, fallback_ids(self@, bs@, k as int)),
            decreases bs@.len() - k,
        {
            let name = hex_token(bs[k]);
            match self.vocab.get(name.as_str()) {
                Some(id) => {
                    out.push(*id);
                    proof {
                        lemma_prefixed_push(done, *id, fallback_ids(self@, bs@, k + 1));
                        done = done.push(*id);
                    }
                },
                None => {
                    proof { reveal_strlit("missing byte fallback"); }
                    return Err(owned("missing byte fallback"));
                },
            }
            k = k + 1;
        }
        assert(done + Seq::<usize>::empty() =~= done);
        Ok(())
    }
}

impl Tokenizer {
    /// The lowest-ranked adjacent pair of `word` and its rank (leftmost on ties).
    fn best(&self, word: &Vec<String>) -> (r: Option<(usize, usize)>)
        requires word@.len() > 1,
        ensures
            match best_pair(self@.ranks, views(word@), (word@.len() - 1) as nat) {
                Some((rk, i)) => r == Some((rk, i as usize)) && 0 <= i < word@.len() - 1,
                None => r is None,
            },
    {
        let ghost w = views(word@);
        let mut found: Option<(usize, usize)> = None;
        let mut i: usize = 0;
        while i < word.len() - 1
            invariant
                w == views(word@),
                word@.len() > 1,
                i <= word@.len() - 1,
                match best_pair(self@.ranks, w, i as nat) {
                    Some((rk, j)) => found == Some((rk, j as usize)) && 0 <= j < i,
                    None => found is None,
                },
            decreases word@.len() - i,
        {
            let r = self.rank_of(&word[i], &word[i + 1]);
            assert(w[i as int] == word@[i as int]@ && w[i + 1] == word@[i + 1]@);
            match r {
                Some(rk) => {
                    match found {
                        Some((b, _)) => {
                            if rk < b {
                                found = Some((rk, i));
                            }
                        },
                        None => {
                            found = Some((rk, i));
                        },
                    }
                },
                None => {},
            }
            i = i + 1;
        }
        found
    }

    /// Merges `word` by rank and appends the ids of its pieces to `out`.
    #[verifier::loop_isolation(false)]
    fn bpe(&self, word: Vec<String>, out: &mut Vec<usize>) -> (r: Result<(), String>)
        ensures appended(bpe_ids(self@, views(word@)), r, old(out)@, final(out)@),
    {
        let ghost ranks = self@.ranks;
        let ghost merged = bpe_merge(ranks, views(word@));
        let mut word = word;
        let mut merging = true;
        while merging && word.len() > 1
            invariant
                bpe_merge(ranks, views(word@)) == merged,
                !merging ==> views(word@) == merged,
            decreases word@.len() + if merging { 1int } else { 0int },
        {
            match self.best(&word) {
                Some((_, i)) => {
                    let ghost w = views(word@);
                    let right = word.remove(i + 1);
                    let mut left = word[i].clone();
                    left.append(right.as_str());
                    word.set(i, left);
                    assert(views(word@) =~= merge_at(w, i as int));
                },
                None => {
                    merging = false;
                },
            }
        }
        let ghost ps = views(word@);
        let ghost done: Seq<usize> = Seq::empty();
        let mut k: usize = 0;
        while k < word.len()
            invariant
                ps == views(word@),
                ps == merged,
                k <= word@.len(),
                out@ == old(out)@ + done,
                piece_ids(self@, ps, 0) == prefixed(done, piece_ids(self@, ps, k as int)),
            decreases word@.len() - k,
        {
            let p = &word[k];
            assert(ps[k as int] == p@);
            match self.vocab.get(p.as_str()) {
                Some(id) => {
                    out.push(*id);
                    proof {
                        lemma_prefixed_push(done, *id, piece_ids(self@, ps, k + 1));
                        done = done.push(*id);
                    }
                },
                None => {
                    if self.gemma {
                        let ghost before = out@;
                        let f = self.fallback(p.as_str().as_bytes(), out);
                        match f {
                            Ok(()) => {
                                proof {
                                    let ids = fallback_ids(self@, encode_utf8(p@), 0)->Ok_0;
                                    lemma_prefixed_cat(done, ids, piece_ids(self@, ps, k + 1));
                                    done = done + ids;
                                }
                            },
                            Err(e) => {
                                assert(piece_ids(self@, ps, k as int) == Err::<Seq<usize>, Seq<char>>(e@));
                                assert(piece_ids(self@, ps, 0) == Err::<Seq<usize>, Seq<char>>(e@));
                                return Err(e);
                            },
                        }
                    } else {
                        let mut m = owned("missing BPE piece ");
                        m.append(p.as_str());
                        proof { reveal_strlit("missing BPE piece "); }
                        assert(piece_ids(self@, ps, k as int) == Err::<Seq<usize>, Seq<char>>(m@));
                        assert(piece_ids(self@, ps, 0) == Err::<Seq<usize>, Seq<char>>(m@));
                        return Err(m);
                    }
                },
            }
            k = k + 1;
        }
        assert(done + Seq::<usize>::empty() =~= done);
        Ok(())
    }
}

/// The characters of `gemma_text(s)`.
fn gemma_chars(s: &[char]) -> (r: Vec<char>)
    ensures r@ == gemma_text(s@),
{
    let ghost m = s@.map_values(|c: char| if c == ' ' { mark() } else { c });
    let mut cs: Vec<char> = Vec::new();
    let lead = s.len() == 0 || (s[0] != ' ' && s[0] != '\u{2581}');
    if lead {
        cs.push('\u{2581}');
    }
    let ghost off: int = if lead { 1 } else { 0 };
    let mut j: usize = 0;
    while j < s.len()
        invariant
            j <= s@.len(),
            m == s@.map_values(|c: char| if c == ' ' { mark() } else { c }),
            off == (if lead { 1int } else { 0int }),
            cs@.len() == off + j,
            lead ==> cs@[0] == mark(),
            forall|k: int| 0 <= k < j ==> #[trigger] cs@[off + k] == m[k],
        decreases s@.len() - j,
    {
        if s[j] == ' ' {
            cs.push('\u{2581}');
        } else {
            cs.push(s[j]);
        }
        j = j + 1;
    }
    let ghost g = if lead { seq![mark()] + m } else { m };
    assert forall|i: int| 0 <= i < cs@.len() implies cs@[i] == g[i] by {
        if !(lead && i == 0) {
            assert(cs@[off + (i - off)] == m[i - off]);
        }
    }
    assert(cs@ =~= g);
    cs
}

impl Tokenizer {
    /// The byte-level pieces of `b`.
    fn byte_pieces(&self, b: &[u8]) -> (r: Vec<String>)
        requires self.wf(),
        ensures views(r@) == byte_word(b@),
    {
        let mut r: Vec<String> = Vec::new();
        let mut j: usize = 0;
        while j < b.len()
            invariant
                self.wf(),
                j <= b@.len(),
                r@.len() == j,
                forall|m: int| 0 <= m < j ==> #[trigger] r@[m]@ == seq![byte_char(b@[m])],
            decreases b@.len() - j,
        {
            r.push(self.bytes[b[j] as usize].clone());
            j = j + 1;
        }
        assert(views(r@) =~= byte_word(b@));
        r
    }

    /// GPT-2 style: split the bytes into pieces and encode each.
    fn gpt2_normal(&self, s: &str, out: &mut Vec<usize>) -> (r: Result<(), String>)
        requires self.wf(),
        ensures appended(gpt2_ids(self@, encode_utf8(s@), 0), r, old(out)@, final(out)@),
    {
        let b = s.as_bytes();
        let ghost bs = b@;
        let ghost done: Seq<usize> = Seq::empty();
        let mut i: usize = 0;
        while i < b.len()
            invariant
                self.wf(),
                bs == b@,
                bs == encode_utf8(s@),
                i <= bs.len(),
                out@ == old(out)@ + done,
                gpt2_ids(self@, bs, 0) == prefixed(done, gpt2_ids(self@, bs, i as int)),
            decreases bs.len() - i,
        {
            let e = gpt2_piece_end(b, i);
            let word = self.byte_pieces(slice_subrange(b, i, e));
            let step = self.bpe(word, out);
            proof { lemma_joined_step(done, bpe_ids(self@, byte_word(bs.subrange(i as int, e as int))), gpt2_ids(self@, bs, e as int)); }
            match step {
                Ok(()) => {
                    proof { done = done + bpe_ids(self@, byte_word(bs.subrange(i as int, e as int)))->Ok_0; }
                },
                Err(m) => {
                    return Err(m);
                },
            }
            i = e;
        }
        assert(done + Seq::<usize>::empty() =~= done);
        Ok(())
    }

    /// Gemma style: spaces become marks, and each mark starts a word of single characters.
    fn gemma_normal(&self, s: &[char], out: &mut Vec<usize>) -> (r: Result<(), String>)
        ensures appended(gemma_ids(self@, gemma_text(s@), 0), r, old(out)@, final(out)@),
    {
        let cs = gemma_chars(s);
        let ghost t = cs@;
        let ghost done: Seq<usize> = Seq::empty();
        let mut i: usize = 0;
        while i < cs.len()
            invariant
                t == cs@,
                t == gemma_text(s@),
                i <= t.len(),
                out@ == old(out)@ + done,
                gemma_ids(self@, t, 0) == prefixed(done, gemma_ids(self@, t, i as int)),
            decreases t.len() - i,
        {
            proof { lemma_next_mark(t, i + 1); }
            let mut e = i + 1;
            while e < cs.len() && cs[e] != '\u{2581}'
                invariant
                    t == cs@,
                    i + 1 <= e <= t.len(),
                    next_mark(t, i + 1) == next_mark(t, e as int),
                decreases t.len() - e,
            {
                e = e + 1;
            }
            let mut word: Vec<String> = Vec::new();
            let mut k: usize = i;
            while k < e
                invariant
                    t == cs@,
                    i <= k <= e <= t.len(),
                    word@.len() == k - i,
                    forall|n: int| 0 <= n < k - i ==> #[trigger] word@[n]@ == seq![t[i + n]],
                decreases e - k,
            {
                let mut one = String::new();
                push_char(&mut one, cs[k]);
                word.push(one);
                k = k + 1;
            }
            assert(views(word@) =~= singles(t.subrange(i as int, e as int)));
            let step = self.bpe(word, out);
            proof { lemma_joined_step(done, bpe_ids(self@, singles(t.subrange(i as int, e as int))), gemma_ids(self@, t, e as int)); }
            match step {
                Ok(()) => {
                    proof { done = done + bpe_ids(self@, singles(t.subrange(i as int, e as int)))->Ok_0; }
                },
                Err(m) => {
                    return Err(m);
                },
            }
            i = e;
        }
        assert(done + Seq::<usize>::empty() =~= done);
        Ok(())
    }

    /// Qwen style: normalize to NFC, split into pieces by character class, encode each piece's bytes.
    fn qwen_normal(&self, s: &str, out: &mut Vec<usize>) -> (r: Result<(), String>)
        requires self.wf(),
        ensures appended(qwen_ids(self@, nfc(s@), 0), r, old(out)@, final(out)@),
    {
        let normalized = to_nfc(s);
        let cs = chars_of(normalized.as_str());
        let ghost t = cs@;
        let ghost done: Seq<usize> = Seq::empty();
        let mut i: usize = 0;
        while i < cs.len()
            invariant
                self.wf(),
                t == cs@,
                t == nfc(s@),
                i <= t.len(),
                out@ == old(out)@ + done,
                qwen_ids(self@, t, 0) == prefixed(done, qwen_ids(self@, t, i as int)),
            decreases t.len() - i,
        {
            proof { lemma_qwen_end(t, i as int); }
            let e = match qwen_piece_end(cs.as_slice(), i) {
                Some(e) => e,
                None => {
                    proof { reveal_strlit("unsupported Qwen pretokenization character"); }
                    return Err(owned("unsupported Qwen pretokenization character"));
                },
            };
            let piece = string_of_chars(slice_subrange(cs.as_slice(), i, e));
            let word = self.byte_pieces(piece.as_str().as_bytes());
            let ghost w = byte_word(encode_utf8(t.subrange(i as int, e as int)));
            let step = self.bpe(word, out);
            proof { lemma_joined_step(done, bpe_ids(self@, w), qwen_ids(self@, t, e as int)); }
            match step {
                Ok(()) => {
                    proof { done = done + bpe_ids(self@, w)->Ok_0; }
                },
                Err(m) => {
                    return Err(m);
                },
            }
            i = e;
        }
        assert(done + Seq::<usize>::empty() =~= done);
        Ok(())
    }

    /// Encodes text that holds no special token, in the tokenizer's style.
    fn normal(&self, s: &[char], out: &mut Vec<usize>) -> (r: Result<(), String>)
        requires self.wf(),
        ensures appended(normal_ids(self@, s@), r, old(out)@, final(out)@),
    {
        reveal(normal_ids);
        if self.qwen {
            let text = string_of_chars(s);
            self.qwen_normal(text.as_str(), out)
        } else if self.gemma {
            self.gemma_normal(s, out)
        } else {
            let text = string_of_chars(s);
            self.gpt2_normal(text.as_str(), out)
        }
    }
}

/// The first position at or after `pos` where `cs` holds `w`.
pub(crate) fn find_from(cs: &[char], w: &[char], pos: usize) -> (r: Option<usize>)
    ensures
        match first_from(cs@, w@, pos as int) {
            Some(q) => r matches Some(p) && p == q,
            None => r is None,
        },
{
    let n = cs.len();
    let k = w.len();
    if k > n || pos > n - k {
        return None;
    }
    let last = n - k;
    let mut p = pos;
    while p <= last
        invariant
            n == cs@.len(),
            k == w@.len(),
            last == n - k,
            pos <= p,
            first_from(cs@, w@, pos as int) == first_from(cs@, w@, p as int),
        decreases last + 1 - p,
    {
        let mut m: usize = 0;
        let mut same = true;
        while same && m < k
            invariant
                n == cs@.len(),
                k == w@.len(),
                p + k <= n,
                m <= k,
                forall|j: int| 0 <= j < m ==> cs@[p + j] == w@[j],
                !same ==> m < k && cs@[p + m] != w@[m as int],
            decreases k - m + if same { 1int } else { 0int },
        {
            if cs[p + m] == w[m] {
                m = m + 1;
            } else {
                same = false;
            }
        }
        if same {
            assert(cs@.subrange(p as int, p + k) =~= w@);
            return Some(p);
        }
        assert(!occurs_at(cs@, p as int, w@)) by {
            assert(cs@.subrange(p as int, p + k)[m as int] == cs@[p + m]);
        }
        if p == last {
            assert(first_from(cs@, w@, p + 1) is None);
            return None;
        }
        p = p + 1;
    }
    None
}

impl Tokenizer {
    /// The text of the mask token.
    pub fn mask_text(&self) -> (r: &str)
        ensures r@ == self@.mask,
    {
        self.mask.as_str()
    }

    /// Whether every special token is non-empty, as `encode` needs.
    pub fn specials_usable(&self) -> (r: bool)
        ensures r == specials_ok(self@),
    {
        let mut k: usize = 0;
        while k < self.special.len()
            invariant
                k <= self.special@.len(),
                forall|j: int| 0 <= j < k ==> #[trigger] self@.special[j].0.len() > 0,
            decreases self.special@.len() - k,
        {
            if self.special[k].0.len() == 0 {
                assert(self@.special[k as int].0.len() == 0);
                return false;
            }
            k = k + 1;
        }
        true
    }

    /// The earliest special token in `cs` at or after `pos`, as (position, index).
    fn earliest_special(&self, cs: &[char], pos: usize) -> (r: Option<(usize, usize)>)
        ensures
            earliest(self@.special, cs@, pos as int, self@.special.len()) matches Some((p, k))
                ==> 0 <= k < self@.special.len() && pos <= p <= cs@.len(),
            match earliest(self@.special, cs@, pos as int, self@.special.len()) {
                Some((p, k)) => r matches Some((a, b)) && a == p && b == k,
                None => r is None,
            },
    {
        let mut found: Option<(usize, usize)> = None;
        let mut k: usize = 0;
        while k < self.special.len()
            invariant
                k <= self.special@.len(),
                earliest(self@.special, cs@, pos as int, k as nat) matches Some((p, j))
                    ==> 0 <= j < k && pos <= p <= cs@.len(),
                match earliest(self@.special, cs@, pos as int, k as nat) {
                    Some((p, j)) => found matches Some((a, b)) && a == p && b == j,
                    None => found is None,
                },
            decreases self.special@.len() - k,
        {
            proof {
                lemma_first_from(cs@, self@.special[k as int].0, pos as int);
                lemma_earliest(self@.special, cs@, pos as int, k as nat);
            }
            let hit = find_from(cs, self.special[k].0.as_slice(), pos);
            assert(self.special@[k as int].0@ == self@.special[k as int].0);
            match hit {
                Some(p) => {
                    match found {
                        Some((q, _)) => {
                            if p < q {
                                found = Some((p, k));
                            }
                        },
                        None => {
                            found = Some((p, k));
                        },
                    }
                },
                None => {},
            }
            k = k + 1;
        }
        found
    }

    /// Encodes `cs[pos..]` up to and including its earliest special token (or to its end),
    /// returning where to go on.
    fn encode_step(&self, cs: &[char], pos: usize, out: &mut Vec<usize>) -> (r: Result<usize, String>)
        requires
            self.wf(),
            specials_ok(self@),
            pos < cs@.len(),
        ensures
            r matches Ok(next) ==> pos < next <= cs@.len()
                && final(out)@.len() >= old(out)@.len()
                && final(out)@.subrange(0, old(out)@.len() as int) == old(out)@
                && encode_from(self@, cs@, pos as int) == prefixed(
                    final(out)@.subrange(old(out)@.len() as int, final(out)@.len() as int),
                    encode_from(self@, cs@, next as int)),
            r matches Err(m) ==> encode_from(self@, cs@, pos as int) == Err::<Seq<usize>, Seq<char>>(m@),
    {
        let ghost t = cs@;
        let ghost o = out@;
        let n = cs.len();
        proof { lemma_earliest(self@.special, t, pos as int, self@.special.len()); }
        match self.earliest_special(cs, pos) {
            None => {
                let step = self.normal(slice_subrange(cs, pos, cs.len()), out);
                match step {
                    Ok(()) => {
                        let ghost d = out@.subrange(o.len() as int, out@.len() as int);
                        let ghost x = normal_ids(self@, t.subrange(pos as int, t.len() as int));
                        assert(out@.subrange(0, o.len() as int) =~= o);
                        assert(d =~= x->Ok_0);
                        assert(d + Seq::<usize>::empty() =~= d);
                        assert(encode_from(self@, t, pos as int) == x);
                        assert(encode_from(self@, t, t.len() as int) == Ok::<Seq<usize>, Seq<char>>(Seq::empty()));
                        Ok(cs.len())
                    },
                    Err(m) => Err(m),
                }
            },
            Some((p, k)) => {
                assert(occurs_at(t, p as int, self@.special[k as int].0));
                assert(p + self@.special[k as int].0.len() <= t.len());
                let ghost rest = prefixed(seq![self@.special[k as int].1], encode_from(self@, t, p + self@.special[k as int].0.len()));
                let ghost part = normal_ids(self@, t.subrange(pos as int, p as int));
                let step = self.normal(slice_subrange(cs, pos, p), out);
                proof { lemma_joined_step(Seq::empty(), part, rest); }
                match step {
                    Ok(()) => {
                        assert(self.special@[k as int].0@ == self@.special[k as int].0);
                        assert(self@.special[k as int].0.len() > 0);
                        out.push(self.special[k].1);
                        proof {
                            let x = part->Ok_0;
                            lemma_prefixed_push(x, self@.special[k as int].1,
                                encode_from(self@, t, p + self@.special[k as int].0.len()));
                            assert(Seq::<usize>::empty() + x =~= x);
                            assert(out@.subrange(o.len() as int, out@.len() as int) =~= x.push(self@.special[k as int].1));
                            assert(out@.subrange(0, o.len() as int) =~= o);
                            assert(encode_from(self@, t, pos as int) == joined(part, rest));
                            assert(prefixed(Seq::empty(), joined(part, rest)) == joined(part, rest)) by {
                                if let Ok(z) = joined(part, rest) {
                                    assert(Seq::<usize>::empty() + z =~= z);
                                }
                            }
                        }
                        Ok(p + self.special[k].0.len())
                    },
                    Err(m) => {
                        assert(Seq::<usize>::empty() + Seq::<usize>::empty() =~= Seq::<usize>::empty());
                        Err(m)
                    },
                }
            },
        }
    }

    /// Token ids of `s`: special tokens by their ids, the text between them by the tokenizer's style.
    pub fn encode(&self, s: &str) -> (r: Result<Vec<usize>, String>)
        requires
            self.wf(),
            specials_ok(self@),
        ensures
            match encode_spec(self@, s@) {
                Ok(ids) => r matches Ok(v) && v@ == ids,
                Err(e) => r matches Err(m) && m@ == e,
            },
    {
        if s.as_bytes().len() > 1048576 {
            proof { reveal_strlit("text exceeds 1 MiB"); }
            return Err(owned("text exceeds 1 MiB"));
        }
        let cs = chars_of(s);
        let mut out: Vec<usize> = Vec::new();
        let mut pos: usize = 0;
        assert(Seq::<usize>::empty() + Seq::<usize>::empty() =~= Seq::<usize>::empty());
        while pos < cs.len()
            invariant
                self.wf(),
                specials_ok(self@),
                cs@ == s@,
                encode_utf8(s@).len() <= 1048576,
                pos <= cs@.len(),
                encode_from(self@, cs@, 0) == prefixed(out@, encode_from(self@, cs@, pos as int)),
            decreases cs@.len() - pos,
        {
            let ghost o = out@;
            match self.encode_step(cs.as_slice(), pos, &mut out) {
                Ok(next) => {
                    proof {
                        let d = out@.subrange(o.len() as int, out@.len() as int);
                        lemma_prefixed_cat(o, d, encode_from(self@, cs@, next as int));
                        assert(out@ =~= o + d);
                    }
                    pos = next;
                },
                Err(m) => {
                    return Err(m);
                },
            }
        }
        assert(out@ + Seq::<usize>::empty() =~= out@);
        Ok(out)
    }
}

/// Bytes that stand for themselves in byte-level vocabularies.
pub open spec fn printable(i: int) -> bool {
    (33 <= i <= 126) || (161 <= i <= 172) || (174 <= i <= 255)
}

/// How many bytes below `i` are not printable.
pub open spec fn unprintable_below(i: int) -> int {
    if i <= 33 { i } else if i <= 127 { 33 } else if i <= 161 { 33 + (i - 127) } else if i <= 173 { 67 } else { 68 }
}

/// The characters standing for the 256 bytes, printable bytes as themselves and the others
/// as 256, 257, ... in byte order.
fn byte_table() -> (r: Vec<String>)
    ensures
        r@.len() == 256,
        forall|b: int| 0 <= b < 256 ==> #[trigger] r@[b]@ == seq![byte_char(b as u8)],
{
    let mut extra: u32 = 256;
    let mut r: Vec<String> = Vec::new();
    let mut i: u32 = 0;
    while i < 256
        invariant
            i <= 256,
            extra == 256 + unprintable_below(i as int),
            r@.len() == i,
            forall|b: int| 0 <= b < i ==> #[trigger] r@[b]@ == seq![byte_char(b as u8)],
        decreases 256 - i,
    {
        let cp = if (33 <= i && i <= 126) || (161 <= i && i <= 172) || (174 <= i && i <= 255) {
            i
        } else {
            let c = extra;
            extra = extra + 1;
            c
        };
        assert(cp as int == byte_char_code(i as u8));
        let c = match char_from(cp) {
            Some(c) => c,
            None => {
                assert(false);
                ' '
            },
        };
        proof { vstd::utf8::char_u32_cast(c, cp); }
        let mut one = String::new();
        push_char(&mut one, c);
        r.push(one);
        i = i + 1;
    }
    r
}

/// Token index by token text, the last index winning.
fn build_vocab(tokens: &[J]) -> (r: StringHashMap<usize>)
    ensures r@ == vocab_upto(jvs(tokens@), tokens@.len()),
{
    let mut v: StringHashMap<usize> = StringHashMap::new();
    let mut i: usize = 0;
    while i < tokens.len()
        invariant
            i <= tokens@.len(),
            v@ == vocab_upto(jvs(tokens@), i as nat),
        decreases tokens@.len() - i,
    {
        let t = tokens[i].str();
        v.insert(owned(t), i);
        i = i + 1;
    }
    v
}

/// Merge rank by merge rule, for the rules that hold a space (the last index winning).
fn build_ranks(merges: &[J]) -> (r: StringHashMap<usize>)
    ensures r@ == ranks_upto(jvs(merges@), merges@.len()),
{
    let mut v: StringHashMap<usize> = StringHashMap::new();
    let mut i: usize = 0;
    while i < merges.len()
        invariant
            i <= merges@.len(),
            v@ == ranks_upto(jvs(merges@), i as nat),
        decreases merges@.len() - i,
    {
        let m = merges[i].str();
        if has_char(m, ' ') {
            v.insert(owned(m), i);
        }
        i = i + 1;
    }
    v
}

/// Whether `s` is written `<...>` or `[...]` in three bytes or more.
fn is_bracketed(s: &str) -> (r: bool)
    ensures r == bracketed(s@),
{
    if s.as_bytes().len() < 3 {
        return false;
    }
    let cs = chars_of(s);
    if cs.len() == 0 {
        assert(encode_utf8(s@) =~= Seq::<u8>::empty());
        return false;
    }
    let first = cs[0];
    let last = cs[cs.len() - 1];
    (first == '<' && last == '>') || (first == '[' && last == ']')
}

/// Whether `a` sorts before `b` among special tokens, given their bytes.
fn before_bytes(a: &[u8], b: &[u8]) -> (r: bool)
    ensures r == (a@.len() > b@.len() || (a@.len() == b@.len() && bytes_lt(a@, b@))),
{
    a.len() > b.len() || (a.len() == b.len() && bytes_less(a, b))
}

/// The entries of `sp` with their bytes alongside.
pub open spec fn keyed(sp: Seq<(Vec<char>, usize)>, keys: Seq<Vec<u8>>) -> bool {
    &&& sp.len() == keys.len()
    &&& forall|i: int| 0 <= i < sp.len() ==> #[trigger] keys[i]@ == encode_utf8(sp[i].0@)
}

pub open spec fn entry_views(sp: Seq<(Vec<char>, usize)>) -> Seq<(Seq<char>, usize)> {
    Seq::new(sp.len(), |i: int| (sp[i].0@, sp[i].1))
}

/// Inserts `x` (with bytes `k`) where `special_before` puts it.
fn insert_sorted(sp: &mut Vec<(Vec<char>, usize)>, keys: &mut Vec<Vec<u8>>, x: (Vec<char>, usize), k: Vec<u8>)
    requires
        keyed(old(sp)@, old(keys)@),
        k@ == encode_utf8(x.0@),
        sorted_special(entry_views(old(sp)@)),
        forall|i: int| 0 <= i < old(sp)@.len() ==> #[trigger] old(sp)@[i].0@ != x.0@,
    ensures
        keyed(final(sp)@, final(keys)@),
        sorted_special(entry_views(final(sp)@)),
        exists|j: int| 0 <= j <= old(sp)@.len() && final(sp)@ == old(sp)@.insert(j, x),
{
    let ghost v = entry_views(sp@);
    let mut j: usize = 0;
    while j < sp.len() && !before_bytes(k.as_slice(), keys[j].as_slice())
        invariant
            keyed(sp@, keys@),
            v == entry_views(sp@),
            k@ == encode_utf8(x.0@),
            j <= sp@.len(),
            forall|i: int| 0 <= i < sp@.len() ==> #[trigger] sp@[i].0@ != x.0@,
            forall|i: int| 0 <= i < j ==> special_before(#[trigger] v[i].0, x.0@),
        decreases sp@.len() - j,
    {
        proof {
            assert(v[j as int].0 == sp@[j as int].0@);
            lemma_special_before_total(v[j as int].0, x.0@);
        }
        j = j + 1;
    }
    let ghost xv = (x.0@, x.1);
    sp.insert(j, x);
    keys.insert(j, k);
    proof {
        let w = entry_views(sp@);
        assert(w =~= v.insert(j as int, xv));
        assert forall|a: int, b: int| 0 <= a < b < w.len() implies special_before(#[trigger] w[a].0, #[trigger] w[b].0) by {
            if b < j {
                assert(w[a] == v[a] && w[b] == v[b]);
            } else if b == j {
                assert(w[a] == v[a]);
            } else if a < j {
                assert(w[a] == v[a] && w[b] == v[b - 1]);
            } else if a == j {
                assert(w[b] == v[b - 1]);
                if b - 1 > j {
                    lemma_special_before_trans(xv.0, v[j as int].0, v[b - 1].0);
                }
            } else {
                assert(w[a] == v[a - 1] && w[b] == v[b - 1]);
            }
        }
        assert(sp@ == old(sp)@.insert(j as int, x));
    }
}

/// `sp` lists exactly the special entries among the first `n` tokens that carry their own
/// vocabulary index, in `special_before` order.
pub open spec fn specials_upto(qwen: bool, types: Seq<JV>, tokens: Seq<JV>, vocab: Map<Seq<char>, usize>,
    sp: Seq<(Seq<char>, usize)>, n: int) -> bool
{
    &&& forall|i: int| 0 <= i < sp.len() ==> vocab.contains_key(#[trigger] sp[i].0)
        && sp[i].1 == vocab[sp[i].0] && special_entry(qwen, types, sp[i].0, sp[i].1) && sp[i].1 < n
    &&& forall|m: int| 0 <= m < n && vocab.contains_key(tokens[m].text()) && vocab[tokens[m].text()] == m
        && special_entry(qwen, types, tokens[m].text(), m as usize)
        ==> exists|i: int| 0 <= i < sp.len() && #[trigger] sp[i].0 == tokens[m].text()
    &&& sorted_special(sp)
}

/// Whether token `i` is a control or user-defined token by `types`.
fn control_at(types: &[J], i: usize) -> (r: bool)
    ensures r == control_type(jvs(types@), i as int),
{
    if i < types.len() {
        let t = types[i].num();
        t == 0x4008_0000_0000_0000u64 || t == 0x4010_0000_0000_0000u64
    } else {
        false
    }
}

/// The special tokens of the vocabulary, longest first.
#[verifier::spinoff_prover]
fn build_special(qwen: bool, types: &[J], tokens: &[J], vocab: &StringHashMap<usize>) -> (r: Vec<(Vec<char>, usize)>)
    requires
        vocab@ == vocab_upto(jvs(tokens@), tokens@.len()),
    ensures
        specials_upto(qwen, jvs(types@), jvs(tokens@), vocab@, entry_views(r@), tokens@.len() as int),
{
    let ghost tv = jvs(tokens@);
    let ghost ty = jvs(types@);
    let mut sp: Vec<(Vec<char>, usize)> = Vec::new();
    let mut keys: Vec<Vec<u8>> = Vec::new();
    let mut i: usize = 0;
    while i < tokens.len()
        invariant
            tv == jvs(tokens@),
            ty == jvs(types@),
            vocab@ == vocab_upto(tv, tokens@.len()),
            i <= tokens@.len(),
            keyed(sp@, keys@),
            specials_upto(qwen, ty, tv, vocab@, entry_views(sp@), i as int),
        decreases tokens@.len() - i,
    {
        let t = tokens[i].str();
        let own = match vocab.get(t) {
            Some(id) => *id == i,
            None => false,
        };
        let wanted = own && if qwen { control_at(types, i) } else { is_bracketed(t) };
        let ghost v = entry_views(sp@);
        let ghost before = sp@;
        let item = (chars_of(t), i);
        let ghost xi = item;
        if wanted {
            proof {
                assert forall|m: int| 0 <= m < sp@.len() implies #[trigger] sp@[m].0@ != t@ by {
                    assert(v[m].0 == sp@[m].0@);
                }
            }
            insert_sorted(&mut sp, &mut keys, item, slice_to_vec(t.as_bytes()));
            proof {
                let j = choose|j: int| 0 <= j <= v.len() && sp@ == before.insert(j, xi);
                let w = entry_views(sp@);
                assert forall|a: int| 0 <= a < w.len() implies vocab@.contains_key(#[trigger] w[a].0)
                    && w[a].1 == vocab@[w[a].0] && special_entry(qwen, ty, w[a].0, w[a].1) && w[a].1 < i + 1 by {
                    if a < j {
                        assert(w[a] == v[a]);
                    } else if a > j {
                        assert(w[a] == v[a - 1]);
                    }
                }
            }
        }
        proof {
            let w = entry_views(sp@);
            assert forall|m: int| 0 <= m < i + 1 && vocab@.contains_key(tv[m].text()) && vocab@[tv[m].text()] == m
                && special_entry(qwen, ty, tv[m].text(), m as usize)
                implies exists|a: int| 0 <= a < w.len() && #[trigger] w[a].0 == tv[m].text() by {
                if m < i {
                    let a0 = choose|a: int| 0 <= a < v.len() && #[trigger] v[a].0 == tv[m].text();
                    if wanted {
                        let j = choose|j: int| 0 <= j <= v.len() && sp@ == before.insert(j, xi);
                        if a0 < j {
                            assert(w[a0] == v[a0]);
                            assert(w[a0].0 == tv[m].text());
                        } else {
                            assert(w[a0 + 1] == v[a0]);
                            assert(w[a0 + 1].0 == tv[m].text());
                        }
                    } else {
                        assert(w[a0] == v[a0]);
                        assert(w[a0].0 == tv[m].text());
                    }
                } else {
                    assert(t@ == tv[m].text());
                    assert(wanted);
                    let j = choose|j: int| 0 <= j <= v.len() && sp@ == before.insert(j, xi);
                    assert(w[j] == (t@, i));
                    assert(w[j].0 == tv[m].text());
                }
            }
        }
        i = i + 1;
    }
    sp
}

proof fn lemma_special_list(g: GgufV, qwen: bool, types: Seq<JV>, tokens: Seq<JV>, vocab: Map<Seq<char>, usize>,
    sp: Seq<(Seq<char>, usize)>)
    requires
        qwen == (pre_name(g) == "qwen3"@),
        types == g.get("tokenizer.ggml.token_type"@).items(),
        tokens.len() <= usize::MAX,
        vocab == vocab_upto(tokens, tokens.len()),
        specials_upto(qwen, types, tokens, vocab, sp, tokens.len() as int),
    ensures special_list(g, vocab, sp),
{
    lemma_vocab_upto(tokens, tokens.len());
    assert forall|tok: Seq<char>| vocab.contains_key(tok) && is_special(g, tok, vocab[tok])
        implies exists|i: int| 0 <= i < sp.len() && #[trigger] sp[i].0 == tok by {
        let m = vocab[tok] as int;
        assert(tokens[m].text() == tok);
    }
}

impl Tokenizer {
    /// Reads the tokenizer that the metadata of `g` describes.
    pub fn new(g: &Gguf) -> (r: Result<Tokenizer, String>)
        ensures
            match tokenizer_error(g@) {
                Some(e) => r matches Err(m) && m@ == e,
                None => r matches Ok(t) && tokenizer_of(g@, t@) && t.wf(),
            },
    {
        let pre = g.get("tokenizer.ggml.pre").str();
        let gemma = str_eq(pre, "gemma");
        let qwen = str_eq(pre, "qwen3");
        if !str_eq(pre, "gpt2") && !gemma && !qwen {
            let mut m = owned("unsupported tokenizer ");
            m.append(pre);
            return Err(m);
        }
        let tokens = g.get("tokenizer.ggml.tokens").arr();
        let ghost tv = jvs(tokens@);
        assert(tv =~= tokens_of(g@));
        if tokens.len() == 0 {
            proof { reveal_strlit("missing vocabulary"); }
            return Err(owned("missing vocabulary"));
        }
        let vocab = build_vocab(tokens);
        let merges = g.get("tokenizer.ggml.merges").arr();
        assert(jvs(merges@) =~= merges_of(g@));
        let ranks = build_ranks(merges);
        let bytes = byte_table();
        let types = g.get("tokenizer.ggml.token_type").arr();
        assert(jvs(types@) =~= g@.get("tokenizer.ggml.token_type"@).items());
        let special = build_special(qwen, types, tokens, &vocab);
        proof {
            lemma_special_list(g@, qwen, jvs(types@), tv, vocab@, entry_views(special@));
        }
        let mi = g.num("laya.mask_token_id", 50284);
        if mi >= tokens.len() {
            proof { reveal_strlit("mask ID outside vocabulary"); }
            return Err(owned("mask ID outside vocabulary"));
        }
        let mask = owned(tokens[mi].str());
        let t = Tokenizer { vocab, ranks, bytes, special, mask, gemma, qwen };
        assert(t@.special =~= entry_views(special@));
        Ok(t)
    }
}

} // verus!
