//! Splitting text into the pieces that byte-pair encoding works on.
use vstd::prelude::*;
use crate::unicode::{is_letter, is_number, is_white, letter, number, white};

verus! {

/// ASCII whitespace as the GPT-2 splitter sees it: space, tab, CR, LF, VT, FF.
pub open spec fn ws(c: u8) -> bool {
    c == 32 || c == 9 || c == 13 || c == 10 || c == 11 || c == 12
}

/// Character class of a byte: 1 letters, 2 digits, 0 whitespace, 3 anything else.
pub open spec fn class(c: u8) -> u8 {
    if (65 <= c <= 90) || (97 <= c <= 122) {
        1
    } else if 48 <= c <= 57 {
        2
    } else if ws(c) {
        0
    } else {
        3
    }
}

/// The English contractions split off as their own pieces, in the order they are tried.
pub open spec fn contractions() -> Seq<Seq<u8>> {
    seq![seq![39u8, 115u8], seq![39u8, 116u8], seq![39u8, 114u8, 101u8], seq![39u8, 118u8, 101u8],
        seq![39u8, 109u8], seq![39u8, 108u8, 108u8], seq![39u8, 100u8]]
}

/// Whether `b` holds `w` at `i`.
pub open spec fn holds_at(b: Seq<u8>, i: int, w: Seq<u8>) -> bool {
    i + w.len() <= b.len() && b.subrange(i, i + w.len()) == w
}

/// The first contraction (in list order from `k` on) that `b` holds at `i`.
pub open spec fn contraction_from(b: Seq<u8>, i: int, k: nat) -> Option<int>
    decreases 7 - k,
{
    if k >= 7 {
        None
    } else if holds_at(b, i, contractions()[k as int]) {
        Some(i + contractions()[k as int].len())
    } else {
        contraction_from(b, i, k + 1)
    }
}

/// End of a run of bytes of class `c` starting at `k`.
pub open spec fn run_end(b: Seq<u8>, k: int, c: u8) -> int
    decreases b.len() - k,
{
    if k >= b.len() || class(b[k]) != c { k } else { run_end(b, k + 1, c) }
}

/// End of a run of whitespace starting at `k`.
pub open spec fn ws_end(b: Seq<u8>, k: int) -> int
    decreases b.len() - k,
{
    if k >= b.len() || !ws(b[k]) { k } else { ws_end(b, k + 1) }
}

/// Where the GPT-2 piece starting at `i` ends.
pub open spec fn gpt2_end(b: Seq<u8>, i: int) -> int {
    if b[i] == 39 && contraction_from(b, i, 0) is Some {
        contraction_from(b, i, 0)->0
    } else {
        let j = if b[i] == 32 && i + 1 < b.len() && !ws(b[i + 1]) { i + 1 } else { i };
        let c = class(b[j]);
        if c != 0 {
            run_end(b, j + 1, c)
        } else {
            let k = ws_end(b, i + 1);
            if k < b.len() && k - i > 1 { k - 1 } else { k }
        }
    }
}

proof fn lemma_run_end(b: Seq<u8>, k: int, c: u8)
    requires 0 <= k <= b.len(),
    ensures k <= run_end(b, k, c) <= b.len(),
    decreases b.len() - k,
{
    if k < b.len() && class(b[k]) == c {
        lemma_run_end(b, k + 1, c);
    }
}

proof fn lemma_ws_end(b: Seq<u8>, k: int)
    requires 0 <= k <= b.len(),
    ensures k <= ws_end(b, k) <= b.len(),
    decreases b.len() - k,
{
    if k < b.len() && ws(b[k]) {
        lemma_ws_end(b, k + 1);
    }
}

proof fn lemma_contraction(b: Seq<u8>, i: int, k: nat)
    requires 0 <= i < b.len(),
    ensures contraction_from(b, i, k) matches Some(e) ==> i + 2 <= e <= b.len(),
    decreases 7 - k,
{
    if k < 7 {
        lemma_contraction(b, i, k + 1);
    }
}

/// Each GPT-2 piece is non-empty and stays inside the text.
pub proof fn lemma_gpt2_end(b: Seq<u8>, i: int)
    requires 0 <= i < b.len(),
    ensures i < gpt2_end(b, i) <= b.len(),
{
    lemma_contraction(b, i, 0);
    let j = if b[i] == 32 && i + 1 < b.len() && !ws(b[i + 1]) { i + 1 } else { i };
    lemma_run_end(b, j + 1, class(b[j]));
    lemma_ws_end(b, i + 1);
}

fn ws_byte(c: u8) -> (r: bool)
    ensures r == ws(c),
{
    c == 32 || c == 9 || c == 13 || c == 10 || c == 11 || c == 12
}

fn class_of(c: u8) -> (r: u8)
    ensures r == class(c),
{
    if (65 <= c && c <= 90) || (97 <= c && c <= 122) {
        1
    } else if 48 <= c && c <= 57 {
        2
    } else if ws_byte(c) {
        0
    } else {
        3
    }
}

fn holds(b: &[u8], i: usize, w: &[u8]) -> (r: bool)
    ensures r == holds_at(b@, i as int, w@),
{
    if w.len() > b.len() || i > b.len() - w.len() {
        return false;
    }
    let mut k: usize = 0;
    while k < w.len()
        invariant
            k <= w@.len(),
            i + w@.len() <= b@.len(),
            b@.len() == b.len(),
            forall|m: int| 0 <= m < k ==> b@[i + m] == w@[m],
        decreases w@.len() - k,
    {
        if b[i + k] != w[k] {
            assert(b@.subrange(i as int, i + w@.len())[k as int] != w@[k as int]);
            return false;
        }
        k = k + 1;
    }
    assert(b@.subrange(i as int, i + w@.len()) =~= w@);
    true
}

/// Contraction number `k`.
fn contraction_word(k: usize) -> (w: Vec<u8>)
    requires k < 7,
    ensures w@ == contractions()[k as int],
{
    let w = if k == 0 {
        vec![39u8, 115u8]
    } else if k == 1 {
        vec![39u8, 116u8]
    } else if k == 2 {
        vec![39u8, 114u8, 101u8]
    } else if k == 3 {
        vec![39u8, 118u8, 101u8]
    } else if k == 4 {
        vec![39u8, 109u8]
    } else if k == 5 {
        vec![39u8, 108u8, 108u8]
    } else {
        vec![39u8, 100u8]
    };
    assert(w@ =~= contractions()[k as int]);
    w
}

/// Where the GPT-2 piece starting at `i` ends.
pub fn gpt2_piece_end(b: &[u8], i: usize) -> (e: usize)
    requires i < b@.len(),
    ensures e == gpt2_end(b@, i as int), i < e <= b@.len(),
{
    proof { lemma_gpt2_end(b@, i as int); }
    if b[i] == 39 {
        let mut k: usize = 0;
        while k < 7
            invariant
                k <= 7,
                i < b@.len(),
                b@[i as int] == 39,
                contraction_from(b@, i as int, 0) == contraction_from(b@, i as int, k as nat),
            decreases 7 - k,
        {
            let w = contraction_word(k);
            assert(b@.len() == b.len());
            if holds(b, i, w.as_slice()) {
                return i + w.len();
            }
            k = k + 1;
        }
    }
    let j = if b[i] == 32 && i + 1 < b.len() && !ws_byte(b[i + 1]) { i + 1 } else { i };
    let c = class_of(b[j]);
    if c != 0 {
        let mut k = j + 1;
        while k < b.len() && class_of(b[k]) == c
            invariant
                j + 1 <= k <= b@.len(),
                run_end(b@, j + 1, c) == run_end(b@, k as int, c),
            decreases b@.len() - k,
        {
            k = k + 1;
        }
        k
    } else {
        let mut k = i + 1;
        while k < b.len() && ws_byte(b[k])
            invariant
                i + 1 <= k <= b@.len(),
                ws_end(b@, i + 1) == ws_end(b@, k as int),
            decreases b@.len() - k,
        {
            k = k + 1;
        }
        if k < b.len() && k - i > 1 { k - 1 } else { k }
    }
}


/// `char::to_ascii_lowercase`.
pub open spec fn lower(c: char) -> char {
    if 'A' <= c <= 'Z' { ((c as u32) + 32) as char } else { c }
}

/// The contractions as characters.
pub open spec fn contraction_chars(k: int) -> Seq<char> {
    contractions()[k].map_values(|b: u8| b as char)
}

/// Whether `cs` holds `w` at `i`, ignoring ASCII case.
pub open spec fn holds_folded(cs: Seq<char>, i: int, w: Seq<char>) -> bool {
    i + w.len() <= cs.len() && forall|m: int| 0 <= m < w.len() ==> lower(#[trigger] cs[i + m]) == w[m]
}

pub open spec fn folded_contraction_from(cs: Seq<char>, i: int, k: nat) -> Option<int>
    decreases 7 - k,
{
    if k >= 7 {
        None
    } else if holds_folded(cs, i, contraction_chars(k as int)) {
        Some(i + contraction_chars(k as int).len())
    } else {
        folded_contraction_from(cs, i, k + 1)
    }
}

pub open spec fn newline(c: char) -> bool {
    c == '\r' || c == '\n'
}

pub open spec fn punct(c: char) -> bool {
    !white(c) && !letter(c) && !number(c)
}

/// The character classes that runs are made of: 0 letters, 1 punctuation,
/// 2 line breaks, 3 whitespace.
pub open spec fn in_class(kind: u8, c: char) -> bool {
    if kind == 0 {
        letter(c)
    } else if kind == 1 {
        punct(c)
    } else if kind == 2 {
        newline(c)
    } else {
        white(c)
    }
}

/// End of a run of characters of class `kind` from `k`.
pub open spec fn run_of(cs: Seq<char>, k: int, kind: u8) -> int
    decreases cs.len() - k,
{
    if k >= cs.len() || !in_class(kind, cs[k]) { k } else { run_of(cs, k + 1, kind) }
}

/// Just past the last line break in `cs[i..k]`, if any.
pub open spec fn last_break(cs: Seq<char>, i: int, k: int) -> Option<int>
    decreases k - i,
{
    if k <= i {
        None
    } else if newline(cs[k - 1]) {
        Some(k)
    } else {
        last_break(cs, i, k - 1)
    }
}

/// Where the Qwen piece starting at `i` ends; `None` where no rule applies.
pub open spec fn qwen_end(cs: Seq<char>, i: int) -> Option<int> {
    if cs[i] == '\'' && folded_contraction_from(cs, i, 0) is Some {
        folded_contraction_from(cs, i, 0)
    } else {
        let c = cs[i];
        let j = if !newline(c) && !letter(c) && !number(c) { i + 1 } else { i };
        if j < cs.len() && letter(cs[j]) {
            Some(run_of(cs, j + 1, 0))
        } else if number(c) {
            Some(i + 1)
        } else {
            let j2 = if c == ' ' { i + 1 } else { i };
            if j2 < cs.len() && punct(cs[j2]) {
                Some(run_of(cs, run_of(cs, j2 + 1, 1), 2))
            } else if white(c) {
                let k = run_of(cs, i, 3);
                match last_break(cs, i, k) {
                    Some(e) => Some(e),
                    None => Some(if k < cs.len() && k > i + 1 { k - 1 } else { k }),
                }
            } else {
                None
            }
        }
    }
}

proof fn lemma_run_of(cs: Seq<char>, k: int, kind: u8)
    requires 0 <= k <= cs.len(),
    ensures
        k <= run_of(cs, k, kind) <= cs.len(),
        k < cs.len() && in_class(kind, cs[k]) ==> run_of(cs, k, kind) > k,
    decreases cs.len() - k,
{
    if k < cs.len() && in_class(kind, cs[k]) {
        lemma_run_of(cs, k + 1, kind);
    }
}

proof fn lemma_last_break(cs: Seq<char>, i: int, k: int)
    requires 0 <= i <= k <= cs.len(),
    ensures last_break(cs, i, k) matches Some(e) ==> i < e <= k,
    decreases k - i,
{
    if k > i && !newline(cs[k - 1]) {
        lemma_last_break(cs, i, k - 1);
    }
}

proof fn lemma_folded(cs: Seq<char>, i: int, k: nat)
    requires 0 <= i < cs.len(),
    ensures folded_contraction_from(cs, i, k) matches Some(e) ==> i + 2 <= e <= cs.len(),
    decreases 7 - k,
{
    if k < 7 {
        lemma_folded(cs, i, k + 1);
    }
}

/// Each Qwen piece is non-empty and stays inside the text.
pub proof fn lemma_qwen_end(cs: Seq<char>, i: int)
    requires 0 <= i < cs.len(),
    ensures qwen_end(cs, i) matches Some(e) ==> i < e <= cs.len(),
{
    lemma_folded(cs, i, 0);
    let c = cs[i];
    let j = if !newline(c) && !letter(c) && !number(c) { i + 1 } else { i };
    if j < cs.len() {
        lemma_run_of(cs, j + 1, 0);
    }
    let j2 = if c == ' ' { i + 1 } else { i };
    if j2 < cs.len() {
        lemma_run_of(cs, j2 + 1, 1);
        lemma_run_of(cs, run_of(cs, j2 + 1, 1), 2);
    }
    lemma_run_of(cs, i, 3);
    let k = run_of(cs, i, 3);
    lemma_last_break(cs, i, k);
}

/// `char::to_ascii_lowercase`.
pub fn lower_char(c: char) -> (r: char)
    ensures r == lower(c),
{
    if 'A' <= c && c <= 'Z' { ((c as u32) + 32) as u8 as char } else { c }
}

fn holds_folded_at(cs: &[char], i: usize, w: &[u8]) -> (r: bool)
    ensures r == holds_folded(cs@, i as int, w@.map_values(|b: u8| b as char)),
{
    let ghost wc = w@.map_values(|b: u8| b as char);
    if w.len() > cs.len() || i > cs.len() - w.len() {
        return false;
    }
    let mut k: usize = 0;
    while k < w.len()
        invariant
            k <= w@.len(),
            i + w@.len() <= cs@.len(),
            cs@.len() == cs.len(),
            wc == w@.map_values(|b: u8| b as char),
            forall|m: int| 0 <= m < k ==> lower(#[trigger] cs@[i + m]) == wc[m],
        decreases w@.len() - k,
    {
        if lower_char(cs[i + k]) != w[k] as char {
            return false;
        }
        k = k + 1;
    }
    true
}

fn in_class_of(kind: u8, c: char) -> (r: bool)
    ensures r == in_class(kind, c),
{
    if kind == 0 {
        is_letter(c)
    } else if kind == 1 {
        !is_white(c) && !is_letter(c) && !is_number(c)
    } else if kind == 2 {
        c == '\r' || c == '\n'
    } else {
        is_white(c)
    }
}

fn run_end_by(cs: &[char], k: usize, kind: u8) -> (e: usize)
    requires k <= cs@.len(),
    ensures e == run_of(cs@, k as int, kind), k <= e <= cs@.len(),
{
    proof { lemma_run_of(cs@, k as int, kind); }
    let mut j = k;
    while j < cs.len() && in_class_of(kind, cs[j])
        invariant
            k <= j <= cs@.len(),
            run_of(cs@, k as int, kind) == run_of(cs@, j as int, kind),
        decreases cs@.len() - j,
    {
        j = j + 1;
    }
    j
}

/// Where the Qwen piece starting at `i` ends; `None` where no rule applies.
pub fn qwen_piece_end(cs: &[char], i: usize) -> (r: Option<usize>)
    requires i < cs@.len(),
    ensures
        match qwen_end(cs@, i as int) {
            Some(e) => r == Some(e as usize),
            None => r is None,
        },
{
    proof { lemma_qwen_end(cs@, i as int); }
    if cs[i] == '\'' {
        let mut k: usize = 0;
        while k < 7
            invariant
                k <= 7,
                i < cs@.len(),
                cs@[i as int] == '\'',
                folded_contraction_from(cs@, i as int, 0) == folded_contraction_from(cs@, i as int, k as nat),
            decreases 7 - k,
        {
            let w = contraction_word(k);
            assert(w@.map_values(|b: u8| b as char) == contraction_chars(k as int));
            assert(cs@.len() == cs.len());
            if holds_folded_at(cs, i, w.as_slice()) {
                return Some(i + w.len());
            }
            k = k + 1;
        }
    }
    let c = cs[i];
    let j = if !(c == '\r' || c == '\n') && !is_letter(c) && !is_number(c) { i + 1 } else { i };
    if j < cs.len() && is_letter(cs[j]) {
        return Some(run_end_by(cs, j + 1, 0));
    }
    if is_number(c) {
        return Some(i + 1);
    }
    let j2 = if c == ' ' { i + 1 } else { i };
    if j2 < cs.len() && !is_white(cs[j2]) && !is_letter(cs[j2]) && !is_number(cs[j2]) {
        let p = run_end_by(cs, j2 + 1, 1);
        return Some(run_end_by(cs, p, 2));
    }
    if is_white(c) {
        let k = run_end_by(cs, i, 3);
        let mut m = k;
        while m > i && !(cs[m - 1] == '\r' || cs[m - 1] == '\n')
            invariant
                i <= m <= k <= cs@.len(),
                last_break(cs@, i as int, k as int) == last_break(cs@, i as int, m as int),
            decreases m - i,
        {
            m = m - 1;
        }
        if m > i {
            return Some(m);
        }
        return Some(if k < cs.len() && k > i + 1 { k - 1 } else { k });
    }
    None
}

} // verus!
