//! Splitting source text into opcodes.
use vstd::prelude::*;
use crate::token::{code_of, is_space, space_char, token_opcode, Opcode};

verus! {

/// The opcodes that the single token `w` contributes: its opcode, or nothing.
pub open spec fn word_ops(w: Seq<char>) -> Seq<Opcode> {
    match code_of(w) {
        Some(op) => seq![op],
        None => seq![],
    }
}

/// The opcodes of `s` from position `i` on, where `w` holds the characters of
/// the token that is still open at `i`.
pub open spec fn lex_from(s: Seq<char>, i: int, w: Seq<char>) -> Seq<Opcode>
    decreases s.len() - i,
{
    if i >= s.len() {
        word_ops(w)
    } else if is_space(s[i]) {
        word_ops(w) + lex_from(s, i + 1, seq![])
    } else {
        lex_from(s, i + 1, w.push(s[i]))
    }
}

/// The opcodes of source text `s`, in the order of their tokens.
pub open spec fn lex_spec(s: Seq<char>) -> Seq<Opcode> {
    lex_from(s, 0, seq![])
}

/// Splits `src` on whitespace and keeps, in order, the opcode of each token
/// that spells one; any other token is dropped.
pub fn lex(src: &str) -> (r: Vec<Opcode>)
    ensures
        r@ == lex_spec(src@),
{
    let mut out: Vec<Opcode> = Vec::new();
    let mut word: Vec<char> = Vec::new();
    for c in it: src.chars()
        invariant
            it.seq() == src@,
            out@ + lex_from(src@, it.index() as int, word@) == lex_spec(src@),
    {
        if space_char(c) {
            let op = token_opcode(&word);
            match op {
                Some(o) => out.push(o),
                None => {},
            }
            word = Vec::new();
        } else {
            word.push(c);
        }
    }
    let op = token_opcode(&word);
    match op {
        Some(o) => out.push(o),
        None => {},
    }
    out
}

/// `s[i..j]` is one whole token: non-empty, free of whitespace, and bounded
/// by whitespace or by the ends of the text.
pub open spec fn token_at(s: Seq<char>, i: int, j: int) -> bool {
    &&& 0 <= i < j <= s.len()
    &&& (i == 0 || is_space(s[i - 1]))
    &&& (j == s.len() || is_space(s[j]))
    &&& forall|k: int| i <= k < j ==> !is_space(#[trigger] s[k])
}

/// The text holds whitespace and tokens that spell no opcode, nothing else.
pub open spec fn only_noise(s: Seq<char>) -> bool {
    forall|i: int, j: int| #[trigger] token_at(s, i, j) ==> code_of(s.subrange(i, j)) is None
}

proof fn lemma_code_len(w: Seq<char>)
    ensures
        code_of(w) is Some ==> w.len() == 3,
{
}

proof fn lemma_noise_from(s: Seq<char>, st: int, i: int)
    requires
        only_noise(s),
        0 <= st <= i <= s.len(),
        st == 0 || is_space(s[st - 1]),
        forall|k: int| st <= k < i ==> !is_space(#[trigger] s[k]),
    ensures
        lex_from(s, i, s.subrange(st, i)) == Seq::<Opcode>::empty(),
    decreases s.len() - i,
{
    let w = s.subrange(st, i);
    lemma_code_len(w);
    if st < i && (i == s.len() || is_space(s[i])) {
        assert(token_at(s, st, i));
    }
    if i >= s.len() {
    } else if is_space(s[i]) {
        lemma_noise_from(s, i + 1, i + 1);
        assert(s.subrange(i + 1, i + 1) =~= seq![]);
        assert(word_ops(w) + lex_from(s, i + 1, seq![]) =~= seq![]);
    } else {
        lemma_noise_from(s, st, i + 1);
        assert(w.push(s[i]) =~= s.subrange(st, i + 1));
    }
}

/// Text made only of whitespace and unrecognised tokens yields no opcodes.
pub proof fn lemma_noise_lexes_empty(s: Seq<char>)
    requires
        only_noise(s),
    ensures
        lex_spec(s) == Seq::<Opcode>::empty(),
{
    lemma_noise_from(s, 0, 0);
    assert(s.subrange(0, 0) =~= seq![]);
}

} // verus!
