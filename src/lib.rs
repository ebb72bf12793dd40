//! An interpreter for a twelve-token esoteric language: a tokenizer, a
//! structural parser that nests loops, and a step machine that runs the
//! resulting instruction tree against a byte tape.
use vstd::prelude::*;

pub mod lexer;
pub mod machine;
pub mod parser;
pub mod token;

use crate::lexer::{lemma_noise_lexes_empty, lex, lex_spec, only_noise};
use crate::machine::{initial, step_spec, Action, Machine};
use crate::parser::{breaks_nesting, depth, parse, parsed, ser, ser_seq, Instruction, ParseError};

verus! {

/// Turns program text into a machine at the start of its run: the text is
/// split into opcodes and the opcodes are built into a tree. Fails exactly
/// when a loop end has no loop to close.
pub fn load(src: &str) -> (r: Result<Machine, ParseError>)
    ensures
        r is Err <==> breaks_nesting(lex_spec(src@)),
        r matches Ok(m) ==> m.wf() && parsed(lex_spec(src@), m.program()) && m.state()
            == initial(),
{
    let ops = lex(src);
    match parse(&ops) {
        Ok(code) => Ok(Machine::new(code)),
        Err(e) => Err(e),
    }
}

/// Text made only of whitespace and unrecognised tokens gives an empty tree,
/// and a run of it halts at its first step with nothing changed.
pub proof fn lemma_noise_runs_nothing(s: Seq<char>, t: Seq<Instruction>)
    requires
        only_noise(s),
        parsed(lex_spec(s), t),
    ensures
        !breaks_nesting(lex_spec(s)),
        t == Seq::<Instruction>::empty(),
        step_spec(t, initial()) == (initial(), Action::Halted),
{
    lemma_noise_lexes_empty(s);
    let ops = lex_spec(s);
    assert(ops.take(0) =~= ops);
    assert(depth(ops) == 0);
    assert(ser_seq(t).len() == 0);
    if t.len() > 0 {
        assert(ser(t[t.len() - 1]).len() >= 1);
        assert(false);
    }
    assert(t =~= Seq::<Instruction>::empty());
}

} // verus!
