//! The twelve opcodes, the characters that separate tokens, and the mapping
//! from a token to its opcode.
use vstd::prelude::*;

verus! {

/// One recognised source token.
#[derive(Clone, Copy, Debug, PartialEq, Eq, Structural)]
pub enum Opcode {
    LoopEnd,
    PointerDec,
    PointerInc,
    ExecCurrent,
    ReadWriteCond,
    ValueDec,
    ValueInc,
    LoopStart,
    ValueZero,
    RegisterToggle,
    WriteByte,
    ReadByte,
}

/// Whether `c` has the Unicode `White_Space` property, the set of characters
/// on which source text is split into tokens.
pub open spec fn is_space(c: char) -> bool {
    let n = c as u32;
    (0x09 <= n && n <= 0x0d) || n == 0x20 || n == 0x85 || n == 0xa0 || n == 0x1680
        || (0x2000 <= n && n <= 0x200a) || n == 0x2028 || n == 0x2029 || n == 0x202f
        || n == 0x205f || n == 0x3000
}

/// The opcode that the token `w` spells, if any (case-sensitive).
pub open spec fn code_of(w: Seq<char>) -> Option<Opcode> {
    if w == seq!['m', 'o', 'o'] {
        Some(Opcode::LoopEnd)
    } else if w == seq!['m', 'O', 'o'] {
        Some(Opcode::PointerDec)
    } else if w == seq!['m', 'o', 'O'] {
        Some(Opcode::PointerInc)
    } else if w == seq!['m', 'O', 'O'] {
        Some(Opcode::ExecCurrent)
    } else if w == seq!['M', 'o', 'o'] {
        Some(Opcode::ReadWriteCond)
    } else if w == seq!['M', 'O', 'o'] {
        Some(Opcode::ValueDec)
    } else if w == seq!['M', 'o', 'O'] {
        Some(Opcode::ValueInc)
    } else if w == seq!['M', 'O', 'O'] {
        Some(Opcode::LoopStart)
    } else if w == seq!['O', 'O', 'O'] {
        Some(Opcode::ValueZero)
    } else if w == seq!['M', 'M', 'M'] {
        Some(Opcode::RegisterToggle)
    } else if w == seq!['O', 'O', 'M'] {
        Some(Opcode::WriteByte)
    } else if w == seq!['o', 'o', 'm'] {
        Some(Opcode::ReadByte)
    } else {
        None
    }
}

/// Decides whether `c` separates tokens.
pub fn space_char(c: char) -> (r: bool)
    ensures
        r == is_space(c),
{
    let n = c as u32;
    (0x09 <= n && n <= 0x0d) || n == 0x20 || n == 0x85 || n == 0xa0 || n == 0x1680
        || (0x2000 <= n && n <= 0x200a) || n == 0x2028 || n == 0x2029 || n == 0x202f
        || n == 0x205f || n == 0x3000
}

/// Maps a token to the opcode it spells, or `None` for any other text.
pub fn token_opcode(w: &Vec<char>) -> (r: Option<Opcode>)
    ensures
        r == code_of(w@),
{
    if w.len() != 3 {
        return None;
    }
    let (a, b, c) = (w[0], w[1], w[2]);
    assert(w@ =~= seq![a, b, c]);
    if a == 'm' && b == 'o' && c == 'o' {
        Some(Opcode::LoopEnd)
    } else if a == 'm' && b == 'O' && c == 'o' {
        Some(Opcode::PointerDec)
    } else if a == 'm' && b == 'o' && c == 'O' {
        Some(Opcode::PointerInc)
    } else if a == 'm' && b == 'O' && c == 'O' {
        Some(Opcode::ExecCurrent)
    } else if a == 'M' && b == 'o' && c == 'o' {
        Some(Opcode::ReadWriteCond)
    } else if a == 'M' && b == 'O' && c == 'o' {
        Some(Opcode::ValueDec)
    } else if a == 'M' && b == 'o' && c == 'O' {
        Some(Opcode::ValueInc)
    } else if a == 'M' && b == 'O' && c == 'O' {
        Some(Opcode::LoopStart)
    } else if a == 'O' && b == 'O' && c == 'O' {
        Some(Opcode::ValueZero)
    } else if a == 'M' && b == 'M' && c == 'M' {
        Some(Opcode::RegisterToggle)
    } else if a == 'O' && b == 'O' && c == 'M' {
        Some(Opcode::WriteByte)
    } else if a == 'o' && b == 'o' && c == 'm' {
        Some(Opcode::ReadByte)
    } else {
        None
    }
}

} // verus!
