//! Building the instruction tree: matched loop delimiters become nested
//! `Loop` nodes.
use vstd::prelude::*;
use crate::token::Opcode;

verus! {

/// A node of the executable tree: a primitive operation, or a loop that owns
/// its body.
#[derive(Debug, PartialEq, Eq)]
pub enum Instruction {
    PointerDec,
    PointerInc,
    ExecCurrent,
    ReadWriteCond,
    ValueDec,
    ValueInc,
    ValueZero,
    RegisterToggle,
    WriteByte,
    ReadByte,
    Loop(Vec<Instruction>),
}

/// Why a sequence of opcodes has no instruction tree.
#[derive(Clone, Copy, Debug, PartialEq, Eq, Structural)]
pub enum ParseError {
    /// A loop end was met while no loop was open.
    UnmatchedLoopEnd,
}

/// Whether `op` delimits a loop rather than standing for an instruction.
pub open spec fn is_delimiter(op: Opcode) -> bool {
    op == Opcode::LoopStart || op == Opcode::LoopEnd
}

/// The leaf instruction of a non-delimiter opcode.
pub open spec fn leaf(op: Opcode) -> Instruction {
    match op {
        Opcode::PointerDec => Instruction::PointerDec,
        Opcode::PointerInc => Instruction::PointerInc,
        Opcode::ExecCurrent => Instruction::ExecCurrent,
        Opcode::ReadWriteCond => Instruction::ReadWriteCond,
        Opcode::ValueDec => Instruction::ValueDec,
        Opcode::ValueInc => Instruction::ValueInc,
        Opcode::ValueZero => Instruction::ValueZero,
        Opcode::RegisterToggle => Instruction::RegisterToggle,
        Opcode::WriteByte => Instruction::WriteByte,
        _ => Instruction::ReadByte,
    }
}

/// The opcode that a leaf instruction stands for (`LoopStart` for a loop).
pub open spec fn opcode_of(i: Instruction) -> Opcode {
    match i {
        Instruction::PointerDec => Opcode::PointerDec,
        Instruction::PointerInc => Opcode::PointerInc,
        Instruction::ExecCurrent => Opcode::ExecCurrent,
        Instruction::ReadWriteCond => Opcode::ReadWriteCond,
        Instruction::ValueDec => Opcode::ValueDec,
        Instruction::ValueInc => Opcode::ValueInc,
        Instruction::ValueZero => Opcode::ValueZero,
        Instruction::RegisterToggle => Opcode::RegisterToggle,
        Instruction::WriteByte => Opcode::WriteByte,
        Instruction::ReadByte => Opcode::ReadByte,
        Instruction::Loop(_) => Opcode::LoopStart,
    }
}

/// An instruction written back out as opcodes, a loop between its delimiters.
pub open spec fn ser(i: Instruction) -> Seq<Opcode>
    decreases i,
{
    match i {
        Instruction::Loop(b) => seq![Opcode::LoopStart] + ser_seq(b@) + seq![Opcode::LoopEnd],
        _ => seq![opcode_of(i)],
    }
}

/// A sequence of instructions written back out as opcodes.
pub open spec fn ser_seq(s: Seq<Instruction>) -> Seq<Opcode>
    decreases s,
{
    if s.len() == 0 {
        seq![]
    } else {
        ser_seq(s.subrange(0, s.len() - 1)) + ser(s[s.len() - 1])
    }
}

/// The change in loop depth that `op` makes.
pub open spec fn delta(op: Opcode) -> int {
    if op == Opcode::LoopStart {
        1
    } else if op == Opcode::LoopEnd {
        -1
    } else {
        0
    }
}

/// The loop depth after `s`: loop starts less loop ends.
pub open spec fn depth(s: Seq<Opcode>) -> int
    decreases s.len(),
{
    if s.len() == 0 {
        0
    } else {
        depth(s.drop_last()) + delta(s.last())
    }
}

/// Some prefix of `ops` closes a loop that was never opened.
pub open spec fn breaks_nesting(ops: Seq<Opcode>) -> bool {
    exists|j: int| 0 <= j <= ops.len() && #[trigger] depth(ops.take(j)) < 0
}

/// Every loop end of `ops` closes an open loop and every loop is closed.
pub open spec fn well_nested(ops: Seq<Opcode>) -> bool {
    !breaks_nesting(ops) && depth(ops) == 0
}

/// `t` is the tree of `ops`: written back out it gives `ops` up to the start
/// of the outermost loop that is never closed (all of `ops` when every loop
/// is closed).
pub open spec fn parsed(ops: Seq<Opcode>, t: Seq<Instruction>) -> bool {
    exists|j: int|
        0 <= j <= ops.len() && ser_seq(t) == #[trigger] ops.take(j) && depth(ops.take(j)) == 0
            && forall|k: int| j < k <= ops.len() ==> depth(#[trigger] ops.take(k)) > 0
}

/// Open frames of the builder written out: each frame's instructions, the
/// frames separated by the loop starts that opened them.
spec fn join(fs: Seq<Seq<Instruction>>) -> Seq<Opcode>
    decreases fs.len(),
{
    if fs.len() == 0 {
        seq![]
    } else if fs.len() == 1 {
        ser_seq(fs[0])
    } else {
        join(fs.drop_last()) + seq![Opcode::LoopStart] + ser_seq(fs.last())
    }
}

/// The builder's frames: those it has set aside, then the one it fills.
spec fn frames(outer: Seq<Vec<Instruction>>, cur: Seq<Instruction>) -> Seq<Seq<Instruction>> {
    outer.map_values(|v: Vec<Instruction>| v@).push(cur)
}

proof fn lemma_ser_seq_push(s: Seq<Instruction>, x: Instruction)
    ensures
        ser_seq(s.push(x)) == ser_seq(s) + ser(x),
{
    assert(s.push(x).subrange(0, s.len() as int) =~= s);
}

proof fn lemma_depth_step(ops: Seq<Opcode>, i: int)
    requires
        0 <= i < ops.len(),
    ensures
        ops.take(i + 1) == ops.take(i).push(ops[i]),
        depth(ops.take(i + 1)) == depth(ops.take(i)) + delta(ops[i]),
{
    assert(ops.take(i + 1) =~= ops.take(i).push(ops[i]));
    assert(ops.take(i + 1).drop_last() =~= ops.take(i));
}

proof fn lemma_join_prefix(fs: Seq<Seq<Instruction>>)
    requires
        fs.len() >= 1,
    ensures
        ser_seq(fs[0]).len() <= join(fs).len(),
        join(fs).take(ser_seq(fs[0]).len() as int) == ser_seq(fs[0]),
    decreases fs.len(),
{
    if fs.len() > 1 {
        lemma_join_prefix(fs.drop_last());
        assert(join(fs).take(ser_seq(fs[0]).len() as int) =~= join(fs.drop_last()).take(
            ser_seq(fs[0]).len() as int,
        ));
    } else {
        assert(join(fs).take(ser_seq(fs[0]).len() as int) =~= ser_seq(fs[0]));
    }
}

fn leaf_instr(op: Opcode) -> (r: Instruction)
    requires
        !is_delimiter(op),
    ensures
        r == leaf(op),
{
    match op {
        Opcode::PointerDec => Instruction::PointerDec,
        Opcode::PointerInc => Instruction::PointerInc,
        Opcode::ExecCurrent => Instruction::ExecCurrent,
        Opcode::ReadWriteCond => Instruction::ReadWriteCond,
        Opcode::ValueDec => Instruction::ValueDec,
        Opcode::ValueInc => Instruction::ValueInc,
        Opcode::ValueZero => Instruction::ValueZero,
        Opcode::RegisterToggle => Instruction::RegisterToggle,
        Opcode::WriteByte => Instruction::WriteByte,
        _ => Instruction::ReadByte,
    }
}

/// Builds the instruction tree of `ops`. Fails exactly when some loop end
/// has no open loop to close; a loop that is never closed is dropped with
/// everything after its start.
pub fn parse(ops: &Vec<Opcode>) -> (r: Result<Vec<Instruction>, ParseError>)
    ensures
        r is Err <==> breaks_nesting(ops@),
        r matches Ok(t) ==> parsed(ops@, t@),
{
    let n = ops.len();
    let mut outer: Vec<Vec<Instruction>> = Vec::new();
    let mut cur: Vec<Instruction> = Vec::new();
    let mut i: usize = 0;
    proof {
        assert(ops@.take(0) =~= seq![]);
        assert(frames(outer@, cur@) =~= seq![cur@]);
    }
    while i < n
        invariant
            n == ops.len(),
            0 <= i <= n,
            join(frames(outer@, cur@)) == ops@.take(i as int),
            depth(ops@.take(i as int)) == outer.len(),
            forall|j: int| 0 <= j <= i ==> depth(#[trigger] ops@.take(j)) >= 0,
            outer.len() > 0 ==> ({
                let j0 = ser_seq(outer@[0]@).len() as int;
                &&& depth(ops@.take(j0)) == 0
                &&& forall|k: int| j0 < k <= i ==> depth(#[trigger] ops@.take(k)) > 0
            }),
        decreases n - i,
    {
        let op = ops[i];
        let ghost fs = frames(outer@, cur@);
        proof {
            lemma_depth_step(ops@, i as int);
        }
        match op {
            Opcode::LoopStart => {
                proof {
                    if outer.len() == 0 {
                        assert(fs =~= seq![cur@]);
                    }
                }
                outer.push(cur);
                cur = Vec::new();
                proof {
                    let fs2 = frames(outer@, cur@);
                    assert(fs2.drop_last() =~= fs);
                    assert(join(fs2) =~= ops@.take(i + 1));
                    if outer.len() == 1 {
                        assert(ser_seq(outer@[0]@).len() == i);
                    }
                }
            },
            Opcode::LoopEnd => {
                if outer.len() == 0 {
                    assert(depth(ops@.take(i + 1)) < 0);
                    return Err(ParseError::UnmatchedLoopEnd);
                }
                let ghost old_outer = outer@;
                let mut parent = outer.pop().unwrap();
                let ghost p = parent@;
                let body = cur;
                parent.push(Instruction::Loop(body));
                proof {
                    lemma_ser_seq_push(p, Instruction::Loop(body));
                    let fs2 = frames(outer@, parent@);
                    assert(fs.drop_last() =~= frames(outer@, p));
                    assert(fs2.drop_last() =~= frames(outer@, p).drop_last());
                    assert(frames(outer@, p).last() == p);
                    if outer.len() > 0 {
                        assert(outer@[0] == old_outer[0]);
                    }
                    assert(fs.len() >= 2);
                    assert(join(fs) == join(frames(outer@, p)) + seq![Opcode::LoopStart]
                        + ser_seq(body@));
                    assert(ser(Instruction::Loop(body)) == seq![Opcode::LoopStart] + ser_seq(
                        body@,
                    ) + seq![Opcode::LoopEnd]);
                    if fs2.len() == 1 {
                        assert(join(fs2) == ser_seq(parent@));
                        assert(join(frames(outer@, p)) == ser_seq(p));
                    } else {
                        assert(join(fs2) == join(fs2.drop_last()) + seq![Opcode::LoopStart]
                            + ser_seq(parent@));
                        assert(join(frames(outer@, p)) == join(fs2.drop_last()) + seq![
                            Opcode::LoopStart,
                        ] + ser_seq(p));
                    }
                    assert(join(fs2) =~= ops@.take(i + 1));
                }
                cur = parent;
            },
            _ => {
                let ins = leaf_instr(op);
                let ghost c = cur@;
                cur.push(ins);
                proof {
                    lemma_ser_seq_push(c, ins);
                    let fs2 = frames(outer@, cur@);
                    assert(fs2.drop_last() =~= fs.drop_last());
                    assert(join(fs2) =~= ops@.take(i + 1));
                }
            },
        }
        i += 1;
    }
    assert(ops@.take(n as int) =~= ops@);
    if outer.len() == 0 {
        proof {
            assert(frames(outer@, cur@) =~= seq![cur@]);
        }
        Ok(cur)
    } else {
        let ghost fs = frames(outer@, cur@);
        proof {
            lemma_join_prefix(fs);
            let j0 = ser_seq(outer@[0]@).len() as int;
            assert(fs[0] == outer@[0]@);
            assert(ops@.take(j0) =~= ops@.take(n as int).take(j0));
        }
        let t = outer.remove(0);
        Ok(t)
    }
}

/// The primitive opcodes of an instruction in execution order, loops unwrapped.
pub open spec fn flatten(i: Instruction) -> Seq<Opcode>
    decreases i,
{
    match i {
        Instruction::Loop(b) => flatten_seq(b@),
        _ => seq![opcode_of(i)],
    }
}

/// The primitive opcodes of a sequence of instructions, loops unwrapped.
pub open spec fn flatten_seq(s: Seq<Instruction>) -> Seq<Opcode>
    decreases s,
{
    if s.len() == 0 {
        seq![]
    } else {
        flatten_seq(s.subrange(0, s.len() - 1)) + flatten(s[s.len() - 1])
    }
}

/// The opcodes of `ops` that are not loop delimiters, in order.
pub open spec fn strip(ops: Seq<Opcode>) -> Seq<Opcode> {
    ops.filter(|op: Opcode| !is_delimiter(op))
}

proof fn lemma_flatten_strips(i: Instruction)
    ensures
        flatten(i) == strip(ser(i)),
    decreases i,
{
    broadcast use Seq::filter_distributes_over_add;

    match i {
        Instruction::Loop(b) => {
            lemma_flatten_seq_strips(b@);
            assert(strip(seq![Opcode::LoopStart]) =~= seq![]) by {
                reveal_with_fuel(Seq::filter, 2);
            }
            assert(strip(seq![Opcode::LoopEnd]) =~= seq![]) by {
                reveal_with_fuel(Seq::filter, 2);
            }
            assert(flatten(i) =~= strip(ser(i)));
        },
        _ => {
            assert(strip(seq![opcode_of(i)]) =~= seq![opcode_of(i)]) by {
                reveal_with_fuel(Seq::filter, 2);
                assert(seq![opcode_of(i)].drop_last() =~= seq![]);
            }
        },
    }
}

proof fn lemma_flatten_seq_strips(s: Seq<Instruction>)
    ensures
        flatten_seq(s) == strip(ser_seq(s)),
    decreases s,
{
    broadcast use Seq::filter_distributes_over_add;

    if s.len() == 0 {
        assert(strip(seq![]) =~= seq![]);
    } else {
        lemma_flatten_seq_strips(s.subrange(0, s.len() - 1));
        lemma_flatten_strips(s[s.len() - 1]);
    }
}

/// For well-nested opcodes the tree holds all of them: written back out it
/// gives the input, and unwrapping its loops gives the input's non-delimiter
/// opcodes in their original order.
pub proof fn lemma_parse_keeps_order(ops: Seq<Opcode>, t: Seq<Instruction>)
    requires
        well_nested(ops),
        parsed(ops, t),
    ensures
        ser_seq(t) == ops,
        flatten_seq(t) == strip(ops),
{
    let j = choose|j: int|
        0 <= j <= ops.len() && ser_seq(t) == #[trigger] ops.take(j) && depth(ops.take(j)) == 0
            && forall|k: int| j < k <= ops.len() ==> depth(#[trigger] ops.take(k)) > 0;
    assert(ops.take(ops.len() as int) =~= ops);
    assert(j == ops.len());
    lemma_flatten_seq_strips(t);
}

} // verus!
