//! Running an instruction tree, one step at a time, against a byte tape with
//! a movable pointer and a one-byte register.
//!
//! The machine makes every decision itself; bytes come in and go out through
//! its caller. A step that needs a byte stops and reports it; the caller reads
//! one and hands it over with `provide`.
use vstd::prelude::*;
use crate::parser::{opcode_of, Instruction};
use crate::token::Opcode;

verus! {

/// Number of cells on the tape.
pub const TAPE_LEN: usize = 3000;

/// A fault that ends a run.
#[derive(Clone, Copy, Debug, PartialEq, Eq, Structural)]
pub enum ExecError {
    /// The pointer was moved below the first cell.
    PointerUnderflow,
    /// The pointer was moved past the last cell.
    PointerOverflow,
    /// The instruction that executes the current cell has no defined meaning.
    Unsupported,
    /// A byte was needed and the input had none left.
    InputExhausted,
}

/// What a step asks of the caller.
#[derive(Clone, Copy, Debug, PartialEq, Eq, Structural)]
pub enum Action {
    /// Nothing: call `step` again.
    Continue,
    /// Write this byte to the output, then call `step` again.
    Output(u8),
    /// Read one byte and hand it (or its absence) to `provide`.
    NeedInput,
    /// The program has run to its end.
    Halted,
    /// The run failed.
    Fault(ExecError),
}

/// The machine's state: tape, pointer, register, and one position for each
/// open level of the tree (the top level first, the innermost loop last).
pub struct State {
    pub tape: Seq<u8>,
    pub ptr: int,
    pub reg: Option<u8>,
    pub pcs: Seq<usize>,
}

/// A cell value plus one, modulo 256.
pub open spec fn inc(v: u8) -> u8 {
    ((v + 1) % 256) as u8
}

/// A cell value minus one, modulo 256.
pub open spec fn dec(v: u8) -> u8 {
    ((v + 255) % 256) as u8
}

/// The value of the cell under the pointer.
pub open spec fn cell(s: State) -> u8 {
    s.tape[s.ptr]
}

/// The effect of an instruction that only touches the tape, the pointer and
/// the register (bounds of the pointer aside).
pub open spec fn effect(i: Instruction, s: State) -> State {
    match i {
        Instruction::PointerDec => State { ptr: s.ptr - 1, ..s },
        Instruction::PointerInc => State { ptr: s.ptr + 1, ..s },
        Instruction::ValueDec => State { tape: s.tape.update(s.ptr, dec(cell(s))), ..s },
        Instruction::ValueInc => State { tape: s.tape.update(s.ptr, inc(cell(s))), ..s },
        Instruction::ValueZero => State { tape: s.tape.update(s.ptr, 0), ..s },
        Instruction::RegisterToggle => match s.reg {
            None => State { reg: Some(cell(s)), ..s },
            Some(r) => State { tape: s.tape.update(s.ptr, r), reg: None, ..s },
        },
        _ => s,
    }
}

/// The instructions of level `k`: the program for level 0, else the body of
/// the loop at the position of level `k - 1`.
pub open spec fn level(code: Seq<Instruction>, pcs: Seq<usize>, k: nat) -> Seq<Instruction>
    decreases k,
{
    if k == 0 {
        code
    } else {
        match level(code, pcs, (k - 1) as nat)[pcs[k - 1] as int] {
            Instruction::Loop(b) => b@,
            _ => seq![],
        }
    }
}

/// The positions describe a place in `code`: each outer level stands on a
/// loop, and the innermost one lies within its level or just past its end.
pub open spec fn positions_ok(code: Seq<Instruction>, pcs: Seq<usize>) -> bool {
    &&& pcs.len() >= 1
    &&& forall|k: nat|
        k + 1 < pcs.len() ==> pcs[k as int] < #[trigger] level(code, pcs, k).len() && level(
            code,
            pcs,
            k,
        )[pcs[k as int] as int] is Loop
    &&& pcs.last() <= level(code, pcs, (pcs.len() - 1) as nat).len()
}

/// A state that a run of `code` can be in.
pub open spec fn state_ok(code: Seq<Instruction>, s: State) -> bool {
    &&& s.tape.len() == TAPE_LEN
    &&& 0 <= s.ptr < TAPE_LEN
    &&& positions_ok(code, s.pcs)
}

/// The state at the start of a run: a zeroed tape, the pointer on the first
/// cell, an empty register, at the start of the program.
pub open spec fn initial() -> State {
    State { tape: Seq::new(TAPE_LEN as nat, |i: int| 0u8), ptr: 0, reg: None, pcs: seq![0] }
}

/// The innermost level's instructions.
pub open spec fn current_level(code: Seq<Instruction>, s: State) -> Seq<Instruction> {
    level(code, s.pcs, (s.pcs.len() - 1) as nat)
}

/// The position within the innermost level.
pub open spec fn current_pc(s: State) -> int {
    s.pcs.last() as int
}

/// Moves past the current instruction of the innermost level.
pub open spec fn advance(s: State) -> State {
    State { pcs: s.pcs.update(s.pcs.len() - 1, (s.pcs.last() + 1) as usize), ..s }
}

/// The machine waits for an input byte: it stands on a read, or on a
/// read-or-write whose cell is zero.
pub open spec fn awaiting(code: Seq<Instruction>, s: State) -> bool {
    let body = current_level(code, s);
    let pc = current_pc(s);
    pc < body.len() && (body[pc] == Instruction::ReadByte || (body[pc]
        == Instruction::ReadWriteCond && cell(s) == 0))
}

/// One step of the run of `code` from `s`: the next state and what the
/// caller must do. A fault leaves the state as it was.
pub open spec fn step_spec(code: Seq<Instruction>, s: State) -> (State, Action) {
    let body = current_level(code, s);
    let pc = current_pc(s);
    let k = s.pcs.len() - 1;
    if pc < body.len() {
        match body[pc] {
            Instruction::PointerDec => if s.ptr == 0 {
                (s, Action::Fault(ExecError::PointerUnderflow))
            } else {
                (advance(effect(body[pc], s)), Action::Continue)
            },
            Instruction::PointerInc => if s.ptr + 1 == TAPE_LEN {
                (s, Action::Fault(ExecError::PointerOverflow))
            } else {
                (advance(effect(body[pc], s)), Action::Continue)
            },
            Instruction::ExecCurrent => (s, Action::Fault(ExecError::Unsupported)),
            Instruction::ReadWriteCond => if cell(s) == 0 {
                (s, Action::NeedInput)
            } else {
                (advance(s), Action::Output(cell(s)))
            },
            Instruction::WriteByte => (advance(s), Action::Output(cell(s))),
            Instruction::ReadByte => (s, Action::NeedInput),
            Instruction::Loop(_) => if cell(s) == 0 {
                (advance(s), Action::Continue)
            } else {
                (State { pcs: s.pcs.push(0), ..s }, Action::Continue)
            },
            Instruction::ValueDec
            | Instruction::ValueInc
            | Instruction::ValueZero
            | Instruction::RegisterToggle => (advance(effect(body[pc], s)), Action::Continue),
        }
    } else if k == 0 {
        (s, Action::Halted)
    } else if cell(s) != 0 {
        (State { pcs: s.pcs.update(k, 0), ..s }, Action::Continue)
    } else {
        (advance(State { pcs: s.pcs.drop_last(), ..s }), Action::Continue)
    }
}

/// Hands an input byte, or the end of input, to a machine that waits for one.
pub open spec fn provide_spec(s: State, input: Option<u8>) -> (State, Action) {
    match input {
        None => (s, Action::Fault(ExecError::InputExhausted)),
        Some(b) => (advance(State { tape: s.tape.update(s.ptr, b), ..s }), Action::Continue),
    }
}

proof fn lemma_level_prefix(code: Seq<Instruction>, p: Seq<usize>, q: Seq<usize>, k: nat)
    requires
        k <= p.len(),
        k <= q.len(),
        forall|j: int| 0 <= j < k ==> p[j] == q[j],
    ensures
        level(code, p, k) == level(code, q, k),
    decreases k,
{
    if k > 0 {
        lemma_level_prefix(code, p, q, (k - 1) as nat);
    }
}

/// Positions that agree with `p` below level `n` see the same levels there.
proof fn lemma_levels_kept(code: Seq<Instruction>, p: Seq<usize>, q: Seq<usize>, n: nat)
    requires
        n <= p.len(),
        n <= q.len(),
        forall|j: int| 0 <= j < n ==> p[j] == q[j],
    ensures
        forall|k: nat| k <= n ==> #[trigger] level(code, q, k) == level(code, p, k),
{
    assert forall|k: nat| k <= n implies #[trigger] level(code, q, k) == level(code, p, k) by {
        lemma_level_prefix(code, p, q, k);
    }
}

/// A run of a program: the program, and the state of the run.
pub struct Machine {
    code: Vec<Instruction>,
    tape: Vec<u8>,
    ptr: usize,
    reg: Option<u8>,
    pcs: Vec<usize>,
}

fn kind_of(i: &Instruction) -> (r: Opcode)
    ensures
        r == opcode_of(*i),
{
    match i {
        Instruction::PointerDec => Opcode::PointerDec,
        Instruction::PointerInc => Opcode::PointerInc,
        Instruction::ExecCurrent => Opcode::ExecCurrent,
        Instruction::ReadWriteCond => Opcode::ReadWriteCond,
        Instruction::ValueDec => Opcode::ValueDec,
        Instruction::ValueInc => Opcode::ValueInc,
        Instruction::ValueZero => Opcode::ValueZero,
        Instruction::RegisterToggle => Opcode::RegisterToggle,
        Instruction::WriteByte => Opcode::WriteByte,
        Instruction::ReadByte => Opcode::ReadByte,
        Instruction::Loop(_) => Opcode::LoopStart,
    }
}

impl Machine {
    /// The program being run.
    pub closed spec fn program(&self) -> Seq<Instruction> {
        self.code@
    }

    /// The state of the run.
    pub closed spec fn state(&self) -> State {
        State { tape: self.tape@, ptr: self.ptr as int, reg: self.reg, pcs: self.pcs@ }
    }

    /// The state is one that a run of the program can be in.
    pub closed spec fn wf(&self) -> bool {
        state_ok(self.code@, self.state())
    }

    /// Starts a run of `code` on a zeroed tape.
    pub fn new(code: Vec<Instruction>) -> (m: Machine)
        ensures
            m.wf(),
            m.program() == code@,
            m.state() == initial(),
    {
        let tape: Vec<u8> = vec![0u8; TAPE_LEN];
        let mut pcs: Vec<usize> = Vec::new();
        pcs.push(0);
        let m = Machine { code, tape, ptr: 0, reg: None, pcs };
        proof {
            assert(m.tape@ =~= initial().tape);
            assert(m.pcs@ =~= seq![0usize]);
        }
        m
    }

    fn current_body(&self) -> (r: &Vec<Instruction>)
        requires
            self.wf(),
        ensures
            r@ == current_level(self.program(), self.state()),
    {
        let last = self.pcs.len() - 1;
        let mut cur: &Vec<Instruction> = &self.code;
        let mut k: usize = 0;
        while k < last
            invariant
                last == self.pcs.len() - 1,
                k <= last,
                cur@ == level(self.code@, self.pcs@, k as nat),
                positions_ok(self.code@, self.pcs@),
            decreases last - k,
        {
            assert(level(self.code@, self.pcs@, k as nat)[self.pcs[k as int] as int] is Loop);
            if let Instruction::Loop(b) = &cur[self.pcs[k]] {
                cur = b;
            }
            k += 1;
        }
        cur
    }

    /// Whether the machine waits for an input byte (see `provide`).
    pub fn awaits_input(&self) -> (r: bool)
        requires
            self.wf(),
        ensures
            r == awaiting(self.program(), self.state()),
    {
        let body = self.current_body();
        let pc = self.pcs[self.pcs.len() - 1];
        if pc < body.len() {
            match &body[pc] {
                Instruction::ReadByte => true,
                Instruction::ReadWriteCond => self.tape[self.ptr] == 0,
                _ => false,
            }
        } else {
            false
        }
    }

    /// Moves the innermost position past its instruction.
    fn advance_pc(&mut self)
        requires
            current_pc(old(self).state()) < current_level(old(self).program(), old(self).state()).len(),
            old(self).wf(),
        ensures
            final(self).code == old(self).code,
            final(self).state() == advance(old(self).state()),
            final(self).wf(),
    {
        let k = self.pcs.len() - 1;
        let pc = self.pcs[k];
        let n = self.current_body().len();
        assert(pc < n);
        self.pcs.set(k, pc + 1);
        proof {
            lemma_levels_kept(self.code@, old(self).pcs@, self.pcs@, k as nat);
        }
    }

    /// Performs one step of the run.
    pub fn step(&mut self) -> (a: Action)
        requires
            old(self).wf(),
        ensures
            final(self).wf(),
            final(self).program() == old(self).program(),
            (final(self).state(), a) == step_spec(old(self).program(), old(self).state()),
    {
        let k = self.pcs.len() - 1;
        let pc = self.pcs[k];
        let next: Option<Opcode> = {
            let body = self.current_body();
            if pc < body.len() {
                Some(kind_of(&body[pc]))
            } else {
                None
            }
        };
        let ghost s = self.state();
        let ghost body = current_level(self.code@, s);
        let c = self.tape[self.ptr];
        match next {
            Some(op) => {
                match op {
                    Opcode::PointerDec => {
                        if self.ptr == 0 {
                            return Action::Fault(ExecError::PointerUnderflow);
                        }
                        self.ptr = self.ptr - 1;
                        self.advance_pc();
                        Action::Continue
                    },
                    Opcode::PointerInc => {
                        if self.ptr + 1 == TAPE_LEN {
                            return Action::Fault(ExecError::PointerOverflow);
                        }
                        self.ptr = self.ptr + 1;
                        self.advance_pc();
                        Action::Continue
                    },
                    Opcode::ExecCurrent => Action::Fault(ExecError::Unsupported),
                    Opcode::ReadWriteCond => {
                        if c == 0 {
                            Action::NeedInput
                        } else {
                            self.advance_pc();
                            Action::Output(c)
                        }
                    },
                    Opcode::WriteByte => {
                        self.advance_pc();
                        Action::Output(c)
                    },
                    Opcode::ReadByte => Action::NeedInput,
                    Opcode::ValueDec => {
                        let v: u8 = if c == 0 { 255 } else { c - 1 };
                        self.tape.set(self.ptr, v);
                        self.advance_pc();
                        Action::Continue
                    },
                    Opcode::ValueInc => {
                        let v: u8 = if c == 255 { 0 } else { c + 1 };
                        self.tape.set(self.ptr, v);
                        self.advance_pc();
                        Action::Continue
                    },
                    Opcode::ValueZero => {
                        self.tape.set(self.ptr, 0);
                        self.advance_pc();
                        Action::Continue
                    },
                    Opcode::RegisterToggle => {
                        match self.reg {
                            None => {
                                self.reg = Some(c);
                            },
                            Some(r) => {
                                self.tape.set(self.ptr, r);
                                self.reg = None;
                            },
                        }
                        self.advance_pc();
                        Action::Continue
                    },
                    _ => {
                        // only a loop node has the loop-start kind
                        if c == 0 {
                            self.advance_pc();
                        } else {
                            self.pcs.push(0);
                            proof {
                                lemma_levels_kept(self.code@, s.pcs, self.pcs@, k as nat + 1);
                                assert(level(self.code@, self.pcs@, k as nat + 1) == match body[pc as int] {
                                    Instruction::Loop(b) => b@,
                                    _ => seq![],
                                });
                            }
                        }
                        Action::Continue
                    },
                }
            },
            None => {
                if k == 0 {
                    Action::Halted
                } else if c != 0 {
                    self.pcs.set(k, 0);
                    proof {
                        lemma_levels_kept(self.code@, s.pcs, self.pcs@, k as nat);
                    }
                    Action::Continue
                } else {
                    self.pcs.pop();
                    proof {
                        lemma_levels_kept(self.code@, s.pcs, self.pcs@, (k - 1) as nat);
                        assert(self.pcs@ =~= s.pcs.drop_last());
                    }
                    self.advance_pc();
                    Action::Continue
                }
            },
        }
    }

    /// The value of the cell under the pointer.
    pub fn current_cell(&self) -> (r: u8)
        requires
            self.wf(),
        ensures
            r == cell(self.state()),
    {
        self.tape[self.ptr]
    }

    /// The value of cell `i`.
    pub fn cell_at(&self, i: usize) -> (r: u8)
        requires
            self.wf(),
            i < TAPE_LEN,
        ensures
            r == self.state().tape[i as int],
    {
        self.tape[i]
    }

    /// The pointer's position.
    pub fn pointer(&self) -> (r: usize)
        ensures
            r == self.state().ptr,
    {
        self.ptr
    }

    /// The register's content, `None` when it is empty.
    pub fn register(&self) -> (r: Option<u8>)
        ensures
            r == self.state().reg,
    {
        self.reg
    }

    /// Hands the machine the byte it waits for, or `None` at the end of input.
    pub fn provide(&mut self, input: Option<u8>) -> (a: Action)
        requires
            old(self).wf(),
            awaiting(old(self).program(), old(self).state()),
        ensures
            final(self).wf(),
            final(self).program() == old(self).program(),
            (final(self).state(), a) == provide_spec(old(self).state(), input),
    {
        match input {
            None => Action::Fault(ExecError::InputExhausted),
            Some(b) => {
                self.tape.set(self.ptr, b);
                self.advance_pc();
                Action::Continue
            },
        }
    }
}

/// `i`'s effect applied `n` times in a row.
pub open spec fn repeat(i: Instruction, s: State, n: nat) -> State
    decreases n,
{
    if n == 0 {
        s
    } else {
        effect(i, repeat(i, s, (n - 1) as nat))
    }
}

proof fn lemma_inc_repeat(s: State, n: nat)
    requires
        0 <= s.ptr < s.tape.len(),
    ensures
        repeat(Instruction::ValueInc, s, n) == (State {
            tape: s.tape.update(s.ptr, ((cell(s) + n) % 256) as u8),
            ..s
        }),
    decreases n,
{
    if n == 0 {
        assert(s.tape.update(s.ptr, ((cell(s) + 0) % 256) as u8) =~= s.tape);
    } else {
        lemma_inc_repeat(s, (n - 1) as nat);
        let t = repeat(Instruction::ValueInc, s, (n - 1) as nat);
        assert(inc(cell(t)) == ((cell(s) + n) % 256) as u8);
        assert(t.tape.update(s.ptr, inc(cell(t))) =~= s.tape.update(
            s.ptr,
            ((cell(s) + n) % 256) as u8,
        ));
    }
}

/// Incrementing a cell 256 times gives back its value, and decrementing a
/// cell undoes incrementing it (and the other way round).
pub proof fn lemma_value_wraps(s: State)
    requires
        0 <= s.ptr < s.tape.len(),
    ensures
        repeat(Instruction::ValueInc, s, 256) == s,
        effect(Instruction::ValueDec, effect(Instruction::ValueInc, s)) == s,
        effect(Instruction::ValueInc, effect(Instruction::ValueDec, s)) == s,
{
    lemma_inc_repeat(s, 256);
    assert(s.tape.update(s.ptr, ((cell(s) + 256) % 256) as u8) =~= s.tape);
    assert(s.tape.update(s.ptr, inc(cell(s))).update(s.ptr, dec(inc(cell(s)))) =~= s.tape);
    assert(s.tape.update(s.ptr, dec(cell(s))).update(s.ptr, inc(dec(cell(s)))) =~= s.tape);
}

/// With the register empty, toggling it twice leaves the cell, and the whole
/// state, as it was.
pub proof fn lemma_toggle_twice(s: State)
    requires
        0 <= s.ptr < s.tape.len(),
        s.reg is None,
    ensures
        cell(effect(Instruction::RegisterToggle, effect(Instruction::RegisterToggle, s))) == cell(
            s,
        ),
        effect(Instruction::RegisterToggle, effect(Instruction::RegisterToggle, s)) == s,
{
    assert(s.tape.update(s.ptr, cell(s)) =~= s.tape);
}

/// A loop whose guard cell is zero is stepped over: its body is not entered
/// and nothing but the position changes.
pub proof fn lemma_zero_guard_skips(code: Seq<Instruction>, s: State)
    requires
        state_ok(code, s),
        current_pc(s) < current_level(code, s).len(),
        current_level(code, s)[current_pc(s)] is Loop,
        cell(s) == 0,
    ensures
        step_spec(code, s) == (advance(s), Action::Continue),
        advance(s).tape == s.tape,
        advance(s).ptr == s.ptr,
        advance(s).reg == s.reg,
        advance(s).pcs.len() == s.pcs.len(),
{
}

} // verus!
