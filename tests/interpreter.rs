use cowlang::lexer::lex;
use cowlang::load;
use cowlang::machine::{Action, ExecError, Machine, TAPE_LEN};
use cowlang::parser::{parse, Instruction, ParseError};
use cowlang::token::{space_char, token_opcode, Opcode};

/// Runs `src` to its end, feeding bytes from `input`; returns what was
/// written, how the run ended, and the machine.
fn run(src: &str, input: &[u8]) -> (Vec<u8>, Action, Machine) {
    let mut m = load(src).expect("program should parse");
    let mut out = Vec::new();
    let mut next_input = 0;
    for _ in 0..1_000_000 {
        match m.step() {
            Action::Continue => {}
            Action::Output(b) => out.push(b),
            Action::NeedInput => {
                assert!(m.awaits_input());
                let byte = input.get(next_input).copied();
                next_input += 1;
                match m.provide(byte) {
                    Action::Continue => {}
                    other => return (out, other, m),
                }
            }
            other => return (out, other, m),
        }
    }
    panic!("program did not stop");
}

fn ops(src: &str) -> Vec<Opcode> {
    lex(src)
}

#[test]
fn three_increments_then_write() {
    let (out, end, m) = run("MoO MoO MoO OOM", &[]);
    assert_eq!(out, vec![3]);
    assert_eq!(end, Action::Halted);
    assert_eq!(m.current_cell(), 3);
    assert_eq!(m.pointer(), 0);
}

#[test]
fn lone_loop_end_is_rejected() {
    assert_eq!(ops("moo"), vec![Opcode::LoopEnd]);
    assert!(matches!(load("moo"), Err(ParseError::UnmatchedLoopEnd)));
    assert_eq!(parse(&ops("moo")), Err(ParseError::UnmatchedLoopEnd));
}

#[test]
fn loop_with_zero_guard_runs_no_iterations() {
    let (out, end, m) = run("MOO MoO moo", &[]);
    assert!(out.is_empty());
    assert_eq!(end, Action::Halted);
    for i in 0..TAPE_LEN {
        assert_eq!(m.cell_at(i), 0);
    }
    assert_eq!(m.register(), None);
}

#[test]
fn noise_only_text_does_nothing() {
    let src = "hello world\tmoon MOOO mo\n\u{3000}MoOMoO  oo m";
    assert!(ops(src).is_empty());
    assert!(ops("").is_empty());
    assert!(ops(" \n\t ").is_empty());
    let mut m = load(src).expect("noise parses");
    assert_eq!(m.step(), Action::Halted);
    assert_eq!(m.pointer(), 0);
    assert_eq!(m.register(), None);
    assert_eq!(m.current_cell(), 0);
}

#[test]
fn tokens_split_on_any_whitespace() {
    let src = "MoO\tmoO\n\nOOM\u{a0}MMM\u{2003}oom\r\nMoo";
    assert_eq!(
        ops(src),
        vec![
            Opcode::ValueInc,
            Opcode::PointerInc,
            Opcode::WriteByte,
            Opcode::RegisterToggle,
            Opcode::ReadByte,
            Opcode::ReadWriteCond,
        ]
    );
}

#[test]
fn tokens_are_case_sensitive() {
    assert_eq!(ops("MOO moo Moo mOO"), vec![
        Opcode::LoopStart,
        Opcode::LoopEnd,
        Opcode::ReadWriteCond,
        Opcode::ExecCurrent,
    ]);
    assert!(ops("MOo_ mOOo mOo.").is_empty());
}

#[test]
fn all_twelve_tokens() {
    let src = "moo mOo moO mOO Moo MOo MoO MOO OOO MMM OOM oom";
    assert_eq!(
        ops(src),
        vec![
            Opcode::LoopEnd,
            Opcode::PointerDec,
            Opcode::PointerInc,
            Opcode::ExecCurrent,
            Opcode::ReadWriteCond,
            Opcode::ValueDec,
            Opcode::ValueInc,
            Opcode::LoopStart,
            Opcode::ValueZero,
            Opcode::RegisterToggle,
            Opcode::WriteByte,
            Opcode::ReadByte,
        ]
    );
}

#[test]
fn single_token_lookup() {
    assert_eq!(token_opcode(&"OOM".chars().collect()), Some(Opcode::WriteByte));
    assert_eq!(token_opcode(&"OOm".chars().collect()), None);
    assert_eq!(token_opcode(&"OOMM".chars().collect()), None);
    assert_eq!(token_opcode(&Vec::new()), None);
    assert!(space_char(' '));
    assert!(space_char('\u{85}'));
    assert!(space_char('\u{3000}'));
    assert!(!space_char('m'));
    assert!(!space_char('\u{200b}'));
}

#[test]
fn nested_loops_keep_order() {
    let code = parse(&ops("MoO MOO moO MOO MOo moo moo OOM")).unwrap();
    assert_eq!(
        code,
        vec![
            Instruction::ValueInc,
            Instruction::Loop(vec![
                Instruction::PointerInc,
                Instruction::Loop(vec![Instruction::ValueDec]),
            ]),
            Instruction::WriteByte,
        ]
    );
}

#[test]
fn loop_right_after_loop_start() {
    let code = parse(&ops("MOO MOO moo moo")).unwrap();
    assert_eq!(code, vec![Instruction::Loop(vec![Instruction::Loop(vec![])])]);
    let code = parse(&ops("MOO moo MOO OOM moo")).unwrap();
    assert_eq!(
        code,
        vec![Instruction::Loop(vec![]), Instruction::Loop(vec![Instruction::WriteByte])]
    );
}

#[test]
fn unclosed_loop_is_dropped() {
    let code = parse(&ops("MoO OOM MOO MoO MOO moo OOM")).unwrap();
    assert_eq!(code, vec![Instruction::ValueInc, Instruction::WriteByte]);
    assert_eq!(parse(&ops("MOO")).unwrap(), vec![]);
}

#[test]
fn loop_end_after_closed_loops_is_rejected() {
    assert_eq!(parse(&ops("MOO moo moo")), Err(ParseError::UnmatchedLoopEnd));
    assert!(matches!(load("MoO OOM moo MOO"), Err(ParseError::UnmatchedLoopEnd)));
}

#[test]
fn increment_wraps_after_256() {
    let src = vec!["MoO"; 256].join(" ") + " OOM";
    let (out, end, _) = run(&src, &[]);
    assert_eq!(out, vec![0]);
    assert_eq!(end, Action::Halted);
}

#[test]
fn decrement_undoes_increment() {
    let (out, _, _) = run("MoO MoO MOo OOM MOo MOo OOM MoO OOM", &[]);
    assert_eq!(out, vec![1, 255, 0]);
}

#[test]
fn toggle_twice_keeps_cell() {
    let (out, end, m) = run("MoO MoO MMM MMM OOM", &[]);
    assert_eq!(out, vec![2]);
    assert_eq!(end, Action::Halted);
    assert_eq!(m.register(), None);
}

#[test]
fn register_copies_between_cells() {
    let (out, _, m) = run("MoO MoO MoO MoO MoO MMM moO MMM OOM mOo OOO OOM", &[]);
    assert_eq!(out, vec![5, 0]);
    assert_eq!(m.cell_at(1), 5);
    assert_eq!(m.register(), None);
}

#[test]
fn toggle_with_full_register_writes_it() {
    let (out, _, m) = run("MoO MoO MoO MMM OOO MMM OOM", &[]);
    assert_eq!(out, vec![3]);
    assert_eq!(m.register(), None);
    let (out, _, m) = run("MoO MMM MoO MMM OOM", &[]);
    assert_eq!(out, vec![1]);
    assert_eq!(m.register(), None);
}

#[test]
fn zero_guard_skips_loop_body() {
    let (out, end, _) = run("MOO OOM MoO moo OOM", &[]);
    assert_eq!(out, vec![0]);
    assert_eq!(end, Action::Halted);
}

#[test]
fn loop_counts_down() {
    let (out, end, m) = run("MoO MoO MoO MOO OOM MOo moo OOM", &[]);
    assert_eq!(out, vec![3, 2, 1, 0]);
    assert_eq!(end, Action::Halted);
    assert_eq!(m.current_cell(), 0);
}

#[test]
fn nested_loops_move_values() {
    // cell0 = 2; each pass adds 3 to cell1
    let src = "MoO MoO MOO moO MoO MoO MoO mOo MOo moo moO OOM";
    let (out, end, _) = run(src, &[]);
    assert_eq!(out, vec![6]);
    assert_eq!(end, Action::Halted);
}

#[test]
fn pointer_below_first_cell_faults() {
    let (out, end, m) = run("MoO OOM mOo OOM", &[]);
    assert_eq!(out, vec![1]);
    assert_eq!(end, Action::Fault(ExecError::PointerUnderflow));
    assert_eq!(m.pointer(), 0);
}

#[test]
fn pointer_past_last_cell_faults() {
    let src = vec!["moO"; TAPE_LEN - 1].join(" ") + " MoO OOM moO";
    let (out, end, m) = run(&src, &[]);
    assert_eq!(out, vec![1]);
    assert_eq!(end, Action::Fault(ExecError::PointerOverflow));
    assert_eq!(m.pointer(), TAPE_LEN - 1);
}

#[test]
fn execute_current_is_unsupported() {
    let (out, end, _) = run("OOM mOO OOM", &[]);
    assert_eq!(out, vec![0]);
    assert_eq!(end, Action::Fault(ExecError::Unsupported));
}

#[test]
fn read_stores_byte() {
    let (out, end, m) = run("oom OOM MoO OOM", &[65]);
    assert_eq!(out, vec![65, 66]);
    assert_eq!(end, Action::Halted);
    assert_eq!(m.current_cell(), 66);
}

#[test]
fn read_without_input_faults() {
    let (out, end, _) = run("OOM oom OOM", &[]);
    assert_eq!(out, vec![0]);
    assert_eq!(end, Action::Fault(ExecError::InputExhausted));
}

#[test]
fn read_or_write_picks_by_cell() {
    let (out, end, m) = run("Moo Moo", &[9]);
    assert_eq!(out, vec![9]);
    assert_eq!(end, Action::Halted);
    assert_eq!(m.current_cell(), 9);
    let (out, end, _) = run("Moo", &[]);
    assert!(out.is_empty());
    assert_eq!(end, Action::Fault(ExecError::InputExhausted));
}

#[test]
fn step_reports_need_input_without_change() {
    let mut m = load("MoO MOo oom").unwrap();
    assert!(!m.awaits_input());
    assert_eq!(m.step(), Action::Continue);
    assert_eq!(m.step(), Action::Continue);
    assert!(m.awaits_input());
    assert_eq!(m.step(), Action::NeedInput);
    assert_eq!(m.step(), Action::NeedInput);
    assert_eq!(m.provide(Some(200)), Action::Continue);
    assert_eq!(m.current_cell(), 200);
    assert_eq!(m.step(), Action::Halted);
}

#[test]
fn empty_loop_with_nonzero_cell_keeps_going() {
    let mut m = load("MoO MOO moo").unwrap();
    for _ in 0..100 {
        assert_eq!(m.step(), Action::Continue);
    }
    assert_eq!(m.current_cell(), 1);
}

#[test]
fn fresh_machine_state() {
    let m = Machine::new(vec![]);
    assert_eq!(m.pointer(), 0);
    assert_eq!(m.register(), None);
    assert_eq!(m.cell_at(TAPE_LEN - 1), 0);
}
