use pico_brainfuck::interpreter::{Action, Interpreter};
use pico_brainfuck::lexer::Lexer;
use pico_brainfuck::op::{Error, Op};
use pico_brainfuck::run;

fn test_ops(ops: &[Op]) -> Vec<u8> {
    Interpreter::interpret(ops, &[], 10_000).unwrap().output
}

#[test]
fn can_run_loops() {
    let ops = Lexer::lex("+++[.-]".as_bytes()).unwrap();
    assert_eq!(test_ops(&ops), vec![3, 2, 1]);
}

#[test]
fn fresh_machine_is_zeroed() {
    let m = Interpreter::new();
    assert_eq!(m.cursor(), 0);
    assert_eq!(m.pc(), 0);
    assert_eq!(m.cell(0), 0);
    assert_eq!(m.cell(29_999), 0);
    let d = Interpreter::default();
    assert_eq!(d.cell(12_345), 0);
}

#[test]
fn increment_pc_moves_by_one() {
    let mut m = Interpreter::new();
    m.increment_pc();
    m.increment_pc();
    assert_eq!(m.pc(), 2);
}

#[test]
fn cells_wrap_modulo_256() {
    let ops = vec![Op::Minus(1), Op::Plus(1)];
    let mut m = Interpreter::new();
    m.run_ops(&ops, &[], 1).unwrap();
    assert_eq!(m.cell(0), 255);
    m.run_ops(&ops, &[], 1).unwrap();
    assert_eq!(m.cell(0), 0);
}

#[test]
fn large_counts_wrap() {
    let ops = vec![Op::Plus(300), Op::Right(1), Op::Minus(513)];
    let mut m = Interpreter::new();
    let r = m.run_ops(&ops, &[], 100).unwrap();
    assert!(r.halted);
    assert_eq!(m.cell(0), 44);
    assert_eq!(m.cell(1), 255);
    assert_eq!(m.cursor(), 1);
}

#[test]
fn assembled_program_runs_until_the_tape_ends() {
    let ops = Lexer::lex(b"++++++++[>++++]").unwrap();
    assert_eq!(
        ops,
        vec![Op::Plus(8), Op::LoopStart(4), Op::Right(1), Op::Plus(4), Op::LoopEnd(1)]
    );
    let mut m = Interpreter::new();
    let r = m.run_ops(&ops, &[], 8).unwrap();
    assert!(!r.halted);
    assert_eq!(m.cell(0), 8);
    assert_eq!(m.cell(1), 4);
    assert_eq!(m.cell(2), 4);
    assert_eq!(m.cursor(), 2);
    // The loop body never clears cell 0, so the cursor walks off the tape.
    let mut m = Interpreter::new();
    assert_eq!(m.run_ops(&ops, &[], 1_000_000), Err(Error::CellRangeError(2)));
    assert_eq!(m.cursor(), 29_999);
    assert_eq!(m.cell(29_999), 4);
}

#[test]
fn counted_loop_multiplies() {
    let ops = Lexer::lex(b"++++++++[>++++<-]").unwrap();
    let mut m = Interpreter::new();
    let r = m.run_ops(&ops, &[], 1000).unwrap();
    assert!(r.halted);
    assert_eq!(m.cell(0), 0);
    assert_eq!(m.cell(1), 32);
    assert_eq!(m.cursor(), 0);
}

#[test]
fn echo_reproduces_its_input() {
    let r = run(b",.", b"x", 100).unwrap();
    assert_eq!(r.output, b"x".to_vec());
    assert_eq!(r.consumed, 1);
    assert!(r.halted);
}

#[test]
fn skipped_loop_jumps_past_its_end() {
    let r = run(b"[.]+.", b"", 100).unwrap();
    assert_eq!(r.output, vec![1]);
}

#[test]
fn moving_left_of_the_tape_fails() {
    assert_eq!(run(b"+<", b"", 100), Err(Error::CellRangeError(1)));
}

#[test]
fn moving_right_of_the_tape_fails() {
    let ops = vec![Op::Right(29_999), Op::Right(1)];
    let mut m = Interpreter::new();
    assert_eq!(m.run_ops(&ops, &[], 10), Err(Error::CellRangeError(1)));
    assert_eq!(m.cursor(), 29_999);
}

#[test]
fn reading_past_the_input_fails() {
    assert_eq!(run(b",,", b"a", 100), Err(Error::InputExhausted(1)));
}

#[test]
fn run_reports_assembly_errors() {
    assert_eq!(run(b"]", b"", 100), Err(Error::UnmatchedCloseBracket(0)));
    assert_eq!(run(b"[", b"", 100), Err(Error::UnclosedLoop(0)));
}

#[test]
fn fuel_bounds_the_run() {
    let r = run(b"+[]", b"", 5).unwrap();
    assert!(!r.halted);
    let r = run(b"+++", b"", 0).unwrap();
    assert!(!r.halted);
}

#[test]
fn stepping_asks_for_input_and_reports_writes() {
    let ops = Lexer::lex(b",+.").unwrap();
    let mut m = Interpreter::new();
    assert_eq!(m.step(&ops), Ok(Action::Read));
    assert_eq!(m.pc(), 0);
    m.feed(&ops, Some(b'a')).unwrap();
    assert_eq!(m.step(&ops), Ok(Action::Continue));
    assert_eq!(m.step(&ops), Ok(Action::Write(b'b')));
    assert_eq!(m.step(&ops), Ok(Action::Halt));
}

#[test]
fn feeding_nothing_exhausts_input() {
    let ops = vec![Op::GetChar];
    let mut m = Interpreter::new();
    assert_eq!(m.step(&ops), Ok(Action::Read));
    assert_eq!(m.feed(&ops, None), Err(Error::InputExhausted(0)));
}
