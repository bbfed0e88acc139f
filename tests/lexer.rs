use pico_brainfuck::lexer::Lexer;
use pico_brainfuck::op::{Error, Op};

#[test]
fn can_lex_everything() {
    let src = "[<>+-,.]";
    let ops = Lexer::lex(src.as_bytes()).unwrap();
    assert_eq!(ops.len(), 8)
}

#[test]
fn can_lex_repitions() {
    let src = "[<<>+++++-----,.]";
    let ops = Lexer::lex(src.as_bytes()).unwrap();
    assert_eq!(
        ops,
        vec![
            Op::LoopStart(7),
            Op::Left(2),
            Op::Right(1),
            Op::Plus(5),
            Op::Minus(5),
            Op::GetChar,
            Op::PutChar,
            Op::LoopEnd(0)
        ]
    )
}

#[test]
fn can_lex_with_spaces() {
    let src = "- - - - -";
    let ops = Lexer::lex(src.as_bytes()).unwrap();
    assert_eq!(ops[0], Op::Minus(5))
}

#[test]
fn can_lex_nested_loops() {
    let src = "+++++[[-]]";
    let ops = Lexer::lex(src.as_bytes()).unwrap();
    assert_eq!(
        ops,
        vec![
            Op::Plus(5),
            Op::LoopStart(5),
            Op::LoopStart(4),
            Op::Minus(1),
            Op::LoopEnd(2),
            Op::LoopEnd(1)
        ]
    )
}

#[test]
fn can_lex_hello_world() {
    let src = "++++++++[>++++]";
    let ops = Lexer::lex(src.as_bytes()).unwrap();
    assert_eq!(
        ops,
        vec![
            Op::Plus(8),
            Op::LoopStart(4),
            Op::Right(1),
            Op::Plus(4),
            Op::LoopEnd(1)
        ]
    )
}

#[test]
fn comments_between_repeats_are_transparent() {
    let spaced = Lexer::lex(b"- - - - -").unwrap();
    let plain = Lexer::lex(b"-----").unwrap();
    assert_eq!(spaced, plain);
    assert_eq!(plain, vec![Op::Minus(5)]);
}

#[test]
fn comment_inside_a_run_keeps_one_instruction() {
    assert_eq!(Lexer::lex(b"+++a+++").unwrap(), vec![Op::Plus(6)]);
}

#[test]
fn reads_and_writes_never_collapse() {
    assert_eq!(Lexer::lex(b",,").unwrap(), vec![Op::GetChar, Op::GetChar]);
    assert_eq!(Lexer::lex(b"..").unwrap(), vec![Op::PutChar, Op::PutChar]);
}

#[test]
fn different_commands_do_not_merge() {
    assert_eq!(
        Lexer::lex(b"+x-<>><").unwrap(),
        vec![Op::Plus(1), Op::Minus(1), Op::Left(1), Op::Right(2), Op::Left(1)]
    );
}

#[test]
fn runs_split_by_another_command_stay_apart() {
    assert_eq!(
        Lexer::lex(b"++.++").unwrap(),
        vec![Op::Plus(2), Op::PutChar, Op::Plus(2)]
    );
}

#[test]
fn empty_and_comment_only_sources_give_no_instructions() {
    assert_eq!(Lexer::lex(b"").unwrap(), vec![]);
    assert_eq!(Lexer::lex(b"hello world\n").unwrap(), vec![]);
}

#[test]
fn close_without_open_is_rejected() {
    assert_eq!(Lexer::lex(b"]"), Err(Error::UnmatchedCloseBracket(0)));
    assert_eq!(Lexer::lex(b"]]]"), Err(Error::UnmatchedCloseBracket(0)));
    assert_eq!(Lexer::lex(b"+[]]"), Err(Error::UnmatchedCloseBracket(3)));
}

#[test]
fn open_without_close_is_rejected() {
    assert_eq!(Lexer::lex(b"["), Err(Error::UnclosedLoop(0)));
    assert_eq!(Lexer::lex(b"+[[-]"), Err(Error::UnclosedLoop(1)));
    assert_eq!(Lexer::lex(b"[[["), Err(Error::UnclosedLoop(2)));
}

#[test]
fn adjacent_loops_pair_in_order() {
    assert_eq!(
        Lexer::lex(b"[][]").unwrap(),
        vec![Op::LoopStart(1), Op::LoopEnd(0), Op::LoopStart(3), Op::LoopEnd(2)]
    );
}

fn expand(ops: &[Op]) -> Vec<u8> {
    let mut out = Vec::new();
    for op in ops {
        match *op {
            Op::Left(n) => out.extend(std::iter::repeat(b'<').take(n)),
            Op::Right(n) => out.extend(std::iter::repeat(b'>').take(n)),
            Op::Plus(n) => out.extend(std::iter::repeat(b'+').take(n)),
            Op::Minus(n) => out.extend(std::iter::repeat(b'-').take(n)),
            Op::GetChar => out.push(b','),
            Op::PutChar => out.push(b'.'),
            Op::LoopStart(_) => out.push(b'['),
            Op::LoopEnd(_) => out.push(b']'),
        }
    }
    out
}

#[test]
fn expanding_counts_gives_the_source_back() {
    for src in [&b"++[->>+<<]>>."[..], b"[[]]<<<,.,.", b"", b"+-+-[>[-]<]"] {
        let ops = Lexer::lex(src).unwrap();
        assert_eq!(expand(&ops), src.to_vec());
    }
}

#[test]
fn every_jump_lands_on_its_partner() {
    let ops = Lexer::lex(b"+[>[-]<[[.]]]").unwrap();
    for (i, op) in ops.iter().enumerate() {
        match *op {
            Op::LoopStart(t) => assert_eq!(ops[t], Op::LoopEnd(i)),
            Op::LoopEnd(t) => assert_eq!(ops[t], Op::LoopStart(i)),
            _ => {}
        }
    }
}
