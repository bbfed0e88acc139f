use vstd::prelude::*;

pub mod interpreter;
pub mod laws;
pub mod lexer;
pub mod op;

use crate::interpreter::{initial, jumps_in_bounds, reports_run, target_in_bounds, Interpreter, Run};
use crate::lexer::{assemble, paired_at, Lexer};
use crate::op::Error;

verus! {

/// Assembles `src` and runs it on a fresh machine for at most `fuel`
/// instructions, reading from `input`.
pub fn run(src: &[u8], input: &[u8], fuel: usize) -> (r: Result<Run, Error>)
    ensures
        match assemble(src@) {
            Ok(ops) => reports_run(r, initial(), ops, input@, fuel as nat),
            Err(e) => r == Err::<Run, Error>(e),
        },
{
    let ops = Lexer::lex(src)?;
    assert(jumps_in_bounds(ops@)) by {
        assert forall|i: int| 0 <= i < ops@.len() implies #[trigger] target_in_bounds(
            ops@[i],
            ops@.len(),
        ) by {
            assert(paired_at(ops@, i));
        }
    }
    Interpreter::interpret(&ops, input, fuel)
}

} // verus!
