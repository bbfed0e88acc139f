use vstd::prelude::*;

verus! {

/// One instruction of an assembled program.
#[derive(Debug, Clone, Copy, PartialEq, Eq, Structural)]
pub enum Op {
    /// Move the data cursor left by the count.
    Left(usize),
    /// Move the data cursor right by the count.
    Right(usize),
    /// Add the count, modulo 256, to the cell under the cursor.
    Plus(usize),
    /// Subtract the count, modulo 256, from the cell under the cursor.
    Minus(usize),
    /// Read one input byte into the cell under the cursor.
    GetChar,
    /// Write the cell under the cursor to the output.
    PutChar,
    /// Jump to the matching `LoopEnd` when the cell under the cursor is zero.
    LoopStart(usize),
    /// Jump back to the matching `LoopStart` when the cell under the cursor is not zero.
    LoopEnd(usize),
}

/// Why assembling or running a program failed.
#[derive(Debug, Clone, Copy, PartialEq, Eq, Structural)]
pub enum Error {
    /// A `]` with no pending `[`; holds the instruction index it would have taken.
    UnmatchedCloseBracket(usize),
    /// A `[` left open at the end of the source; holds its instruction index.
    UnclosedLoop(usize),
    /// The instruction at this index moved the cursor off the tape.
    CellRangeError(usize),
    /// The read at this instruction index found no input left.
    InputExhausted(usize),
}

} // verus!
