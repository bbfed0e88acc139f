use vstd::prelude::*;

use crate::op::{Error, Op};

verus! {

/// Number of cells on the tape.
pub const CELL_SIZE: usize = 30000;

/// The machine as contracts see it.
pub struct Machine {
    pub cells: Seq<u8>,
    pub cursor: int,
    pub pc: int,
}

/// A machine together with what it has read and written so far.
pub struct Config {
    pub machine: Machine,
    /// How many input bytes were consumed.
    pub consumed: nat,
    /// The bytes written, in order.
    pub output: Seq<u8>,
}

/// What the machine asks of its surroundings after a step.
#[derive(Debug, Clone, Copy, PartialEq, Eq, Structural)]
pub enum Action {
    /// An instruction ran; nothing to do.
    Continue,
    /// An instruction wrote this byte.
    Write(u8),
    /// The next instruction reads a byte: hand it over with `feed`.
    Read,
    /// The program counter is past the last instruction.
    Halt,
}

/// The fresh machine: every cell zero, cursor and program counter at zero.
pub open spec fn initial() -> Machine {
    Machine { cells: Seq::new(CELL_SIZE as nat, |i: int| 0u8), cursor: 0, pc: 0 }
}

/// A jump's target lies inside the program.
pub open spec fn target_in_bounds(op: Op, len: nat) -> bool {
    match op {
        Op::LoopStart(t) => t < len,
        Op::LoopEnd(t) => t < len,
        _ => true,
    }
}

/// Every jump of `ops` lands inside `ops`.
pub open spec fn jumps_in_bounds(ops: Seq<Op>) -> bool {
    forall|i: int| 0 <= i < ops.len() ==> #[trigger] target_in_bounds(ops[i], ops.len())
}

/// Executes `op` on `m`, with `input` as the byte a read receives, and moves the
/// program counter on. A jump sets it to its target, which the move then passes.
pub open spec fn exec_op(m: Machine, op: Op, input: Option<u8>) -> Result<Machine, Error> {
    let next = m.pc + 1;
    let cell = m.cells[m.cursor];
    match op {
        Op::Left(n) => if m.cursor < n {
            Err(Error::CellRangeError(m.pc as usize))
        } else {
            Ok(Machine { cursor: m.cursor - n, pc: next, ..m })
        },
        Op::Right(n) => if m.cursor + n >= CELL_SIZE {
            Err(Error::CellRangeError(m.pc as usize))
        } else {
            Ok(Machine { cursor: m.cursor + n, pc: next, ..m })
        },
        Op::Plus(n) => Ok(
            Machine { cells: m.cells.update(m.cursor, ((cell + n) % 256) as u8), pc: next, ..m },
        ),
        Op::Minus(n) => Ok(
            Machine { cells: m.cells.update(m.cursor, ((cell - n) % 256) as u8), pc: next, ..m },
        ),
        Op::GetChar => match input {
            Some(b) => Ok(Machine { cells: m.cells.update(m.cursor, b), pc: next, ..m }),
            None => Err(Error::InputExhausted(m.pc as usize)),
        },
        Op::PutChar => Ok(Machine { pc: next, ..m }),
        Op::LoopStart(t) => Ok(Machine { pc: if cell == 0 { t + 1 } else { next }, ..m }),
        Op::LoopEnd(t) => Ok(Machine { pc: if cell != 0 { t + 1 } else { next }, ..m }),
    }
}

/// One instruction of `ops` run in `c`, reading from `input` and writing to the output.
pub open spec fn step_config(c: Config, ops: Seq<Op>, input: Seq<u8>) -> Result<Config, Error> {
    let m = c.machine;
    let op = ops[m.pc];
    let byte = if c.consumed < input.len() {
        Some(input[c.consumed as int])
    } else {
        None
    };
    match exec_op(m, op, byte) {
        Ok(next) => Ok(
            Config {
                machine: next,
                consumed: if op == Op::GetChar {
                    c.consumed + 1
                } else {
                    c.consumed
                },
                output: if op == Op::PutChar {
                    c.output.push(m.cells[m.cursor])
                } else {
                    c.output
                },
            },
        ),
        Err(e) => Err(e),
    }
}

/// Runs `ops` from `c` for at most `fuel` instructions: the configuration where it
/// stopped, and the error that stopped it, if one did.
pub open spec fn run_config(c: Config, ops: Seq<Op>, input: Seq<u8>, fuel: nat) -> (Config, Option<Error>)
    decreases fuel,
{
    if fuel == 0 || c.machine.pc >= ops.len() {
        (c, None)
    } else {
        match step_config(c, ops, input) {
            Ok(next) => run_config(next, ops, input, (fuel - 1) as nat),
            Err(e) => (c, Some(e)),
        }
    }
}

/// The result of running a program for a number of steps.
#[derive(Debug, Clone, PartialEq, Eq)]
pub struct Run {
    /// The bytes written, in order.
    pub output: Vec<u8>,
    /// How many input bytes were read.
    pub consumed: usize,
    /// Whether the program counter went past the last instruction.
    pub halted: bool,
}

/// `r` reports the run of `ops` from `m` with `input` and `fuel` that
/// `run_config` describes.
pub open spec fn reports_run(
    r: Result<Run, Error>,
    m: Machine,
    ops: Seq<Op>,
    input: Seq<u8>,
    fuel: nat,
) -> bool {
    let (c, err) = run_config(Config { machine: m, consumed: 0, output: seq![] }, ops, input, fuel);
    match r {
        Ok(run) => err.is_none() && run.output@ == c.output && run.consumed == c.consumed
            && run.halted == (c.machine.pc >= ops.len()),
        Err(e) => err == Some(e),
    }
}

/// The tape, the data cursor and the program counter of one run.
#[derive(Debug)]
pub struct Interpreter {
    cells: Vec<u8>,
    cursor: usize,
    pc: usize,
}

impl View for Interpreter {
    type V = Machine;

    closed spec fn view(&self) -> Machine {
        Machine { cells: self.cells@, cursor: self.cursor as int, pc: self.pc as int }
    }
}

impl Default for Interpreter {
    fn default() -> (r: Interpreter)
        ensures
            r.wf(),
            r@ == initial(),
    {
        Interpreter::new()
    }
}

impl Interpreter {
    /// The tape has its full length and the cursor is on it.
    pub open spec fn wf(&self) -> bool {
        self.view().cells.len() == CELL_SIZE && 0 <= self.view().cursor < CELL_SIZE
    }

    /// A fresh machine.
    pub fn new() -> (r: Interpreter)
        ensures
            r.wf(),
            r@ == initial(),
    {
        let mut cells: Vec<u8> = Vec::new();
        while cells.len() < CELL_SIZE
            invariant
                cells@.len() <= CELL_SIZE,
                forall|i: int| 0 <= i < cells@.len() ==> cells@[i] == 0u8,
            decreases CELL_SIZE - cells@.len(),
        {
            cells.push(0);
        }
        let r = Interpreter { cells, cursor: 0, pc: 0 };
        assert(r@.cells =~= initial().cells);
        r
    }

    /// The byte in cell `i`.
    pub fn cell(&self, i: usize) -> (r: u8)
        requires
            self.wf(),
            i < CELL_SIZE,
        ensures
            r == self@.cells[i as int],
    {
        self.cells[i]
    }

    /// The data cursor.
    pub fn cursor(&self) -> (r: usize)
        ensures
            r == self@.cursor,
    {
        self.cursor
    }

    /// The program counter.
    pub fn pc(&self) -> (r: usize)
        ensures
            r == self@.pc,
    {
        self.pc
    }

    /// Moves the program counter to the next instruction.
    pub fn increment_pc(&mut self)
        requires
            old(self)@.pc < usize::MAX,
        ensures
            final(self)@ == (Machine { pc: old(self)@.pc + 1, ..old(self)@ }),
    {
        self.pc += 1;
    }

    /// Executes `op`, with `input` as the byte a read receives; on an error
    /// the machine is left as it was.
    fn run_op(&mut self, op: Op, input: Option<u8>) -> (r: Result<(), Error>)
        requires
            old(self).wf(),
            old(self)@.pc < usize::MAX,
            target_in_bounds(op, usize::MAX as nat),
        ensures
            final(self).wf(),
            match exec_op(old(self)@, op, input) {
                Ok(m) => r is Ok && final(self)@ == m,
                Err(e) => r == Err::<(), Error>(e) && final(self)@ == old(self)@,
            },
    {
        match op {
            Op::Left(n) => {
                if n > self.cursor {
                    return Err(Error::CellRangeError(self.pc));
                }
                self.cursor -= n;
            },
            Op::Right(n) => {
                if n >= CELL_SIZE - self.cursor {
                    return Err(Error::CellRangeError(self.pc));
                }
                self.cursor += n;
            },
            Op::Plus(n) => {
                let curr_val = self.cells[self.cursor];
                let k = (n % 256) as u8;
                let v = curr_val.wrapping_add(k);
                assert(v == ((curr_val + n) % 256) as u8) by (nonlinear_arith)
                    requires
                        k == n % 256,
                        v == (if curr_val + k > 255 { curr_val + k - 256 } else { curr_val + k }),
                ;
                self.cells.set(self.cursor, v);
            },
            Op::Minus(n) => {
                let curr_val = self.cells[self.cursor];
                let k = (n % 256) as u8;
                let v = curr_val.wrapping_sub(k);
                assert(v == ((curr_val - n) % 256) as u8) by (nonlinear_arith)
                    requires
                        k == n % 256,
                        v == (if curr_val - k < 0 { curr_val - k + 256 } else { curr_val - k }),
                ;
                self.cells.set(self.cursor, v);
            },
            Op::GetChar => {
                match input {
                    Some(b) => self.cells.set(self.cursor, b),
                    None => return Err(Error::InputExhausted(self.pc)),
                }
            },
            Op::PutChar => {},
            Op::LoopStart(addr) => {
                let curr_cell = self.cells[self.cursor];
                if curr_cell == 0 {
                    self.pc = addr;
                }
            },
            Op::LoopEnd(addr) => {
                let curr_cell = self.cells[self.cursor];
                if curr_cell != 0 {
                    self.pc = addr;
                }
            },
        }
        self.increment_pc();
        Ok(())
    }

    /// Runs `ops` on a fresh machine for at most `fuel` instructions, reading
    /// from `input`.
    pub fn interpret(ops: &[Op], input: &[u8], fuel: usize) -> (r: Result<Run, Error>)
        requires
            jumps_in_bounds(ops@),
        ensures
            reports_run(r, initial(), ops@, input@, fuel as nat),
    {
        let mut interpreter = Interpreter::new();
        interpreter.run_ops(ops, input, fuel)
    }

    /// Runs `ops` from the current state for at most `fuel` instructions,
    /// reading from `input`; stops early when the program halts or fails.
    pub fn run_ops(&mut self, ops: &[Op], input: &[u8], fuel: usize) -> (r: Result<Run, Error>)
        requires
            old(self).wf(),
            jumps_in_bounds(ops@),
        ensures
            final(self).wf(),
            final(self)@ == run_config(
                Config { machine: old(self)@, consumed: 0, output: seq![] },
                ops@,
                input@,
                fuel as nat,
            ).0.machine,
            reports_run(r, old(self)@, ops@, input@, fuel as nat),
    {
        let ghost start = Config { machine: self@, consumed: 0, output: seq![] };
        let mut output: Vec<u8> = Vec::new();
        let mut consumed: usize = 0;
        let mut steps: usize = 0;
        while steps < fuel && self.pc < ops.len()
            invariant
                self.wf(),
                jumps_in_bounds(ops@),
                steps <= fuel,
                consumed <= input@.len(),
                start == (Config { machine: old(self)@, consumed: 0, output: seq![] }),
                run_config(start, ops@, input@, fuel as nat) == run_config(
                    Config { machine: self@, consumed: consumed as nat, output: output@ },
                    ops@,
                    input@,
                    (fuel - steps) as nat,
                ),
            decreases fuel - steps,
        {
            let op = ops[self.pc];
            assert(target_in_bounds(ops@[self@.pc], ops@.len()));
            let byte = if consumed < input.len() {
                Some(input[consumed])
            } else {
                None
            };
            let written = self.cells[self.cursor];
            let ghost before = Config { machine: self@, consumed: consumed as nat, output: output@ };
            match self.run_op(op, byte) {
                Err(e) => {
                    assert(step_config(before, ops@, input@) == Err::<Config, Error>(e));
                    assert(run_config(before, ops@, input@, (fuel - steps) as nat) == (
                    before, Some(e)));
                    return Err(e);
                },
                Ok(()) => {},
            }
            match op {
                Op::GetChar => consumed += 1,
                Op::PutChar => output.push(written),
                _ => {},
            }
            steps += 1;
        }
        Ok(Run { output, consumed, halted: self.pc >= ops.len() })
    }

    /// Runs the instruction at the program counter, unless it is a read: then the
    /// machine waits, unchanged, for `feed`.
    pub fn step(&mut self, ops: &[Op]) -> (r: Result<Action, Error>)
        requires
            old(self).wf(),
            jumps_in_bounds(ops@),
        ensures
            final(self).wf(),
            old(self)@.pc >= ops@.len() ==> r == Ok::<Action, Error>(Action::Halt) && final(self)@
                == old(self)@,
            old(self)@.pc < ops@.len() && ops@[old(self)@.pc] == Op::GetChar ==> r == Ok::<
                Action,
                Error,
            >(Action::Read) && final(self)@ == old(self)@,
            old(self)@.pc < ops@.len() && ops@[old(self)@.pc] != Op::GetChar ==> match exec_op(
                old(self)@,
                ops@[old(self)@.pc],
                None,
            ) {
                Ok(m) => final(self)@ == m && r == Ok::<Action, Error>(
                    if ops@[old(self)@.pc] == Op::PutChar {
                        Action::Write(old(self)@.cells[old(self)@.cursor])
                    } else {
                        Action::Continue
                    },
                ),
                Err(e) => r == Err::<Action, Error>(e) && final(self)@ == old(self)@,
            },
    {
        if self.pc >= ops.len() {
            return Ok(Action::Halt);
        }
        let op = ops[self.pc];
        assert(target_in_bounds(ops@[self@.pc], ops@.len()));
        let written = self.cells[self.cursor];
        match op {
            Op::GetChar => Ok(Action::Read),
            Op::PutChar => {
                self.run_op(op, None)?;
                Ok(Action::Write(written))
            },
            _ => {
                self.run_op(op, None)?;
                Ok(Action::Continue)
            },
        }
    }

    /// Completes the read that `step` waits on, with the byte that came in, or
    /// `None` when the input is exhausted.
    pub fn feed(&mut self, ops: &[Op], byte: Option<u8>) -> (r: Result<(), Error>)
        requires
            old(self).wf(),
            old(self)@.pc < ops@.len(),
            ops@[old(self)@.pc] == Op::GetChar,
        ensures
            final(self).wf(),
            match exec_op(old(self)@, Op::GetChar, byte) {
                Ok(m) => r is Ok && final(self)@ == m,
                Err(e) => r == Err::<(), Error>(e) && final(self)@ == old(self)@,
            },
    {
        let len = ops.len();
        assert(self.pc < len);
        self.run_op(Op::GetChar, byte)
    }
}

} // verus!
