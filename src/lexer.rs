use vstd::prelude::*;

use crate::op::{Error, Op};

verus! {

/// `<`: move left.
pub const LT: u8 = 60;
/// `>`: move right.
pub const GT: u8 = 62;
/// `+`: increment.
pub const PLUS: u8 = 43;
/// `-`: decrement.
pub const MINUS: u8 = 45;
/// `,`: read a byte.
pub const COMMA: u8 = 44;
/// `.`: write a byte.
pub const DOT: u8 = 46;
/// `[`: loop start.
pub const OPEN: u8 = 91;
/// `]`: loop end.
pub const CLOSE: u8 = 93;

/// The eight bytes that carry meaning; every other byte is a comment.
pub open spec fn is_command(b: u8) -> bool {
    b == LT || b == GT || b == PLUS || b == MINUS || b == COMMA || b == DOT || b == OPEN
        || b == CLOSE
}

/// The commands whose repeats collapse into one counted instruction.
pub open spec fn is_counted(b: u8) -> bool {
    b == LT || b == GT || b == PLUS || b == MINUS
}

/// The counted instruction of command `b` with count `n`.
pub open spec fn counted(b: u8, n: nat) -> Op {
    if b == LT {
        Op::Left(n as usize)
    } else if b == GT {
        Op::Right(n as usize)
    } else if b == PLUS {
        Op::Plus(n as usize)
    } else {
        Op::Minus(n as usize)
    }
}

/// The count carried by a counted instruction (zero for the others).
pub open spec fn count_of(op: Op) -> nat {
    match op {
        Op::Left(n) => n as nat,
        Op::Right(n) => n as nat,
        Op::Plus(n) => n as nat,
        Op::Minus(n) => n as nat,
        _ => 0,
    }
}

/// The instruction a command that does not collapse stands for; jumps get their
/// targets only once the brackets are matched.
pub open spec fn single(b: u8) -> Op {
    if b == COMMA {
        Op::GetChar
    } else if b == DOT {
        Op::PutChar
    } else if b == OPEN {
        Op::LoopStart(0)
    } else {
        Op::LoopEnd(0)
    }
}

/// `k` repeats of counted command `b` put in front of `rest`: they join the first
/// instruction of `rest` when that one is of the same kind.
pub open spec fn join_count(b: u8, k: nat, rest: Seq<Op>) -> Seq<Op> {
    if rest.len() > 0 && rest[0] == counted(b, count_of(rest[0])) {
        seq![counted(b, count_of(rest[0]) + k)] + rest.drop_first()
    } else {
        seq![counted(b, k)] + rest
    }
}

/// The instructions that the bytes of `s` from position `i` on stand for, before
/// the brackets are matched.
pub open spec fn tokens(s: Seq<u8>, i: nat) -> Seq<Op>
    decreases s.len() - i,
{
    if i >= s.len() {
        seq![]
    } else if !is_command(s[i as int]) {
        tokens(s, i + 1)
    } else if is_counted(s[i as int]) {
        join_count(s[i as int], 1, tokens(s, i + 1))
    } else {
        seq![single(s[i as int])] + tokens(s, i + 1)
    }
}

/// Matches the brackets of `t` by a stack: `out` is what was emitted so far and
/// `open` the indices in `out` of the `[` still waiting for their `]`, innermost last.
pub open spec fn resolve(t: Seq<Op>, out: Seq<Op>, open: Seq<usize>) -> Result<Seq<Op>, Error>
    decreases t.len(),
{
    if t.len() == 0 {
        if open.len() == 0 {
            Ok(out)
        } else {
            Err(Error::UnclosedLoop(open.last()))
        }
    } else {
        match t[0] {
            Op::LoopStart(_) => resolve(
                t.drop_first(),
                out.push(Op::LoopStart(0)),
                open.push(out.len() as usize),
            ),
            Op::LoopEnd(_) => {
                if open.len() == 0 {
                    Err(Error::UnmatchedCloseBracket(out.len() as usize))
                } else {
                    let start = open.last();
                    resolve(
                        t.drop_first(),
                        out.push(Op::LoopEnd(start)).update(start as int, Op::LoopStart(out.len() as usize)),
                        open.drop_last(),
                    )
                }
            },
            op => resolve(t.drop_first(), out.push(op), open),
        }
    }
}

/// What assembling `s` gives: its instructions with every bracket matched.
pub open spec fn assemble(s: Seq<u8>) -> Result<Seq<Op>, Error> {
    resolve(tokens(s, 0), seq![], seq![])
}

/// The jump at index `i` of `ops`, if it is one, lands on the other bracket of its pair.
pub open spec fn paired_at(ops: Seq<Op>, i: int) -> bool {
    match ops[i] {
        Op::LoopStart(t) => t < ops.len() && ops[t as int] == Op::LoopEnd(i as usize),
        Op::LoopEnd(t) => t < ops.len() && ops[t as int] == Op::LoopStart(i as usize),
        _ => true,
    }
}

/// Every jump of `ops` lands on the other bracket of its pair.
pub open spec fn jumps_paired(ops: Seq<Op>) -> bool {
    forall|i: int| 0 <= i < ops.len() ==> #[trigger] paired_at(ops, i)
}

/// A `[` jumps forward and a `]` jumps back.
spec fn ordered_at(ops: Seq<Op>, i: int) -> bool {
    match ops[i] {
        Op::LoopStart(t) => i < t,
        Op::LoopEnd(t) => t < i,
        _ => true,
    }
}

/// What holds of the emitted instructions while brackets are matched: the
/// placeholders are exactly the pending `[`, and every other jump is paired.
spec fn resolve_inv(out: Seq<Op>, open: Seq<usize>) -> bool {
    &&& forall|k: int|
        0 <= k < open.len() ==> open[k] < out.len() && out[#[trigger] open[k] as int]
            == Op::LoopStart(0)
    &&& forall|k1: int, k2: int| 0 <= k1 < k2 < open.len() ==> open[k1] < open[k2]
    &&& forall|i: int|
        0 <= i < out.len() && out[i] != Op::LoopStart(0) ==> #[trigger] paired_at(out, i)
            && ordered_at(out, i)
    &&& forall|i: int|
        0 <= i < out.len() && out[i] == Op::LoopStart(0) ==> #[trigger] open.contains(
            i as usize,
        )
}

/// Matching brackets by the stack pairs every jump with its partner.
proof fn lemma_resolve_paired(t: Seq<Op>, out: Seq<Op>, open: Seq<usize>)
    requires
        resolve_inv(out, open),
        out.len() + t.len() <= usize::MAX,
    ensures
        resolve(t, out, open) is Ok ==> jumps_paired(resolve(t, out, open)->Ok_0),
    decreases t.len(),
{
    let len = out.len();
    if t.len() == 0 {
        if open.len() == 0 {
            assert forall|i: int| 0 <= i < out.len() implies #[trigger] paired_at(out, i) by {
                if out[i] == Op::LoopStart(0) {
                    assert(open.contains(i as usize));
                }
            }
        }
    } else {
        match t[0] {
            Op::LoopStart(_) => {
                let out2 = out.push(Op::LoopStart(0));
                let open2 = open.push(len as usize);
                assert forall|i: int|
                    0 <= i < out2.len() && out2[i] == Op::LoopStart(0) implies #[trigger] open2.contains(
                    i as usize,
                ) by {
                    if i == len {
                        assert(open2[open.len() as int] == len as usize);
                    } else {
                        assert(open.contains(i as usize));
                        let k = choose|k: int| 0 <= k < open.len() && open[k] == i as usize;
                        assert(open2[k] == i as usize);
                    }
                }
                assert forall|i: int|
                    0 <= i < out2.len() && out2[i] != Op::LoopStart(0) implies #[trigger] paired_at(
                    out2,
                    i,
                ) && ordered_at(out2, i) by {
                    assert(out2[i] == out[i]);
                    assert(paired_at(out, i) && ordered_at(out, i));
                }
                lemma_resolve_paired(t.drop_first(), out2, open2);
            },
            Op::LoopEnd(_) => {
                if open.len() > 0 {
                    let start = open.last();
                    let out2 = out.push(Op::LoopEnd(start)).update(start as int, Op::LoopStart(len as usize));
                    let open2 = open.drop_last();
                    assert(out[start as int] == Op::LoopStart(0));
                    assert forall|k: int| 0 <= k < open2.len() implies open2[k] < out2.len()
                        && out2[#[trigger] open2[k] as int] == Op::LoopStart(0) by {
                        assert(open[k] < open[open.len() - 1]);
                    }
                    assert forall|i: int|
                        0 <= i < out2.len() && out2[i] == Op::LoopStart(0) implies #[trigger] open2.contains(
                        i as usize,
                    ) by {
                        assert(out[i] == Op::LoopStart(0));
                        assert(open.contains(i as usize));
                        let k = choose|k: int| 0 <= k < open.len() && open[k] == i as usize;
                        assert(k != open.len() - 1);
                        assert(open2[k] == i as usize);
                    }
                    assert forall|i: int|
                        0 <= i < out2.len() && out2[i] != Op::LoopStart(0) implies #[trigger] paired_at(
                        out2,
                        i,
                    ) && ordered_at(out2, i) by {
                        if i != len && i != start {
                            assert(out2[i] == out[i]);
                            assert(out[i] != Op::LoopStart(0));
                            assert(paired_at(out, i));
                            assert(ordered_at(out, i));
                            match out[i] {
                                Op::LoopEnd(u) => {
                                    assert(out[u as int] != Op::LoopStart(0));
                                    assert(out2[u as int] == out[u as int]);
                                },
                                Op::LoopStart(u) => {
                                    assert(out2[u as int] == out[u as int]);
                                },
                                _ => {},
                            }
                        }
                    }
                    lemma_resolve_paired(t.drop_first(), out2, open2);
                }
            },
            op => {
                let out2 = out.push(op);
                assert forall|i: int|
                    0 <= i < out2.len() && out2[i] == Op::LoopStart(0) implies #[trigger] open.contains(
                    i as usize,
                ) by {
                    assert(out[i] == Op::LoopStart(0));
                }
                assert forall|i: int|
                    0 <= i < out2.len() && out2[i] != Op::LoopStart(0) implies #[trigger] paired_at(
                    out2,
                    i,
                ) && ordered_at(out2, i) by {
                    if i < len {
                        assert(out2[i] == out[i]);
                        assert(out[i] != Op::LoopStart(0));
                        assert(paired_at(out, i));
                        assert(ordered_at(out, i));
                    }
                }
                lemma_resolve_paired(t.drop_first(), out2, open);
            },
        }
    }
}

/// No position yields more instructions than it has bytes left.
pub(crate) proof fn lemma_tokens_len(s: Seq<u8>, i: nat)
    requires
        i <= s.len(),
    ensures
        tokens(s, i).len() <= s.len() - i,
    decreases s.len() - i,
{
    if i < s.len() {
        lemma_tokens_len(s, i + 1);
    }
}

/// Repeats of one counted command join into a single count, one at a time.
proof fn lemma_join_step(b: u8, k: nat, rest: Seq<Op>)
    requires
        is_counted(b),
        k + 1 <= usize::MAX,
        rest.len() > 0 ==> count_of(rest[0]) + k + 1 <= usize::MAX,
    ensures
        join_count(b, k, join_count(b, 1, rest)) == join_count(b, k + 1, rest),
{
    let once = join_count(b, 1, rest);
    if rest.len() > 0 && rest[0] == counted(b, count_of(rest[0])) {
        let n = count_of(rest[0]);
        assert(count_of(once[0]) == n + 1);
        assert(once.drop_first() =~= rest.drop_first());
    } else {
        assert(count_of(once[0]) == 1);
        assert(once.drop_first() =~= rest);
    }
}

/// The first instruction from position `j` on counts no more bytes than are left.
pub(crate) proof fn lemma_first_count(s: Seq<u8>, j: nat)
    requires
        s.len() <= usize::MAX,
        j <= s.len(),
    ensures
        tokens(s, j).len() > 0 ==> count_of(tokens(s, j)[0]) <= s.len() - j,
    decreases s.len() - j,
{
    if j < s.len() {
        lemma_first_count(s, j + 1);
    }
}

/// Before a command of another kind, or at the end, a run of `b` stands alone.
proof fn lemma_run_ends(b: u8, k: nat, s: Seq<u8>, j: nat)
    requires
        is_counted(b),
        j <= s.len(),
        j < s.len() ==> is_command(s[j as int]) && s[j as int] != b,
    ensures
        join_count(b, k, tokens(s, j)) == seq![counted(b, k)] + tokens(s, j),
{
    if j < s.len() {
        let rest = tokens(s, j + 1);
        if is_counted(s[j as int]) {
            let first = join_count(s[j as int], 1, rest)[0];
            assert(first == counted(s[j as int], count_of(first)));
        }
    }
}

/// Whether `b` is one of the eight command bytes.
fn is_command_byte(b: u8) -> (r: bool)
    ensures
        r == is_command(b),
{
    b == LT || b == GT || b == PLUS || b == MINUS || b == COMMA || b == DOT || b == OPEN || b
        == CLOSE
}

/// The counted instruction of command `b` with count `n`.
fn counted_op(b: u8, n: usize) -> (r: Op)
    requires
        is_counted(b),
    ensures
        r == counted(b, n as nat),
{
    if b == LT {
        Op::Left(n)
    } else if b == GT {
        Op::Right(n)
    } else if b == PLUS {
        Op::Plus(n)
    } else {
        Op::Minus(n)
    }
}

/// Assembles source bytes into instructions, one pass from left to right.
pub struct Lexer<'a> {
    src: &'a [u8],
    current: usize,
    loops: Vec<usize>,
}

impl<'a> Lexer<'a> {
    /// Assembles `src`: counted commands collapse across comments, and each
    /// bracket refers to the index of its match.
    pub fn lex(src: &[u8]) -> (r: Result<Vec<Op>, Error>)
        ensures
            match r {
                Ok(ops) => assemble(src@) == Ok::<Seq<Op>, Error>(ops@) && jumps_paired(ops@),
                Err(e) => assemble(src@) == Err::<Seq<Op>, Error>(e),
            },
    {
        let len = src.len();
        proof {
            assert(src@.len() == len);
            lemma_tokens_len(src@, 0);
            lemma_resolve_paired(tokens(src@, 0), seq![], seq![]);
        }
        let mut lexer = Lexer::new(src);
        lexer.lex_tokens()
    }

    /// A lexer at the start of `src`, with no `[` pending.
    fn new(src: &'a [u8]) -> (r: Lexer<'a>)
        ensures
            r.src == src,
            r.current == 0,
            r.loops@.len() == 0,
    {
        Lexer { src, current: 0, loops: Vec::new() }
    }

    /// Whether every byte was consumed.
    fn is_at_end(&self) -> (r: bool)
        ensures
            r == (self.current >= self.src@.len()),
    {
        self.current >= self.src.len()
    }

    /// The next byte, if any, without consuming it.
    fn peek(&self) -> (r: Option<u8>)
        ensures
            self.current < self.src@.len() ==> r == Some(self.src@[self.current as int]),
            self.current >= self.src@.len() ==> r.is_none(),
    {
        if !self.is_at_end() {
            let chary = self.src[self.current];
            Some(chary)
        } else {
            None
        }
    }

    /// Consumes and returns the next byte, if any.
    fn advance(&mut self) -> (r: Option<u8>)
        ensures
            final(self).src == old(self).src,
            final(self).loops == old(self).loops,
            old(self).current < old(self).src@.len() ==> r == Some(old(self).src@[old(self).current as int])
                && final(self).current == old(self).current + 1,
            old(self).current >= old(self).src@.len() ==> r.is_none() && final(self).current
                == old(self).current,
    {
        let len = self.src.len();
        if let Some(chary) = self.peek() {
            assert(self.current < len);
            self.current += 1;
            Some(chary)
        } else {
            None
        }
    }

    /// Whether the next byte is `expected`.
    fn matches(&self, expected: u8) -> (r: bool)
        ensures
            r == (self.current < self.src@.len() && self.src@[self.current as int] == expected),
    {
        if let Some(c) = self.peek() {
            c == expected
        } else {
            false
        }
    }

    /// Moves past comment bytes up to the next command or the end.
    fn skip_whitespace(&mut self)
        requires
            old(self).current <= old(self).src@.len(),
        ensures
            final(self).src == old(self).src,
            final(self).loops == old(self).loops,
            old(self).current <= final(self).current <= final(self).src@.len(),
            final(self).current < final(self).src@.len() ==> is_command(
                final(self).src@[final(self).current as int],
            ),
            tokens(old(self).src@, old(self).current as nat) == tokens(
                final(self).src@,
                final(self).current as nat,
            ),
    {
        let ghost s = self.src@;
        let ghost start = self.current;
        loop
            invariant
                self.src@ == s,
                self.src == old(self).src,
                self.loops == old(self).loops,
                start <= self.current <= s.len(),
                tokens(s, start as nat) == tokens(s, self.current as nat),
            ensures
                self.src@ == s,
                self.src == old(self).src,
                self.loops == old(self).loops,
                start <= self.current <= s.len(),
                tokens(s, start as nat) == tokens(s, self.current as nat),
                self.current < s.len() ==> is_command(s[self.current as int]),
            decreases s.len() - self.current,
        {
            if let Some(c) = self.peek() {
                if !is_command_byte(c) {
                    self.advance();
                } else {
                    break;
                }
            } else {
                break;
            }
        }
    }

    /// Counts a run of `expected`, whose first byte was just consumed, across comments.
    fn lex_repeated(&mut self, expected: u8) -> (r: Op)
        requires
            is_counted(expected),
            1 <= old(self).current <= old(self).src@.len(),
            old(self).src@[old(self).current - 1] == expected,
        ensures
            final(self).src == old(self).src,
            final(self).loops == old(self).loops,
            old(self).current <= final(self).current <= final(self).src@.len(),
            tokens(old(self).src@, (old(self).current - 1) as nat) == seq![r] + tokens(
                final(self).src@,
                final(self).current as nat,
            ),
    {
        let ghost s = self.src@;
        let ghost start: nat = (self.current - 1) as nat;
        let len = self.src.len();
        let mut count: usize = 1;
        self.skip_whitespace();
        while self.matches(expected)
            invariant
                self.src@ == s,
                self.src == old(self).src,
                self.loops == old(self).loops,
                is_counted(expected),
                len == s.len(),
                start < self.current <= s.len(),
                1 <= count <= self.current - start,
                self.current < s.len() ==> is_command(s[self.current as int]),
                join_count(expected, count as nat, tokens(s, self.current as nat)) == tokens(
                    s,
                    start,
                ),
            decreases s.len() - self.current,
        {
            proof {
                assert(tokens(s, self.current as nat) == join_count(
                    expected,
                    1,
                    tokens(s, (self.current + 1) as nat),
                ));
                lemma_first_count(s, (self.current + 1) as nat);
                lemma_join_step(expected, count as nat, tokens(s, (self.current + 1) as nat));
            }
            count += 1;
            self.advance();
            self.skip_whitespace();
        }
        proof {
            lemma_run_ends(expected, count as nat, s, self.current as nat);
        }
        counted_op(expected, count)
    }

    /// Assembles the whole source, matching brackets as they close.
    fn lex_tokens(&mut self) -> (r: Result<Vec<Op>, Error>)
        requires
            old(self).current == 0,
            old(self).loops@.len() == 0,
        ensures
            match r {
                Ok(ops) => assemble(old(self).src@) == Ok::<Seq<Op>, Error>(ops@),
                Err(e) => assemble(old(self).src@) == Err::<Seq<Op>, Error>(e),
            },
    {
        let ghost s = self.src@;
        let mut ops: Vec<Op> = Vec::new();
        assert(ops@ =~= seq![]);
        assert(self.loops@ =~= seq![]);
        while !self.is_at_end()
            invariant
                self.src@ == s,
                s == old(self).src@,
                self.current <= s.len(),
                ops@.len() <= self.current,
                self.loops@.len() <= ops@.len(),
                forall|k: int| 0 <= k < self.loops@.len() ==> self.loops@[k] < ops@.len(),
                assemble(s) == resolve(tokens(s, self.current as nat), ops@, self.loops@),
            decreases s.len() - self.current,
        {
            let ghost at: nat = self.current as nat;
            let chary = self.advance().unwrap();
            if !is_command_byte(chary) {
                continue;
            }
            let op = if chary == COMMA {
                Op::GetChar
            } else if chary == DOT {
                Op::PutChar
            } else if chary == OPEN {
                Op::LoopStart(0)
            } else if chary == CLOSE {
                Op::LoopEnd(0)
            } else {
                self.lex_repeated(chary)
            };
            let ghost rest = tokens(s, self.current as nat);
            assert(tokens(s, at) == seq![op] + rest);
            assert((seq![op] + rest)[0] == op);
            assert((seq![op] + rest).drop_first() =~= rest);
            if chary == OPEN {
                // A placeholder, patched once the matching `]` comes.
                ops.push(Op::LoopStart(0));
                let placeholder_index = ops.len() - 1;
                self.loops.push(placeholder_index);
            } else if chary == CLOSE {
                match self.loops.pop() {
                    None => {
                        assert(resolve(seq![op] + rest, ops@, self.loops@) == Err::<Seq<Op>, Error>(
                            Error::UnmatchedCloseBracket(ops@.len() as usize),
                        ));
                        return Err(Error::UnmatchedCloseBracket(ops.len()));
                    },
                    Some(start_index) => {
                        ops.push(Op::LoopEnd(start_index));
                        let end_index = ops.len() - 1;
                        ops.set(start_index, Op::LoopStart(end_index));
                    },
                }
            } else {
                ops.push(op);
            }
        }
        if self.loops.len() > 0 {
            let last = self.loops[self.loops.len() - 1];
            return Err(Error::UnclosedLoop(last));
        }
        Ok(ops)
    }
}

} // verus!
