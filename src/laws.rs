use vstd::prelude::*;

use crate::interpreter::{exec_op, initial, run_config, Config, Machine, CELL_SIZE};
use crate::lexer::{
    assemble, count_of, counted, is_command, is_counted, lemma_first_count, lemma_tokens_len,
    resolve, tokens, CLOSE, COMMA, DOT, GT, LT, MINUS, OPEN, PLUS,
};
use crate::op::Op;

verus! {

/// Scanning `s` from position `i` with `d` brackets pending, some `]` finds none
/// pending.
pub open spec fn unmatched_close(s: Seq<u8>, i: nat, d: nat) -> bool
    decreases s.len() - i,
{
    if i >= s.len() {
        false
    } else if s[i as int] == OPEN {
        unmatched_close(s, i + 1, d + 1)
    } else if s[i as int] == CLOSE {
        d == 0 || unmatched_close(s, i + 1, (d - 1) as nat)
    } else {
        unmatched_close(s, i + 1, d)
    }
}

/// How many `[` are left pending after scanning `s` from position `i` with `d`
/// pending (meaningful when no `]` comes unmatched).
pub open spec fn pending_opens(s: Seq<u8>, i: nat, d: nat) -> nat
    decreases s.len() - i,
{
    if i >= s.len() {
        d
    } else if s[i as int] == OPEN {
        pending_opens(s, i + 1, d + 1)
    } else if s[i as int] == CLOSE {
        if d == 0 {
            0
        } else {
            pending_opens(s, i + 1, (d - 1) as nat)
        }
    } else {
        pending_opens(s, i + 1, d)
    }
}

/// `unmatched_close` over instructions.
spec fn closes_unopened(t: Seq<Op>, d: nat) -> bool
    decreases t.len(),
{
    if t.len() == 0 {
        false
    } else {
        match t[0] {
            Op::LoopStart(_) => closes_unopened(t.drop_first(), d + 1),
            Op::LoopEnd(_) => d == 0 || closes_unopened(t.drop_first(), (d - 1) as nat),
            _ => closes_unopened(t.drop_first(), d),
        }
    }
}

/// `pending_opens` over instructions.
spec fn left_open(t: Seq<Op>, d: nat) -> nat
    decreases t.len(),
{
    if t.len() == 0 {
        d
    } else {
        match t[0] {
            Op::LoopStart(_) => left_open(t.drop_first(), d + 1),
            Op::LoopEnd(_) => if d == 0 {
                0
            } else {
                left_open(t.drop_first(), (d - 1) as nat)
            },
            _ => left_open(t.drop_first(), d),
        }
    }
}

/// `op` is a bracket.
spec fn is_jump(op: Op) -> bool {
    op is LoopStart || op is LoopEnd
}

/// Matching brackets fails exactly as the bracket count says.
proof fn lemma_resolve_brackets(t: Seq<Op>, out: Seq<Op>, open: Seq<usize>)
    ensures
        closes_unopened(t, open.len()) ==> resolve(t, out, open) is Err && resolve(
            t,
            out,
            open,
        )->Err_0 is UnmatchedCloseBracket,
        !closes_unopened(t, open.len()) && left_open(t, open.len()) == 0 ==> resolve(
            t,
            out,
            open,
        ) is Ok,
        !closes_unopened(t, open.len()) && left_open(t, open.len()) > 0 ==> resolve(
            t,
            out,
            open,
        ) is Err && resolve(t, out, open)->Err_0 is UnclosedLoop,
    decreases t.len(),
{
    if t.len() > 0 {
        match t[0] {
            Op::LoopStart(_) => {
                lemma_resolve_brackets(
                    t.drop_first(),
                    out.push(Op::LoopStart(0)),
                    open.push(out.len() as usize),
                );
            },
            Op::LoopEnd(_) => {
                if open.len() > 0 {
                    let start = open.last();
                    lemma_resolve_brackets(
                        t.drop_first(),
                        out.push(Op::LoopEnd(start)).update(start as int, Op::LoopStart(out.len() as usize)),
                        open.drop_last(),
                    );
                }
            },
            op => {
                lemma_resolve_brackets(t.drop_first(), out.push(op), open);
            },
        }
    }
}

/// A first instruction that is no jump leaves the bracket count alone.
proof fn lemma_skip_first(a: Op, t: Seq<Op>, d: nat)
    requires
        !is_jump(a),
    ensures
        closes_unopened(seq![a] + t, d) == closes_unopened(t, d),
        left_open(seq![a] + t, d) == left_open(t, d),
{
    assert((seq![a] + t).drop_first() =~= t);
}

/// The instructions of `s` count brackets as its bytes do.
proof fn lemma_tokens_brackets(s: Seq<u8>, i: nat, d: nat)
    ensures
        closes_unopened(tokens(s, i), d) == unmatched_close(s, i, d),
        left_open(tokens(s, i), d) == pending_opens(s, i, d),
    decreases s.len() - i,
{
    if i < s.len() {
        let c = s[i as int];
        let rest = tokens(s, i + 1);
        lemma_tokens_brackets(s, i + 1, d);
        lemma_tokens_brackets(s, i + 1, d + 1);
        if d > 0 {
            lemma_tokens_brackets(s, i + 1, (d - 1) as nat);
        }
        if is_counted(c) && rest.len() > 0 && rest[0] == counted(c, count_of(rest[0])) {
            let t = tokens(s, i);
            assert(rest =~= seq![rest[0]] + rest.drop_first());
            assert(t =~= seq![t[0]] + rest.drop_first());
            lemma_skip_first(rest[0], rest.drop_first(), d);
            lemma_skip_first(t[0], rest.drop_first(), d);
        } else if is_command(c) {
            let t = tokens(s, i);
            assert(t =~= seq![t[0]] + rest);
            if !is_jump(t[0]) {
                lemma_skip_first(t[0], rest, d);
            } else {
                assert(t.drop_first() =~= rest);
            }
        }
    }
}

/// A `]` that finds no `[` pending makes assembly fail with
/// `UnmatchedCloseBracket`.
pub proof fn law_unmatched_close(s: Seq<u8>)
    requires
        unmatched_close(s, 0, 0),
    ensures
        assemble(s) is Err,
        assemble(s)->Err_0 is UnmatchedCloseBracket,
{
    lemma_tokens_brackets(s, 0, 0);
    lemma_resolve_brackets(tokens(s, 0), seq![], seq![]);
}

/// When every `]` finds its `[` but some `[` is still pending at the end,
/// assembly fails with `UnclosedLoop`.
pub proof fn law_unclosed_loop(s: Seq<u8>)
    requires
        !unmatched_close(s, 0, 0),
        pending_opens(s, 0, 0) > 0,
    ensures
        assemble(s) is Err,
        assemble(s)->Err_0 is UnclosedLoop,
{
    lemma_tokens_brackets(s, 0, 0);
    lemma_resolve_brackets(tokens(s, 0), seq![], seq![]);
}

/// Cells wrap modulo 256: decrementing a zero cell gives 255 and incrementing
/// 255 gives zero.
pub proof fn law_cells_wrap(m: Machine)
    requires
        m.cells.len() == CELL_SIZE,
        0 <= m.cursor < CELL_SIZE,
    ensures
        m.cells[m.cursor] == 0 ==> exec_op(m, Op::Minus(1), None) is Ok && exec_op(
            m,
            Op::Minus(1),
            None,
        )->Ok_0.cells[m.cursor] == 255,
        m.cells[m.cursor] == 255 ==> exec_op(m, Op::Plus(1), None) is Ok && exec_op(
            m,
            Op::Plus(1),
            None,
        )->Ok_0.cells[m.cursor] == 0,
{
}

/// The program that reads one byte and writes it back outputs exactly that byte.
pub proof fn law_echo(b: u8, fuel: nat)
    requires
        fuel >= 2,
    ensures
        ({
            let (c, err) = run_config(
                Config { machine: initial(), consumed: 0, output: seq![] },
                seq![Op::GetChar, Op::PutChar],
                seq![b],
                fuel,
            );
            err.is_none() && c.output == seq![b] && c.consumed == 1 && c.machine.pc == 2
        }),
{
    let ops = seq![Op::GetChar, Op::PutChar];
    let c0 = Config { machine: initial(), consumed: 0, output: seq![] };
    let c1 = Config {
        machine: Machine { cells: initial().cells.update(0, b), pc: 1, ..initial() },
        consumed: 1,
        output: seq![],
    };
    let c2 = Config { machine: Machine { pc: 2, ..c1.machine }, consumed: 1, output: seq![b] };
    assert(run_config(c0, ops, seq![b], fuel) == run_config(c1, ops, seq![b], (fuel - 1) as nat));
    assert(run_config(c1, ops, seq![b], (fuel - 1) as nat) == run_config(
        c2,
        ops,
        seq![b],
        (fuel - 2) as nat,
    ));
}

/// The bytes an instruction stands for: a counted one as that many copies of its
/// command, any other as its one command.
pub open spec fn expand_op(op: Op) -> Seq<u8> {
    match op {
        Op::Left(n) => Seq::new(n as nat, |_i: int| LT),
        Op::Right(n) => Seq::new(n as nat, |_i: int| GT),
        Op::Plus(n) => Seq::new(n as nat, |_i: int| PLUS),
        Op::Minus(n) => Seq::new(n as nat, |_i: int| MINUS),
        Op::GetChar => seq![COMMA],
        Op::PutChar => seq![DOT],
        Op::LoopStart(_) => seq![OPEN],
        Op::LoopEnd(_) => seq![CLOSE],
    }
}

/// The canonical source of `ops`: each instruction expanded, in order.
pub open spec fn expand(ops: Seq<Op>) -> Seq<u8>
    decreases ops.len(),
{
    if ops.len() == 0 {
        seq![]
    } else {
        expand_op(ops[0]) + expand(ops.drop_first())
    }
}

/// Expanding an instruction in front of others.
proof fn lemma_expand_cons(a: Op, t: Seq<Op>)
    ensures
        expand(seq![a] + t) == expand_op(a) + expand(t),
{
    assert((seq![a] + t).drop_first() =~= t);
}

/// Expanding an instruction after others.
proof fn lemma_expand_push(t: Seq<Op>, a: Op)
    ensures
        expand(t.push(a)) == expand(t) + expand_op(a),
    decreases t.len(),
{
    if t.len() == 0 {
        assert(t.push(a) =~= seq![a] + t);
        lemma_expand_cons(a, t);
        assert(expand(t.push(a)) =~= expand(t) + expand_op(a));
    } else {
        assert(t.push(a).drop_first() =~= t.drop_first().push(a));
        lemma_expand_push(t.drop_first(), a);
        assert(expand(t.push(a)) =~= expand(t) + expand_op(a));
    }
}

/// Replacing an instruction by one of the same expansion.
proof fn lemma_expand_update(t: Seq<Op>, k: int, a: Op)
    requires
        0 <= k < t.len(),
        expand_op(t[k]) == expand_op(a),
    ensures
        expand(t.update(k, a)) == expand(t),
    decreases t.len(),
{
    if k > 0 {
        assert(t.update(k, a).drop_first() =~= t.drop_first().update(k - 1, a));
        lemma_expand_update(t.drop_first(), k - 1, a);
    } else {
        assert(t.update(k, a).drop_first() =~= t.drop_first());
    }
}

/// Matching brackets changes no instruction's expansion.
proof fn lemma_resolve_expand(t: Seq<Op>, out: Seq<Op>, open: Seq<usize>)
    requires
        out.len() + t.len() <= usize::MAX,
        forall|k: int| 0 <= k < open.len() ==> open[k] < out.len() && out[#[trigger] open[k] as int] is LoopStart,
    ensures
        resolve(t, out, open) is Ok ==> expand(resolve(t, out, open)->Ok_0) == expand(out) + expand(t),
    decreases t.len(),
{
    if t.len() == 0 {
        assert(expand(out) + expand(t) =~= expand(out));
    } else {
        let rest = t.drop_first();
        match t[0] {
            Op::LoopStart(_) => {
                let out2 = out.push(Op::LoopStart(0));
                let open2 = open.push(out.len() as usize);
                assert forall|k: int| 0 <= k < open2.len() implies open2[k] < out2.len()
                    && out2[#[trigger] open2[k] as int] is LoopStart by {
                    if k < open.len() {
                        assert(open2[k] == open[k]);
                    }
                }
                lemma_resolve_expand(rest, out2, open2);
                lemma_expand_push(out, Op::LoopStart(0));
                assert(expand(out2) + expand(rest) =~= expand(out) + expand(t));
            },
            Op::LoopEnd(_) => {
                if open.len() > 0 {
                    let start = open.last();
                    let pushed = out.push(Op::LoopEnd(start));
                    let out2 = pushed.update(start as int, Op::LoopStart(out.len() as usize));
                    let open2 = open.drop_last();
                    assert(out[start as int] is LoopStart);
                    assert forall|k: int| 0 <= k < open2.len() implies open2[k] < out2.len()
                        && out2[#[trigger] open2[k] as int] is LoopStart by {
                        assert(open2[k] == open[k]);
                        assert(out[open[k] as int] is LoopStart);
                    }
                    lemma_resolve_expand(rest, out2, open2);
                    lemma_expand_push(out, Op::LoopEnd(start));
                    lemma_expand_update(pushed, start as int, Op::LoopStart(out.len() as usize));
                    assert(expand(out2) + expand(rest) =~= expand(out) + expand(t));
                }
            },
            op => {
                let out2 = out.push(op);
                lemma_resolve_expand(rest, out2, open);
                lemma_expand_push(out, op);
                assert(expand(out2) + expand(rest) =~= expand(out) + expand(t));
            },
        }
    }
}

/// The instructions of a source made of commands only expand back to it.
proof fn lemma_tokens_expand(s: Seq<u8>, i: nat)
    requires
        s.len() <= usize::MAX,
        i <= s.len(),
        forall|j: int| 0 <= j < s.len() ==> is_command(#[trigger] s[j]),
    ensures
        expand(tokens(s, i)) == s.skip(i as int),
    decreases s.len() - i,
{
    if i == s.len() {
        assert(s.skip(i as int) =~= seq![]);
    } else {
        let c = s[i as int];
        let rest = tokens(s, i + 1);
        lemma_tokens_expand(s, i + 1);
        assert(s.skip(i as int) =~= seq![c] + s.skip(i + 1 as int));
        if is_counted(c) {
            lemma_first_count(s, i + 1);
            if rest.len() > 0 && rest[0] == counted(c, count_of(rest[0])) {
                let n = count_of(rest[0]);
                assert(rest =~= seq![rest[0]] + rest.drop_first());
                lemma_expand_cons(rest[0], rest.drop_first());
                lemma_expand_cons(counted(c, n + 1), rest.drop_first());
                assert(expand_op(counted(c, n + 1)) =~= seq![c] + expand_op(counted(c, n)));
                assert(expand(tokens(s, i)) =~= s.skip(i as int));
            } else {
                lemma_expand_cons(counted(c, 1), rest);
                assert(expand_op(counted(c, 1)) =~= seq![c]);
            }
        } else {
            lemma_expand_cons(tokens(s, i)[0], rest);
            assert(tokens(s, i) =~= seq![tokens(s, i)[0]] + rest);
        }
    }
}

/// A source made of commands only, whose brackets balance, assembles; expanding
/// the counts of its instructions gives the source back.
pub proof fn law_round_trip(s: Seq<u8>)
    requires
        s.len() <= usize::MAX,
        forall|j: int| 0 <= j < s.len() ==> is_command(#[trigger] s[j]),
        !unmatched_close(s, 0, 0),
        pending_opens(s, 0, 0) == 0,
    ensures
        assemble(s) is Ok,
        expand(assemble(s)->Ok_0) == s,
{
    lemma_tokens_brackets(s, 0, 0);
    lemma_tokens_len(s, 0);
    lemma_resolve_brackets(tokens(s, 0), seq![], seq![]);
    lemma_resolve_expand(tokens(s, 0), seq![], seq![]);
    lemma_tokens_expand(s, 0);
    assert(expand(seq![]) + expand(tokens(s, 0)) =~= s);
}

} // verus!
