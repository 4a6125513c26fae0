//! Reading an op list back: every op stands for a stretch of tokens, and the
//! ops that the translator yields spell out, stretch by stretch, exactly the
//! tokens that it was given.

use crate::ir::{lemma_open_loops, repeats, BfOp, BfOpKind};
use crate::optimize::rewrite;
use crate::translate::{
    close_loop, consistent, generic_loop, lemma_run_ends, lemma_run_tokens, lemma_step_close,
    lemma_step_push, run_length, simple_kind, translate_from, translate_spec, MAX_TOKENS,
};
use vstd::prelude::*;

verus! {

/// The size of a number without its sign.
pub open spec fn magnitude(n: int) -> nat {
    if n >= 0 {
        n as nat
    } else {
        (-n) as nat
    }
}

/// The token that one step of an op of this kind is written as. The three
/// kinds that stand for whole loops start, as a loop does, with `[`.
pub open spec fn token_of(kind: BfOpKind) -> char {
    match kind {
        BfOpKind::IncPtr => '>',
        BfOpKind::DecPtr => '<',
        BfOpKind::IncData => '+',
        BfOpKind::DecData => '-',
        BfOpKind::ReadStdin => ',',
        BfOpKind::WriteStdout => '.',
        BfOpKind::JumpIfDataNotZero => ']',
        _ => '[',
    }
}

/// The token that moves the pointer in the direction of `delta`.
pub open spec fn step_token(delta: int) -> char {
    if delta > 0 {
        '>'
    } else {
        '<'
    }
}

/// The number of tokens that `op` stands for.
pub open spec fn token_width(op: BfOp) -> nat {
    match op.kind {
        BfOpKind::JumpIfDataZero | BfOpKind::JumpIfDataNotZero => 1,
        BfOpKind::LoopSetToZero => 3,
        BfOpKind::LoopMovePtr => magnitude(op.argument as int) + 2,
        BfOpKind::LoopMoveData => 2 * magnitude(op.argument as int) + 4,
        _ => repeats(op.argument),
    }
}

/// The index of the first token that the op at `k` stands for; for `k` the
/// length of `ops`, the number of tokens that `ops` stands for.
pub open spec fn token_start(ops: Seq<BfOp>, k: int) -> nat
    decreases k,
{
    if k <= 0 {
        0
    } else {
        token_start(ops, k - 1) + token_width(ops[k - 1])
    }
}

/// Whether the tokens from `from` up to `to` are all `c`.
pub open spec fn all_are(tokens: Seq<char>, from: int, to: int, c: char) -> bool {
    forall|i: int| from <= i < to ==> #[trigger] tokens[i] == c
}

/// Whether the tokens from `p` on spell `op`: a run of the op's token, as
/// long as its repeat count; one bracket for a jump; and for an op that
/// stands for a whole loop, the loop written out.
pub open spec fn spells(op: BfOp, tokens: Seq<char>, p: int) -> bool {
    let n = magnitude(op.argument as int) as int;
    &&& 0 <= p
    &&& p + token_width(op) <= tokens.len()
    &&& match op.kind {
        BfOpKind::JumpIfDataZero => tokens[p] == '[',
        BfOpKind::JumpIfDataNotZero => tokens[p] == ']',
        BfOpKind::LoopSetToZero => {
            &&& tokens[p] == '['
            &&& (tokens[p + 1] == '-' || tokens[p + 1] == '+')
            &&& tokens[p + 2] == ']'
        },
        BfOpKind::LoopMovePtr => {
            &&& n >= 1
            &&& tokens[p] == '['
            &&& all_are(tokens, p + 1, p + 1 + n, step_token(op.argument as int))
            &&& tokens[p + 1 + n] == ']'
        },
        BfOpKind::LoopMoveData => {
            &&& n >= 1
            &&& tokens[p] == '['
            &&& tokens[p + 1] == '-'
            &&& all_are(tokens, p + 2, p + 2 + n, step_token(op.argument as int))
            &&& tokens[p + 2 + n] == '+'
            &&& all_are(tokens, p + 3 + n, p + 3 + 2 * n, step_token(-(op.argument as int)))
            &&& tokens[p + 3 + 2 * n] == ']'
        },
        _ => op.argument >= 1 && all_are(tokens, p, p + op.argument, token_of(op.kind)),
    }
}

/// Whether the op at `k` is spelled by the tokens at its place.
pub open spec fn spelled(ops: Seq<BfOp>, tokens: Seq<char>, k: int) -> bool {
    spells(ops[k], tokens, token_start(ops, k) as int)
}

/// Whether `ops` reads as the first `pc` of `tokens`: each op is spelled at
/// its place, one behind the other, and together they take `pc` tokens.
pub open spec fn reads_as(ops: Seq<BfOp>, tokens: Seq<char>, pc: int) -> bool {
    &&& token_start(ops, ops.len() as int) == pc
    &&& forall|k: int| 0 <= k < ops.len() ==> #[trigger] spelled(ops, tokens, k)
}

/// Where an op starts depends only on the kinds and arguments of the ops in
/// front of it.
pub proof fn lemma_token_start_prefix(a: Seq<BfOp>, b: Seq<BfOp>, k: int)
    requires
        0 <= k <= a.len(),
        k <= b.len(),
        forall|j: int| 0 <= j < k ==> token_width(#[trigger] a[j]) == token_width(b[j]),
    ensures
        token_start(a, k) == token_start(b, k),
    decreases k,
{
    if k > 0 {
        lemma_token_start_prefix(a, b, k - 1);
        assert(token_width(a[k - 1]) == token_width(b[k - 1]));
    }
}

/// Ops start in the order in which they stand.
pub proof fn lemma_token_start_rises(ops: Seq<BfOp>, a: int, b: int)
    requires
        0 <= a <= b,
    ensures
        token_start(ops, a) <= token_start(ops, b),
    decreases b,
{
    if a < b {
        lemma_token_start_rises(ops, a, b - 1);
    }
}

/// Appending an op that the next tokens spell keeps the reading.
proof fn lemma_reads_push(ops: Seq<BfOp>, tokens: Seq<char>, pc: int, op: BfOp)
    requires
        reads_as(ops, tokens, pc),
        spells(op, tokens, pc),
    ensures
        reads_as(ops.push(op), tokens, pc + token_width(op)),
{
    let next = ops.push(op);
    assert forall|k: int| 0 <= k < next.len() implies #[trigger] spelled(next, tokens, k) by {
        lemma_token_start_prefix(ops, next, k);
        if k < ops.len() {
            assert(spelled(ops, tokens, k));
        }
    }
    lemma_token_start_prefix(ops, next, ops.len() as int);
}

/// Closing a loop at a `]` keeps the reading, whether the loop stays or an
/// op takes its place.
proof fn lemma_reads_close(ops: Seq<BfOp>, tokens: Seq<char>, pc: int, start: int)
    requires
        reads_as(ops, tokens, pc),
        0 <= pc < tokens.len(),
        tokens[pc] == ']',
        0 <= start < ops.len(),
        ops[start].kind == BfOpKind::JumpIfDataZero,
    ensures
        reads_as(close_loop(ops, start), tokens, pc + 1),
{
    let len = ops.len() as int;
    let next = close_loop(ops, start);
    let span = ops.subrange(start, len);
    let at_start = token_start(ops, start) as int;
    match rewrite(span) {
        Some(op) => {
            assert(next =~= ops.subrange(0, start).push(op));
            assert(spelled(ops, tokens, start));
            assert(spelled(ops, tokens, start + 1));
            assert(span[1] == ops[start + 1]);
            assert(token_start(ops, start + 1) == at_start + 1);
            assert(token_start(ops, start + 2) == token_start(ops, start + 1) + token_width(
                ops[start + 1],
            ));
            if len - start == 5 {
                assert(span[2] == ops[start + 2]);
                assert(span[3] == ops[start + 3]);
                assert(span[4] == ops[start + 4]);
                assert(spelled(ops, tokens, start + 2));
                assert(spelled(ops, tokens, start + 3));
                assert(spelled(ops, tokens, start + 4));
                assert(token_start(ops, start + 3) == token_start(ops, start + 2) + token_width(
                    ops[start + 2],
                ));
                assert(token_start(ops, start + 4) == token_start(ops, start + 3) + token_width(
                    ops[start + 3],
                ));
                assert(token_start(ops, start + 5) == token_start(ops, start + 4) + token_width(
                    ops[start + 4],
                ));
            }
            assert(spells(op, tokens, at_start));
            assert(at_start + token_width(op) == pc + 1);
            assert forall|k: int| 0 <= k < next.len() implies #[trigger] spelled(
                next,
                tokens,
                k,
            ) by {
                lemma_token_start_prefix(ops, next, k);
                if k < start {
                    assert(spelled(ops, tokens, k));
                }
            }
            lemma_token_start_prefix(ops, next, start);
        },
        None => {
            assert(next == generic_loop(ops, start));
            assert forall|k: int| 0 <= k < next.len() implies #[trigger] spelled(
                next,
                tokens,
                k,
            ) by {
                lemma_token_start_prefix(ops, next, k);
                if k < len {
                    assert(spelled(ops, tokens, k));
                }
            }
            lemma_token_start_prefix(ops, next, len);
        },
    }
}

/// Whatever the translator returns, from a state that reads as the tokens
/// in front of `pc`, spells all the tokens.
proof fn lemma_translate_from_spells(
    tokens: Seq<char>,
    pc: int,
    ops: Seq<BfOp>,
    pending: Seq<int>,
)
    requires
        tokens.len() <= MAX_TOKENS,
        0 <= pc <= tokens.len(),
        ops.len() <= pc,
        consistent(ops, pending),
        reads_as(ops, tokens, pc),
    ensures
        translate_from(tokens, pc, ops, pending) matches Ok(r) ==> reads_as(
            r,
            tokens,
            tokens.len() as int,
        ),
    decreases tokens.len() - pc,
{
    if pc >= tokens.len() {
    } else if tokens[pc] == '[' {
        let op = BfOp { kind: BfOpKind::JumpIfDataZero, argument: 0 };
        lemma_step_push(ops, pending, op);
        lemma_reads_push(ops, tokens, pc, op);
        lemma_translate_from_spells(tokens, pc + 1, ops.push(op), pending.push(ops.len() as int));
    } else if tokens[pc] == ']' {
        if pending.len() > 0 {
            let start = pending.last();
            lemma_open_loops(ops, ops.len() as int);
            lemma_step_close(ops, pending);
            lemma_reads_close(ops, tokens, pc, start);
            lemma_translate_from_spells(
                tokens,
                pc + 1,
                close_loop(ops, start),
                pending.drop_last(),
            );
        }
    } else {
        match simple_kind(tokens[pc]) {
            Some(kind) => {
                let count = run_length(tokens, pc);
                let op = BfOp { kind, argument: count as i32 };
                lemma_run_ends(tokens, pc);
                assert forall|i: int| pc <= i < pc + count implies #[trigger] tokens[i] == token_of(
                    kind,
                ) by {
                    lemma_run_tokens(tokens, pc, i);
                }
                lemma_step_push(ops, pending, op);
                lemma_reads_push(ops, tokens, pc, op);
                lemma_translate_from_spells(tokens, pc + count, ops.push(op), pending);
            },
            None => {},
        }
    }
}

/// The ops that the translator yields spell out the tokens that it was
/// given: op by op, stretch by stretch, and nothing is left over.
pub proof fn lemma_translate_spells(tokens: Seq<char>)
    ensures
        translate_spec(tokens) matches Ok(ops) ==> reads_as(ops, tokens, tokens.len() as int),
{
    if tokens.len() <= MAX_TOKENS {
        lemma_translate_from_spells(tokens, 0, Seq::empty(), Seq::empty());
    }
}

} // verus!
