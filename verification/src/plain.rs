//! The plain reading of a token sequence: one op for each token, with no
//! run folded and no loop replaced. It says what a program means before the
//! translator has touched it.

use crate::ir::{
    depth, is_close, is_matched_close, is_open, lemma_close_from, lemma_match,
    lemma_match_close_unique, lemma_open_or_closed, linked, match_close, match_open, open_loops,
    well_formed, BfOp, BfOpKind,
};
use crate::spelling::{
    lemma_token_start_rises, magnitude, reads_as, spelled, token_start, token_width,
};
use crate::translate::{simple_kind, MAX_TOKENS};
use vstd::prelude::*;

verus! {

/// The op that the token `c` stands for by itself: one step of its kind, or
/// a jump whose argument is still open. A character that is no instruction
/// stands for a pointer move by nothing.
pub open spec fn unit_op(c: char) -> BfOp {
    if c == '[' {
        BfOp { kind: BfOpKind::JumpIfDataZero, argument: 0 }
    } else if c == ']' {
        BfOp { kind: BfOpKind::JumpIfDataNotZero, argument: 0 }
    } else {
        match simple_kind(c) {
            Some(kind) => BfOp { kind, argument: 1 },
            None => BfOp { kind: BfOpKind::IncPtr, argument: 0 },
        }
    }
}

/// One op for each token, the jumps not yet linked.
pub open spec fn unit_ops(tokens: Seq<char>) -> Seq<BfOp> {
    Seq::new(tokens.len(), |i: int| unit_op(tokens[i]))
}

/// The op at `k` with, if it is a jump, the index of the jump that it is
/// matched with as its argument.
pub open spec fn linked_op(ops: Seq<BfOp>, k: int) -> BfOp {
    if is_open(ops[k]) {
        BfOp { kind: ops[k].kind, argument: match_close(ops, k) as i32 }
    } else if is_close(ops[k]) {
        BfOp { kind: ops[k].kind, argument: match_open(ops, k) as i32 }
    } else {
        ops[k]
    }
}

/// The plain reading of `tokens`: one op for each token, each bracket a jump
/// that names the bracket that it is matched with.
pub open spec fn plain_ops(tokens: Seq<char>) -> Seq<BfOp> {
    Seq::new(tokens.len(), |k: int| linked_op(unit_ops(tokens), k))
}

/// Ops that are no jumps leave the open loops as they are.
pub proof fn lemma_open_loops_flat(ops: Seq<BfOp>, from: int, to: int)
    requires
        0 <= from <= to <= ops.len(),
        forall|i: int| from <= i < to ==> !is_open(#[trigger] ops[i]) && !is_close(ops[i]),
    ensures
        open_loops(ops, to) == open_loops(ops, from),
    decreases to - from,
{
    if from < to {
        lemma_open_loops_flat(ops, from, to - 1);
        assert(!is_open(ops[to - 1]) && !is_close(ops[to - 1]));
    }
}

/// The places of the loops open in `ops`, as places in the tokens.
pub open spec fn placed(ops: Seq<BfOp>, open: Seq<int>) -> Seq<int> {
    open.map_values(|i: int| token_start(ops, i) as int)
}

/// The loops that are open in front of an op are, place by place, the
/// brackets that are open in front of the tokens that spell it.
pub proof fn lemma_same_nesting(ops: Seq<BfOp>, tokens: Seq<char>, k: int)
    requires
        reads_as(ops, tokens, tokens.len() as int),
        0 <= k <= ops.len(),
    ensures
        token_start(ops, k) <= tokens.len(),
        open_loops(unit_ops(tokens), token_start(ops, k) as int) == placed(
            ops,
            open_loops(ops, k),
        ),
    decreases k,
{
    let units = unit_ops(tokens);
    lemma_token_start_rises(ops, k, ops.len() as int);
    if k == 0 {
        assert(placed(ops, open_loops(ops, 0)) =~= Seq::<int>::empty());
    } else {
        lemma_same_nesting(ops, tokens, k - 1);
        let op = ops[k - 1];
        let p = token_start(ops, k - 1) as int;
        let q = token_start(ops, k) as int;
        let before = open_loops(ops, k - 1);
        let before_tokens = open_loops(units, p);
        let n = magnitude(op.argument as int) as int;
        assert(spelled(ops, tokens, k - 1));
        assert(q == p + token_width(op));
        match op.kind {
            BfOpKind::JumpIfDataZero => {
                assert(open_loops(units, q) == before_tokens.push(p));
                assert(placed(ops, before.push(k - 1)) =~= placed(ops, before).push(p));
            },
            BfOpKind::JumpIfDataNotZero => {
                if before.len() > 0 {
                    assert(open_loops(units, q) == before_tokens.drop_last());
                    assert(placed(ops, before.drop_last()) =~= placed(ops, before).drop_last());
                }
            },
            BfOpKind::LoopSetToZero => {
                lemma_open_loops_flat(units, p + 1, p + 2);
                assert(open_loops(units, p + 1) == before_tokens.push(p));
                assert(open_loops(units, p + 3) == open_loops(units, p + 2).drop_last());
                assert(before_tokens.push(p).drop_last() =~= before_tokens);
            },
            BfOpKind::LoopMovePtr => {
                lemma_open_loops_flat(units, p + 1, p + 1 + n);
                assert(open_loops(units, p + 1) == before_tokens.push(p));
                assert(open_loops(units, q) == open_loops(units, q - 1).drop_last());
                assert(before_tokens.push(p).drop_last() =~= before_tokens);
            },
            BfOpKind::LoopMoveData => {
                lemma_open_loops_flat(units, p + 1, p + 3 + 2 * n);
                assert(open_loops(units, p + 1) == before_tokens.push(p));
                assert(open_loops(units, q) == open_loops(units, q - 1).drop_last());
                assert(before_tokens.push(p).drop_last() =~= before_tokens);
            },
            _ => {
                lemma_open_loops_flat(units, p, q);
            },
        }
    }
}

/// In the plain reading, a token other than a bracket is one step of its
/// kind.
pub proof fn lemma_plain_unit(tokens: Seq<char>, i: int)
    requires
        0 <= i < tokens.len(),
        simple_kind(tokens[i]) is Some,
    ensures
        plain_ops(tokens)[i] == (BfOp { kind: simple_kind(tokens[i])->0, argument: 1 }),
{
}

/// In the plain reading, a `[` and a `]` with no bracket between them are a
/// loop: two jumps that name each other.
pub proof fn lemma_plain_loop(tokens: Seq<char>, p: int, q: int)
    requires
        0 <= p,
        p + 1 < q <= tokens.len() <= MAX_TOKENS,
        tokens[p] == '[',
        tokens[q - 1] == ']',
        forall|i: int| p < i < q - 1 ==> #[trigger] tokens[i] != '[' && tokens[i] != ']',
    ensures
        is_open(plain_ops(tokens)[p]),
        plain_ops(tokens)[p].argument == q - 1,
        is_close(plain_ops(tokens)[q - 1]),
        plain_ops(tokens)[q - 1].argument == p,
{
    let units = unit_ops(tokens);
    assert(open_loops(units, p + 1) == open_loops(units, p).push(p));
    assert forall|i: int| p + 1 <= i < q - 1 implies !is_open(#[trigger] units[i]) && !is_close(
        units[i],
    ) by {
        assert(tokens[i] != '[' && tokens[i] != ']');
    }
    lemma_open_loops_flat(units, p + 1, q - 1);
    assert(is_matched_close(units, q - 1));
    lemma_match_close_unique(units, p, q - 1);
}

/// In the plain reading of the tokens that an op list spells, the bracket
/// at the place of a jump is a jump of the same kind, and names the place of
/// the jump that the op names.
pub proof fn lemma_plain_jump(ops: Seq<BfOp>, tokens: Seq<char>, k: int)
    requires
        tokens.len() <= MAX_TOKENS,
        well_formed(ops),
        reads_as(ops, tokens, tokens.len() as int),
        0 <= k < ops.len(),
        is_open(ops[k]) || is_close(ops[k]),
    ensures
        0 <= ops[k].argument < ops.len(),
        token_start(ops, k) < tokens.len(),
        plain_ops(tokens)[token_start(ops, k) as int].kind == ops[k].kind,
        plain_ops(tokens)[token_start(ops, k) as int].argument == token_start(
            ops,
            ops[k].argument as int,
        ),
        token_start(ops, k + 1) == token_start(ops, k) + 1,
        token_start(ops, ops[k].argument + 1) == token_start(ops, ops[k].argument as int) + 1,
{
    let units = unit_ops(tokens);
    let len = ops.len() as int;
    let p = token_start(ops, k) as int;
    assert(spelled(ops, tokens, k));
    assert(linked(ops, k));
    if is_close(ops[k]) {
        let i = match_open(ops, k);
        assert(depth(ops, k) > 0);
        lemma_match(ops, k);
        lemma_same_nesting(ops, tokens, k);
        lemma_token_start_rises(ops, i, k);
        assert(match_open(units, p) == token_start(ops, i));
    } else {
        let j = match_close(ops, k);
        lemma_open_or_closed(ops, k, len);
        lemma_close_from(ops, k, k + 1);
        assert(spelled(ops, tokens, j));
        lemma_same_nesting(ops, tokens, j);
        let q = token_start(ops, j) as int;
        assert(match_open(units, q) == p);
        assert(is_matched_close(units, q));
        lemma_match_close_unique(units, p, q);
    }
}

} // verus!
