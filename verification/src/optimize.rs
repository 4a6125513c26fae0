//! The loop optimizer: recognizes three loop idioms and names the single op
//! that does the same.

use crate::ir::{BfOp, BfOpKind};
use vstd::prelude::*;

verus! {

/// Whether `op` adds or subtracts exactly one in the current cell.
pub open spec fn is_unit_step(op: BfOp) -> bool {
    (op.kind == BfOpKind::IncData || op.kind == BfOpKind::DecData) && op.argument == 1
}

/// Whether `op` moves the pointer by a repeat count of at least one.
pub open spec fn is_pointer_step(op: BfOp) -> bool {
    (op.kind == BfOpKind::IncPtr || op.kind == BfOpKind::DecPtr) && op.argument >= 1
}

/// The signed distance by which a pointer step moves the pointer.
pub open spec fn pointer_delta(op: BfOp) -> int {
    if op.kind == BfOpKind::IncPtr {
        op.argument as int
    } else {
        -(op.argument as int)
    }
}

/// Whether `span`, a loop's placeholder followed by its body, is the idiom
/// that moves the current cell's value into another cell: take one off, step
/// over, add one, step back by as much.
pub open spec fn is_move_data(span: Seq<BfOp>) -> bool {
    &&& span.len() == 5
    &&& span[1].kind == BfOpKind::DecData
    &&& span[1].argument == 1
    &&& is_pointer_step(span[2])
    &&& span[3].kind == BfOpKind::IncData
    &&& span[3].argument == 1
    &&& is_pointer_step(span[4])
    &&& span[4].kind != span[2].kind
    &&& span[4].argument == span[2].argument
}

/// The op that does what the loop `span` does, if the loop's body is one of
/// the three idioms. `span` is the loop's placeholder followed by its body.
pub open spec fn rewrite(span: Seq<BfOp>) -> Option<BfOp> {
    if span.len() == 2 && is_unit_step(span[1]) {
        Some(BfOp { kind: BfOpKind::LoopSetToZero, argument: 0 })
    } else if span.len() == 2 && is_pointer_step(span[1]) {
        Some(BfOp { kind: BfOpKind::LoopMovePtr, argument: pointer_delta(span[1]) as i32 })
    } else if is_move_data(span) {
        Some(BfOp { kind: BfOpKind::LoopMoveData, argument: pointer_delta(span[2]) as i32 })
    } else {
        None
    }
}

/// What [`optimize_loop`] returns: the one op that replaces the loop that
/// starts at `loop_start` and runs to the end of `ops`, or nothing where the
/// loop is to stay as it is.
pub open spec fn optimize_loop_spec(ops: Seq<BfOp>, loop_start: int) -> Seq<BfOp> {
    if 0 <= loop_start <= ops.len() {
        match rewrite(ops.subrange(loop_start, ops.len() as int)) {
            Some(op) => seq![op],
            None => Seq::empty(),
        }
    } else {
        Seq::empty()
    }
}

/// Executable form of [`is_pointer_step`].
fn pointer_step(op: &BfOp) -> (b: bool)
    ensures
        b == is_pointer_step(*op),
{
    (op.kind == BfOpKind::IncPtr || op.kind == BfOpKind::DecPtr) && op.argument >= 1
}

/// The signed distance of a pointer step.
fn signed_delta(op: &BfOp) -> (d: i32)
    requires
        is_pointer_step(*op),
    ensures
        d == pointer_delta(*op),
{
    if op.kind == BfOpKind::IncPtr {
        op.argument
    } else {
        -op.argument
    }
}

/// Looks at the loop that starts with the placeholder at `loop_start` and
/// runs to the end of `ops`. Returns the single op that replaces the whole
/// loop if its body is one of the three idioms, and an empty list otherwise.
pub fn optimize_loop(ops: &[BfOp], loop_start: usize) -> (res: Vec<BfOp>)
    ensures
        res@ == optimize_loop_spec(ops@, loop_start as int),
{
    let mut res: Vec<BfOp> = Vec::new();
    if loop_start > ops.len() {
        return res;
    }
    let loop_size = ops.len() - loop_start;
    let ghost span = ops@.subrange(loop_start as int, ops@.len() as int);
    if loop_size == 2 {
        let repeated_op = &ops[loop_start + 1];
        assert(*repeated_op == span[1]);
        if (repeated_op.kind == BfOpKind::IncData || repeated_op.kind == BfOpKind::DecData)
            && repeated_op.argument == 1 {
            res.push(BfOp { kind: BfOpKind::LoopSetToZero, argument: 0 });
        } else if pointer_step(repeated_op) {
            res.push(BfOp { kind: BfOpKind::LoopMovePtr, argument: signed_delta(repeated_op) });
        }
    } else if loop_size == 5 {
        let take = &ops[loop_start + 1];
        let away = &ops[loop_start + 2];
        let give = &ops[loop_start + 3];
        let back = &ops[loop_start + 4];
        assert(*take == span[1] && *away == span[2] && *give == span[3] && *back == span[4]);
        if take.kind == BfOpKind::DecData && give.kind == BfOpKind::IncData && take.argument == 1
            && give.argument == 1 && pointer_step(away) && pointer_step(back) && back.kind
            != away.kind && back.argument == away.argument {
            res.push(BfOp { kind: BfOpKind::LoopMoveData, argument: signed_delta(away) });
        }
    }
    assert(res@ =~= optimize_loop_spec(ops@, loop_start as int));
    res
}

} // verus!
