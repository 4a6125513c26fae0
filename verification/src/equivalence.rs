//! The optimizer keeps what a loop does: the op that it puts in a loop's
//! place takes every machine to the machine that the loop takes it to, and
//! has no result where the loop has none.

use crate::ir::{is_close, is_open, BfOp, BfOpKind};
use crate::machine::{
    at, halts, lemma_halted, lemma_halts_after, lemma_halts_step, lemma_run_split, lemma_stuck,
    run, step, Machine,
};
use crate::optimize::{is_move_data, is_pointer_step, is_unit_step, pointer_delta, rewrite};
use crate::translate::generic_loop;
use vstd::prelude::*;

verus! {

/// Whether `ops` holds a loop from `p` up to `q`: an opening at `p` and a
/// closing at `q - 1` that name each other.
pub open spec fn is_loop(ops: Seq<BfOp>, p: int, q: int) -> bool {
    &&& 0 <= p
    &&& p + 1 < q <= ops.len()
    &&& is_open(ops[p])
    &&& ops[p].argument == q - 1
    &&& is_close(ops[q - 1])
    &&& ops[q - 1].argument == p
}

/// Whether the body of the loop from `p` up to `q` does nothing but move the
/// pointer by `delta`, in `steps` steps.
pub open spec fn body_moves(ops: Seq<BfOp>, p: int, q: int, delta: int, steps: nat) -> bool {
    forall|x: Machine| #[trigger] run(ops, at(p + 1, x), steps) == Some(at(q - 1, x.moved(delta)))
}

/// The machine after one has been taken from the current cell and added to
/// the cell at `offset` from it.
pub open spec fn shifted(m: Machine, offset: int) -> Machine {
    m.with_cell(m.cell() - 1).moved(offset).with_cell(m.tape[m.pointer + offset] + 1).moved(
        -offset,
    )
}

/// Whether the body of the loop from `p` up to `q` does nothing but take one
/// from the current cell and add it to the cell at `offset`, in `steps`
/// steps, and has no result where that cell is not on the tape.
pub open spec fn body_shifts(ops: Seq<BfOp>, p: int, q: int, offset: int, steps: nat) -> bool {
    forall|x: Machine|
        x.in_bounds() ==> #[trigger] run(ops, at(p + 1, x), steps) == if x.reaches(offset) {
            Some(at(q - 1, shifted(x, offset)))
        } else {
            None
        }
}

/// Inside a loop that adds or subtracts one, with the cell not yet zero: the
/// run leaves the loop with the cell at zero.
proof fn lemma_clear_inner(ops: Seq<BfOp>, p: int, m: Machine) -> (steps: nat)
    requires
        is_loop(ops, p, p + 3),
        is_unit_step(ops[p + 1]),
        m.in_bounds(),
        m.cell() != 0,
    ensures
        steps >= 1,
        run(ops, at(p + 1, m), steps) == Some(at(p + 3, m.with_cell(0))),
    decreases
            (if ops[p + 1].kind == BfOpKind::DecData {
                m.cell() as int
            } else {
                256 - m.cell()
            }),
{
    reveal_with_fuel(run, 3);
    let stepped = step(ops, at(p + 1, m))->0.machine;
    assert(stepped.with_cell(0) =~= m.with_cell(0));
    if stepped.cell() != 0 {
        assert(run(ops, at(p + 1, m), 2) == Some(at(p + 1, stepped)));
        let rest = lemma_clear_inner(ops, p, stepped);
        lemma_run_split(ops, at(p + 1, m), 2, rest);
        2 + rest
    } else {
        assert(stepped =~= m.with_cell(0));
        assert(run(ops, at(p + 1, m), 2) == Some(at(p + 3, stepped)));
        2
    }
}

/// A loop that adds or subtracts one takes the machine out of the loop with
/// the cell at zero; it has no result where the pointer is off the tape.
pub proof fn lemma_clear_loop(ops: Seq<BfOp>, p: int, m: Machine) -> (steps: nat)
    requires
        is_loop(ops, p, p + 3),
        is_unit_step(ops[p + 1]),
    ensures
        steps >= 1,
        run(ops, at(p, m), steps) == if m.in_bounds() {
            Some(at(p + 3, m.with_cell(0)))
        } else {
            None
        },
{
    reveal_with_fuel(run, 2);
    if m.in_bounds() && m.cell() != 0 {
        let rest = lemma_clear_inner(ops, p, m);
        assert(run(ops, at(p, m), 1) == Some(at(p + 1, m)));
        lemma_run_split(ops, at(p, m), 1, rest);
        1 + rest
    } else {
        if m.in_bounds() {
            assert(m =~= m.with_cell(0));
        }
        1
    }
}

/// At the closing of a loop that only moves the pointer: the run leaves the
/// loop on the first zero cell, and has no result where there is none.
proof fn lemma_seek_inner(
    ops: Seq<BfOp>,
    p: int,
    q: int,
    delta: int,
    body: nat,
    m: Machine,
) -> (steps: nat)
    requires
        is_loop(ops, p, q),
        delta != 0,
        body_moves(ops, p, q, delta, body),
    ensures
        steps >= 1,
        run(ops, at(q - 1, m), steps) == match m.seek(delta) {
            Some(found) => Some(at(q, found)),
            None => None,
        },
    decreases m.room(delta),
{
    reveal_with_fuel(run, 2);
    if m.in_bounds() && m.cell() != 0 {
        let next = m.moved(delta);
        assert(run(ops, at(q - 1, m), 1) == Some(at(p + 1, m)));
        assert(run(ops, at(p + 1, m), body) == Some(at(q - 1, next)));
        let rest = lemma_seek_inner(ops, p, q, delta, body, next);
        lemma_run_split(ops, at(q - 1, m), 1, body + rest);
        lemma_run_split(ops, at(p + 1, m), body, rest);
        1 + body + rest
    } else {
        1
    }
}

/// A loop that only moves the pointer takes the machine out of the loop
/// with the pointer on the first zero cell, and has no result where there is
/// none.
pub proof fn lemma_seek_loop(
    ops: Seq<BfOp>,
    p: int,
    q: int,
    delta: int,
    body: nat,
    m: Machine,
) -> (steps: nat)
    requires
        is_loop(ops, p, q),
        delta != 0,
        body_moves(ops, p, q, delta, body),
    ensures
        steps >= 1,
        run(ops, at(p, m), steps) == match m.seek(delta) {
            Some(found) => Some(at(q, found)),
            None => None,
        },
{
    reveal_with_fuel(run, 2);
    if m.in_bounds() && m.cell() != 0 {
        let next = m.moved(delta);
        assert(run(ops, at(p, m), 1) == Some(at(p + 1, m)));
        assert(run(ops, at(p + 1, m), body) == Some(at(q - 1, next)));
        let rest = lemma_seek_inner(ops, p, q, delta, body, next);
        lemma_run_split(ops, at(p, m), 1, body + rest);
        lemma_run_split(ops, at(p + 1, m), body, rest);
        1 + body + rest
    } else {
        1
    }
}

/// Inside a loop that moves the cell's value over, with the cell not yet
/// zero: the run leaves the loop with the value added to the target and the
/// cell at zero.
proof fn lemma_shift_inner(
    ops: Seq<BfOp>,
    p: int,
    q: int,
    offset: int,
    body: nat,
    m: Machine,
) -> (steps: nat)
    requires
        is_loop(ops, p, q),
        offset != 0,
        body_shifts(ops, p, q, offset, body),
        m.in_bounds(),
        m.reaches(offset),
        m.cell() != 0,
    ensures
        steps >= 1,
        run(ops, at(p + 1, m), steps) == Some(at(q, m.data_moved(offset))),
    decreases m.cell(),
{
    reveal_with_fuel(run, 2);
    let next = shifted(m, offset);
    assert(run(ops, at(p + 1, m), body) == Some(at(q - 1, next)));
    assert(next.pointer == m.pointer);
    assert(next.cell() == m.cell() - 1);
    if next.cell() != 0 {
        assert(run(ops, at(q - 1, next), 1) == Some(at(p + 1, next)));
        let rest = lemma_shift_inner(ops, p, q, offset, body, next);
        assert(next.data_moved(offset) =~= m.data_moved(offset));
        lemma_run_split(ops, at(p + 1, m), body, 1 + rest);
        lemma_run_split(ops, at(q - 1, next), 1, rest);
        body + 1 + rest
    } else {
        assert(next =~= m.data_moved(offset));
        assert(run(ops, at(q - 1, next), 1) == Some(at(q, next)));
        lemma_run_split(ops, at(p + 1, m), body, 1);
        body + 1
    }
}

/// A loop that moves the cell's value over takes the machine out of the loop
/// with the value added to the target and the cell at zero. It leaves the
/// machine as it is where the cell is zero, and has no result where a cell
/// that it needs is not on the tape.
pub proof fn lemma_shift_loop(
    ops: Seq<BfOp>,
    p: int,
    q: int,
    offset: int,
    body: nat,
    m: Machine,
) -> (steps: nat)
    requires
        is_loop(ops, p, q),
        offset != 0,
        body_shifts(ops, p, q, offset, body),
    ensures
        steps >= 1,
        run(ops, at(p, m), steps) == if !m.in_bounds() {
            None
        } else if m.cell() == 0 {
            Some(at(q, m))
        } else if m.reaches(offset) {
            Some(at(q, m.data_moved(offset)))
        } else {
            None
        },
{
    reveal_with_fuel(run, 2);
    if m.in_bounds() && m.cell() != 0 {
        assert(run(ops, at(p, m), 1) == Some(at(p + 1, m)));
        if m.reaches(offset) {
            let rest = lemma_shift_inner(ops, p, q, offset, body, m);
            lemma_run_split(ops, at(p, m), 1, rest);
            1 + rest
        } else {
            assert(run(ops, at(p + 1, m), body) is None);
            lemma_run_split(ops, at(p, m), 1, body);
            1 + body
        }
    } else {
        1
    }
}

/// What the loop `span`, closed as it is, comes to from `start`, where the
/// optimizer has an op for it: what that op comes to in its one step.
proof fn lemma_generic_loop_runs(span: Seq<BfOp>, start: Machine) -> (steps: nat)
    requires
        is_open(span[0]),
        rewrite(span) is Some,
    ensures
        run(generic_loop(span, 0), at(0, start), steps) == match step(
            seq![rewrite(span)->0],
            at(0, start),
        ) {
            Some(c) => Some(at(span.len() as int + 1, c.machine)),
            None => None,
        },
{
    let ops = generic_loop(span, 0);
    let len = ops.len() as int;
    assert(is_loop(ops, 0, len));
    if span.len() == 2 && is_unit_step(span[1]) {
        lemma_clear_loop(ops, 0, start)
    } else if span.len() == 2 && is_pointer_step(span[1]) {
        let delta = pointer_delta(span[1]);
        assert forall|x: Machine| #[trigger]
            run(ops, at(1, x), 1) == Some(at(2, x.moved(delta))) by {
            reveal_with_fuel(run, 2);
        }
        lemma_seek_loop(ops, 0, len, delta, 1, start)
    } else {
        let offset = pointer_delta(span[2]);
        assert forall|x: Machine| x.in_bounds() implies #[trigger] run(ops, at(1, x), 4)
            == if x.reaches(offset) {
            Some(at(5, shifted(x, offset)))
        } else {
            None
        } by {
            reveal_with_fuel(run, 5);
        }
        lemma_shift_loop(ops, 0, len, offset, 4, start)
    }
}

/// Every rewrite is sound. Where the optimizer puts an op in the place of a
/// loop, the op and the loop, closed as it is, take each machine to the same
/// machine, and the one has no result where the other has none.
pub proof fn lemma_rewrite_sound(span: Seq<BfOp>, start: Machine, end: Machine)
    requires
        is_open(span[0]),
        rewrite(span) is Some,
    ensures
        halts(generic_loop(span, 0), start, end) <==> halts(seq![rewrite(span)->0], start, end),
        halts(seq![rewrite(span)->0], start, end) <==> step(
            seq![rewrite(span)->0],
            at(0, start),
        ) == Some(at(1, end)),
{
    let ops = generic_loop(span, 0);
    let single = seq![rewrite(span)->0];
    let steps = lemma_generic_loop_runs(span, start);
    lemma_halts_step(single, 0, start, end);
    match step(single, at(0, start)) {
        Some(c) => {
            lemma_halted(single, c.machine, end);
            lemma_halts_after(ops, 0, start, steps, end);
            lemma_halted(ops, c.machine, end);
        },
        None => {
            lemma_stuck(ops, 0, start, end, steps);
        },
    }
}

/// The loop `[-]` or `[+]`, closed as it is, and the op that the optimizer
/// puts in its place both end, whatever the cell holds, and end with the
/// cell at zero and the pointer where it was.
pub proof fn lemma_set_zero(span: Seq<BfOp>, start: Machine, end: Machine)
    requires
        span.len() == 2,
        is_open(span[0]),
        is_unit_step(span[1]),
        start.in_bounds(),
    ensures
        halts(generic_loop(span, 0), start, end) <==> end == start.with_cell(0),
        halts(seq![rewrite(span)->0], start, end) <==> end == start.with_cell(0),
{
    lemma_rewrite_sound(span, start, end);
}

/// The search for a zero cell ends on the first one that it comes to.
proof fn lemma_seek_hops(start: Machine, delta: int, hops: nat)
    requires
        delta != 0,
        forall|j: int|
            0 <= j < hops ==> (#[trigger] start.hopped(j, delta)).in_bounds() && start.hopped(
                j,
                delta,
            ).cell() != 0,
        start.hopped(hops as int, delta).in_bounds(),
        start.hopped(hops as int, delta).cell() == 0,
    ensures
        start.seek(delta) == Some(start.hopped(hops as int, delta)),
    decreases hops,
{
    assert(start.hopped(0, delta) =~= start);
    if hops > 0 {
        let next = start.moved(delta);
        assert forall|j: int| 0 <= j <= hops - 1 implies #[trigger] next.hopped(j, delta)
            == start.hopped(j + 1, delta) by {
            assert((j + 1) * delta == j * delta + delta) by (nonlinear_arith);
        }
        assert(next.hopped(hops - 1, delta) == start.hopped((hops - 1) + 1, delta));
        assert forall|j: int| 0 <= j < hops - 1 implies (#[trigger] next.hopped(
            j,
            delta,
        )).in_bounds() && next.hopped(j, delta).cell() != 0 by {
            assert(start.hopped(j + 1, delta).in_bounds());
        }
        lemma_seek_hops(next, delta, (hops - 1) as nat);
    }
}

/// The loop `[>]` or `[<]`, with any repeat count, closed as it is, and the
/// op that the optimizer puts in its place both stop at the same cell: where
/// the cells that the pointer comes to in `hops` moves are not zero and the
/// next one is zero, both end with the pointer on that cell.
pub proof fn lemma_move_pointer(span: Seq<BfOp>, start: Machine, hops: nat, end: Machine)
    requires
        span.len() == 2,
        is_open(span[0]),
        is_pointer_step(span[1]),
        forall|j: int|
            0 <= j < hops ==> (#[trigger] start.hopped(j, pointer_delta(span[1]))).in_bounds()
                && start.hopped(j, pointer_delta(span[1])).cell() != 0,
        start.hopped(hops as int, pointer_delta(span[1])).in_bounds(),
        start.hopped(hops as int, pointer_delta(span[1])).cell() == 0,
    ensures
        halts(generic_loop(span, 0), start, end) <==> end == start.hopped(
            hops as int,
            pointer_delta(span[1]),
        ),
        halts(seq![rewrite(span)->0], start, end) <==> end == start.hopped(
            hops as int,
            pointer_delta(span[1]),
        ),
{
    lemma_seek_hops(start, pointer_delta(span[1]), hops);
    lemma_rewrite_sound(span, start, end);
}

/// The loop `[->+<]`, with the pointer steps in either order and of any
/// repeat count, closed as it is, and the op that the optimizer puts in its
/// place both end, whatever the two cells hold: with the sum of the two,
/// modulo 256, in the target cell, zero in the current cell, and the pointer
/// where it was.
pub proof fn lemma_move_data(span: Seq<BfOp>, start: Machine, end: Machine)
    requires
        is_open(span[0]),
        is_move_data(span),
        start.in_bounds(),
        start.reaches(pointer_delta(span[2])),
    ensures
        halts(generic_loop(span, 0), start, end) <==> end == start.data_moved(
            pointer_delta(span[2]),
        ),
        halts(seq![rewrite(span)->0], start, end) <==> end == start.data_moved(
            pointer_delta(span[2]),
        ),
{
    lemma_rewrite_sound(span, start, end);
    if start.cell() == 0 {
        assert(start =~= start.data_moved(pointer_delta(span[2])));
    }
}

} // verus!
