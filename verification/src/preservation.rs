//! The translator keeps what a program does: the ops that it yields take
//! every machine to the machine that the plain reading of the tokens takes
//! it to, and have no result where the plain reading has none.

use crate::equivalence::{lemma_clear_loop, lemma_seek_loop, lemma_shift_loop, shifted};
use crate::ir::{is_close, is_open, lemma_jump_arguments, well_formed, BfOp, BfOpKind};
use crate::machine::{
    at, effect, halts, halts_from, lemma_halted, lemma_halts_after, lemma_halts_sooner,
    lemma_halts_step, lemma_run_split, lemma_run_stuck, lemma_stuck,
    lemma_transfers_keep_place, run, step, Config, Machine,
};
use crate::plain::{lemma_plain_jump, lemma_plain_loop, lemma_plain_unit, plain_ops};
use crate::spelling::{
    all_are, lemma_token_start_rises, lemma_translate_spells, magnitude, reads_as, spelled,
    step_token, token_of, token_start,
};
use crate::translate::{lemma_translate_well_formed, translate_spec, MAX_TOKENS};
use vstd::prelude::*;

verus! {

/// Whether ops of this kind stand for runs of one token.
pub open spec fn is_simple(kind: BfOpKind) -> bool {
    kind == BfOpKind::IncPtr || kind == BfOpKind::DecPtr || kind == BfOpKind::IncData || kind
        == BfOpKind::DecData || kind == BfOpKind::ReadStdin || kind == BfOpKind::WriteStdout
}

/// Whether the `count` ops from `p` on are all one step of the kind `kind`.
pub open spec fn unit_run(ops: Seq<BfOp>, p: int, kind: BfOpKind, count: int) -> bool {
    &&& 0 <= p
    &&& p + count <= ops.len()
    &&& forall|i: int| p <= i < p + count ==> #[trigger] ops[i] == (BfOp { kind, argument: 1 })
}

/// An op with a repeat count does what the op with one repeat less does,
/// followed by one single step.
proof fn lemma_effect_adds(kind: BfOpKind, count: int, m: Machine)
    requires
        is_simple(kind),
        2 <= count <= i32::MAX,
    ensures
        effect(BfOp { kind, argument: count as i32 }, m) == match effect(
            BfOp { kind, argument: (count - 1) as i32 },
            m,
        ) {
            Some(reached) => effect(BfOp { kind, argument: 1 }, reached),
            None => None,
        },
{
    let all = effect(BfOp { kind, argument: count as i32 }, m);
    let most = effect(BfOp { kind, argument: (count - 1) as i32 }, m);
    if kind == BfOpKind::IncPtr || kind == BfOpKind::DecPtr {
        assert(all->0 =~= effect(BfOp { kind, argument: 1 }, most->0)->0);
    } else if m.in_bounds() {
        if kind == BfOpKind::IncData || kind == BfOpKind::DecData {
            assert(all->0 =~= effect(BfOp { kind, argument: 1 }, most->0)->0);
        } else {
            reveal_with_fuel(Machine::after_reads, 2);
            reveal_with_fuel(Machine::after_writes, 2);
            lemma_transfers_keep_place(m, (count - 1) as nat);
            assert(most->0.in_bounds());
        }
    }
}

/// A run of single steps does what one op with the run's length as its
/// repeat count does.
pub proof fn lemma_unit_run(ops: Seq<BfOp>, p: int, kind: BfOpKind, count: int, m: Machine)
    requires
        is_simple(kind),
        1 <= count <= i32::MAX,
        unit_run(ops, p, kind, count),
    ensures
        run(ops, at(p, m), count as nat) == match effect(
            BfOp { kind, argument: count as i32 },
            m,
        ) {
            Some(e) => Some(at(p + count, e)),
            None => None,
        },
    decreases count,
{
    reveal_with_fuel(run, 2);
    if count > 1 {
        lemma_unit_run(ops, p, kind, count - 1, m);
        lemma_effect_adds(kind, count, m);
        let before = run(ops, at(p, m), (count - 1) as nat);
        if before is Some {
            assert(ops[p + count - 1] == BfOp { kind, argument: 1 });
            lemma_run_split(ops, at(p, m), (count - 1) as nat, 1);
        } else {
            lemma_run_stuck(ops, at(p, m), (count - 1) as nat, count as nat);
        }
    } else {
        assert(ops[p] == BfOp { kind, argument: 1 });
    }
}

/// Whether `ops` is a translation of `tokens`: well formed, and spelled by
/// the tokens.
pub open spec fn translates(ops: Seq<BfOp>, tokens: Seq<char>) -> bool {
    &&& tokens.len() <= MAX_TOKENS
    &&& well_formed(ops)
    &&& reads_as(ops, tokens, tokens.len() as int)
}

/// What the plain reading is to come to, from the place of the op at `k`,
/// for the step of the op at `k` to be matched: the place of the op that
/// follows, with the same machine; or nothing where the step has no result.
pub open spec fn matched_step(ops: Seq<BfOp>, k: int, m: Machine) -> Option<Config> {
    match step(ops, at(k, m)) {
        Some(c) => Some(at(token_start(ops, c.pc) as int, c.machine)),
        None => None,
    }
}

/// The tokens of a run do, in the plain reading, what the run's op does.
proof fn lemma_simulate_simple(ops: Seq<BfOp>, tokens: Seq<char>, k: int, m: Machine) -> (steps:
    nat)
    requires
        translates(ops, tokens),
        0 <= k < ops.len(),
        is_simple(ops[k].kind),
    ensures
        steps >= 1,
        run(plain_ops(tokens), at(token_start(ops, k) as int, m), steps) == matched_step(ops, k, m),
{
    let plain = plain_ops(tokens);
    let p = token_start(ops, k) as int;
    let kind = ops[k].kind;
    let count = ops[k].argument as int;
    assert(spelled(ops, tokens, k));
    assert forall|i: int| p <= i < p + count implies #[trigger] plain[i] == (BfOp {
        kind,
        argument: 1,
    }) by {
        assert(tokens[i] == token_of(kind));
        lemma_plain_unit(tokens, i);
    }
    lemma_unit_run(plain, p, kind, count, m);
    count as nat
}

/// A bracket does, in the plain reading, what the jump does that it stands
/// for.
proof fn lemma_simulate_jump(ops: Seq<BfOp>, tokens: Seq<char>, k: int, m: Machine) -> (steps: nat)
    requires
        translates(ops, tokens),
        0 <= k < ops.len(),
        is_open(ops[k]) || is_close(ops[k]),
    ensures
        steps >= 1,
        run(plain_ops(tokens), at(token_start(ops, k) as int, m), steps) == matched_step(ops, k, m),
{
    reveal_with_fuel(run, 2);
    lemma_plain_jump(ops, tokens, k);
    1
}

/// The tokens of a loop that clears the cell do, in the plain reading, what
/// the op does that stands for the loop.
proof fn lemma_simulate_clear(ops: Seq<BfOp>, tokens: Seq<char>, k: int, m: Machine) -> (steps: nat)
    requires
        translates(ops, tokens),
        0 <= k < ops.len(),
        ops[k].kind == BfOpKind::LoopSetToZero,
    ensures
        steps >= 1,
        run(plain_ops(tokens), at(token_start(ops, k) as int, m), steps) == matched_step(ops, k, m),
{
    let plain = plain_ops(tokens);
    let p = token_start(ops, k) as int;
    assert(spelled(ops, tokens, k));
    lemma_plain_loop(tokens, p, p + 3);
    lemma_plain_unit(tokens, p + 1);
    lemma_clear_loop(plain, p, m)
}

/// The kind of op that moves the pointer in the direction of `delta`.
spec fn step_kind(delta: int) -> BfOpKind {
    if delta > 0 {
        BfOpKind::IncPtr
    } else {
        BfOpKind::DecPtr
    }
}

/// Tokens that move the pointer are, in the plain reading, a run of single
/// pointer steps.
proof fn lemma_pointer_run(tokens: Seq<char>, from: int, count: int, delta: int)
    requires
        0 <= from,
        0 <= count,
        from + count <= tokens.len(),
        all_are(tokens, from, from + count, step_token(delta)),
    ensures
        unit_run(plain_ops(tokens), from, step_kind(delta), count),
{
    let plain = plain_ops(tokens);
    assert forall|i: int| from <= i < from + count implies #[trigger] plain[i] == (BfOp {
        kind: step_kind(delta),
        argument: 1,
    }) by {
        assert(tokens[i] == step_token(delta));
        lemma_plain_unit(tokens, i);
    }
}

/// The tokens of a loop that seeks a zero cell do, in the plain reading,
/// what the op does that stands for the loop.
proof fn lemma_simulate_seek(ops: Seq<BfOp>, tokens: Seq<char>, k: int, m: Machine) -> (steps: nat)
    requires
        translates(ops, tokens),
        0 <= k < ops.len(),
        ops[k].kind == BfOpKind::LoopMovePtr,
    ensures
        steps >= 1,
        run(plain_ops(tokens), at(token_start(ops, k) as int, m), steps) == matched_step(ops, k, m),
{
    let plain = plain_ops(tokens);
    let p = token_start(ops, k) as int;
    let delta = ops[k].argument as int;
    let n = magnitude(delta) as int;
    let q = p + n + 2;
    assert(spelled(ops, tokens, k));
    assert forall|i: int| p < i < q - 1 implies #[trigger] tokens[i] != '[' && tokens[i] != ']' by {
        assert(tokens[i] == step_token(delta));
    }
    lemma_plain_loop(tokens, p, q);
    lemma_pointer_run(tokens, p + 1, n, delta);
    assert forall|x: Machine| #[trigger]
        run(plain, at(p + 1, x), n as nat) == Some(at(q - 1, x.moved(delta))) by {
        lemma_unit_run(plain, p + 1, step_kind(delta), n, x);
    }
    lemma_seek_loop(plain, p, q, delta, n as nat, m)
}

/// The tokens of the body of a loop that moves a value over do, in the
/// plain reading, take one from the cell and add it to the target.
proof fn lemma_shift_body(tokens: Seq<char>, p: int, offset: int, n: int, x: Machine)
    requires
        tokens.len() <= MAX_TOKENS,
        0 <= p,
        n == magnitude(offset),
        n >= 1,
        p + 2 * n + 4 <= tokens.len(),
        tokens[p + 1] == '-',
        all_are(tokens, p + 2, p + 2 + n, step_token(offset)),
        tokens[p + 2 + n] == '+',
        all_are(tokens, p + 3 + n, p + 3 + 2 * n, step_token(-offset)),
        x.in_bounds(),
    ensures
        run(plain_ops(tokens), at(p + 1, x), (2 * n + 2) as nat) == if x.reaches(offset) {
            Some(at(p + 3 + 2 * n, shifted(x, offset)))
        } else {
            None
        },
{
    reveal_with_fuel(run, 2);
    let plain = plain_ops(tokens);
    let taken = x.with_cell(x.cell() - 1);
    let away = taken.moved(offset);
    lemma_plain_unit(tokens, p + 1);
    lemma_plain_unit(tokens, p + 2 + n);
    lemma_pointer_run(tokens, p + 2, n, offset);
    lemma_pointer_run(tokens, p + 3 + n, n, -offset);
    assert(run(plain, at(p + 1, x), 1) == Some(at(p + 2, taken)));
    lemma_unit_run(plain, p + 2, step_kind(offset), n, taken);
    assert(run(plain, at(p + 2, taken), n as nat) == Some(at(p + 2 + n, away)));
    lemma_run_split(plain, at(p + 1, x), 1, n as nat);
    assert(run(plain, at(p + 1, x), (1 + n) as nat) == Some(at(p + 2 + n, away)));
    if x.reaches(offset) {
        let given = away.with_cell(away.cell() + 1);
        assert(run(plain, at(p + 2 + n, away), 1) == Some(at(p + 3 + n, given)));
        lemma_unit_run(plain, p + 3 + n, step_kind(-offset), n, given);
        assert(given.moved(-offset) == shifted(x, offset));
        lemma_run_split(plain, at(p + 2 + n, away), 1, n as nat);
        lemma_run_split(plain, at(p + 1, x), (1 + n) as nat, (1 + n) as nat);
    } else {
        assert(run(plain, at(p + 2 + n, away), 1) is None);
        lemma_run_split(plain, at(p + 1, x), (1 + n) as nat, 1);
        lemma_run_stuck(plain, at(p + 1, x), (2 + n) as nat, (2 * n + 2) as nat);
    }
}

/// The tokens of a loop that moves a value over do, in the plain reading,
/// what the op does that stands for the loop.
proof fn lemma_simulate_shift(ops: Seq<BfOp>, tokens: Seq<char>, k: int, m: Machine) -> (steps: nat)
    requires
        translates(ops, tokens),
        0 <= k < ops.len(),
        ops[k].kind == BfOpKind::LoopMoveData,
    ensures
        steps >= 1,
        run(plain_ops(tokens), at(token_start(ops, k) as int, m), steps) == matched_step(ops, k, m),
{
    let plain = plain_ops(tokens);
    let p = token_start(ops, k) as int;
    let offset = ops[k].argument as int;
    let n = magnitude(offset) as int;
    let q = p + 2 * n + 4;
    assert(spelled(ops, tokens, k));
    assert forall|i: int| p < i < q - 1 implies #[trigger] tokens[i] != '[' && tokens[i] != ']' by {
        if p + 2 <= i < p + 2 + n {
            assert(tokens[i] == step_token(offset));
        }
        if p + 3 + n <= i < p + 3 + 2 * n {
            assert(tokens[i] == step_token(-offset));
        }
    }
    lemma_plain_loop(tokens, p, q);
    assert forall|x: Machine| x.in_bounds() implies #[trigger] run(
        plain,
        at(p + 1, x),
        (2 * n + 2) as nat,
    ) == if x.reaches(offset) {
        Some(at(q - 1, shifted(x, offset)))
    } else {
        None
    } by {
        lemma_shift_body(tokens, p, offset, n, x);
    }
    lemma_shift_loop(plain, p, q, offset, (2 * n + 2) as nat, m)
}

/// Every step of the translation is matched by steps of the plain reading:
/// from the place of the op, the plain reading comes to the place of the op
/// that follows, with the same machine, or has no result where the step has
/// none.
pub proof fn lemma_step_simulated(ops: Seq<BfOp>, tokens: Seq<char>, k: int, m: Machine) -> (steps:
    nat)
    requires
        translates(ops, tokens),
        0 <= k < ops.len(),
    ensures
        steps >= 1,
        run(plain_ops(tokens), at(token_start(ops, k) as int, m), steps) == matched_step(ops, k, m),
{
    if is_simple(ops[k].kind) {
        lemma_simulate_simple(ops, tokens, k, m)
    } else if is_open(ops[k]) || is_close(ops[k]) {
        lemma_simulate_jump(ops, tokens, k, m)
    } else if ops[k].kind == BfOpKind::LoopSetToZero {
        lemma_simulate_clear(ops, tokens, k, m)
    } else if ops[k].kind == BfOpKind::LoopMovePtr {
        lemma_simulate_seek(ops, tokens, k, m)
    } else {
        lemma_simulate_shift(ops, tokens, k, m)
    }
}

/// Every op of a translation stands for one token at least, so that the op
/// list and the tokens end together and at no place before.
proof fn lemma_places(ops: Seq<BfOp>, tokens: Seq<char>, k: int)
    requires
        translates(ops, tokens),
        0 <= k <= ops.len(),
    ensures
        token_start(ops, k) <= tokens.len(),
        token_start(ops, k) == tokens.len() <==> k == ops.len(),
{
    lemma_token_start_rises(ops, k, ops.len() as int);
    if k < ops.len() {
        assert(spelled(ops, tokens, k));
        lemma_token_start_rises(ops, k + 1, ops.len() as int);
    }
}

/// A step of a translation leads to an op of the translation, or to its
/// end.
proof fn lemma_step_stays(ops: Seq<BfOp>, k: int, m: Machine)
    requires
        well_formed(ops),
        0 <= k < ops.len(),
    ensures
        step(ops, at(k, m)) matches Some(c) ==> 0 <= c.pc <= ops.len(),
{
    lemma_jump_arguments(ops, k);
}

/// Where the translation comes to its end, the plain reading does.
proof fn lemma_plain_follows(
    ops: Seq<BfOp>,
    tokens: Seq<char>,
    k: int,
    m: Machine,
    end: Machine,
    fuel: nat,
)
    requires
        translates(ops, tokens),
        0 <= k <= ops.len(),
        run(ops, at(k, m), fuel) == Some(at(ops.len() as int, end)),
    ensures
        halts_from(plain_ops(tokens), token_start(ops, k) as int, m, end),
    decreases fuel,
{
    let plain = plain_ops(tokens);
    lemma_places(ops, tokens, k);
    if k == ops.len() {
        lemma_halted(plain, m, end);
    } else {
        let next = step(ops, at(k, m))->0;
        let steps = lemma_step_simulated(ops, tokens, k, m);
        lemma_step_stays(ops, k, m);
        lemma_plain_follows(ops, tokens, next.pc, next.machine, end, (fuel - 1) as nat);
        lemma_halts_after(plain, token_start(ops, k) as int, m, steps, end);
    }
}

/// Where the plain reading comes to its end, the translation does.
proof fn lemma_translation_follows(
    ops: Seq<BfOp>,
    tokens: Seq<char>,
    k: int,
    m: Machine,
    end: Machine,
    fuel: nat,
)
    requires
        translates(ops, tokens),
        0 <= k <= ops.len(),
        run(plain_ops(tokens), at(token_start(ops, k) as int, m), fuel) == Some(
            at(tokens.len() as int, end),
        ),
    ensures
        halts_from(ops, k, m, end),
    decreases fuel,
{
    let plain = plain_ops(tokens);
    let place = at(token_start(ops, k) as int, m);
    lemma_places(ops, tokens, k);
    if k == ops.len() {
        lemma_halted(ops, m, end);
    } else {
        let steps = lemma_step_simulated(ops, tokens, k, m);
        lemma_step_stays(ops, k, m);
        lemma_halts_step(ops, k, m, end);
        match step(ops, at(k, m)) {
            Some(next) => {
                let rest = lemma_halts_sooner(plain, place, steps, fuel, end);
                lemma_translation_follows(ops, tokens, next.pc, next.machine, end, rest);
            },
            None => {
                lemma_stuck(plain, token_start(ops, k) as int, m, end, steps);
            },
        }
    }
}

/// A translation does what the tokens say. An op list that is well formed
/// and that the tokens spell takes each machine to the machine that the
/// plain reading of the tokens takes it to, and has no result where the
/// plain reading has none.
pub proof fn lemma_translation_sound(
    ops: Seq<BfOp>,
    tokens: Seq<char>,
    start: Machine,
    end: Machine,
)
    requires
        translates(ops, tokens),
    ensures
        halts(plain_ops(tokens), start, end) <==> halts(ops, start, end),
{
    let plain = plain_ops(tokens);
    if halts(ops, start, end) {
        let fuel = choose|f: nat| run(ops, at(0, start), f) == Some(at(ops.len() as int, end));
        lemma_plain_follows(ops, tokens, 0, start, end, fuel);
    }
    if halts(plain, start, end) {
        let fuel = choose|f: nat| run(plain, at(0, start), f) == Some(at(plain.len() as int, end));
        lemma_translation_follows(ops, tokens, 0, start, end, fuel);
    }
}

/// Whether `ops` does what `tokens` say: from every machine, `ops` comes to
/// its end with the machine with which the plain reading of `tokens` comes
/// to its end, and does not come to its end where the plain reading does
/// not.
pub open spec fn same_meaning(tokens: Seq<char>, ops: Seq<BfOp>) -> bool {
    forall|start: Machine, end: Machine| #[trigger]
        halts(ops, start, end) <==> halts(plain_ops(tokens), start, end)
}

/// The translator keeps what a program does: whatever it returns for a
/// token sequence takes each machine to the machine that the plain reading
/// of the tokens takes it to, and has no result where the plain reading has
/// none.
pub proof fn lemma_translate_preserves(tokens: Seq<char>, start: Machine, end: Machine)
    ensures
        translate_spec(tokens) matches Ok(ops) ==> (halts(plain_ops(tokens), start, end) <==> halts(
            ops,
            start,
            end,
        )),
{
    if translate_spec(tokens) is Ok {
        lemma_translate_well_formed(tokens);
        lemma_translate_spells(tokens);
        lemma_translation_sound(translate_spec(tokens)->Ok_0, tokens, start, end);
    }
}

/// Whatever the translator returns does what the tokens say.
pub proof fn lemma_translate_meaning(tokens: Seq<char>)
    ensures
        translate_spec(tokens) matches Ok(ops) ==> same_meaning(tokens, ops),
{
    if translate_spec(tokens) is Ok {
        let ops = translate_spec(tokens)->Ok_0;
        assert forall|start: Machine, end: Machine| #[trigger]
            halts(ops, start, end) <==> halts(plain_ops(tokens), start, end) by {
            lemma_translate_preserves(tokens, start, end);
        }
    }
}

} // verus!
