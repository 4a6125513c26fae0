//! The instruction translator: one pass over the tokens that folds runs,
//! matches brackets and hands every closed loop to the optimizer.

use crate::ir::{
    depth, is_close, is_open, lemma_close_from, lemma_open_loops, lemma_open_loops_at,
    lemma_open_loops_prefix, lemma_open_or_closed, lemma_still_open, linked, match_close,
    match_open, open_loops, valid_argument, well_formed, BfOp, BfOpKind,
};
use crate::optimize::{optimize_loop, optimize_loop_spec, rewrite};
use crate::preservation::{lemma_translate_meaning, same_meaning};
use crate::spelling::{lemma_translate_spells, reads_as};
use crate::token::is_token;
use vstd::prelude::*;

verus! {

/// Why a token sequence has no translation.
#[derive(Clone, Copy, Debug, PartialEq, Eq, Structural)]
pub enum TranslateError {
    /// The `]` at `position` in the token sequence closes no loop.
    UnmatchedClose { position: usize },
    /// A `[` is never closed. `start` is the index, in the op list built so
    /// far, of the placeholder of the outermost such loop.
    UnmatchedOpen { start: usize },
    /// The character at `position` is not one of the eight instructions.
    InvalidToken { position: usize },
    /// There are more than [`MAX_TOKENS`] tokens.
    TooLong,
}

/// The largest number of tokens that can be translated: counts and indices
/// are kept in an op's 32-bit argument.
pub const MAX_TOKENS: usize = 0x7fff_ffff;

/// The kind of op that a token other than a bracket stands for.
pub open spec fn simple_kind(c: char) -> Option<BfOpKind> {
    if c == '>' {
        Some(BfOpKind::IncPtr)
    } else if c == '<' {
        Some(BfOpKind::DecPtr)
    } else if c == '+' {
        Some(BfOpKind::IncData)
    } else if c == '-' {
        Some(BfOpKind::DecData)
    } else if c == ',' {
        Some(BfOpKind::ReadStdin)
    } else if c == '.' {
        Some(BfOpKind::WriteStdout)
    } else {
        None
    }
}

/// How many of the tokens directly behind `pc` repeat the token at `pc`.
pub open spec fn repeats_behind(tokens: Seq<char>, pc: int) -> nat
    decreases tokens.len() - pc,
{
    if pc + 1 < tokens.len() && tokens[pc + 1] == tokens[pc] {
        1 + repeats_behind(tokens, pc + 1)
    } else {
        0
    }
}

/// The length of the run of equal tokens that starts at `pc`.
pub open spec fn run_length(tokens: Seq<char>, pc: int) -> nat {
    1 + repeats_behind(tokens, pc)
}

/// The op list with the loop whose placeholder stands at `start` closed as
/// it is: the placeholder gets the index of the closing jump, which is
/// appended and carries the placeholder's index.
pub open spec fn generic_loop(ops: Seq<BfOp>, start: int) -> Seq<BfOp> {
    ops.update(start, BfOp { kind: ops[start].kind, argument: ops.len() as i32 }).push(
        BfOp { kind: BfOpKind::JumpIfDataNotZero, argument: start as i32 },
    )
}

/// The op list after the loop whose placeholder stands at `start` has been
/// closed: either the optimizer's replacement stands in place of the whole
/// loop, or the placeholder points to the closing jump that is appended, and
/// that jump points back to the placeholder.
pub open spec fn close_loop(ops: Seq<BfOp>, start: int) -> Seq<BfOp> {
    let replacement = optimize_loop_spec(ops, start);
    if replacement.len() > 0 {
        ops.subrange(0, start) + replacement
    } else {
        generic_loop(ops, start)
    }
}

/// What the translator makes of the tokens at `pc` and behind, given the ops
/// built so far and the placeholders of the loops that are still open,
/// outermost first.
pub open spec fn translate_from(tokens: Seq<char>, pc: int, ops: Seq<BfOp>, pending: Seq<int>)
    -> Result<Seq<BfOp>, TranslateError>
    decreases tokens.len() - pc,
    via translate_from_terminates
{
    if pc >= tokens.len() {
        if pending.len() > 0 {
            Err(TranslateError::UnmatchedOpen { start: pending[0] as usize })
        } else {
            Ok(ops)
        }
    } else if tokens[pc] == '[' {
        translate_from(
            tokens,
            pc + 1,
            ops.push(BfOp { kind: BfOpKind::JumpIfDataZero, argument: 0 }),
            pending.push(ops.len() as int),
        )
    } else if tokens[pc] == ']' {
        if pending.len() == 0 {
            Err(TranslateError::UnmatchedClose { position: pc as usize })
        } else {
            translate_from(tokens, pc + 1, close_loop(ops, pending.last()), pending.drop_last())
        }
    } else {
        match simple_kind(tokens[pc]) {
            Some(kind) => translate_from(
                tokens,
                pc + run_length(tokens, pc),
                ops.push(BfOp { kind, argument: run_length(tokens, pc) as i32 }),
                pending,
            ),
            None => Err(TranslateError::InvalidToken { position: pc as usize }),
        }
    }
}

#[via_fn]
proof fn translate_from_terminates(
    tokens: Seq<char>,
    pc: int,
    ops: Seq<BfOp>,
    pending: Seq<int>,
) {
    if pc < tokens.len() {
        lemma_run_ends(tokens, pc);
    }
}

/// What [`translate`] returns for `tokens`.
pub open spec fn translate_spec(tokens: Seq<char>) -> Result<Seq<BfOp>, TranslateError> {
    if tokens.len() > MAX_TOKENS {
        Err(TranslateError::TooLong)
    } else {
        translate_from(tokens, 0, Seq::empty(), Seq::empty())
    }
}

/// A run ends within the token sequence.
pub proof fn lemma_run_ends(tokens: Seq<char>, pc: int)
    requires
        pc < tokens.len(),
    ensures
        pc + run_length(tokens, pc) <= tokens.len(),
    decreases tokens.len() - pc,
{
    if pc + 1 < tokens.len() && tokens[pc + 1] == tokens[pc] {
        lemma_run_ends(tokens, pc + 1);
    }
}

/// A run that starts at `pc` and holds equal tokens up to `end`, where it
/// stops, has the length `end - pc`.
pub proof fn lemma_run_length(tokens: Seq<char>, pc: int, end: int)
    requires
        0 <= pc < end <= tokens.len(),
        forall|k: int| pc <= k < end ==> #[trigger] tokens[k] == tokens[pc],
        end == tokens.len() || tokens[end] != tokens[pc],
    ensures
        run_length(tokens, pc) == end - pc,
    decreases end - pc,
{
    if pc + 1 < end {
        lemma_run_length(tokens, pc + 1, end);
    }
}

/// The entries of `v` as mathematical integers.
pub open spec fn as_ints(v: Seq<usize>) -> Seq<int> {
    v.map_values(|i: usize| i as int)
}

/// Executable form of [`simple_kind`].
fn kind_of(c: char) -> (kind: Option<BfOpKind>)
    ensures
        kind == simple_kind(c),
{
    if c == '>' {
        Some(BfOpKind::IncPtr)
    } else if c == '<' {
        Some(BfOpKind::DecPtr)
    } else if c == '+' {
        Some(BfOpKind::IncData)
    } else if c == '-' {
        Some(BfOpKind::DecData)
    } else if c == ',' {
        Some(BfOpKind::ReadStdin)
    } else if c == '.' {
        Some(BfOpKind::WriteStdout)
    } else {
        None
    }
}

/// Translates a token sequence into an op list.
///
/// Runs of one token other than a bracket become one op with the run's
/// length as its argument. Each `[` becomes a placeholder jump; at its `]`
/// the loop is either replaced by the optimizer's single op or closed by a
/// jump back, with the two jumps pointing at each other.
pub fn translate(insts: &[char]) -> (res: Result<Vec<BfOp>, TranslateError>)
    ensures
        match res {
            Ok(ops) => translate_spec(insts@) == Ok::<Seq<BfOp>, TranslateError>(ops@),
            Err(e) => translate_spec(insts@) == Err::<Seq<BfOp>, TranslateError>(e),
        },
        res is Ok <==> insts@.len() <= MAX_TOKENS && all_tokens(insts@) && well_nested(insts@),
        res matches Ok(ops) ==> well_formed(ops@),
        is_run(insts@) ==> (res matches Ok(ops) && ops@ == seq![run_op(insts@)]),
        res matches Ok(ops) ==> reads_as(ops@, insts@, insts@.len() as int),
        res matches Ok(ops) ==> same_meaning(insts@, ops@),
{
    proof {
        lemma_translate_succeeds(insts@);
        lemma_translate_well_formed(insts@);
        lemma_translate_spells(insts@);
        lemma_translate_meaning(insts@);
        if is_run(insts@) {
            lemma_run_folds(insts@);
        }
    }
    let program_size = insts.len();
    if program_size > MAX_TOKENS {
        return Err(TranslateError::TooLong);
    }
    let mut res: Vec<BfOp> = Vec::new();
    let mut loop_stack: Vec<usize> = Vec::new();
    let mut pc: usize = 0;
    assert(as_ints(loop_stack@) =~= Seq::<int>::empty());
    while pc < program_size
        invariant
            program_size == insts@.len(),
            program_size <= MAX_TOKENS,
            pc <= program_size,
            res@.len() <= pc,
            forall|t: int| 0 <= t < loop_stack@.len() ==> (#[trigger] loop_stack@[t]) < res@.len(),
            forall|s: int, t: int|
                0 <= s < t < loop_stack@.len() ==> (#[trigger] loop_stack@[s])
                    < (#[trigger] loop_stack@[t]),
            translate_from(insts@, pc as int, res@, as_ints(loop_stack@))
                == translate_spec(insts@),
            translate_spec(insts@) is Ok <==> all_tokens(insts@) && well_nested(insts@),
            is_run(insts@) ==> translate_spec(insts@) == Ok::<Seq<BfOp>, TranslateError>(
                seq![run_op(insts@)],
            ),
            translate_spec(insts@) matches Ok(ops) ==> well_formed(ops),
            translate_spec(insts@) matches Ok(ops) ==> reads_as(ops, insts@, insts@.len() as int),
            translate_spec(insts@) matches Ok(ops) ==> same_meaning(insts@, ops),
        decreases program_size - pc,
    {
        let inst = insts[pc];
        let ghost pending = as_ints(loop_stack@);
        if inst == '[' {
            loop_stack.push(res.len());
            res.push(BfOp { kind: BfOpKind::JumpIfDataZero, argument: 0 });
            pc += 1;
            assert(as_ints(loop_stack@) =~= pending.push(
                res@.len() - 1,
            ));
        } else if inst == ']' {
            match loop_stack.pop() {
                None => {
                    return Err(TranslateError::UnmatchedClose { position: pc });
                },
                Some(offset) => {
                    assert(offset as int == pending.last());
                    assert(as_ints(loop_stack@) =~= pending.drop_last());
                    let ghost before = res@;
                    let optimized_ops = optimize_loop(res.as_slice(), offset);
                    if optimized_ops.len() == 0 {
                        let end = res.len();
                        let opening = BfOp { kind: res[offset].kind, argument: end as i32 };
                        res.set(offset, opening);
                        res.push(
                            BfOp { kind: BfOpKind::JumpIfDataNotZero, argument: offset as i32 },
                        );
                    } else {
                        res.truncate(offset);
                        res.push(optimized_ops[0]);
                        assert(optimized_ops@ =~= seq![optimized_ops@[0]]);
                    }
                    assert(res@ =~= close_loop(before, offset as int));
                    pc += 1;
                },
            }
        } else {
            match kind_of(inst) {
                None => {
                    return Err(TranslateError::InvalidToken { position: pc });
                },
                Some(kind) => {
                    let mut end: usize = pc + 1;
                    while end < program_size && insts[end] == inst
                        invariant
                            program_size == insts@.len(),
                            pc < end <= program_size,
                            inst == insts@[pc as int],
                            forall|k: int| pc <= k < end ==> insts@[k] == inst,
                        decreases program_size - end,
                    {
                        end += 1;
                    }
                    proof {
                        lemma_run_length(insts@, pc as int, end as int);
                    }
                    let num_repeats = end - pc;
                    res.push(BfOp { kind, argument: num_repeats as i32 });
                    pc = end;
                },
            }
        }
    }
    if loop_stack.len() > 0 {
        return Err(TranslateError::UnmatchedOpen { start: loop_stack[0] });
    }
    Ok(res)
}

/// Whether the closing at `j` and the opening that it matches name each
/// other.
pub open spec fn paired(ops: Seq<BfOp>, j: int) -> bool {
    &&& depth(ops, j) > 0
    &&& ops[j].argument == match_open(ops, j)
    &&& ops[match_open(ops, j)].argument == j
}

/// What holds of the translator's state between two tokens: `pending` lists
/// the loops that are open, every closing is paired with its opening, and
/// every argument is valid.
pub open spec fn consistent(ops: Seq<BfOp>, pending: Seq<int>) -> bool {
    &&& ops.len() <= MAX_TOKENS
    &&& pending == open_loops(ops, ops.len() as int)
    &&& forall|j: int| 0 <= j < ops.len() && is_close(ops[j]) ==> #[trigger] paired(ops, j)
    &&& forall|k: int| 0 <= k < ops.len() ==> valid_argument(#[trigger] ops[k])
}

/// A closing that is paired stays paired when ops in front of it keep their
/// kind, and it and its opening stay as they are.
proof fn lemma_paired_carries(ops: Seq<BfOp>, next: Seq<BfOp>, j: int)
    requires
        0 <= j < ops.len(),
        j < next.len(),
        is_close(ops[j]),
        paired(ops, j),
        forall|k: int| 0 <= k < j ==> (#[trigger] ops[k]).kind == next[k].kind,
        next[j] == ops[j],
        next[match_open(ops, j)].argument == ops[match_open(ops, j)].argument,
    ensures
        paired(next, j),
{
    lemma_open_loops_prefix(ops, next, j);
}

/// Appending an op that closes no loop keeps the state consistent.
pub proof fn lemma_step_push(ops: Seq<BfOp>, pending: Seq<int>, op: BfOp)
    requires
        consistent(ops, pending),
        ops.len() < MAX_TOKENS,
        !is_close(op),
        valid_argument(op),
    ensures
        consistent(
            ops.push(op),
            if is_open(op) {
                pending.push(ops.len() as int)
            } else {
                pending
            },
        ),
{
    let next = ops.push(op);
    lemma_open_loops_prefix(ops, next, ops.len() as int);
    assert forall|j: int| 0 <= j < next.len() && is_close(next[j]) implies #[trigger] paired(
        next,
        j,
    ) by {
        assert(paired(ops, j));
        lemma_open_loops(ops, j);
        lemma_paired_carries(ops, next, j);
    }
}

/// Closing the innermost open loop keeps the state consistent.
pub proof fn lemma_step_close(ops: Seq<BfOp>, pending: Seq<int>)
    requires
        consistent(ops, pending),
        ops.len() < MAX_TOKENS,
        pending.len() > 0,
    ensures
        consistent(close_loop(ops, pending.last()), pending.drop_last()),
        close_loop(ops, pending.last()).len() <= ops.len() + 1,
{
    let len = ops.len() as int;
    let start = pending.last();
    let t = pending.len() - 1;
    let next = close_loop(ops, start);
    lemma_open_loops(ops, len);
    assert(start == open_loops(ops, len)[t]);
    match rewrite(ops.subrange(start, len)) {
        Some(op) => {
            assert(next =~= ops.subrange(0, start).push(op));
            lemma_open_loops_prefix(ops, next, start);
            lemma_open_loops_at(ops, len, t);
            assert(pending.take(t) =~= pending.drop_last());
            assert(ops.subrange(start, len)[1] == ops[start + 1]);
            if len - start == 5 {
                assert(ops.subrange(start, len)[2] == ops[start + 2]);
            }
            assert(valid_argument(op));
            assert forall|j: int|
                0 <= j < next.len() && is_close(next[j]) implies #[trigger] paired(next, j) by {
                assert(paired(ops, j));
                lemma_open_loops(ops, j);
                lemma_paired_carries(ops, next, j);
            }
        },
        None => {
            lemma_open_loops_prefix(ops, next, len);
            assert forall|j: int|
                0 <= j < next.len() && is_close(next[j]) implies #[trigger] paired(next, j) by {
                if j < len {
                    assert(paired(ops, j));
                    lemma_open_loops(ops, j);
                    if start < j {
                        lemma_still_open(ops, len, t, j);
                    }
                    lemma_paired_carries(ops, next, j);
                }
            }
        },
    }
}

/// With no loop open, a consistent op list is well formed.
proof fn lemma_consistent_done(ops: Seq<BfOp>)
    requires
        consistent(ops, Seq::empty()),
    ensures
        well_formed(ops),
{
    let len = ops.len() as int;
    assert forall|j: int| 0 <= j < len && is_close(#[trigger] ops[j]) implies depth(ops, j) > 0 by {
        assert(paired(ops, j));
    }
    assert forall|k: int| 0 <= k < len implies #[trigger] linked(ops, k) by {
        if is_close(ops[k]) {
            assert(paired(ops, k));
        }
        if is_open(ops[k]) {
            lemma_open_or_closed(ops, k, len);
            lemma_close_from(ops, k, k + 1);
            assert(paired(ops, match_close(ops, k)));
        }
    }
}

/// Whatever the translator returns from a consistent state is well formed.
proof fn lemma_translate_from_well_formed(
    tokens: Seq<char>,
    pc: int,
    ops: Seq<BfOp>,
    pending: Seq<int>,
)
    requires
        tokens.len() <= MAX_TOKENS,
        0 <= pc <= tokens.len(),
        ops.len() <= pc,
        consistent(ops, pending),
    ensures
        translate_from(tokens, pc, ops, pending) matches Ok(r) ==> well_formed(r),
    decreases tokens.len() - pc,
{
    if pc >= tokens.len() {
        if pending.len() == 0 {
            assert(pending =~= Seq::empty());
            lemma_consistent_done(ops);
        }
    } else if tokens[pc] == '[' {
        let op = BfOp { kind: BfOpKind::JumpIfDataZero, argument: 0 };
        lemma_step_push(ops, pending, op);
        lemma_translate_from_well_formed(
            tokens,
            pc + 1,
            ops.push(op),
            pending.push(ops.len() as int),
        );
    } else if tokens[pc] == ']' {
        if pending.len() > 0 {
            lemma_step_close(ops, pending);
            lemma_translate_from_well_formed(
                tokens,
                pc + 1,
                close_loop(ops, pending.last()),
                pending.drop_last(),
            );
        }
    } else {
        match simple_kind(tokens[pc]) {
            Some(kind) => {
                let op = BfOp { kind, argument: run_length(tokens, pc) as i32 };
                lemma_run_ends(tokens, pc);
                lemma_step_push(ops, pending, op);
                lemma_translate_from_well_formed(
                    tokens,
                    pc + run_length(tokens, pc),
                    ops.push(op),
                    pending,
                );
            },
            None => {},
        }
    }
}

/// Every op list that the translation yields is well formed: its loops are
/// balanced, the two jumps of each loop name each other, and every repeat
/// count is at least one.
pub proof fn lemma_translate_well_formed(tokens: Seq<char>)
    ensures
        translate_spec(tokens) matches Ok(ops) ==> well_formed(ops),
{
    if tokens.len() <= MAX_TOKENS {
        lemma_translate_from_well_formed(tokens, 0, Seq::empty(), Seq::empty());
    }
}

/// The number of `[` less the number of `]` among the first `n` tokens.
pub open spec fn nesting(tokens: Seq<char>, n: int) -> int
    decreases n,
{
    if n <= 0 {
        0
    } else if tokens[n - 1] == '[' {
        nesting(tokens, n - 1) + 1
    } else if tokens[n - 1] == ']' {
        nesting(tokens, n - 1) - 1
    } else {
        nesting(tokens, n - 1)
    }
}

/// Whether every character of `tokens` is one of the eight instructions.
pub open spec fn all_tokens(tokens: Seq<char>) -> bool {
    forall|k: int| 0 <= k < tokens.len() ==> is_token(#[trigger] tokens[k])
}

/// Whether the brackets of `tokens` nest: no `]` comes without a `[` open,
/// and at the end none is left open.
pub open spec fn well_nested(tokens: Seq<char>) -> bool {
    &&& forall|n: int| 0 <= n <= tokens.len() ==> #[trigger] nesting(tokens, n) >= 0
    &&& nesting(tokens, tokens.len() as int) == 0
}

/// Whether the translator stops at the token at `k`: it is no instruction,
/// or it is a `]` where no loop is open.
pub open spec fn faulty(tokens: Seq<char>, k: int) -> bool {
    !is_token(tokens[k]) || (tokens[k] == ']' && nesting(tokens, k) <= 0)
}

/// Whether the translator stops at none of the tokens from `from` up to
/// `to`.
pub open spec fn clean(tokens: Seq<char>, from: int, to: int) -> bool {
    forall|k: int| from <= k < to ==> !#[trigger] faulty(tokens, k)
}

/// All tokens of a run are the token that it starts with.
pub proof fn lemma_run_tokens(tokens: Seq<char>, pc: int, k: int)
    requires
        0 <= pc < tokens.len(),
        pc <= k < pc + run_length(tokens, pc),
    ensures
        k < tokens.len(),
        tokens[k] == tokens[pc],
    decreases tokens.len() - pc,
{
    if k > pc {
        lemma_run_tokens(tokens, pc + 1, k);
    }
}

/// Tokens other than brackets leave the nesting as it is.
pub proof fn lemma_nesting_flat(tokens: Seq<char>, from: int, to: int)
    requires
        0 <= from <= to,
        forall|k: int| from <= k < to ==> #[trigger] tokens[k] != '[' && tokens[k] != ']',
    ensures
        nesting(tokens, to) == nesting(tokens, from),
    decreases to - from,
{
    if from < to {
        lemma_nesting_flat(tokens, from, to - 1);
    }
}

/// Where no token is faulty, the nesting never falls below zero.
pub proof fn lemma_clean_nesting(tokens: Seq<char>, n: int)
    requires
        0 <= n <= tokens.len(),
        clean(tokens, 0, n),
    ensures
        nesting(tokens, n) >= 0,
    decreases n,
{
    if n > 0 {
        lemma_clean_nesting(tokens, n - 1);
        assert(!faulty(tokens, n - 1));
    }
}

/// What the translator returns for the tokens at `pc` and behind, told by
/// the tokens alone.
proof fn lemma_translate_from_outcome(
    tokens: Seq<char>,
    pc: int,
    ops: Seq<BfOp>,
    pending: Seq<int>,
)
    requires
        0 <= pc <= tokens.len() <= usize::MAX,
        pending.len() == nesting(tokens, pc),
    ensures
        match translate_from(tokens, pc, ops, pending) {
            Ok(_) => clean(tokens, pc, tokens.len() as int) && nesting(
                tokens,
                tokens.len() as int,
            ) == 0,
            Err(TranslateError::UnmatchedClose { position }) => pc <= position < tokens.len()
                && tokens[position as int] == ']' && nesting(tokens, position as int) == 0
                && clean(tokens, pc, position as int),
            Err(TranslateError::InvalidToken { position }) => pc <= position < tokens.len()
                && !is_token(tokens[position as int]) && clean(tokens, pc, position as int),
            Err(TranslateError::UnmatchedOpen { .. }) => clean(tokens, pc, tokens.len() as int)
                && nesting(tokens, tokens.len() as int) > 0,
            Err(TranslateError::TooLong) => false,
        },
    decreases tokens.len() - pc,
{
    if pc >= tokens.len() {
    } else if tokens[pc] == '[' {
        let next = ops.push(BfOp { kind: BfOpKind::JumpIfDataZero, argument: 0 });
        lemma_translate_from_outcome(tokens, pc + 1, next, pending.push(ops.len() as int));
        assert(!faulty(tokens, pc));
    } else if tokens[pc] == ']' {
        if pending.len() > 0 {
            lemma_translate_from_outcome(
                tokens,
                pc + 1,
                close_loop(ops, pending.last()),
                pending.drop_last(),
            );
            assert(!faulty(tokens, pc));
        }
    } else {
        match simple_kind(tokens[pc]) {
            Some(kind) => {
                let end = pc + run_length(tokens, pc);
                let op = BfOp { kind, argument: run_length(tokens, pc) as i32 };
                lemma_run_ends(tokens, pc);
                assert forall|k: int| pc <= k < end implies tokens[k] == tokens[pc] by {
                    lemma_run_tokens(tokens, pc, k);
                }
                lemma_nesting_flat(tokens, pc, end);
                lemma_translate_from_outcome(tokens, end, ops.push(op), pending);
                assert forall|k: int| pc <= k < end implies !#[trigger] faulty(tokens, k) by {
                    assert(tokens[k] == tokens[pc]);
                }
            },
            None => {},
        }
    }
}

/// What the translation returns, told by the tokens alone. It succeeds
/// where every token is an instruction and the brackets nest. It fails at
/// the first token that is no instruction or is a `]` with no loop open, and
/// names that token's position; where there is no such token, it fails if a
/// `[` is left open at the end.
pub proof fn lemma_translate_outcome(tokens: Seq<char>)
    requires
        tokens.len() <= MAX_TOKENS,
    ensures
        match translate_spec(tokens) {
            Ok(_) => all_tokens(tokens) && well_nested(tokens),
            Err(TranslateError::UnmatchedClose { position }) => position < tokens.len()
                && tokens[position as int] == ']' && nesting(tokens, position as int) == 0
                && clean(tokens, 0, position as int),
            Err(TranslateError::InvalidToken { position }) => position < tokens.len() && !is_token(
                tokens[position as int],
            ) && clean(tokens, 0, position as int),
            Err(TranslateError::UnmatchedOpen { .. }) => clean(tokens, 0, tokens.len() as int)
                && nesting(tokens, tokens.len() as int) > 0,
            Err(TranslateError::TooLong) => false,
        },
{
    lemma_translate_from_outcome(tokens, 0, Seq::empty(), Seq::empty());
    if translate_spec(tokens) is Ok {
        assert forall|k: int| 0 <= k < tokens.len() implies is_token(#[trigger] tokens[k]) by {
            assert(!faulty(tokens, k));
        }
        assert forall|n: int| 0 <= n <= tokens.len() implies #[trigger] nesting(tokens, n)
            >= 0 by {
            lemma_clean_nesting(tokens, n);
        }
    }
}

/// The translation succeeds exactly where there are not too many tokens,
/// every token is an instruction, and the brackets nest.
pub proof fn lemma_translate_succeeds(tokens: Seq<char>)
    ensures
        translate_spec(tokens) is Ok <==> tokens.len() <= MAX_TOKENS && all_tokens(tokens)
            && well_nested(tokens),
{
    if tokens.len() <= MAX_TOKENS {
        lemma_translate_outcome(tokens);
        if all_tokens(tokens) && well_nested(tokens) {
            match translate_spec(tokens) {
                Err(TranslateError::UnmatchedClose { position }) => {
                    assert(nesting(tokens, position as int + 1) >= 0);
                },
                _ => {},
            }
        }
    }
}

/// Whether `tokens` is one run: one token other than a bracket, one or more
/// times.
pub open spec fn is_run(tokens: Seq<char>) -> bool {
    &&& 1 <= tokens.len() <= MAX_TOKENS
    &&& simple_kind(tokens[0]) is Some
    &&& forall|k: int| 0 <= k < tokens.len() ==> #[trigger] tokens[k] == tokens[0]
}

/// The op that stands for the run `tokens`: the token's kind, with the
/// run's length as its argument.
pub open spec fn run_op(tokens: Seq<char>) -> BfOp {
    BfOp { kind: simple_kind(tokens[0])->0, argument: tokens.len() as i32 }
}

/// A run of one token other than a bracket becomes one op of the token's
/// kind, with the run's length as its argument.
pub proof fn lemma_run_folds(tokens: Seq<char>)
    requires
        is_run(tokens),
    ensures
        translate_spec(tokens) == Ok::<Seq<BfOp>, TranslateError>(seq![run_op(tokens)]),
{
    let len = tokens.len() as int;
    lemma_run_length(tokens, 0, len);
    let op = run_op(tokens);
    assert(Seq::<BfOp>::empty().push(op) =~= seq![op]);
    assert(translate_from(tokens, len, seq![op], Seq::empty()) == Ok::<
        Seq<BfOp>,
        TranslateError,
    >(seq![op]));
}

} // verus!
