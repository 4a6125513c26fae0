//! The intermediate representation: a flat list of ops, and the nesting
//! structure that its two jump ops give it.

use vstd::prelude::*;

verus! {

/// What an op does.
#[derive(Clone, Copy, Debug, PartialEq, Eq, Structural)]
pub enum BfOpKind {
    /// Move the tape pointer up by the argument.
    IncPtr,
    /// Move the tape pointer down by the argument.
    DecPtr,
    /// Add the argument to the current cell, modulo 256.
    IncData,
    /// Subtract the argument from the current cell, modulo 256.
    DecData,
    /// Read one byte into the current cell, as often as the argument says.
    ReadStdin,
    /// Write the current cell as one byte, as often as the argument says.
    WriteStdout,
    /// Store zero into the current cell.
    LoopSetToZero,
    /// Add the argument to the pointer until the current cell is zero.
    LoopMovePtr,
    /// Add the current cell into the cell at the argument's distance, then
    /// clear the current cell.
    LoopMoveData,
    /// Loop opening: skip to the op after the matching closing when the
    /// current cell is zero. The argument is the closing's index.
    JumpIfDataZero,
    /// Loop closing: go back to the op after the matching opening when the
    /// current cell is not zero. The argument is the opening's index.
    JumpIfDataNotZero,
}

/// One op: a kind and an integer argument.
#[derive(Clone, Copy, Debug, PartialEq, Eq, Structural)]
pub struct BfOp {
    pub kind: BfOpKind,
    pub argument: i32,
}

/// How often an op with the repeat count `n` is carried out.
pub open spec fn repeats(n: i32) -> nat {
    if n > 0 {
        n as nat
    } else {
        0
    }
}

/// Whether `op` opens a loop.
pub open spec fn is_open(op: BfOp) -> bool {
    op.kind == BfOpKind::JumpIfDataZero
}

/// Whether `op` closes a loop.
pub open spec fn is_close(op: BfOp) -> bool {
    op.kind == BfOpKind::JumpIfDataNotZero
}

/// The indices of the loop openings among the first `n` ops that no closing
/// among them has matched yet, outermost first. A closing met at depth zero
/// matches nothing and leaves the list as it is.
pub open spec fn open_loops(ops: Seq<BfOp>, n: int) -> Seq<int>
    decreases n,
{
    if n <= 0 {
        Seq::empty()
    } else {
        let before = open_loops(ops, n - 1);
        if is_open(ops[n - 1]) {
            before.push(n - 1)
        } else if is_close(ops[n - 1]) && before.len() > 0 {
            before.drop_last()
        } else {
            before
        }
    }
}

/// The nesting depth in front of op `n`.
pub open spec fn depth(ops: Seq<BfOp>, n: int) -> nat {
    open_loops(ops, n).len()
}

/// Whether op `j` is a closing that has an opening to match.
pub open spec fn is_matched_close(ops: Seq<BfOp>, j: int) -> bool {
    0 <= j < ops.len() && is_close(ops[j]) && depth(ops, j) > 0
}

/// The opening that the closing at `j` matches: the innermost loop open
/// in front of it.
pub open spec fn match_open(ops: Seq<BfOp>, j: int) -> int {
    open_loops(ops, j).last()
}

/// The first index from `k` on that is a closing matching the opening at
/// `i`, or the length of `ops` if there is none.
pub open spec fn close_from(ops: Seq<BfOp>, i: int, k: int) -> int
    decreases ops.len() - k,
{
    if k >= ops.len() {
        ops.len() as int
    } else if is_matched_close(ops, k) && match_open(ops, k) == i {
        k
    } else {
        close_from(ops, i, k + 1)
    }
}

/// The closing that matches the opening at `i`, or the length of `ops` if
/// the loop is never closed.
pub open spec fn match_close(ops: Seq<BfOp>, i: int) -> int {
    close_from(ops, i, i + 1)
}

/// Every closing has an opening to match, and every opening is closed.
pub open spec fn balanced(ops: Seq<BfOp>) -> bool {
    &&& forall|j: int| 0 <= j < ops.len() && is_close(#[trigger] ops[j]) ==> depth(ops, j) > 0
    &&& depth(ops, ops.len() as int) == 0
}

/// Whether the argument of `op` is one that an op of its kind can carry: a
/// repeat count is at least one, and the distance of a pointer or data move
/// is not zero. The argument of a jump is not judged here.
pub open spec fn valid_argument(op: BfOp) -> bool {
    match op.kind {
        BfOpKind::IncPtr
        | BfOpKind::DecPtr
        | BfOpKind::IncData
        | BfOpKind::DecData
        | BfOpKind::ReadStdin
        | BfOpKind::WriteStdout => op.argument >= 1,
        BfOpKind::LoopMovePtr | BfOpKind::LoopMoveData => op.argument != 0,
        _ => true,
    }
}

/// Whether the op at `k`, if it is a jump, carries the index of the jump that
/// it is matched with.
pub open spec fn linked(ops: Seq<BfOp>, k: int) -> bool {
    &&& is_open(ops[k]) ==> ops[k].argument == match_close(ops, k)
    &&& is_close(ops[k]) ==> ops[k].argument == match_open(ops, k)
}

/// What holds of an op list that the translator has finished: its loops are
/// balanced, each jump names the jump that it is matched with, and every
/// other argument is valid.
pub open spec fn well_formed(ops: Seq<BfOp>) -> bool {
    &&& balanced(ops)
    &&& forall|k: int| 0 <= k < ops.len() ==> #[trigger] linked(ops, k)
    &&& forall|k: int| 0 <= k < ops.len() ==> valid_argument(#[trigger] ops[k])
}

/// The list of open loops holds indices of loop openings, in rising order.
pub proof fn lemma_open_loops(ops: Seq<BfOp>, n: int)
    requires
        0 <= n <= ops.len(),
    ensures
        forall|t: int|
            0 <= t < depth(ops, n) ==> 0 <= #[trigger] open_loops(ops, n)[t] < n && is_open(
                ops[open_loops(ops, n)[t]],
            ),
        forall|s: int, t: int|
            0 <= s < t < depth(ops, n) ==> #[trigger] open_loops(ops, n)[s] < #[trigger] open_loops(
                ops,
                n,
            )[t],
    decreases n,
{
    if n > 0 {
        lemma_open_loops(ops, n - 1);
        let before = open_loops(ops, n - 1);
        let now = open_loops(ops, n);
        assert forall|t: int| 0 <= t < now.len() implies 0 <= #[trigger] now[t] < n && is_open(
            ops[now[t]],
        ) && (t < before.len() ==> now[t] == before[t]) by {
            if t < before.len() {
                assert(now[t] == before[t]);
            }
        }
        assert forall|s: int, t: int| 0 <= s < t < now.len() implies #[trigger] now[s]
            < #[trigger] now[t] by {
            assert(now[s] == before[s]);
            if t < before.len() {
                assert(now[t] == before[t]);
            }
        }
    }
}

/// A loop that is open in front of op `n` has been open, at the same depth,
/// ever since its opening: in front of every op `k` between the two.
pub proof fn lemma_open_since(ops: Seq<BfOp>, n: int, t: int, k: int)
    requires
        0 <= n <= ops.len(),
        0 <= t < depth(ops, n),
        open_loops(ops, n)[t] < k <= n,
    ensures
        t < depth(ops, k),
        open_loops(ops, k)[t] == open_loops(ops, n)[t],
    decreases n,
{
    if k < n {
        let before = open_loops(ops, n - 1);
        if is_open(ops[n - 1]) {
            assert(open_loops(ops, n) == before.push(n - 1));
        } else if is_close(ops[n - 1]) && before.len() > 0 {
            assert(open_loops(ops, n) == before.drop_last());
        }
        lemma_open_since(ops, n - 1, t, k);
    }
}

/// What [`close_from`] finds, if anything, is a closing that matches `i`, and
/// no index that it passed over is one.
pub proof fn lemma_close_from(ops: Seq<BfOp>, i: int, k: int)
    requires
        0 <= k <= ops.len(),
    ensures
        k <= close_from(ops, i, k) <= ops.len(),
        close_from(ops, i, k) < ops.len() ==> is_matched_close(ops, close_from(ops, i, k))
            && match_open(ops, close_from(ops, i, k)) == i,
        forall|c: int|
            k <= c < close_from(ops, i, k) ==> !(#[trigger] is_matched_close(ops, c) && match_open(
                ops,
                c,
            ) == i),
    decreases ops.len() - k,
{
    if k < ops.len() && !(is_matched_close(ops, k) && match_open(ops, k) == i) {
        lemma_close_from(ops, i, k + 1);
    }
}

/// A closing and the opening it matches belong together: the opening lies in
/// front of it, and the closing is the one that matches the opening.
pub proof fn lemma_match(ops: Seq<BfOp>, j: int)
    requires
        is_matched_close(ops, j),
    ensures
        0 <= match_open(ops, j) < j,
        is_open(ops[match_open(ops, j)]),
        match_close(ops, match_open(ops, j)) == j,
{
    let i = match_open(ops, j);
    let t = depth(ops, j) - 1;
    lemma_open_loops(ops, j);
    assert(i == open_loops(ops, j)[t]);
    lemma_close_from(ops, i, i + 1);
    let c = match_close(ops, i);
    if c < j {
        // An earlier closing that matched `i` would have ended the loop.
        lemma_open_since(ops, j, t, c);
        lemma_open_since(ops, j, t, c + 1);
        lemma_open_loops(ops, c);
        assert(open_loops(ops, c)[depth(ops, c) - 1] == i);
        assert(depth(ops, c) == t + 1);
        assert(open_loops(ops, c + 1) == open_loops(ops, c).drop_last());
    }
}

/// An opening has at most one closing: if the closing at `j` matches `i`,
/// it is the closing that [`match_close`] names.
pub proof fn lemma_match_close_unique(ops: Seq<BfOp>, i: int, j: int)
    requires
        is_matched_close(ops, j),
        match_open(ops, j) == i,
    ensures
        match_close(ops, i) == j,
{
    lemma_match(ops, j);
}

/// The loops open in front of op `n` depend only on the kinds of the ops in
/// front of it.
pub proof fn lemma_open_loops_prefix(a: Seq<BfOp>, b: Seq<BfOp>, n: int)
    requires
        0 <= n <= a.len(),
        n <= b.len(),
        forall|k: int| 0 <= k < n ==> (#[trigger] a[k]).kind == b[k].kind,
    ensures
        open_loops(a, n) == open_loops(b, n),
    decreases n,
{
    if n > 0 {
        lemma_open_loops_prefix(a, b, n - 1);
        assert(a[n - 1].kind == b[n - 1].kind);
    }
}

/// In front of a loop's opening, the loops open are those that enclose it.
pub proof fn lemma_open_loops_at(ops: Seq<BfOp>, n: int, t: int)
    requires
        0 <= n <= ops.len(),
        0 <= t < depth(ops, n),
    ensures
        open_loops(ops, open_loops(ops, n)[t]) == open_loops(ops, n).take(t),
{
    let now = open_loops(ops, n);
    let i = now[t];
    lemma_open_loops(ops, n);
    lemma_open_since(ops, n, t, i + 1);
    lemma_open_loops(ops, i + 1);
    let inner = open_loops(ops, i + 1);
    assert(inner == open_loops(ops, i).push(i));
    assert(inner[inner.len() - 1] == i);
    assert(inner.len() == t + 1);
    assert forall|s: int| 0 <= s < t implies open_loops(ops, i)[s] == now[s] by {
        lemma_open_since(ops, n, s, i);
    }
    assert(open_loops(ops, i) =~= now.take(t));
}

/// No closing between a loop's opening and an op in front of which the loop
/// is still open matches that opening.
pub proof fn lemma_still_open(ops: Seq<BfOp>, n: int, t: int, j: int)
    requires
        0 <= n <= ops.len(),
        0 <= t < depth(ops, n),
        open_loops(ops, n)[t] < j < n,
        is_matched_close(ops, j),
    ensures
        match_open(ops, j) != open_loops(ops, n)[t],
{
    let i = open_loops(ops, n)[t];
    if match_open(ops, j) == i {
        lemma_open_since(ops, n, t, j);
        lemma_open_since(ops, n, t, j + 1);
        lemma_open_loops(ops, j);
        assert(open_loops(ops, j)[depth(ops, j) - 1] == i);
        assert(depth(ops, j) == t + 1);
        assert(open_loops(ops, j + 1) == open_loops(ops, j).drop_last());
    }
}

/// In front of any later op, a loop is either still open or has been closed.
pub proof fn lemma_open_or_closed(ops: Seq<BfOp>, i: int, n: int)
    requires
        0 <= i < n <= ops.len(),
        is_open(ops[i]),
    ensures
        open_loops(ops, n).contains(i) || match_close(ops, i) < n,
    decreases n,
{
    if n == i + 1 {
        assert(open_loops(ops, n) == open_loops(ops, i).push(i));
        assert(open_loops(ops, n)[depth(ops, i) as int] == i);
    } else {
        lemma_open_or_closed(ops, i, n - 1);
        let before = open_loops(ops, n - 1);
        if match_close(ops, i) >= n - 1 {
            let t = choose|t: int| 0 <= t < before.len() && before[t] == i;
            if is_open(ops[n - 1]) {
                assert(open_loops(ops, n)[t] == i);
            } else if is_close(ops[n - 1]) && before.len() > 0 {
                if t == before.len() - 1 {
                    lemma_match_close_unique(ops, i, n - 1);
                } else {
                    assert(open_loops(ops, n)[t] == i);
                }
            }
        }
    }
}

/// In a well-formed op list the two jumps of a loop name each other, the
/// opening in front of the closing.
pub proof fn lemma_jump_arguments(ops: Seq<BfOp>, k: int)
    requires
        well_formed(ops),
        0 <= k < ops.len(),
    ensures
        is_open(ops[k]) ==> k < ops[k].argument < ops.len() && is_close(
            ops[ops[k].argument as int],
        ) && ops[ops[k].argument as int].argument == k,
        is_close(ops[k]) ==> 0 <= ops[k].argument < k && is_open(ops[ops[k].argument as int])
            && ops[ops[k].argument as int].argument == k,
{
    assert(linked(ops, k));
    if is_open(ops[k]) {
        lemma_open_or_closed(ops, k, ops.len() as int);
        lemma_close_from(ops, k, k + 1);
        assert(linked(ops, match_close(ops, k)));
    }
    if is_close(ops[k]) {
        assert(depth(ops, k) > 0);
        lemma_match(ops, k);
        assert(linked(ops, match_open(ops, k)));
    }
}

} // verus!
