//! What an op list means: an abstract machine with a tape of bytes, a
//! pointer into it, and one input and one output channel, that runs the ops
//! one step at a time.
//!
//! The machine is the model against which the translator and the code
//! generator are held. It reads and writes cells only inside the tape; a
//! step that would touch a cell outside it has no result.

use crate::ir::{repeats, BfOp, BfOpKind};
use vstd::prelude::*;

verus! {

/// The machine's state.
#[verifier::ext_equal]
pub struct Machine {
    /// The cells.
    pub tape: Seq<u8>,
    /// The index of the current cell; it may leave the tape.
    pub pointer: int,
    /// The bytes not yet read.
    pub input: Seq<u8>,
    /// The bytes written so far.
    pub output: Seq<u8>,
}

impl Machine {
    /// Whether the pointer is on the tape.
    pub open spec fn in_bounds(self) -> bool {
        0 <= self.pointer < self.tape.len()
    }

    /// Whether the cell at `offset` from the pointer is on the tape.
    pub open spec fn reaches(self, offset: int) -> bool {
        0 <= self.pointer + offset < self.tape.len()
    }

    /// The current cell.
    pub open spec fn cell(self) -> u8 {
        self.tape[self.pointer]
    }

    /// The machine with `value`, modulo 256, in the current cell.
    pub open spec fn with_cell(self, value: int) -> Machine {
        Machine {
            tape: self.tape.update(self.pointer, (value % 256) as u8),
            pointer: self.pointer,
            input: self.input,
            output: self.output,
        }
    }

    /// The machine with the pointer moved by `delta`.
    pub open spec fn moved(self, delta: int) -> Machine {
        Machine {
            tape: self.tape,
            pointer: self.pointer + delta,
            input: self.input,
            output: self.output,
        }
    }

    /// How far the pointer is from the tape's edge in the direction of
    /// `delta`.
    pub open spec fn room(self, delta: int) -> int {
        if !self.in_bounds() {
            0
        } else if delta > 0 {
            self.tape.len() - self.pointer
        } else {
            self.pointer + 1
        }
    }

    /// The machine with the pointer on the first cell that holds zero among
    /// the current cell and the cells that follow it in steps of `delta`.
    /// There is no result if the pointer leaves the tape before it comes to
    /// such a cell, or if it does not move at all.
    pub open spec fn seek(self, delta: int) -> Option<Machine>
        decreases self.room(delta),
    {
        if !self.in_bounds() {
            None
        } else if self.cell() == 0 {
            Some(self)
        } else if delta == 0 {
            None
        } else {
            self.moved(delta).seek(delta)
        }
    }

    /// The machine with the pointer moved `hops` times by `delta`.
    pub open spec fn hopped(self, hops: int, delta: int) -> Machine {
        self.moved(hops * delta)
    }

    /// The machine after one byte of input has gone into the current cell.
    /// At the end of the input nothing arrives and the cell stays.
    pub open spec fn after_read(self) -> Machine {
        if self.input.len() > 0 {
            Machine {
                tape: self.tape.update(self.pointer, self.input[0]),
                pointer: self.pointer,
                input: self.input.drop_first(),
                output: self.output,
            }
        } else {
            self
        }
    }

    /// The machine after the current cell has been written out.
    pub open spec fn after_write(self) -> Machine {
        Machine {
            tape: self.tape,
            pointer: self.pointer,
            input: self.input,
            output: self.output.push(self.cell()),
        }
    }

    /// The machine after `times` reads into the current cell.
    pub open spec fn after_reads(self, times: nat) -> Machine
        decreases times,
    {
        if times == 0 {
            self
        } else {
            self.after_reads((times - 1) as nat).after_read()
        }
    }

    /// The machine after `times` writes of the current cell.
    pub open spec fn after_writes(self, times: nat) -> Machine
        decreases times,
    {
        if times == 0 {
            self
        } else {
            self.after_writes((times - 1) as nat).after_write()
        }
    }

    /// The machine after the current cell has been added, modulo 256, into
    /// the cell at `offset` from it, and then cleared.
    pub open spec fn data_moved(self, offset: int) -> Machine {
        let target = self.pointer + offset;
        Machine {
            tape: self.tape.update(
                target,
                ((self.tape[target] + self.cell()) % 256) as u8,
            ).update(self.pointer, 0),
            pointer: self.pointer,
            input: self.input,
            output: self.output,
        }
    }
}

/// A machine about to run the op at `pc`.
#[verifier::ext_equal]
pub struct Config {
    pub pc: int,
    pub machine: Machine,
}

/// The machine `m` in front of the op at `pc`.
pub open spec fn at(pc: int, m: Machine) -> Config {
    Config { pc, machine: m }
}

/// What `op` does to the machine. A jump leaves it as it is. There is no
/// result where the op needs a cell that is not on the tape; only a pointer
/// move needs none.
pub open spec fn effect(op: BfOp, m: Machine) -> Option<Machine> {
    let n = op.argument as int;
    match op.kind {
        BfOpKind::IncPtr => Some(m.moved(n)),
        BfOpKind::DecPtr => Some(m.moved(-n)),
        _ => if !m.in_bounds() {
            None
        } else {
            match op.kind {
                BfOpKind::IncData => Some(m.with_cell(m.cell() + n)),
                BfOpKind::DecData => Some(m.with_cell(m.cell() - n)),
                BfOpKind::ReadStdin => Some(m.after_reads(repeats(op.argument))),
                BfOpKind::WriteStdout => Some(m.after_writes(repeats(op.argument))),
                BfOpKind::LoopSetToZero => Some(m.with_cell(0)),
                BfOpKind::LoopMovePtr => m.seek(n),
                BfOpKind::LoopMoveData => if m.cell() == 0 {
                    Some(m)
                } else if m.reaches(n) {
                    Some(m.data_moved(n))
                } else {
                    None
                },
                _ => Some(m),
            }
        },
    }
}

/// The index of the op that follows the op `op` at `pc`: for a jump that is
/// taken, the op behind the jump that its argument names; else the next op.
pub open spec fn successor(op: BfOp, pc: int, m: Machine) -> int {
    match op.kind {
        BfOpKind::JumpIfDataZero => if m.cell() == 0 {
            op.argument + 1
        } else {
            pc + 1
        },
        BfOpKind::JumpIfDataNotZero => if m.cell() != 0 {
            op.argument + 1
        } else {
            pc + 1
        },
        _ => pc + 1,
    }
}

/// One step: the machine runs the op at `c.pc`.
pub open spec fn step(ops: Seq<BfOp>, c: Config) -> Option<Config> {
    match effect(ops[c.pc], c.machine) {
        Some(m) => Some(at(successor(ops[c.pc], c.pc, c.machine), m)),
        None => None,
    }
}

/// Up to `fuel` steps from `c`. The run stops for good in front of the end
/// of `ops`; it has no result where a step has none or leaves `ops`.
pub open spec fn run(ops: Seq<BfOp>, c: Config, fuel: nat) -> Option<Config>
    decreases fuel,
{
    if c.pc == ops.len() || fuel == 0 {
        Some(c)
    } else if c.pc < 0 || c.pc > ops.len() {
        None
    } else {
        match step(ops, c) {
            Some(next) => run(ops, next, (fuel - 1) as nat),
            None => None,
        }
    }
}

/// Whether the run of `ops` that starts in front of op `pc` with the machine
/// `start` comes to the end of `ops` with the machine `end`.
pub open spec fn halts_from(ops: Seq<BfOp>, pc: int, start: Machine, end: Machine) -> bool {
    exists|fuel: nat| run(ops, at(pc, start), fuel) == Some(at(ops.len() as int, end))
}

/// Whether `ops`, run from its first op with the machine `start`, comes to
/// its end with the machine `end`.
pub open spec fn halts(ops: Seq<BfOp>, start: Machine, end: Machine) -> bool {
    halts_from(ops, 0, start, end)
}

/// A run that has come to the end stays there.
pub proof fn lemma_run_more(ops: Seq<BfOp>, c: Config, fuel: nat, more: nat)
    requires
        run(ops, c, fuel) matches Some(h) && h.pc == ops.len(),
        fuel <= more,
    ensures
        run(ops, c, more) == run(ops, c, fuel),
    decreases fuel,
{
    if c.pc != ops.len() && fuel > 0 {
        lemma_run_more(ops, step(ops, c)->0, (fuel - 1) as nat, (more - 1) as nat);
    }
}

/// A run ends in one machine at most.
pub proof fn lemma_halts_unique(ops: Seq<BfOp>, pc: int, start: Machine, a: Machine, b: Machine)
    requires
        halts_from(ops, pc, start, a),
        halts_from(ops, pc, start, b),
    ensures
        a == b,
{
    let fa = choose|fuel: nat| run(ops, at(pc, start), fuel) == Some(at(ops.len() as int, a));
    let fb = choose|fuel: nat| run(ops, at(pc, start), fuel) == Some(at(ops.len() as int, b));
    if fa <= fb {
        lemma_run_more(ops, at(pc, start), fa, fb);
    } else {
        lemma_run_more(ops, at(pc, start), fb, fa);
    }
}

/// At the end of `ops` the run is over: it ends with the machine it has.
pub proof fn lemma_halted(ops: Seq<BfOp>, start: Machine, end: Machine)
    ensures
        halts_from(ops, ops.len() as int, start, end) <==> start == end,
{
    if start == end {
        assert(run(ops, at(ops.len() as int, start), 0) == Some(at(ops.len() as int, end)));
    }
}

/// In front of an op, the run ends as the run from the next configuration
/// does; it does not end where the step has no result.
pub proof fn lemma_halts_step(ops: Seq<BfOp>, pc: int, start: Machine, end: Machine)
    requires
        0 <= pc < ops.len(),
    ensures
        halts_from(ops, pc, start, end) <==> (step(ops, at(pc, start)) matches Some(next)
            && halts_from(ops, next.pc, next.machine, end)),
{
    let c = at(pc, start);
    let h = Some(at(ops.len() as int, end));
    if halts_from(ops, pc, start, end) {
        let fuel = choose|fuel: nat| run(ops, c, fuel) == h;
        let next = step(ops, c)->0;
        assert(run(ops, at(next.pc, next.machine), (fuel - 1) as nat) == h);
    }
    if step(ops, c) is Some {
        let next = step(ops, c)->0;
        if halts_from(ops, next.pc, next.machine, end) {
            let fuel = choose|fuel: nat| run(ops, at(next.pc, next.machine), fuel) == h;
            assert(run(ops, c, fuel + 1) == h);
        }
    }
}

/// Running some steps and then some more is running them all at once.
pub proof fn lemma_run_split(ops: Seq<BfOp>, c: Config, first: nat, then: nat)
    requires
        run(ops, c, first) is Some,
    ensures
        run(ops, c, first + then) == run(ops, run(ops, c, first)->0, then),
    decreases first,
{
    if c.pc != ops.len() && first > 0 {
        lemma_run_split(ops, step(ops, c)->0, (first - 1) as nat, then);
    }
}

/// A run that has lost its result does not get one with more steps.
pub proof fn lemma_run_stuck(ops: Seq<BfOp>, c: Config, fuel: nat, more: nat)
    requires
        run(ops, c, fuel) is None,
        fuel <= more,
    ensures
        run(ops, c, more) is None,
    decreases fuel,
{
    if c.pc != ops.len() && fuel > 0 && 0 <= c.pc < ops.len() && step(ops, c) is Some {
        lemma_run_stuck(ops, step(ops, c)->0, (fuel - 1) as nat, (more - 1) as nat);
    }
}

/// A run that loses its result never comes to the end.
pub proof fn lemma_stuck(ops: Seq<BfOp>, pc: int, start: Machine, end: Machine, fuel: nat)
    requires
        run(ops, at(pc, start), fuel) is None,
    ensures
        !halts_from(ops, pc, start, end),
{
    if halts_from(ops, pc, start, end) {
        let done = choose|f: nat| run(ops, at(pc, start), f) == Some(at(ops.len() as int, end));
        if done <= fuel {
            lemma_run_more(ops, at(pc, start), done, fuel);
        } else {
            lemma_run_stuck(ops, at(pc, start), fuel, done);
        }
    }
}

/// A run ends as the run from any configuration that it comes through.
pub proof fn lemma_halts_after(ops: Seq<BfOp>, pc: int, start: Machine, fuel: nat, end: Machine)
    requires
        run(ops, at(pc, start), fuel) is Some,
    ensures
        halts_from(ops, pc, start, end) <==> halts_from(
            ops,
            run(ops, at(pc, start), fuel)->0.pc,
            run(ops, at(pc, start), fuel)->0.machine,
            end,
        ),
{
    let c = at(pc, start);
    let via = run(ops, c, fuel)->0;
    let h = Some(at(ops.len() as int, end));
    assert(via == at(via.pc, via.machine));
    if halts_from(ops, pc, start, end) {
        let done = choose|f: nat| run(ops, c, f) == h;
        if done >= fuel {
            lemma_run_split(ops, c, fuel, (done - fuel) as nat);
            assert(run(ops, at(via.pc, via.machine), (done - fuel) as nat) == h);
        } else {
            lemma_run_more(ops, c, done, fuel);
            assert(run(ops, at(via.pc, via.machine), 0) == h);
        }
    }
    if halts_from(ops, via.pc, via.machine, end) {
        let rest = choose|f: nat| run(ops, at(via.pc, via.machine), f) == h;
        lemma_run_split(ops, c, fuel, rest);
        assert(run(ops, c, fuel + rest) == h);
    }
}

/// A run that comes to the end through another configuration comes to the
/// end sooner from there.
pub proof fn lemma_halts_sooner(ops: Seq<BfOp>, c: Config, steps: nat, fuel: nat, end: Machine)
    -> (rest: nat)
    requires
        steps >= 1,
        c.pc != ops.len(),
        run(ops, c, steps) is Some,
        run(ops, c, fuel) == Some(at(ops.len() as int, end)),
    ensures
        rest < fuel,
        run(ops, run(ops, c, steps)->0, rest) == Some(at(ops.len() as int, end)),
{
    if fuel >= steps {
        lemma_run_split(ops, c, steps, (fuel - steps) as nat);
        (fuel - steps) as nat
    } else {
        lemma_run_more(ops, c, fuel, steps);
        0
    }
}

/// Reads and writes leave the pointer where it is and the tape as long as
/// it is.
pub proof fn lemma_transfers_keep_place(m: Machine, times: nat)
    requires
        m.in_bounds(),
    ensures
        m.after_reads(times).pointer == m.pointer,
        m.after_reads(times).tape.len() == m.tape.len(),
        m.after_writes(times).pointer == m.pointer,
        m.after_writes(times).tape == m.tape,
    decreases times,
{
    if times > 0 {
        lemma_transfers_keep_place(m, (times - 1) as nat);
    }
}

/// The search for a zero cell changes nothing but the pointer.
pub proof fn lemma_seek_keeps_tape(m: Machine, delta: int)
    ensures
        m.seek(delta) matches Some(found) ==> found.tape == m.tape && found.input == m.input
            && found.output == m.output && found.in_bounds() && found.cell() == 0,
    decreases m.room(delta),
{
    if m.in_bounds() && m.cell() != 0 && delta != 0 {
        lemma_seek_keeps_tape(m.moved(delta), delta);
    }
}

/// No op makes the tape longer or shorter.
pub proof fn lemma_effect_keeps_length(op: BfOp, m: Machine)
    ensures
        effect(op, m) matches Some(after) ==> after.tape.len() == m.tape.len(),
{
    if m.in_bounds() {
        lemma_transfers_keep_place(m, repeats(op.argument));
        lemma_seek_keeps_tape(m, op.argument as int);
    }
}

} // verus!
