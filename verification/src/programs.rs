//! A few small programs, followed from their text to what their routines
//! do: the program that multiplies eight by eight and writes the product, the
//! program that copies a byte, the program that does nothing, and a program
//! that does not build.

use crate::codegen::{jumps_in_range, lemma_compile_succeeds, loop_span, op_start};
use crate::execution::{lemma_routine_runs, starts_with, tape_fits};
use crate::ir::{is_close, BfOp, BfOpKind};
use crate::machine::{at, halts, lemma_halted, lemma_run_split, run, Machine};
use crate::plain::{lemma_plain_unit, plain_ops};
use crate::processor::{comes_back, Cpu};
use crate::token::filter_tokens;
use crate::translate::{
    generic_loop, lemma_run_length, lemma_translate_well_formed, repeats_behind, translate_from,
    translate_spec, TranslateError,
};
use crate::{build_spec, lemma_build_empty, lemma_build_runs, BuildError};
use vstd::prelude::*;

verus! {

/// The tokens of `++++++++[>++++++++<-]>.`
pub open spec fn multiply_tokens() -> Seq<char> {
    seq![
        '+', '+', '+', '+', '+', '+', '+', '+',
        '[',
        '>',
        '+', '+', '+', '+', '+', '+', '+', '+',
        '<',
        '-',
        ']',
        '>',
        '.',
    ]
}

/// The ops of `++++++++[>++++++++<-]>.`
pub open spec fn multiply_ops() -> Seq<BfOp> {
    seq![
        BfOp { kind: BfOpKind::IncData, argument: 8 },
        BfOp { kind: BfOpKind::JumpIfDataZero, argument: 6 },
        BfOp { kind: BfOpKind::IncPtr, argument: 1 },
        BfOp { kind: BfOpKind::IncData, argument: 8 },
        BfOp { kind: BfOpKind::DecPtr, argument: 1 },
        BfOp { kind: BfOpKind::DecData, argument: 1 },
        BfOp { kind: BfOpKind::JumpIfDataNotZero, argument: 1 },
        BfOp { kind: BfOpKind::IncPtr, argument: 1 },
        BfOp { kind: BfOpKind::WriteStdout, argument: 1 },
    ]
}

/// The translator yields the ops of the program.
pub proof fn lemma_multiply_translates()
    ensures
        translate_spec(multiply_tokens()) == Ok::<Seq<BfOp>, TranslateError>(multiply_ops()),
{
    let tokens = multiply_tokens();
    let ops = multiply_ops();
    let none = Seq::<int>::empty();
    let one = none.push(1);
    lemma_run_length(tokens, 0, 8);
    lemma_run_length(tokens, 9, 10);
    lemma_run_length(tokens, 10, 18);
    lemma_run_length(tokens, 18, 19);
    lemma_run_length(tokens, 19, 20);
    lemma_run_length(tokens, 21, 22);
    lemma_run_length(tokens, 22, 23);
    let o1 = Seq::<BfOp>::empty().push(ops[0]);
    let o2 = o1.push(BfOp { kind: BfOpKind::JumpIfDataZero, argument: 0 });
    let o3 = o2.push(ops[2]);
    let o4 = o3.push(ops[3]);
    let o5 = o4.push(ops[4]);
    let o6 = o5.push(ops[5]);
    let o7 = generic_loop(o6, 1);
    let o8 = o7.push(ops[7]);
    let o9 = o8.push(ops[8]);
    assert(o9 =~= ops);
    assert(translate_from(tokens, 23, o9, none) == Ok::<Seq<BfOp>, TranslateError>(o9));
    assert(translate_from(tokens, 22, o8, none) == translate_from(tokens, 23, o9, none));
    assert(translate_from(tokens, 21, o7, none) == translate_from(tokens, 22, o8, none));
    assert(translate_from(tokens, 20, o6, one) == translate_from(tokens, 21, o7, none)) by {
        assert(o6.subrange(1, 6)[1] == ops[2]);
        assert(one.last() == 1);
        assert(one.drop_last() =~= none);
    }
    assert(translate_from(tokens, 19, o5, one) == translate_from(tokens, 20, o6, one));
    assert(translate_from(tokens, 18, o4, one) == translate_from(tokens, 19, o5, one));
    assert(translate_from(tokens, 10, o3, one) == translate_from(tokens, 18, o4, one));
    assert(translate_from(tokens, 9, o2, one) == translate_from(tokens, 10, o3, one));
    assert(translate_from(tokens, 8, o1, none) == translate_from(tokens, 9, o2, one));
    assert(translate_from(tokens, 0, Seq::empty(), none) == translate_from(tokens, 8, o1, none));
}

/// The machine after the loop of the program has run: the second cell has
/// grown by eight times the first cell, and the first cell is zero.
spec fn multiplied(m: Machine) -> Machine {
    Machine {
        tape: m.tape.update(1, ((m.tape[1] + 8 * m.tape[0]) % 256) as u8).update(0, 0),
        pointer: m.pointer,
        input: m.input,
        output: m.output,
    }
}

/// From inside the loop, the run leaves the loop with the product in the
/// second cell.
proof fn lemma_multiply_loop(m: Machine) -> (steps: nat)
    requires
        m.pointer == 0,
        m.tape.len() >= 2,
        m.tape[0] != 0,
    ensures
        run(multiply_ops(), at(2, m), steps) == Some(at(7, multiplied(m))),
    decreases m.tape[0],
{
    let ops = multiply_ops();
    let next = Machine {
        tape: m.tape.update(1, ((m.tape[1] + 8) % 256) as u8).update(0, (m.tape[0] - 1) as u8),
        pointer: 0,
        input: m.input,
        output: m.output,
    };
    let onward = at(if next.tape[0] != 0 { 2int } else { 7int }, next);
    assert(run(ops, at(2, m), 5) == Some(onward)) by {
        reveal_with_fuel(run, 6);
        let a = m.moved(1);
        let b = a.with_cell(a.cell() + 8);
        let c = b.moved(-1);
        let d = c.with_cell(c.cell() - 1);
        assert(d =~= next);
    }
    if next.tape[0] != 0 {
        let rest = lemma_multiply_loop(next);
        lemma_run_split(ops, at(2, m), 5, rest);
        assert(multiplied(next) =~= multiplied(m));
        5 + rest
    } else {
        assert(next =~= multiplied(m));
        5
    }
}

/// The machine that the program ends with: 64 in the second cell and in the
/// output, and the pointer on the second cell.
pub open spec fn multiply_end(start: Machine) -> Machine {
    Machine {
        tape: start.tape.update(1, 64).update(0, 0),
        pointer: 1,
        input: start.input,
        output: start.output.push(64),
    }
}

/// On a tape whose first two cells are zero, the ops of the program come to
/// their end with 64 written.
pub proof fn lemma_multiply_halts(start: Machine)
    requires
        start.pointer == 0,
        start.tape.len() >= 2,
        start.tape[0] == 0,
        start.tape[1] == 0,
    ensures
        halts(multiply_ops(), start, multiply_end(start)),
{
    let ops = multiply_ops();
    let loaded = start.with_cell(8);
    assert(run(ops, at(0, start), 2) == Some(at(2, loaded))) by {
        reveal_with_fuel(run, 3);
    }
    let steps = lemma_multiply_loop(loaded);
    let product = multiplied(loaded);
    assert(run(ops, at(7, product), 2) == Some(at(9, multiply_end(start)))) by {
        reveal_with_fuel(run, 3);
        reveal_with_fuel(Machine::after_writes, 2);
        let moved = product.moved(1);
        assert(moved.after_writes(1) =~= multiply_end(start));
    }
    lemma_run_split(ops, at(0, start), 2, steps + 2);
    lemma_run_split(ops, at(2, loaded), steps, 2);
    assert(run(ops, at(0, start), 2 + (steps + 2)) == Some(at(9, multiply_end(start))));
}

/// The one loop of the program is short enough for its jumps.
proof fn lemma_multiply_in_range()
    ensures
        jumps_in_range(multiply_ops()),
{
    let ops = multiply_ops();
    assert(op_start(ops, 7) == 61) by {
        reveal_with_fuel(op_start, 8);
    }
    assert forall|j: int| 0 <= j < ops.len() && is_close(#[trigger] ops[j]) implies loop_span(
        ops,
        j,
    ) <= 61 by {
        assert(j == 6);
    }
}

/// The program `++++++++[>++++++++<-]>.` writes exactly one byte, with the
/// value 64: for every text with these instructions, on every tape whose
/// first two cells are zero, its routine comes to its return with 64 added
/// to the output and the input untouched.
pub proof fn lemma_multiply_runs(
    text: Seq<char>,
    tape_base: u64,
    start: Machine,
    cpu: Cpu,
) -> (last: Cpu)
    requires
        filter_tokens(text) == multiply_tokens(),
        tape_fits(tape_base as int, start.tape.len()),
        start.tape.len() >= 2,
        start.tape[0] == 0,
        start.tape[1] == 0,
        start.pointer == 0,
        starts_with(cpu, start),
    ensures
        build_spec(text, tape_base) is Ok,
        comes_back(build_spec(text, tape_base)->Ok_0, tape_base as int, cpu, last),
        last.output == start.output.push(64),
        last.input == start.input,
{
    let ops = multiply_ops();
    lemma_multiply_translates();
    lemma_translate_well_formed(multiply_tokens());
    lemma_multiply_in_range();
    lemma_compile_succeeds(ops, tape_base);
    lemma_multiply_halts(start);
    lemma_routine_runs(ops, tape_base, start, multiply_end(start), cpu)
}

/// A text without instructions does nothing: its routine comes to its return
/// and leaves the tape, the input and the output untouched.
pub proof fn lemma_empty_runs(text: Seq<char>, tape_base: u64, start: Machine, cpu: Cpu) -> (last:
    Cpu)
    requires
        filter_tokens(text).len() == 0,
        tape_fits(tape_base as int, start.tape.len()),
        start.pointer == 0,
        starts_with(cpu, start),
    ensures
        build_spec(text, tape_base) is Ok,
        comes_back(build_spec(text, tape_base)->Ok_0, tape_base as int, cpu, last),
        last.memory == start.tape,
        last.input == start.input,
        last.output == start.output,
{
    lemma_build_empty(text, tape_base);
    assert(plain_ops(filter_tokens(text)) =~= Seq::<BfOp>::empty());
    lemma_halted(Seq::<BfOp>::empty(), start, start);
    lemma_build_runs(text, tape_base, start, start, cpu)
}

/// A text whose instructions are `,` and `.` copies one byte: for every
/// byte that the input starts with, its routine comes to its return with
/// that byte taken from the input and added to the output.
pub proof fn lemma_copy_runs(text: Seq<char>, tape_base: u64, start: Machine, cpu: Cpu) -> (last:
    Cpu)
    requires
        filter_tokens(text) == seq![',', '.'],
        tape_fits(tape_base as int, start.tape.len()),
        start.tape.len() >= 1,
        start.input.len() >= 1,
        start.pointer == 0,
        starts_with(cpu, start),
    ensures
        build_spec(text, tape_base) is Ok,
        comes_back(build_spec(text, tape_base)->Ok_0, tape_base as int, cpu, last),
        last.input == start.input.drop_first(),
        last.output == start.output.push(start.input[0]),
{
    let tokens = filter_tokens(text);
    let plain = plain_ops(tokens);
    let end = start.after_read().after_write();
    lemma_plain_unit(tokens, 0);
    lemma_plain_unit(tokens, 1);
    let read = BfOp { kind: BfOpKind::ReadStdin, argument: 1 };
    let write = BfOp { kind: BfOpKind::WriteStdout, argument: 1 };
    assert(translate_spec(tokens) == Ok::<Seq<BfOp>, TranslateError>(seq![read, write])) by {
        reveal_with_fuel(translate_from, 4);
        reveal_with_fuel(repeats_behind, 2);
        assert(Seq::<BfOp>::empty().push(read).push(write) =~= seq![read, write]);
    }
    lemma_translate_well_formed(tokens);
    lemma_compile_succeeds(seq![read, write], tape_base);
    assert(run(plain, at(0, start), 2) == Some(at(2, end))) by {
        reveal_with_fuel(run, 3);
        reveal_with_fuel(Machine::after_reads, 2);
        reveal_with_fuel(Machine::after_writes, 2);
    }
    lemma_build_runs(text, tape_base, start, end, cpu)
}

/// A text whose only instruction is `[` has no routine: it fails as an
/// unmatched opening, and no code is generated.
pub proof fn lemma_lone_open_fails(text: Seq<char>, tape_base: u64)
    requires
        filter_tokens(text) == seq!['['],
    ensures
        build_spec(text, tape_base) == Err::<Seq<u8>, BuildError>(
            BuildError::Translate(TranslateError::UnmatchedOpen { start: 0 }),
        ),
{
    reveal_with_fuel(translate_from, 3);
}

} // verus!
