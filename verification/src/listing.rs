//! The routine as instructions: which instructions the bytes of each op
//! are.

use crate::code::le_bytes;
use crate::codegen::{
    adjust_register, epilogue, jump_if_not_zero, jump_if_zero, plain_code, prologue, repeated,
    test_cell, transfer_byte,
};
use crate::ir::{is_close, is_open, repeats, BfOp, BfOpKind};
use crate::processor::{encoding, Instruction};
use vstd::prelude::*;

verus! {

/// The bytes of the instructions of `program`, one behind the other.
pub open spec fn assemble(program: Seq<Instruction>) -> Seq<u8>
    decreases program.len(),
{
    if program.len() == 0 {
        Seq::empty()
    } else {
        assemble(program.drop_last()) + encoding(program.last())
    }
}

/// `times` copies of `program`, one behind the other.
pub open spec fn repeat(program: Seq<Instruction>, times: nat) -> Seq<Instruction>
    decreases times,
{
    if times == 0 {
        Seq::empty()
    } else {
        repeat(program, (times - 1) as nat) + program
    }
}

/// The instruction that adds `delta` to the pointer register, or to the
/// target register: an addition, or for a negative `delta` the subtraction
/// of its magnitude, except the one value whose magnitude has no immediate.
pub open spec fn adjust(target: bool, delta: i32) -> Instruction {
    if delta >= 0 || delta == i32::MIN {
        if target {
            Instruction::AddTarget { delta: delta as int }
        } else {
            Instruction::AddPointer { delta: delta as int }
        }
    } else {
        if target {
            Instruction::SubTarget { delta: -delta }
        } else {
            Instruction::SubPointer { delta: -delta }
        }
    }
}

/// The system call that transfers the current cell: call `number` on
/// channel `channel`, with the current cell as the buffer and a length of
/// one.
pub open spec fn transfer(number: u8, channel: u8) -> Seq<Instruction> {
    seq![
        Instruction::SetCall { number: number as int },
        Instruction::SetChannel { number: channel as int },
        Instruction::CopyPointerToBuffer,
        Instruction::SetLength { number: 1 },
        Instruction::SystemCall,
    ]
}

/// The instructions of an op that is no jump.
pub open spec fn listing(op: BfOp) -> Seq<Instruction> {
    match op.kind {
        BfOpKind::IncPtr => seq![Instruction::AddPointer { delta: op.argument as int }],
        BfOpKind::DecPtr => seq![Instruction::SubPointer { delta: op.argument as int }],
        BfOpKind::IncData => seq![Instruction::AddCell { value: (op.argument % 256) as int }],
        BfOpKind::DecData => seq![Instruction::SubCell { value: (op.argument % 256) as int }],
        BfOpKind::ReadStdin => repeat(transfer(0, 0), repeats(op.argument)),
        BfOpKind::WriteStdout => repeat(transfer(1, 1), repeats(op.argument)),
        BfOpKind::LoopSetToZero => seq![Instruction::StoreCell { value: 0 }],
        BfOpKind::LoopMovePtr => seq![
            Instruction::TestCell { value: 0 },
            Instruction::JumpIfZero { displacement: 18 },
            adjust(false, op.argument),
            Instruction::TestCell { value: 0 },
            Instruction::JumpIfNotZero { displacement: -18 },
        ],
        BfOpKind::LoopMoveData => seq![
            Instruction::TestCell { value: 0 },
            Instruction::JumpIfZero { displacement: 23 },
            Instruction::CopyPointerToTarget,
            adjust(true, op.argument),
            Instruction::LoadCell,
            Instruction::AddToTarget,
            Instruction::StoreCell { value: 0 },
        ],
        _ => Seq::empty(),
    }
}

/// The instructions of a loop's opening: test the current cell, and jump
/// over the loop if it is zero.
pub open spec fn opening(displacement: int) -> Seq<Instruction> {
    seq![Instruction::TestCell { value: 0 }, Instruction::JumpIfZero { displacement }]
}

/// The instructions of a loop's closing: test the current cell, and jump
/// back into the loop if it is not zero.
pub open spec fn closing(displacement: int) -> Seq<Instruction> {
    seq![Instruction::TestCell { value: 0 }, Instruction::JumpIfNotZero { displacement }]
}

/// The bytes of two programs, one behind the other, are the bytes of the
/// one behind the bytes of the other.
pub proof fn lemma_assemble_concat(first: Seq<Instruction>, second: Seq<Instruction>)
    ensures
        assemble(first + second) == assemble(first) + assemble(second),
    decreases second.len(),
{
    if second.len() == 0 {
        assert(first + second =~= first);
        assert(assemble(first) + assemble(second) =~= assemble(first));
    } else {
        lemma_assemble_concat(first, second.drop_last());
        assert((first + second).drop_last() =~= first + second.drop_last());
        assert(assemble(first + second) =~= assemble(first) + assemble(second));
    }
}

/// The bytes of a program with one more instruction are the bytes of the
/// program with the bytes of the instruction behind them.
pub proof fn lemma_assemble_push(program: Seq<Instruction>, i: Instruction)
    ensures
        assemble(program.push(i)) == assemble(program) + encoding(i),
{
    assert(program.push(i).drop_last() =~= program);
}

/// The bytes of a program of up to seven instructions are the bytes of its
/// instructions, one behind the other.
proof fn lemma_assemble_short(program: Seq<Instruction>)
    requires
        program.len() <= 7,
    ensures
        program.len() == 1 ==> assemble(program) == encoding(program[0]),
        program.len() == 2 ==> assemble(program) == encoding(program[0]) + encoding(program[1]),
        program.len() == 5 ==> assemble(program) == encoding(program[0]) + encoding(program[1])
            + encoding(program[2]) + encoding(program[3]) + encoding(program[4]),
        program.len() == 7 ==> assemble(program) == encoding(program[0]) + encoding(program[1])
            + encoding(program[2]) + encoding(program[3]) + encoding(program[4]) + encoding(
            program[5],
        ) + encoding(program[6]),
{
    let none = Seq::<Instruction>::empty();
    if program.len() >= 1 {
        let p1 = none.push(program[0]);
        lemma_assemble_push(none, program[0]);
        assert(assemble(p1) =~= encoding(program[0]));
        if program.len() == 1 {
            assert(program =~= p1);
        }
        if program.len() >= 2 {
            let p2 = p1.push(program[1]);
            lemma_assemble_push(p1, program[1]);
            if program.len() == 2 {
                assert(program =~= p2);
            }
            if program.len() >= 5 {
                let p3 = p2.push(program[2]);
                let p4 = p3.push(program[3]);
                let p5 = p4.push(program[4]);
                lemma_assemble_push(p2, program[2]);
                lemma_assemble_push(p3, program[3]);
                lemma_assemble_push(p4, program[4]);
                if program.len() == 5 {
                    assert(program =~= p5);
                }
                if program.len() == 7 {
                    let p6 = p5.push(program[5]);
                    let p7 = p6.push(program[6]);
                    lemma_assemble_push(p5, program[5]);
                    lemma_assemble_push(p6, program[6]);
                    assert(program =~= p7);
                }
            }
        }
    }
}

/// The bytes of one transfer are the bytes of its five instructions.
pub proof fn lemma_transfer_listing(number: u8, channel: u8)
    requires
        number <= 1,
        channel <= 1,
    ensures
        transfer_byte(number, channel) == assemble(transfer(number, channel)),
{
    reveal_with_fuel(le_bytes, 5);
    lemma_assemble_short(transfer(number, channel));
    assert(transfer_byte(number, channel) =~= assemble(transfer(number, channel)));
}

/// The bytes of transfers, one behind the other, are the bytes of their
/// instructions.
pub proof fn lemma_transfers_listing(number: u8, channel: u8, times: nat)
    requires
        number <= 1,
        channel <= 1,
    ensures
        repeated(transfer_byte(number, channel), times) == assemble(
            repeat(transfer(number, channel), times),
        ),
    decreases times,
{
    if times > 0 {
        lemma_transfers_listing(number, channel, (times - 1) as nat);
        lemma_transfer_listing(number, channel);
        lemma_assemble_concat(
            repeat(transfer(number, channel), (times - 1) as nat),
            transfer(number, channel),
        );
    }
}

/// The bytes that adjust a register are the bytes of one instruction.
pub proof fn lemma_adjust_listing(target: bool, delta: i32)
    ensures
        encoding(adjust(target, delta)) == if target {
            adjust_register(0xC6, 0xEE, delta)
        } else {
            adjust_register(0xC5, 0xED, delta)
        },
{
}

/// The code of an op that is no jump is the bytes of the op's instructions.
pub proof fn lemma_listing(op: BfOp)
    requires
        !is_open(op),
        !is_close(op),
    ensures
        plain_code(op) == assemble(listing(op)),
{
    match op.kind {
        BfOpKind::ReadStdin => {
            lemma_transfers_listing(0, 0, repeats(op.argument));
        },
        BfOpKind::WriteStdout => {
            lemma_transfers_listing(1, 1, repeats(op.argument));
        },
        BfOpKind::LoopMovePtr => {
            lemma_adjust_listing(false, op.argument);
            lemma_assemble_short(listing(op));
            assert(plain_code(op) =~= assemble(listing(op)));
        },
        BfOpKind::LoopMoveData => {
            lemma_adjust_listing(true, op.argument);
            lemma_assemble_short(listing(op));
            assert(plain_code(op) =~= assemble(listing(op)));
        },
        _ => {
            lemma_assemble_short(listing(op));
            assert(plain_code(op) =~= assemble(listing(op)));
        },
    }
}

/// The code of a jump is a test of the current cell and a jump on its
/// outcome; the routine starts by loading the tape's address and ends with
/// the return.
pub proof fn lemma_frame_listing(displacement: int, tape_base: u64)
    ensures
        test_cell() + jump_if_zero(displacement) == assemble(opening(displacement)),
        test_cell() + jump_if_not_zero(displacement) == assemble(closing(displacement)),
        prologue(tape_base) == assemble(
            seq![Instruction::LoadPointer { address: tape_base as int }],
        ),
        epilogue() == assemble(seq![Instruction::Return]),
{
    lemma_assemble_short(opening(displacement));
    lemma_assemble_short(closing(displacement));
    lemma_assemble_short(seq![Instruction::LoadPointer { address: tape_base as int }]);
    lemma_assemble_short(seq![Instruction::Return]);
    assert(test_cell() + jump_if_zero(displacement) =~= assemble(opening(displacement)));
    assert(test_cell() + jump_if_not_zero(displacement) =~= assemble(closing(displacement)));
}

} // verus!
