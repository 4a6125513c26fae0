//! The routine does what the ops do: on the model of the processor, the
//! machine code of a well-formed op list runs from its first byte to its
//! return, and leaves the tape, the input and the output as the ops leave
//! them.

use crate::code::{le_bytes, lemma_le_bytes_len, wrap32};
use crate::codegen::{
    adjust_register, compile_spec, jump_if_not_zero, jump_if_zero, jumps_in_range, lemma_body_len,
    lemma_code_layout, lemma_compile_succeeds, lemma_jump_targets, lemma_op_code_len,
    lemma_op_start_rises, lemma_transfers_len, loop_span, machine_code, op_code, op_size, op_start,
    plain_code, repeated, test_cell, transfer_byte, MAX_DISPLACEMENT,
};
use crate::ir::{
    is_close, is_open, lemma_jump_arguments, linked, repeats, well_formed, BfOp, BfOpKind,
};
use crate::listing::{adjust, transfer};
use crate::machine::{
    at, effect, halts, lemma_effect_keeps_length, lemma_transfers_keep_place, run, step, Machine,
};
use crate::processor::{
    at_return, comes_back, encodable, encoding, executes, fits32, has_bytes, lemma_decode,
    lemma_executes_split, lemma_has_part, perform, width, wrap64, Cpu, Instruction,
};
use vstd::prelude::*;

verus! {

/// Whether a tape of `cells` cells that starts at `base` lies within the
/// addresses that a register can hold.
pub open spec fn tape_fits(base: int, cells: nat) -> bool {
    0 <= base && base + cells <= 0x1_0000_0000_0000_0000
}

/// Whether the processor holds the machine: the tape as its memory, the
/// same input and output, and the pointer, as an address, in `r13`.
pub open spec fn represents(cpu: Cpu, m: Machine, base: int) -> bool {
    &&& cpu.memory == m.tape
    &&& cpu.input == m.input
    &&& cpu.output == m.output
    &&& cpu.r13 == wrap64(base + m.pointer)
}

/// The processor behind the instruction `i`, which stands at `cpu.pc`.
pub open spec fn behind(i: Instruction, base: int, cpu: Cpu) -> Option<Cpu> {
    perform(i, base, Cpu { pc: cpu.pc + width(i), ..cpu })
}

/// The processor runs the instruction whose bytes stand at its place.
pub proof fn lemma_one(code: Seq<u8>, base: int, cpu: Cpu, i: Instruction, fuel: nat)
    requires
        encodable(i),
        !(i is Return),
        has_bytes(code, cpu.pc, encoding(i)),
        behind(i, base, cpu) is Some,
    ensures
        executes(code, base, cpu, fuel + 1) == executes(
            code,
            base,
            behind(i, base, cpu)->0,
            fuel,
        ),
{
    lemma_decode(code, cpu.pc, i);
}

/// Adding to a register that holds an address is adding to the address.
pub proof fn lemma_wrap64_add(a: int, b: int)
    ensures
        wrap64(wrap64(a) + b) == wrap64(a + b),
        wrap64(wrap64(a) - b) == wrap64(a - b),
{
    let m = 0x1_0000_0000_0000_0000int;
    vstd::arithmetic::div_mod::lemma_add_mod_noop(a, b, m);
    vstd::arithmetic::div_mod::lemma_add_mod_noop(a % m, b, m);
    vstd::arithmetic::div_mod::lemma_sub_mod_noop(a, b, m);
    vstd::arithmetic::div_mod::lemma_sub_mod_noop(a % m, b, m);
    vstd::arithmetic::div_mod::lemma_mod_twice(a, m);
}

/// Where the pointer is on the tape, `r13` holds the address of the current
/// cell.
pub proof fn lemma_current_cell(cpu: Cpu, m: Machine, base: int)
    requires
        represents(cpu, m, base),
        tape_fits(base, m.tape.len()),
        m.in_bounds(),
    ensures
        crate::processor::cell_at(base, cpu.memory.len(), cpu.r13) == Some(m.pointer),
{
}

/// The processor does what a pointer move does.
proof fn lemma_pointer_op(code: Seq<u8>, base: int, cpu: Cpu, m: Machine, op: BfOp) -> (end: Cpu)
    requires
        op.kind == BfOpKind::IncPtr || op.kind == BfOpKind::DecPtr,
        has_bytes(code, cpu.pc, plain_code(op)),
        represents(cpu, m, base),
    ensures
        executes(code, base, cpu, 1) == Some(end),
        end.pc == cpu.pc + op_size(op),
        represents(end, effect(op, m)->0, base),
{
    let n = op.argument as int;
    let i = if op.kind == BfOpKind::IncPtr {
        Instruction::AddPointer { delta: n }
    } else {
        Instruction::SubPointer { delta: n }
    };
    assert(plain_code(op) == encoding(i));
    lemma_wrap64_add(base + m.pointer, n);
    lemma_one(code, base, cpu, i, 0);
    behind(i, base, cpu)->0
}

/// Adding a number to a byte is adding what is left of it modulo 256.
proof fn lemma_byte_sum(cell: int, n: int)
    ensures
        (cell + n % 256) % 256 == (cell + n) % 256,
        (cell - n % 256) % 256 == (cell - n) % 256,
{
}

/// The processor does what an addition to the current cell does.
proof fn lemma_add_cell(code: Seq<u8>, base: int, cpu: Cpu, m: Machine, op: BfOp) -> (end: Cpu)
    requires
        op.kind == BfOpKind::IncData,
        has_bytes(code, cpu.pc, plain_code(op)),
        represents(cpu, m, base),
        tape_fits(base, m.tape.len()),
        m.in_bounds(),
    ensures
        executes(code, base, cpu, 1) == Some(end),
        end.pc == cpu.pc + op_size(op),
        represents(end, effect(op, m)->0, base),
{
    let n = (op.argument % 256) as int;
    let i = Instruction::AddCell { value: n };
    assert(plain_code(op) =~= encoding(i));
    lemma_current_cell(cpu, m, base);
    lemma_byte_sum(m.cell() as int, op.argument as int);
    lemma_one(code, base, cpu, i, 0);
    let end = behind(i, base, cpu)->0;
    assert(end.memory =~= m.with_cell(m.cell() + op.argument).tape);
    end
}

/// The processor does what a subtraction from the current cell does.
proof fn lemma_sub_cell(code: Seq<u8>, base: int, cpu: Cpu, m: Machine, op: BfOp) -> (end: Cpu)
    requires
        op.kind == BfOpKind::DecData,
        has_bytes(code, cpu.pc, plain_code(op)),
        represents(cpu, m, base),
        tape_fits(base, m.tape.len()),
        m.in_bounds(),
    ensures
        executes(code, base, cpu, 1) == Some(end),
        end.pc == cpu.pc + op_size(op),
        represents(end, effect(op, m)->0, base),
{
    let n = (op.argument % 256) as int;
    let i = Instruction::SubCell { value: n };
    assert(plain_code(op) =~= encoding(i));
    lemma_current_cell(cpu, m, base);
    lemma_byte_sum(m.cell() as int, op.argument as int);
    lemma_one(code, base, cpu, i, 0);
    let end = behind(i, base, cpu)->0;
    assert(end.memory =~= m.with_cell(m.cell() - op.argument).tape);
    end
}

/// The processor does what the op does that clears the current cell.
proof fn lemma_clear_cell(code: Seq<u8>, base: int, cpu: Cpu, m: Machine, op: BfOp) -> (end: Cpu)
    requires
        op.kind == BfOpKind::LoopSetToZero,
        has_bytes(code, cpu.pc, plain_code(op)),
        represents(cpu, m, base),
        tape_fits(base, m.tape.len()),
        m.in_bounds(),
    ensures
        executes(code, base, cpu, 1) == Some(end),
        end.pc == cpu.pc + op_size(op),
        represents(end, effect(op, m)->0, base),
{
    let i = Instruction::StoreCell { value: 0 };
    assert(plain_code(op) =~= encoding(i));
    lemma_current_cell(cpu, m, base);
    lemma_one(code, base, cpu, i, 0);
    let end = behind(i, base, cpu)->0;
    assert(end.memory =~= m.with_cell(0).tape);
    end
}

/// Where in a transfer its instructions stand.
spec fn transfer_offset(which: int) -> int {
    if which == 0 {
        0
    } else if which == 1 {
        7
    } else if which == 2 {
        14
    } else if which == 3 {
        17
    } else {
        24
    }
}

/// The bytes of a transfer are the bytes of its five instructions.
proof fn lemma_transfer_bytes(code: Seq<u8>, pc: int, number: u8, channel: u8, which: int)
    requires
        has_bytes(code, pc, transfer_byte(number, channel)),
        number <= 1,
        channel <= 1,
        0 <= which < 5,
    ensures
        has_bytes(
            code,
            pc + transfer_offset(which),
            encoding(transfer(number, channel)[which]),
        ),
        encodable(transfer(number, channel)[which]),
{
    reveal_with_fuel(le_bytes, 5);
    let bytes = transfer_byte(number, channel);
    let i = transfer(number, channel)[which];
    let offset = transfer_offset(which);
    assert(bytes.subrange(offset, offset + encoding(i).len()) =~= encoding(i));
    lemma_has_part(code, pc, bytes, offset, encoding(i));
}

/// The processor does what one read of a byte does.
proof fn lemma_read_once(code: Seq<u8>, base: int, cpu: Cpu, m: Machine) -> (end: Cpu)
    requires
        has_bytes(code, cpu.pc, transfer_byte(0, 0)),
        represents(cpu, m, base),
        tape_fits(base, m.tape.len()),
        m.in_bounds(),
    ensures
        executes(code, base, cpu, 5) == Some(end),
        end.pc == cpu.pc + 26,
        represents(end, m.after_read(), base),
{
    lemma_transfer_bytes(code, cpu.pc, 0, 0, 0);
    lemma_transfer_bytes(code, cpu.pc, 0, 0, 1);
    lemma_transfer_bytes(code, cpu.pc, 0, 0, 2);
    lemma_transfer_bytes(code, cpu.pc, 0, 0, 3);
    lemma_transfer_bytes(code, cpu.pc, 0, 0, 4);
    lemma_current_cell(cpu, m, base);
    let first = behind(transfer(0, 0)[0], base, cpu)->0;
    let second = behind(transfer(0, 0)[1], base, first)->0;
    let third = behind(transfer(0, 0)[2], base, second)->0;
    let fourth = behind(transfer(0, 0)[3], base, third)->0;
    let end = behind(transfer(0, 0)[4], base, fourth)->0;
    lemma_one(code, base, fourth, transfer(0, 0)[4], 0);
    lemma_one(code, base, third, transfer(0, 0)[3], 1);
    lemma_one(code, base, second, transfer(0, 0)[2], 2);
    lemma_one(code, base, first, transfer(0, 0)[1], 3);
    lemma_one(code, base, cpu, transfer(0, 0)[0], 4);
    assert(end.memory =~= m.after_read().tape);
    end
}

/// The processor does what one write of a byte does.
proof fn lemma_write_once(code: Seq<u8>, base: int, cpu: Cpu, m: Machine) -> (end: Cpu)
    requires
        has_bytes(code, cpu.pc, transfer_byte(1, 1)),
        represents(cpu, m, base),
        tape_fits(base, m.tape.len()),
        m.in_bounds(),
    ensures
        executes(code, base, cpu, 5) == Some(end),
        end.pc == cpu.pc + 26,
        represents(end, m.after_write(), base),
{
    lemma_transfer_bytes(code, cpu.pc, 1, 1, 0);
    lemma_transfer_bytes(code, cpu.pc, 1, 1, 1);
    lemma_transfer_bytes(code, cpu.pc, 1, 1, 2);
    lemma_transfer_bytes(code, cpu.pc, 1, 1, 3);
    lemma_transfer_bytes(code, cpu.pc, 1, 1, 4);
    lemma_current_cell(cpu, m, base);
    let first = behind(transfer(1, 1)[0], base, cpu)->0;
    let second = behind(transfer(1, 1)[1], base, first)->0;
    let third = behind(transfer(1, 1)[2], base, second)->0;
    let fourth = behind(transfer(1, 1)[3], base, third)->0;
    let end = behind(transfer(1, 1)[4], base, fourth)->0;
    lemma_one(code, base, fourth, transfer(1, 1)[4], 0);
    lemma_one(code, base, third, transfer(1, 1)[3], 1);
    lemma_one(code, base, second, transfer(1, 1)[2], 2);
    lemma_one(code, base, first, transfer(1, 1)[1], 3);
    lemma_one(code, base, cpu, transfer(1, 1)[0], 4);
    end
}

/// The processor does what reads of a byte, one after the other, do.
proof fn lemma_reads(code: Seq<u8>, base: int, cpu: Cpu, m: Machine, count: nat) -> (end: Cpu)
    requires
        has_bytes(code, cpu.pc, repeated(transfer_byte(0, 0), count)),
        represents(cpu, m, base),
        tape_fits(base, m.tape.len()),
        m.in_bounds(),
    ensures
        executes(code, base, cpu, 5 * count) == Some(end),
        end.pc == cpu.pc + 26 * count,
        represents(end, m.after_reads(count), base),
    decreases count,
{
    if count == 0 {
        cpu
    } else {
        let once = transfer_byte(0, 0);
        let most = repeated(once, (count - 1) as nat);
        lemma_transfers_len(0, 0, (count - 1) as nat);
        assert(repeated(once, count).subrange(0, most.len() as int) =~= most);
        lemma_has_part(code, cpu.pc, repeated(once, count), 0, most);
        assert(repeated(once, count).subrange(most.len() as int, most.len() as int + 26) =~= once);
        lemma_has_part(code, cpu.pc, repeated(once, count), most.len() as int, once);
        let middle = lemma_reads(code, base, cpu, m, (count - 1) as nat);
        lemma_transfers_keep_place(m, (count - 1) as nat);
        let end = lemma_read_once(code, base, middle, m.after_reads((count - 1) as nat));
        lemma_executes_split(code, base, cpu, (5 * (count - 1)) as nat, 5);
        end
    }
}

/// The processor does what writes of a byte, one after the other, do.
proof fn lemma_writes(code: Seq<u8>, base: int, cpu: Cpu, m: Machine, count: nat) -> (end: Cpu)
    requires
        has_bytes(code, cpu.pc, repeated(transfer_byte(1, 1), count)),
        represents(cpu, m, base),
        tape_fits(base, m.tape.len()),
        m.in_bounds(),
    ensures
        executes(code, base, cpu, 5 * count) == Some(end),
        end.pc == cpu.pc + 26 * count,
        represents(end, m.after_writes(count), base),
    decreases count,
{
    if count == 0 {
        cpu
    } else {
        let once = transfer_byte(1, 1);
        let most = repeated(once, (count - 1) as nat);
        lemma_transfers_len(1, 1, (count - 1) as nat);
        assert(repeated(once, count).subrange(0, most.len() as int) =~= most);
        lemma_has_part(code, cpu.pc, repeated(once, count), 0, most);
        assert(repeated(once, count).subrange(most.len() as int, most.len() as int + 26) =~= once);
        lemma_has_part(code, cpu.pc, repeated(once, count), most.len() as int, once);
        let middle = lemma_writes(code, base, cpu, m, (count - 1) as nat);
        lemma_transfers_keep_place(m, (count - 1) as nat);
        let end = lemma_write_once(code, base, middle, m.after_writes((count - 1) as nat));
        lemma_executes_split(code, base, cpu, (5 * (count - 1)) as nat, 5);
        end
    }
}

/// The bytes that adjust a register are the bytes of one instruction.
proof fn lemma_adjust_bytes(target: bool, delta: i32)
    ensures
        encodable(adjust(target, delta)),
        encoding(adjust(target, delta)) == if target {
            adjust_register(0xC6, 0xEE, delta)
        } else {
            adjust_register(0xC5, 0xED, delta)
        },
        encoding(adjust(target, delta)).len() == 7,
{
    lemma_le_bytes_len(wrap32(delta as int), 4);
    lemma_le_bytes_len((-delta) as nat, 4);
}

/// The bytes of a test of the current cell and a jump on its outcome.
spec fn test_and_jump(if_zero: bool, displacement: int) -> Seq<u8> {
    test_cell() + if if_zero {
        jump_if_zero(displacement)
    } else {
        jump_if_not_zero(displacement)
    }
}

/// The processor tests the current cell and jumps, or does not, as the
/// cell says.
proof fn lemma_test_and_jump(
    code: Seq<u8>,
    base: int,
    cpu: Cpu,
    m: Machine,
    if_zero: bool,
    displacement: int,
) -> (end: Cpu)
    requires
        fits32(displacement),
        has_bytes(code, cpu.pc, test_and_jump(if_zero, displacement)),
        represents(cpu, m, base),
        tape_fits(base, m.tape.len()),
        m.in_bounds(),
    ensures
        executes(code, base, cpu, 2) == Some(end),
        end.pc == cpu.pc + 11 + if (m.cell() == 0) == if_zero {
            displacement
        } else {
            0
        },
        represents(end, m, base),
        end.r14 == cpu.r14,
{
    let bytes = test_and_jump(if_zero, displacement);
    let test = Instruction::TestCell { value: 0 };
    let jump = if if_zero {
        Instruction::JumpIfZero { displacement }
    } else {
        Instruction::JumpIfNotZero { displacement }
    };
    lemma_le_bytes_len(wrap32(displacement), 4);
    assert(bytes.subrange(0, 5) =~= encoding(test));
    assert(bytes.subrange(5, 11) =~= encoding(jump));
    lemma_has_part(code, cpu.pc, bytes, 0, encoding(test));
    lemma_has_part(code, cpu.pc, bytes, 5, encoding(jump));
    lemma_current_cell(cpu, m, base);
    let tested = behind(test, base, cpu)->0;
    lemma_one(code, base, tested, jump, 0);
    lemma_one(code, base, cpu, test, 1);
    behind(jump, base, tested)->0
}

/// Where in the code of the op that moves a value over its instructions
/// behind the test stand, and which they are.
spec fn move_instruction(which: int, op: BfOp) -> (int, Instruction) {
    if which == 0 {
        (11, Instruction::CopyPointerToTarget)
    } else if which == 1 {
        (14, adjust(true, op.argument))
    } else if which == 2 {
        (21, Instruction::LoadCell)
    } else if which == 3 {
        (26, Instruction::AddToTarget)
    } else {
        (29, Instruction::StoreCell { value: 0 })
    }
}

/// The bytes of the op that moves a value over are a test, a jump, and the
/// bytes of five instructions.
proof fn lemma_move_data_bytes(code: Seq<u8>, pc: int, op: BfOp, which: int)
    requires
        op.kind == BfOpKind::LoopMoveData,
        has_bytes(code, pc, plain_code(op)),
        0 <= which < 5,
    ensures
        has_bytes(code, pc, test_and_jump(true, 23)),
        has_bytes(
            code,
            pc + move_instruction(which, op).0,
            encoding(move_instruction(which, op).1),
        ),
        encodable(move_instruction(which, op).1),
        plain_code(op).len() == 34,
{
    let bytes = plain_code(op);
    let (offset, i) = move_instruction(which, op);
    lemma_adjust_bytes(true, op.argument);
    lemma_le_bytes_len(wrap32(23), 4);
    assert(bytes.subrange(0, 11) =~= test_and_jump(true, 23));
    lemma_has_part(code, pc, bytes, 0, test_and_jump(true, 23));
    assert(bytes.subrange(offset, offset + encoding(i).len()) =~= encoding(i));
    lemma_has_part(code, pc, bytes, offset, encoding(i));
}

/// The processor, with the target register on a cell of the tape, adds the
/// current cell to that cell and clears the current cell.
proof fn lemma_move_data_tail(code: Seq<u8>, base: int, cpu: Cpu, m: Machine, offset: int) -> (end:
    Cpu)
    requires
        has_bytes(code, cpu.pc, encoding(Instruction::LoadCell)),
        has_bytes(code, cpu.pc + 5, encoding(Instruction::AddToTarget)),
        has_bytes(code, cpu.pc + 8, encoding(Instruction::StoreCell { value: 0 })),
        represents(cpu, m, base),
        tape_fits(base, m.tape.len()),
        m.in_bounds(),
        m.reaches(offset),
        cpu.r14 == base + m.pointer + offset,
    ensures
        executes(code, base, cpu, 3) == Some(end),
        end.pc == cpu.pc + 13,
        represents(end, m.data_moved(offset), base),
{
    let load = Instruction::LoadCell;
    let add = Instruction::AddToTarget;
    let clear = Instruction::StoreCell { value: 0 };
    lemma_current_cell(cpu, m, base);
    let loaded = behind(load, base, cpu)->0;
    let added = behind(add, base, loaded)->0;
    let cleared = behind(clear, base, added)->0;
    lemma_one(code, base, added, clear, 0);
    lemma_one(code, base, loaded, add, 1);
    lemma_one(code, base, cpu, load, 2);
    assert(cleared.memory =~= m.data_moved(offset).tape);
    cleared
}

/// The processor sets the target register to the address of the cell at
/// the op's distance from the current cell.
proof fn lemma_move_data_head(code: Seq<u8>, base: int, cpu: Cpu, m: Machine, op: BfOp) -> (end:
    Cpu)
    requires
        has_bytes(code, cpu.pc, encoding(Instruction::CopyPointerToTarget)),
        has_bytes(code, cpu.pc + 3, encoding(adjust(true, op.argument))),
        represents(cpu, m, base),
        tape_fits(base, m.tape.len()),
        m.reaches(op.argument as int),
    ensures
        executes(code, base, cpu, 2) == Some(end),
        end.pc == cpu.pc + 10,
        represents(end, m, base),
        end.r14 == base + m.pointer + op.argument,
{
    let copy = Instruction::CopyPointerToTarget;
    let adjust = adjust(true, op.argument);
    lemma_adjust_bytes(true, op.argument);
    lemma_wrap64_add(base + m.pointer, op.argument as int);
    let copied = behind(copy, base, cpu)->0;
    let adjusted = behind(adjust, base, copied)->0;
    lemma_one(code, base, copied, adjust, 0);
    lemma_one(code, base, cpu, copy, 1);
    adjusted
}

/// The processor does what the op does that moves the current cell's value
/// over.
proof fn lemma_move_data_op(code: Seq<u8>, base: int, cpu: Cpu, m: Machine, op: BfOp) -> (result: (
    nat,
    Cpu,
))
    requires
        op.kind == BfOpKind::LoopMoveData,
        has_bytes(code, cpu.pc, plain_code(op)),
        represents(cpu, m, base),
        tape_fits(base, m.tape.len()),
        effect(op, m) is Some,
    ensures
        executes(code, base, cpu, result.0) == Some(result.1),
        result.1.pc == cpu.pc + op_size(op),
        represents(result.1, effect(op, m)->0, base),
{
    lemma_move_data_bytes(code, cpu.pc, op, 0);
    lemma_move_data_bytes(code, cpu.pc, op, 1);
    lemma_move_data_bytes(code, cpu.pc, op, 2);
    lemma_move_data_bytes(code, cpu.pc, op, 3);
    lemma_move_data_bytes(code, cpu.pc, op, 4);
    let tested = lemma_test_and_jump(code, base, cpu, m, true, 23);
    if m.cell() == 0 {
        (2, tested)
    } else {
        let aimed = lemma_move_data_head(code, base, tested, m, op);
        let moved = lemma_move_data_tail(code, base, aimed, m, op.argument as int);
        lemma_executes_split(code, base, tested, 2, 3);
        lemma_executes_split(code, base, cpu, 2, 5);
        (7, moved)
    }
}

/// The bytes of the op that seeks a zero cell are a test and a jump, one
/// instruction that moves the pointer, and a test and a jump back.
proof fn lemma_seek_bytes(code: Seq<u8>, pc: int, op: BfOp)
    requires
        op.kind == BfOpKind::LoopMovePtr,
        has_bytes(code, pc, plain_code(op)),
    ensures
        has_bytes(code, pc, test_and_jump(true, 18)),
        has_bytes(code, pc + 11, encoding(adjust(false, op.argument))),
        has_bytes(code, pc + 18, test_and_jump(false, -18)),
        plain_code(op).len() == 29,
{
    let bytes = plain_code(op);
    let adjust = adjust(false, op.argument);
    lemma_adjust_bytes(false, op.argument);
    lemma_le_bytes_len(wrap32(18), 4);
    lemma_le_bytes_len(wrap32(-18), 4);
    assert(bytes.subrange(0, 11) =~= test_and_jump(true, 18));
    assert(bytes.subrange(11, 18) =~= encoding(adjust));
    assert(bytes.subrange(18, 29) =~= test_and_jump(false, -18));
    lemma_has_part(code, pc, bytes, 0, test_and_jump(true, 18));
    lemma_has_part(code, pc, bytes, 11, encoding(adjust));
    lemma_has_part(code, pc, bytes, 18, test_and_jump(false, -18));
}

/// From the instruction that moves the pointer, the processor goes round
/// the loop until the pointer is on a zero cell.
proof fn lemma_seek_round(
    code: Seq<u8>,
    base: int,
    entry: int,
    cpu: Cpu,
    x: Machine,
    op: BfOp,
) -> (result: (nat, Cpu))
    requires
        op.kind == BfOpKind::LoopMovePtr,
        has_bytes(code, entry, plain_code(op)),
        cpu.pc == entry + 11,
        represents(cpu, x, base),
        tape_fits(base, x.tape.len()),
        x.moved(op.argument as int).seek(op.argument as int) is Some,
    ensures
        executes(code, base, cpu, result.0) == Some(result.1),
        result.1.pc == entry + 29,
        represents(result.1, x.moved(op.argument as int).seek(op.argument as int)->0, base),
    decreases x.moved(op.argument as int).room(op.argument as int),
{
    let delta = op.argument as int;
    let adjust = adjust(false, op.argument);
    let next = x.moved(delta);
    lemma_seek_bytes(code, entry, op);
    lemma_adjust_bytes(false, op.argument);
    lemma_wrap64_add(base + x.pointer, delta);
    let adjusted = behind(adjust, base, cpu)->0;
    lemma_one(code, base, cpu, adjust, 0);
    assert(represents(adjusted, next, base));
    let tested = lemma_test_and_jump(code, base, adjusted, next, false, -18);
    lemma_executes_split(code, base, cpu, 1, 2);
    if next.cell() == 0 {
        (3, tested)
    } else {
        let (rest, end) = lemma_seek_round(code, base, entry, tested, next, op);
        lemma_executes_split(code, base, cpu, 3, rest);
        (3 + rest, end)
    }
}

/// The processor does what the op does that seeks a zero cell.
proof fn lemma_seek_op(code: Seq<u8>, base: int, cpu: Cpu, m: Machine, op: BfOp) -> (result: (
    nat,
    Cpu,
))
    requires
        op.kind == BfOpKind::LoopMovePtr,
        has_bytes(code, cpu.pc, plain_code(op)),
        represents(cpu, m, base),
        tape_fits(base, m.tape.len()),
        effect(op, m) is Some,
    ensures
        executes(code, base, cpu, result.0) == Some(result.1),
        result.1.pc == cpu.pc + op_size(op),
        represents(result.1, effect(op, m)->0, base),
{
    lemma_seek_bytes(code, cpu.pc, op);
    let tested = lemma_test_and_jump(code, base, cpu, m, true, 18);
    if m.cell() == 0 {
        (2, tested)
    } else {
        let (rest, end) = lemma_seek_round(code, base, cpu.pc, tested, m, op);
        lemma_executes_split(code, base, cpu, 2, rest);
        (2 + rest, end)
    }
}

/// In the routine of an op list, the code of each op stands at the op's
/// start.
proof fn lemma_op_bytes(ops: Seq<BfOp>, tape_base: u64, k: int)
    requires
        0 <= k < ops.len(),
    ensures
        has_bytes(
            machine_code(ops, tape_base),
            op_start(ops, k) as int,
            op_code(ops, k, ops.len() as int),
        ),
        op_code(ops, k, ops.len() as int).len() == op_size(ops[k]),
        op_start(ops, k + 1) == op_start(ops, k) + op_size(ops[k]),
{
    lemma_code_layout(ops, tape_base, k);
    lemma_op_code_len(ops, k, ops.len() as int);
}

/// The displacement of a jump of a well-formed op list whose loops are all
/// short enough is one that its field can hold.
proof fn lemma_jump_fits(ops: Seq<BfOp>, k: int)
    requires
        well_formed(ops),
        jumps_in_range(ops),
        0 <= k < ops.len(),
        is_open(ops[k]) || is_close(ops[k]),
    ensures
        0 <= ops[k].argument < ops.len(),
        fits32(op_start(ops, ops[k].argument + 1) - op_start(ops, k + 1)),
{
    let other = ops[k].argument as int;
    lemma_jump_arguments(ops, k);
    assert(linked(ops, k));
    assert(linked(ops, other));
    if is_open(ops[k]) {
        lemma_op_start_rises(ops, k + 1, other + 1);
        assert(loop_span(ops, other) <= MAX_DISPLACEMENT);
    } else {
        lemma_op_start_rises(ops, other + 1, k + 1);
        assert(loop_span(ops, k) <= MAX_DISPLACEMENT);
    }
}

/// The processor does what a jump does.
proof fn lemma_jump_op(ops: Seq<BfOp>, tape_base: u64, k: int, m: Machine, cpu: Cpu) -> (end: Cpu)
    requires
        well_formed(ops),
        jumps_in_range(ops),
        0 <= k < ops.len(),
        is_open(ops[k]) || is_close(ops[k]),
        tape_fits(tape_base as int, m.tape.len()),
        represents(cpu, m, tape_base as int),
        cpu.pc == op_start(ops, k),
        m.in_bounds(),
    ensures
        executes(machine_code(ops, tape_base), tape_base as int, cpu, 2) == Some(end),
        end.pc == op_start(ops, step(ops, at(k, m))->0.pc),
        represents(end, m, tape_base as int),
{
    let code = machine_code(ops, tape_base);
    let displacement = op_start(ops, ops[k].argument + 1) - op_start(ops, k + 1);
    lemma_op_bytes(ops, tape_base, k);
    lemma_jump_targets(ops, k);
    lemma_jump_fits(ops, k);
    assert(op_code(ops, k, ops.len() as int) == test_and_jump(is_open(ops[k]), displacement));
    lemma_test_and_jump(code, tape_base as int, cpu, m, is_open(ops[k]), displacement)
}

/// The processor does what an op does: from the start of the op's code, it
/// comes to the start of the code of the op that follows, with the machine
/// as the op leaves it.
pub proof fn lemma_op_executes(
    ops: Seq<BfOp>,
    tape_base: u64,
    k: int,
    m: Machine,
    cpu: Cpu,
) -> (result: (nat, Cpu))
    requires
        well_formed(ops),
        jumps_in_range(ops),
        0 <= k < ops.len(),
        tape_fits(tape_base as int, m.tape.len()),
        represents(cpu, m, tape_base as int),
        cpu.pc == op_start(ops, k),
        step(ops, at(k, m)) is Some,
    ensures
        executes(machine_code(ops, tape_base), tape_base as int, cpu, result.0) == Some(result.1),
        result.1.pc == op_start(ops, step(ops, at(k, m))->0.pc),
        represents(result.1, step(ops, at(k, m))->0.machine, tape_base as int),
{
    let code = machine_code(ops, tape_base);
    let base = tape_base as int;
    let op = ops[k];
    lemma_op_bytes(ops, tape_base, k);
    match op.kind {
        BfOpKind::JumpIfDataZero | BfOpKind::JumpIfDataNotZero => {
            (2, lemma_jump_op(ops, tape_base, k, m, cpu))
        },
        BfOpKind::IncPtr | BfOpKind::DecPtr => (1, lemma_pointer_op(code, base, cpu, m, op)),
        BfOpKind::IncData => (1, lemma_add_cell(code, base, cpu, m, op)),
        BfOpKind::DecData => (1, lemma_sub_cell(code, base, cpu, m, op)),
        BfOpKind::LoopSetToZero => (1, lemma_clear_cell(code, base, cpu, m, op)),
        BfOpKind::ReadStdin => {
            let count = repeats(op.argument);
            (5 * count, lemma_reads(code, base, cpu, m, count))
        },
        BfOpKind::WriteStdout => {
            let count = repeats(op.argument);
            (5 * count, lemma_writes(code, base, cpu, m, count))
        },
        BfOpKind::LoopMovePtr => lemma_seek_op(code, base, cpu, m, op),
        BfOpKind::LoopMoveData => lemma_move_data_op(code, base, cpu, m, op),
    }
}

/// Where the ops come to their end, the routine comes to its return.
proof fn lemma_routine_follows(
    ops: Seq<BfOp>,
    tape_base: u64,
    k: int,
    m: Machine,
    end: Machine,
    cpu: Cpu,
    fuel: nat,
) -> (result: (nat, Cpu))
    requires
        well_formed(ops),
        jumps_in_range(ops),
        0 <= k <= ops.len(),
        tape_fits(tape_base as int, m.tape.len()),
        represents(cpu, m, tape_base as int),
        cpu.pc == op_start(ops, k),
        run(ops, at(k, m), fuel) == Some(at(ops.len() as int, end)),
    ensures
        executes(machine_code(ops, tape_base), tape_base as int, cpu, result.0) == Some(result.1),
        at_return(machine_code(ops, tape_base), result.1.pc),
        represents(result.1, end, tape_base as int),
    decreases fuel,
{
    let code = machine_code(ops, tape_base);
    let len = ops.len() as int;
    if k == len {
        lemma_le_bytes_len(tape_base as nat, 8);
        lemma_body_len(ops, len, len);
        assert(code[op_start(ops, len) as int] == 0xC3);
        (0, cpu)
    } else {
        let next = step(ops, at(k, m))->0;
        lemma_jump_arguments(ops, k);
        lemma_effect_keeps_length(ops[k], m);
        let (steps, reached) = lemma_op_executes(ops, tape_base, k, m, cpu);
        let (rest, last) = lemma_routine_follows(
            ops,
            tape_base,
            next.pc,
            next.machine,
            end,
            reached,
            (fuel - 1) as nat,
        );
        lemma_executes_split(code, tape_base as int, cpu, steps, rest);
        (steps + rest, last)
    }
}

/// The routine does what the ops do. On the model of the processor, the
/// machine code of a well-formed op list, started at its first byte with
/// the tape as memory and the pointer on the tape's first cell, comes to its
/// return wherever the ops come to their end, and then holds the tape, the
/// input, the output and the pointer as the ops leave them.
pub proof fn lemma_routine_runs(
    ops: Seq<BfOp>,
    tape_base: u64,
    start: Machine,
    end: Machine,
    cpu: Cpu,
) -> (last: Cpu)
    requires
        well_formed(ops),
        compile_spec(ops, tape_base) is Ok,
        tape_fits(tape_base as int, start.tape.len()),
        start.pointer == 0,
        halts(ops, start, end),
        starts_with(cpu, start),
    ensures
        comes_back(compile_spec(ops, tape_base)->Ok_0, tape_base as int, cpu, last),
        represents(last, end, tape_base as int),
{
    let code = machine_code(ops, tape_base);
    let base = tape_base as int;
    let load = Instruction::LoadPointer { address: base };
    lemma_compile_succeeds(ops, tape_base);
    lemma_le_bytes_len(tape_base as nat, 8);
    assert(code.subrange(0, 10) =~= encoding(load));
    lemma_one(code, base, cpu, load, 0);
    let loaded = behind(load, base, cpu)->0;
    let fuel = choose|f: nat| run(ops, at(0, start), f) == Some(at(ops.len() as int, end));
    let (rest, last) = lemma_routine_follows(ops, tape_base, 0, start, end, loaded, fuel);
    lemma_executes_split(code, base, cpu, 1, rest);
    assert(executes(code, base, cpu, 1 + rest) == Some(last));
    last
}

/// Whether the processor stands at the first byte of a routine and holds
/// the machine's tape, input and output.
pub open spec fn starts_with(cpu: Cpu, start: Machine) -> bool {
    &&& cpu.pc == 0
    &&& cpu.memory == start.tape
    &&& cpu.input == start.input
    &&& cpu.output == start.output
}

/// Whether the routine `code` does what `ops` does: wherever `ops`, started
/// on the first cell of a tape that fits at `tape_base`, comes to its end,
/// the routine, started with that tape, comes to its return, and then holds
/// the tape, the input, the output and the pointer as `ops` leaves them.
pub open spec fn runs_as(code: Seq<u8>, tape_base: u64, ops: Seq<BfOp>) -> bool {
    forall|start: Machine, end: Machine, cpu: Cpu|
        #![trigger halts(ops, start, end), starts_with(cpu, start)]
        tape_fits(tape_base as int, start.tape.len()) && start.pointer == 0 && halts(
            ops,
            start,
            end,
        ) && starts_with(cpu, start) ==> exists|last: Cpu| #[trigger]
            comes_back(code, tape_base as int, cpu, last) && represents(
                last,
                end,
                tape_base as int,
            )
}

/// The machine code of a well-formed op list does what the ops do.
pub proof fn lemma_compile_sound(ops: Seq<BfOp>, tape_base: u64)
    requires
        well_formed(ops),
        compile_spec(ops, tape_base) is Ok,
    ensures
        runs_as(compile_spec(ops, tape_base)->Ok_0, tape_base, ops),
{
    let code = compile_spec(ops, tape_base)->Ok_0;
    assert forall|start: Machine, end: Machine, cpu: Cpu|
        #![trigger halts(ops, start, end), starts_with(cpu, start)]
        tape_fits(tape_base as int, start.tape.len()) && start.pointer == 0 && halts(
            ops,
            start,
            end,
        ) && starts_with(cpu, start) implies exists|last: Cpu| #[trigger]
        comes_back(code, tape_base as int, cpu, last) && represents(
            last,
            end,
            tape_base as int,
        ) by {
        let last = lemma_routine_runs(ops, tape_base, start, end, cpu);
        assert(comes_back(code, tape_base as int, cpu, last));
    }
}

} // verus!
