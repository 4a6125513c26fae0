//! A model of the processor, as far as the generated routines need it: the
//! six registers that they use, the zero flag, the tape as the only memory,
//! and the twenty instructions that the code generator emits.
//!
//! The model says what the bytes of a routine mean. It knows no other
//! instruction, no other register and no other memory: a step that meets
//! anything else has no result.

use crate::code::{byte_range, le_bytes, le_value, lemma_le_bytes_len, lemma_le_roundtrip, wrap32};
use vstd::prelude::*;

verus! {

/// The instructions of the model. An immediate is held as the number that
/// the processor works with: sign-extended where the processor extends it.
pub enum Instruction {
    /// `movabs r13, imm64`
    LoadPointer { address: int },
    /// `add r13, imm32`
    AddPointer { delta: int },
    /// `sub r13, imm32`
    SubPointer { delta: int },
    /// `add r14, imm32`
    AddTarget { delta: int },
    /// `sub r14, imm32`
    SubTarget { delta: int },
    /// `add byte [r13], imm8`
    AddCell { value: int },
    /// `sub byte [r13], imm8`
    SubCell { value: int },
    /// `cmp byte [r13], imm8`
    TestCell { value: int },
    /// `mov byte [r13], imm8`
    StoreCell { value: int },
    /// `jz rel32`
    JumpIfZero { displacement: int },
    /// `jnz rel32`
    JumpIfNotZero { displacement: int },
    /// `mov r14, r13`
    CopyPointerToTarget,
    /// `mov rsi, r13`
    CopyPointerToBuffer,
    /// `movzx rax, byte [r13]`
    LoadCell,
    /// `add byte [r14], al`
    AddToTarget,
    /// `mov rax, imm32`
    SetCall { number: int },
    /// `mov rdi, imm32`
    SetChannel { number: int },
    /// `mov rdx, imm32`
    SetLength { number: int },
    /// `syscall`
    SystemCall,
    /// `ret`
    Return,
}

/// Whether `v` is a number that a signed 32-bit immediate can hold.
pub open spec fn fits32(v: int) -> bool {
    -0x8000_0000 <= v < 0x8000_0000
}

/// Whether `v` is a number that a byte can hold.
pub open spec fn fits8(v: int) -> bool {
    0 <= v < 256
}

/// Whether the operand of `i` is one that its immediate can hold.
pub open spec fn encodable(i: Instruction) -> bool {
    match i {
        Instruction::LoadPointer { address } => 0 <= address < 0x1_0000_0000_0000_0000,
        Instruction::AddPointer { delta }
        | Instruction::SubPointer { delta }
        | Instruction::AddTarget { delta }
        | Instruction::SubTarget { delta } => fits32(delta),
        Instruction::AddCell { value }
        | Instruction::SubCell { value }
        | Instruction::TestCell { value }
        | Instruction::StoreCell { value } => fits8(value),
        Instruction::JumpIfZero { displacement }
        | Instruction::JumpIfNotZero { displacement } => fits32(displacement),
        Instruction::SetCall { number }
        | Instruction::SetChannel { number }
        | Instruction::SetLength { number } => fits32(number),
        _ => true,
    }
}

/// The bytes of an instruction.
pub open spec fn encoding(i: Instruction) -> Seq<u8> {
    match i {
        Instruction::LoadPointer { address } => seq![0x49u8, 0xBDu8] + le_bytes(address as nat, 8),
        Instruction::AddPointer { delta } => seq![0x49u8, 0x81u8, 0xC5u8] + le_bytes(
            wrap32(delta),
            4,
        ),
        Instruction::SubPointer { delta } => seq![0x49u8, 0x81u8, 0xEDu8] + le_bytes(
            wrap32(delta),
            4,
        ),
        Instruction::AddTarget { delta } => seq![0x49u8, 0x81u8, 0xC6u8] + le_bytes(
            wrap32(delta),
            4,
        ),
        Instruction::SubTarget { delta } => seq![0x49u8, 0x81u8, 0xEEu8] + le_bytes(
            wrap32(delta),
            4,
        ),
        Instruction::AddCell { value } => seq![0x41u8, 0x80u8, 0x45u8, 0x00u8, value as u8],
        Instruction::SubCell { value } => seq![0x41u8, 0x80u8, 0x6Du8, 0x00u8, value as u8],
        Instruction::TestCell { value } => seq![0x41u8, 0x80u8, 0x7Du8, 0x00u8, value as u8],
        Instruction::StoreCell { value } => seq![0x41u8, 0xC6u8, 0x45u8, 0x00u8, value as u8],
        Instruction::JumpIfZero { displacement } => seq![0x0Fu8, 0x84u8] + le_bytes(
            wrap32(displacement),
            4,
        ),
        Instruction::JumpIfNotZero { displacement } => seq![0x0Fu8, 0x85u8] + le_bytes(
            wrap32(displacement),
            4,
        ),
        Instruction::CopyPointerToTarget => seq![0x4Du8, 0x89u8, 0xEEu8],
        Instruction::CopyPointerToBuffer => seq![0x4Cu8, 0x89u8, 0xEEu8],
        Instruction::LoadCell => seq![0x49u8, 0x0Fu8, 0xB6u8, 0x45u8, 0x00u8],
        Instruction::AddToTarget => seq![0x41u8, 0x00u8, 0x06u8],
        Instruction::SetCall { number } => seq![0x48u8, 0xC7u8, 0xC0u8] + le_bytes(
            wrap32(number),
            4,
        ),
        Instruction::SetChannel { number } => seq![0x48u8, 0xC7u8, 0xC7u8] + le_bytes(
            wrap32(number),
            4,
        ),
        Instruction::SetLength { number } => seq![0x48u8, 0xC7u8, 0xC2u8] + le_bytes(
            wrap32(number),
            4,
        ),
        Instruction::SystemCall => seq![0x0Fu8, 0x05u8],
        Instruction::Return => seq![0xC3u8],
    }
}

/// The number of bytes of an instruction.
pub open spec fn width(i: Instruction) -> int {
    match i {
        Instruction::LoadPointer { .. } => 10,
        Instruction::AddPointer { .. }
        | Instruction::SubPointer { .. }
        | Instruction::AddTarget { .. }
        | Instruction::SubTarget { .. }
        | Instruction::SetCall { .. }
        | Instruction::SetChannel { .. }
        | Instruction::SetLength { .. } => 7,
        Instruction::AddCell { .. }
        | Instruction::SubCell { .. }
        | Instruction::TestCell { .. }
        | Instruction::StoreCell { .. }
        | Instruction::LoadCell => 5,
        Instruction::JumpIfZero { .. } | Instruction::JumpIfNotZero { .. } => 6,
        Instruction::CopyPointerToTarget
        | Instruction::CopyPointerToBuffer
        | Instruction::AddToTarget => 3,
        Instruction::SystemCall => 2,
        Instruction::Return => 1,
    }
}

/// The byte of `code` at `pc`, or a number that is no byte where there is
/// none.
pub open spec fn byte(code: Seq<u8>, pc: int) -> int {
    if 0 <= pc < code.len() {
        code[pc] as int
    } else {
        -1
    }
}

/// The number in the `width` bytes of `code` from `pc` on, low byte first,
/// read as signed if it is 32 bits wide.
pub open spec fn field(code: Seq<u8>, pc: int, width: int) -> nat {
    le_value(code.subrange(pc, pc + width))
}

/// The number that a 32-bit field holds, read as signed.
pub open spec fn signed32(field: nat) -> int {
    if field < 0x8000_0000 {
        field as int
    } else {
        field - 0x1_0000_0000
    }
}

/// The signed number in the four bytes of `code` from `pc` on.
pub open spec fn immediate(code: Seq<u8>, pc: int) -> int {
    signed32(field(code, pc, 4))
}

/// The instruction whose bytes stand in `code` at `pc`, if there is one.
pub open spec fn decode(code: Seq<u8>, pc: int) -> Option<Instruction> {
    let b0 = byte(code, pc);
    let b1 = byte(code, pc + 1);
    let b2 = byte(code, pc + 2);
    let b3 = byte(code, pc + 3);
    let b4 = byte(code, pc + 4);
    if b0 == 0xC3 {
        Some(Instruction::Return)
    } else if b0 == 0x49 && b1 == 0xBD && pc + 10 <= code.len() {
        Some(Instruction::LoadPointer { address: field(code, pc + 2, 8) as int })
    } else if b0 == 0x49 && b1 == 0x81 && pc + 7 <= code.len() {
        if b2 == 0xC5 {
            Some(Instruction::AddPointer { delta: immediate(code, pc + 3) })
        } else if b2 == 0xED {
            Some(Instruction::SubPointer { delta: immediate(code, pc + 3) })
        } else if b2 == 0xC6 {
            Some(Instruction::AddTarget { delta: immediate(code, pc + 3) })
        } else if b2 == 0xEE {
            Some(Instruction::SubTarget { delta: immediate(code, pc + 3) })
        } else {
            None
        }
    } else if b0 == 0x49 && b1 == 0x0F && b2 == 0xB6 && b3 == 0x45 && b4 == 0x00 {
        Some(Instruction::LoadCell)
    } else if b0 == 0x41 && b1 == 0x80 && b3 == 0x00 && b4 >= 0 {
        if b2 == 0x45 {
            Some(Instruction::AddCell { value: b4 })
        } else if b2 == 0x6D {
            Some(Instruction::SubCell { value: b4 })
        } else if b2 == 0x7D {
            Some(Instruction::TestCell { value: b4 })
        } else {
            None
        }
    } else if b0 == 0x41 && b1 == 0xC6 && b2 == 0x45 && b3 == 0x00 && b4 >= 0 {
        Some(Instruction::StoreCell { value: b4 })
    } else if b0 == 0x41 && b1 == 0x00 && b2 == 0x06 {
        Some(Instruction::AddToTarget)
    } else if b0 == 0x0F && b1 == 0x84 && pc + 6 <= code.len() {
        Some(Instruction::JumpIfZero { displacement: immediate(code, pc + 2) })
    } else if b0 == 0x0F && b1 == 0x85 && pc + 6 <= code.len() {
        Some(Instruction::JumpIfNotZero { displacement: immediate(code, pc + 2) })
    } else if b0 == 0x0F && b1 == 0x05 {
        Some(Instruction::SystemCall)
    } else if b0 == 0x4D && b1 == 0x89 && b2 == 0xEE {
        Some(Instruction::CopyPointerToTarget)
    } else if b0 == 0x4C && b1 == 0x89 && b2 == 0xEE {
        Some(Instruction::CopyPointerToBuffer)
    } else if b0 == 0x48 && b1 == 0xC7 && pc + 7 <= code.len() {
        if b2 == 0xC0 {
            Some(Instruction::SetCall { number: immediate(code, pc + 3) })
        } else if b2 == 0xC7 {
            Some(Instruction::SetChannel { number: immediate(code, pc + 3) })
        } else if b2 == 0xC2 {
            Some(Instruction::SetLength { number: immediate(code, pc + 3) })
        } else {
            None
        }
    } else {
        None
    }
}

/// The state of the processor while it runs a routine.
#[verifier::ext_equal]
pub struct Cpu {
    /// The offset, in the routine, of the instruction to run next.
    pub pc: int,
    pub rax: int,
    pub rdi: int,
    pub rsi: int,
    pub rdx: int,
    pub r13: int,
    pub r14: int,
    /// The zero flag.
    pub zero: bool,
    /// The bytes of the tape.
    pub memory: Seq<u8>,
    /// The bytes not yet read from the input channel.
    pub input: Seq<u8>,
    /// The bytes written to the output channel so far.
    pub output: Seq<u8>,
}

/// The value of a 64-bit register that is to hold `v`.
pub open spec fn wrap64(v: int) -> int {
    v % 0x1_0000_0000_0000_0000
}

/// The index of the tape's cell at `address`, for a tape of `cells` cells
/// that starts at `base`; nothing where the address is not on the tape.
pub open spec fn cell_at(base: int, cells: nat, address: int) -> Option<int> {
    if base <= address < base + cells {
        Some(address - base)
    } else {
        None
    }
}

/// The processor with `value`, modulo 256, in the tape's cell `index`.
pub open spec fn stores(cpu: Cpu, index: int, value: int) -> Cpu {
    Cpu { memory: cpu.memory.update(index, (value % 256) as u8), ..cpu }
}

/// What the instruction `i` does to the processor, but for moving on to the
/// next instruction. There is no result where the instruction reads or
/// writes outside the tape, where a system call is not the read of one byte
/// from channel 0 or the write of one byte to channel 1, and for the return.
pub open spec fn perform(i: Instruction, base: int, cpu: Cpu) -> Option<Cpu> {
    let cells = cpu.memory.len();
    match i {
        Instruction::LoadPointer { address } => Some(Cpu { r13: address, ..cpu }),
        Instruction::AddPointer { delta } => {
            let sum = wrap64(cpu.r13 + delta);
            Some(Cpu { r13: sum, zero: sum == 0, ..cpu })
        },
        Instruction::SubPointer { delta } => {
            let difference = wrap64(cpu.r13 - delta);
            Some(Cpu { r13: difference, zero: difference == 0, ..cpu })
        },
        Instruction::AddTarget { delta } => {
            let sum = wrap64(cpu.r14 + delta);
            Some(Cpu { r14: sum, zero: sum == 0, ..cpu })
        },
        Instruction::SubTarget { delta } => {
            let difference = wrap64(cpu.r14 - delta);
            Some(Cpu { r14: difference, zero: difference == 0, ..cpu })
        },
        Instruction::AddCell { value } => match cell_at(base, cells, cpu.r13) {
            Some(at) => {
                let sum = (cpu.memory[at] + value) % 256;
                Some(Cpu { zero: sum == 0, ..stores(cpu, at, sum) })
            },
            None => None,
        },
        Instruction::SubCell { value } => match cell_at(base, cells, cpu.r13) {
            Some(at) => {
                let difference = (cpu.memory[at] - value) % 256;
                Some(Cpu { zero: difference == 0, ..stores(cpu, at, difference) })
            },
            None => None,
        },
        Instruction::TestCell { value } => match cell_at(base, cells, cpu.r13) {
            Some(at) => Some(Cpu { zero: cpu.memory[at] == value, ..cpu }),
            None => None,
        },
        Instruction::StoreCell { value } => match cell_at(base, cells, cpu.r13) {
            Some(at) => Some(stores(cpu, at, value)),
            None => None,
        },
        Instruction::JumpIfZero { displacement } => if cpu.zero {
            Some(Cpu { pc: cpu.pc + displacement, ..cpu })
        } else {
            Some(cpu)
        },
        Instruction::JumpIfNotZero { displacement } => if !cpu.zero {
            Some(Cpu { pc: cpu.pc + displacement, ..cpu })
        } else {
            Some(cpu)
        },
        Instruction::CopyPointerToTarget => Some(Cpu { r14: cpu.r13, ..cpu }),
        Instruction::CopyPointerToBuffer => Some(Cpu { rsi: cpu.r13, ..cpu }),
        Instruction::LoadCell => match cell_at(base, cells, cpu.r13) {
            Some(at) => Some(Cpu { rax: cpu.memory[at] as int, ..cpu }),
            None => None,
        },
        Instruction::AddToTarget => match cell_at(base, cells, cpu.r14) {
            Some(at) => {
                let sum = (cpu.memory[at] + cpu.rax % 256) % 256;
                Some(Cpu { zero: sum == 0, ..stores(cpu, at, sum) })
            },
            None => None,
        },
        Instruction::SetCall { number } => Some(Cpu { rax: wrap64(number), ..cpu }),
        Instruction::SetChannel { number } => Some(Cpu { rdi: wrap64(number), ..cpu }),
        Instruction::SetLength { number } => Some(Cpu { rdx: wrap64(number), ..cpu }),
        Instruction::SystemCall => match cell_at(base, cells, cpu.rsi) {
            Some(at) => if cpu.rax == 0 && cpu.rdi == 0 && cpu.rdx == 1 {
                if cpu.input.len() > 0 {
                    Some(
                        Cpu {
                            rax: 1,
                            input: cpu.input.drop_first(),
                            ..stores(cpu, at, cpu.input[0] as int)
                        },
                    )
                } else {
                    Some(Cpu { rax: 0, ..cpu })
                }
            } else if cpu.rax == 1 && cpu.rdi == 1 && cpu.rdx == 1 {
                Some(Cpu { rax: 1, output: cpu.output.push(cpu.memory[at]), ..cpu })
            } else {
                None
            },
            None => None,
        },
        Instruction::Return => None,
    }
}

/// One instruction: the processor decodes the instruction at `cpu.pc` of
/// the routine `code`, moves on behind it, and does what it says; a jump
/// that is taken then counts from there.
pub open spec fn execute(code: Seq<u8>, base: int, cpu: Cpu) -> Option<Cpu> {
    match decode(code, cpu.pc) {
        Some(i) => perform(i, base, Cpu { pc: cpu.pc + width(i), ..cpu }),
        None => None,
    }
}

/// Whether the instruction at `pc` is the return.
pub open spec fn at_return(code: Seq<u8>, pc: int) -> bool {
    byte(code, pc) == 0xC3
}

/// Up to `fuel` instructions from `cpu`. The run stops for good at the
/// return; it has no result where an instruction has none.
pub open spec fn executes(code: Seq<u8>, base: int, cpu: Cpu, fuel: nat) -> Option<Cpu>
    decreases fuel,
{
    if at_return(code, cpu.pc) || fuel == 0 {
        Some(cpu)
    } else {
        match execute(code, base, cpu) {
            Some(next) => executes(code, base, next, (fuel - 1) as nat),
            None => None,
        }
    }
}

/// Whether the routine `code`, run from `start`, comes to its return with
/// the processor `end`.
pub open spec fn comes_back(code: Seq<u8>, base: int, start: Cpu, end: Cpu) -> bool {
    at_return(code, end.pc) && exists|fuel: nat| executes(code, base, start, fuel) == Some(end)
}

/// Whether the bytes `bytes` stand in `code` at `pc`.
pub open spec fn has_bytes(code: Seq<u8>, pc: int, bytes: Seq<u8>) -> bool {
    &&& 0 <= pc
    &&& pc + bytes.len() <= code.len()
    &&& code.subrange(pc, pc + bytes.len()) == bytes
}

/// A signed 32-bit number comes back from its field as it went in.
pub proof fn lemma_immediate(code: Seq<u8>, pc: int, v: int)
    requires
        fits32(v),
        has_bytes(code, pc, le_bytes(wrap32(v), 4)),
    ensures
        immediate(code, pc) == v,
{
    let pattern = wrap32(v);
    lemma_le_bytes_len(pattern, 4);
    lemma_le_roundtrip(pattern, 4);
    assert(byte_range(4) == 0x1_0000_0000) by {
        reveal_with_fuel(byte_range, 5);
    }
    assert(code.subrange(pc, pc + 4) == le_bytes(pattern, 4));
    assert(field(code, pc, 4) == pattern % 0x1_0000_0000);
    assert(field(code, pc, 4) == pattern);
    assert(signed32(pattern) == v);
}

/// Where part of some bytes stands in them, it stands in any code that
/// holds the bytes.
pub proof fn lemma_has_part(code: Seq<u8>, pc: int, bytes: Seq<u8>, offset: int, part: Seq<u8>)
    requires
        has_bytes(code, pc, bytes),
        has_bytes(bytes, offset, part),
    ensures
        has_bytes(code, pc + offset, part),
{
    assert(code.subrange(pc + offset, pc + offset + part.len()) =~= bytes.subrange(
        offset,
        offset + part.len(),
    ));
}

/// The bytes of an instruction decode to the instruction.
pub proof fn lemma_decode(code: Seq<u8>, pc: int, i: Instruction)
    requires
        encodable(i),
        has_bytes(code, pc, encoding(i)),
    ensures
        decode(code, pc) == Some(i),
        encoding(i).len() == width(i),
{
    let bytes = encoding(i);
    assert forall|j: int| 0 <= j < bytes.len() implies code[pc + j] == #[trigger] bytes[j] by {
        assert(code.subrange(pc, pc + bytes.len())[j] == code[pc + j]);
    }
    match i {
        Instruction::LoadPointer { address } => {
            lemma_le_bytes_len(address as nat, 8);
            lemma_le_roundtrip(address as nat, 8);
            reveal_with_fuel(byte_range, 9);
            assert(bytes.subrange(2, 10) =~= le_bytes(address as nat, 8));
            lemma_has_part(code, pc, bytes, 2, le_bytes(address as nat, 8));
            assert(byte(code, pc) == bytes[0] && byte(code, pc + 1) == bytes[1]);
            assert(byte_range(8) == 0x1_0000_0000_0000_0000);
            assert(field(code, pc + 2, 8) == address);
        },
        Instruction::AddPointer { delta }
        | Instruction::SubPointer { delta }
        | Instruction::AddTarget { delta }
        | Instruction::SubTarget { delta } => {
            lemma_le_bytes_len(wrap32(delta), 4);
            assert(bytes.subrange(3, 7) =~= le_bytes(wrap32(delta), 4));
            lemma_has_part(code, pc, bytes, 3, le_bytes(wrap32(delta), 4));
            lemma_immediate(code, pc + 3, delta);
            assert(byte(code, pc) == bytes[0] && byte(code, pc + 1) == bytes[1] && byte(
                code,
                pc + 2,
            ) == bytes[2]);
        },
        Instruction::SetCall { number }
        | Instruction::SetChannel { number }
        | Instruction::SetLength { number } => {
            lemma_le_bytes_len(wrap32(number), 4);
            assert(bytes.subrange(3, 7) =~= le_bytes(wrap32(number), 4));
            lemma_has_part(code, pc, bytes, 3, le_bytes(wrap32(number), 4));
            lemma_immediate(code, pc + 3, number);
            assert(byte(code, pc) == bytes[0] && byte(code, pc + 1) == bytes[1] && byte(
                code,
                pc + 2,
            ) == bytes[2]);
        },
        Instruction::JumpIfZero { displacement }
        | Instruction::JumpIfNotZero { displacement } => {
            lemma_le_bytes_len(wrap32(displacement), 4);
            assert(bytes.subrange(2, 6) =~= le_bytes(wrap32(displacement), 4));
            lemma_has_part(code, pc, bytes, 2, le_bytes(wrap32(displacement), 4));
            lemma_immediate(code, pc + 2, displacement);
            assert(byte(code, pc) == bytes[0] && byte(code, pc + 1) == bytes[1]);
        },
        Instruction::AddCell { .. }
        | Instruction::SubCell { .. }
        | Instruction::TestCell { .. }
        | Instruction::StoreCell { .. }
        | Instruction::LoadCell => {
            assert(byte(code, pc) == bytes[0] && byte(code, pc + 1) == bytes[1] && byte(
                code,
                pc + 2,
            ) == bytes[2] && byte(code, pc + 3) == bytes[3] && byte(code, pc + 4) == bytes[4]);
        },
        Instruction::CopyPointerToTarget
        | Instruction::CopyPointerToBuffer
        | Instruction::AddToTarget => {
            assert(byte(code, pc) == bytes[0] && byte(code, pc + 1) == bytes[1] && byte(
                code,
                pc + 2,
            ) == bytes[2]);
        },
        Instruction::SystemCall => {
            assert(byte(code, pc) == bytes[0] && byte(code, pc + 1) == bytes[1]);
        },
        Instruction::Return => {
            assert(byte(code, pc) == bytes[0]);
        },
    }
}

/// Running some instructions and then some more is running them all at
/// once.
pub proof fn lemma_executes_split(code: Seq<u8>, base: int, cpu: Cpu, first: nat, then: nat)
    requires
        executes(code, base, cpu, first) is Some,
    ensures
        executes(code, base, cpu, first + then) == executes(
            code,
            base,
            executes(code, base, cpu, first)->0,
            then,
        ),
    decreases first,
{
    if !at_return(code, cpu.pc) && first > 0 {
        lemma_executes_split(code, base, execute(code, base, cpu)->0, (first - 1) as nat, then);
    }
}

} // verus!
