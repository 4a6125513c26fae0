//! The native code generator: x86-64 machine code for an op list.
//!
//! The generated routine keeps the tape pointer in `r13`. Every op becomes a
//! fixed instruction sequence; only the displacement fields of the two jump
//! ops depend on where the matching op lies.

use crate::code::{
    le_bytes, lemma_le_bytes_len, lemma_spliced_inside, spliced, wrap32, MachineCode,
};
use crate::execution::{lemma_compile_sound, runs_as};
use crate::ir::{
    balanced, depth, is_close, is_matched_close, is_open, lemma_close_from, lemma_match,
    lemma_open_or_closed, linked, match_close, match_open, open_loops, repeats, well_formed,
    BfOp, BfOpKind,
};
use vstd::prelude::*;

verus! {

/// Why an op list has no machine code.
#[derive(Clone, Copy, Debug, PartialEq, Eq, Structural)]
pub enum CompileError {
    /// The op at `index` closes a loop that was never opened.
    UnmatchedClose { index: usize },
    /// The op at `index` opens a loop that is never closed; it is the
    /// outermost such op.
    UnmatchedOpen { index: usize },
    /// The loop that the op at `index` closes is longer than a 32-bit
    /// displacement can span.
    JumpTooFar { index: usize },
}

/// The largest distance that a jump can span.
pub const MAX_DISPLACEMENT: usize = 0x7fff_ffff;

/// `movabs r13, tape_base`.
pub open spec fn prologue(tape_base: u64) -> Seq<u8> {
    seq![0x49u8, 0xBDu8] + le_bytes(tape_base as nat, 8)
}

/// `ret`.
pub open spec fn epilogue() -> Seq<u8> {
    seq![0xC3u8]
}

/// `cmp byte [r13], 0`.
pub open spec fn test_cell() -> Seq<u8> {
    seq![0x41u8, 0x80u8, 0x7Du8, 0x00u8, 0x00u8]
}

/// `jz` with a 32-bit displacement, counted from the end of the
/// instruction.
pub open spec fn jump_if_zero(displacement: int) -> Seq<u8> {
    seq![0x0Fu8, 0x84u8] + le_bytes(wrap32(displacement), 4)
}

/// `jnz` with a 32-bit displacement, counted from the end of the
/// instruction.
pub open spec fn jump_if_not_zero(displacement: int) -> Seq<u8> {
    seq![0x0Fu8, 0x85u8] + le_bytes(wrap32(displacement), 4)
}

/// `add reg, delta` for a 64-bit register, with a 32-bit immediate that the
/// processor sign-extends. `add_modrm` selects the register for `add`,
/// `sub_modrm` for `sub`. A negative `delta` is encoded as a subtraction of
/// its magnitude, except the one value whose magnitude has no 32-bit form.
pub open spec fn adjust_register(add_modrm: u8, sub_modrm: u8, delta: i32) -> Seq<u8> {
    if delta >= 0 || delta == i32::MIN {
        seq![0x49u8, 0x81u8, add_modrm] + le_bytes(wrap32(delta as int), 4)
    } else {
        seq![0x49u8, 0x81u8, sub_modrm] + le_bytes((-delta) as nat, 4)
    }
}

/// One system call that transfers the byte at `r13`: `mov rax, number`,
/// `mov rdi, channel`, `mov rsi, r13`, `mov rdx, 1`, `syscall`.
pub open spec fn transfer_byte(number: u8, channel: u8) -> Seq<u8> {
    seq![
        0x48u8, 0xC7u8, 0xC0u8, number, 0x00u8, 0x00u8, 0x00u8,
        0x48u8, 0xC7u8, 0xC7u8, channel, 0x00u8, 0x00u8, 0x00u8,
        0x4Cu8, 0x89u8, 0xEEu8,
        0x48u8, 0xC7u8, 0xC2u8, 0x01u8, 0x00u8, 0x00u8, 0x00u8,
        0x0Fu8, 0x05u8,
    ]
}

/// `times` copies of `bytes`, one behind the other.
pub open spec fn repeated(bytes: Seq<u8>, times: nat) -> Seq<u8>
    decreases times,
{
    if times == 0 {
        Seq::empty()
    } else {
        repeated(bytes, (times - 1) as nat) + bytes
    }
}

/// The machine code of an op that is no jump.
pub open spec fn plain_code(op: BfOp) -> Seq<u8> {
    match op.kind {
        // add r13, n
        BfOpKind::IncPtr => seq![0x49u8, 0x81u8, 0xC5u8] + le_bytes(wrap32(op.argument as int), 4),
        // sub r13, n
        BfOpKind::DecPtr => seq![0x49u8, 0x81u8, 0xEDu8] + le_bytes(wrap32(op.argument as int), 4),
        // add byte [r13], n mod 256
        BfOpKind::IncData => seq![0x41u8, 0x80u8, 0x45u8, 0x00u8, (op.argument % 256) as u8],
        // sub byte [r13], n mod 256
        BfOpKind::DecData => seq![0x41u8, 0x80u8, 0x6Du8, 0x00u8, (op.argument % 256) as u8],
        // read(0, r13, 1), once for each repeat
        BfOpKind::ReadStdin => repeated(transfer_byte(0, 0), repeats(op.argument)),
        // write(1, r13, 1), once for each repeat
        BfOpKind::WriteStdout => repeated(transfer_byte(1, 1), repeats(op.argument)),
        // mov byte [r13], 0
        BfOpKind::LoopSetToZero => seq![0x41u8, 0xC6u8, 0x45u8, 0x00u8, 0x00u8],
        // skip if the cell is zero; else move r13 and test again
        BfOpKind::LoopMovePtr => test_cell() + jump_if_zero(18) + adjust_register(
            0xC5,
            0xED,
            op.argument,
        ) + test_cell() + jump_if_not_zero(-18),
        // skip if the cell is zero; else r14 = r13 + offset,
        // movzx rax, byte [r13]; add [r14], al; mov byte [r13], 0
        BfOpKind::LoopMoveData => test_cell() + jump_if_zero(23) + seq![0x4Du8, 0x89u8, 0xEEu8]
            + adjust_register(0xC6, 0xEE, op.argument) + seq![
            0x49u8, 0x0Fu8, 0xB6u8, 0x45u8, 0x00u8,
            0x41u8, 0x00u8, 0x06u8,
            0x41u8, 0xC6u8, 0x45u8, 0x00u8, 0x00u8,
        ],
        _ => Seq::empty(),
    }
}

/// The number of bytes that the code of `op` takes.
pub open spec fn op_size(op: BfOp) -> nat {
    match op.kind {
        BfOpKind::IncPtr | BfOpKind::DecPtr => 7,
        BfOpKind::IncData | BfOpKind::DecData | BfOpKind::LoopSetToZero => 5,
        BfOpKind::ReadStdin | BfOpKind::WriteStdout => 26 * repeats(op.argument),
        BfOpKind::LoopMovePtr => 29,
        BfOpKind::LoopMoveData => 34,
        BfOpKind::JumpIfDataZero | BfOpKind::JumpIfDataNotZero => 11,
    }
}

/// The offset in the routine at which op `k` starts; for `k` the length of
/// `ops`, where the epilogue starts.
pub open spec fn op_start(ops: Seq<BfOp>, k: int) -> nat
    decreases k,
{
    if k <= 0 {
        10
    } else {
        op_start(ops, k - 1) + op_size(ops[k - 1])
    }
}

/// The distance that the jumps of the loop closed at `j` span: from the end
/// of the opening's instructions to the end of the closing's.
pub open spec fn loop_span(ops: Seq<BfOp>, j: int) -> int {
    op_start(ops, j + 1) - op_start(ops, match_open(ops, j) + 1)
}

/// The machine code of op `k` once the first `n` ops have been generated. A
/// loop opening whose closing lies at `n` or later still has a displacement
/// of zero.
pub open spec fn op_code(ops: Seq<BfOp>, k: int, n: int) -> Seq<u8> {
    if is_open(ops[k]) {
        let j = match_close(ops, k);
        test_cell() + jump_if_zero(
            if j < n {
                loop_span(ops, j)
            } else {
                0
            },
        )
    } else if is_close(ops[k]) {
        test_cell() + jump_if_not_zero(
            if is_matched_close(ops, k) {
                -loop_span(ops, k)
            } else {
                0
            },
        )
    } else {
        plain_code(ops[k])
    }
}

/// The machine code of the first `m` ops once the first `n` ops have been
/// generated.
pub open spec fn body(ops: Seq<BfOp>, m: int, n: int) -> Seq<u8>
    decreases m,
{
    if m <= 0 {
        Seq::empty()
    } else {
        body(ops, m - 1, n) + op_code(ops, m - 1, n)
    }
}

/// The whole routine for `ops`: the prologue that loads the tape's address,
/// each op's code in order, and the return.
pub open spec fn machine_code(ops: Seq<BfOp>, tape_base: u64) -> Seq<u8> {
    prologue(tape_base) + body(ops, ops.len() as int, ops.len() as int) + epilogue()
}

/// What is wrong with op `j` by itself, given the ops in front of it.
pub open spec fn op_fault(ops: Seq<BfOp>, j: int) -> Option<CompileError> {
    if !is_close(ops[j]) {
        None
    } else if depth(ops, j) == 0 {
        Some(CompileError::UnmatchedClose { index: j as usize })
    } else if loop_span(ops, j) > MAX_DISPLACEMENT {
        Some(CompileError::JumpTooFar { index: j as usize })
    } else {
        None
    }
}

/// The fault of the first faulty op among the first `n`.
pub open spec fn first_fault(ops: Seq<BfOp>, n: int) -> Option<CompileError>
    decreases n,
{
    if n <= 0 {
        None
    } else {
        match first_fault(ops, n - 1) {
            Some(e) => Some(e),
            None => op_fault(ops, n - 1),
        }
    }
}

/// Whether every loop of `ops` is short enough for its jumps.
pub open spec fn jumps_in_range(ops: Seq<BfOp>) -> bool {
    forall|j: int|
        0 <= j < ops.len() && is_close(#[trigger] ops[j]) ==> loop_span(ops, j) <= MAX_DISPLACEMENT
}

/// What [`compile`] returns for `ops`.
pub open spec fn compile_spec(ops: Seq<BfOp>, tape_base: u64) -> Result<Seq<u8>, CompileError> {
    match first_fault(ops, ops.len() as int) {
        Some(e) => Err(e),
        None => if depth(ops, ops.len() as int) > 0 {
            Err(
                CompileError::UnmatchedOpen {
                    index: open_loops(ops, ops.len() as int)[0] as usize,
                },
            )
        } else {
            Ok(machine_code(ops, tape_base))
        },
    }
}

/// The immediate for a 32-bit field that holds `n`.
fn immediate(n: i32) -> (imm: u32)
    ensures
        imm == wrap32(n as int),
{
    if n >= 0 {
        n as u32
    } else {
        (n as i64 + 0x1_0000_0000) as u32
    }
}

/// The immediate for an 8-bit field that holds `n` modulo 256.
fn low_byte(n: i32) -> (imm: u8)
    ensures
        imm == n % 256,
{
    if n >= 0 {
        (n % 256) as u8
    } else {
        let m: i64 = (-(n as i64)) % 256;
        if m == 0 {
            0
        } else {
            (256 - m) as u8
        }
    }
}

/// Appends the instruction that adds `delta` to a register.
fn emit_adjust_register(code: &mut MachineCode, add_modrm: u8, sub_modrm: u8, delta: i32)
    ensures
        final(code)@ == old(code)@ + adjust_register(add_modrm, sub_modrm, delta),
{
    if delta >= 0 || delta == i32::MIN {
        code.emit_bytes(&[0x49, 0x81, add_modrm]);
        code.emit_u32(immediate(delta));
    } else {
        code.emit_bytes(&[0x49, 0x81, sub_modrm]);
        code.emit_u32((-delta) as u32);
    }
    assert(code@ =~= old(code)@ + adjust_register(add_modrm, sub_modrm, delta));
}

/// Appends the test of the current cell against zero.
fn emit_test_cell(code: &mut MachineCode)
    ensures
        final(code)@ == old(code)@ + test_cell(),
{
    code.emit_bytes(&[0x41, 0x80, 0x7D, 0x00, 0x00]);
    assert(code@ =~= old(code)@ + test_cell());
}

/// Appends one system call that transfers the byte at the tape pointer.
fn emit_transfer_byte(code: &mut MachineCode, number: u8, channel: u8)
    ensures
        final(code)@ == old(code)@ + transfer_byte(number, channel),
{
    code.emit_bytes(
        &[
            0x48, 0xC7, 0xC0, number, 0x00, 0x00, 0x00,
            0x48, 0xC7, 0xC7, channel, 0x00, 0x00, 0x00,
            0x4C, 0x89, 0xEE,
            0x48, 0xC7, 0xC2, 0x01, 0x00, 0x00, 0x00,
            0x0F, 0x05,
        ],
    );
    assert(code@ =~= old(code)@ + transfer_byte(number, channel));
}

/// Appends one system call for each repeat of `count`.
fn emit_transfers(code: &mut MachineCode, number: u8, channel: u8, count: i32)
    ensures
        final(code)@ == old(code)@ + repeated(transfer_byte(number, channel), repeats(count)),
{
    let mut done: i32 = 0;
    assert(code@ =~= old(code)@ + repeated(transfer_byte(number, channel), 0));
    while done < count
        invariant
            0 <= done <= repeats(count),
            code@ == old(code)@ + repeated(transfer_byte(number, channel), done as nat),
        decreases count - done,
    {
        emit_transfer_byte(code, number, channel);
        done += 1;
        assert(code@ =~= old(code)@ + repeated(transfer_byte(number, channel), done as nat));
    }
}

/// Appends the code of an op that is no jump.
fn emit_plain(code: &mut MachineCode, op: BfOp)
    requires
        !is_open(op),
        !is_close(op),
    ensures
        final(code)@ == old(code)@ + plain_code(op),
{
    match op.kind {
        BfOpKind::IncPtr => {
            code.emit_bytes(&[0x49, 0x81, 0xC5]);
            code.emit_u32(immediate(op.argument));
        },
        BfOpKind::DecPtr => {
            code.emit_bytes(&[0x49, 0x81, 0xED]);
            code.emit_u32(immediate(op.argument));
        },
        BfOpKind::IncData => {
            code.emit_bytes(&[0x41, 0x80, 0x45, 0x00, low_byte(op.argument)]);
        },
        BfOpKind::DecData => {
            code.emit_bytes(&[0x41, 0x80, 0x6D, 0x00, low_byte(op.argument)]);
        },
        BfOpKind::ReadStdin => {
            emit_transfers(code, 0, 0, op.argument);
        },
        BfOpKind::WriteStdout => {
            emit_transfers(code, 1, 1, op.argument);
        },
        BfOpKind::LoopSetToZero => {
            code.emit_bytes(&[0x41, 0xC6, 0x45, 0x00, 0x00]);
        },
        BfOpKind::LoopMovePtr => {
            emit_test_cell(code);
            code.emit_bytes(&[0x0F, 0x84]);
            code.emit_u32(18);
            emit_adjust_register(code, 0xC5, 0xED, op.argument);
            emit_test_cell(code);
            code.emit_bytes(&[0x0F, 0x85]);
            code.emit_u32(0xFFFF_FFEE);
        },
        BfOpKind::LoopMoveData => {
            emit_test_cell(code);
            code.emit_bytes(&[0x0F, 0x84]);
            code.emit_u32(23);
            code.emit_bytes(&[0x4D, 0x89, 0xEE]);
            emit_adjust_register(code, 0xC6, 0xEE, op.argument);
            code.emit_bytes(
                &[0x49, 0x0F, 0xB6, 0x45, 0x00, 0x41, 0x00, 0x06, 0x41, 0xC6, 0x45, 0x00, 0x00],
            );
        },
        _ => {},
    }
    assert(code@ =~= old(code)@ + plain_code(op));
}

/// Copies of a sequence take as many times its length.
pub proof fn lemma_repeated_len(bytes: Seq<u8>, times: nat)
    ensures
        repeated(bytes, times).len() == times * bytes.len(),
    decreases times,
{
    let t = times as int;
    let l = bytes.len() as int;
    if times > 0 {
        lemma_repeated_len(bytes, (times - 1) as nat);
        assert(repeated(bytes, (times - 1) as nat).len() == (t - 1) * l);
        assert(t * l == (t - 1) * l + l) by (nonlinear_arith);
    } else {
        assert(t * l == 0) by (nonlinear_arith)
            requires
                t == 0,
        ;
    }
}

/// Transfers of a byte, one behind the other, take 26 bytes each.
pub proof fn lemma_transfers_len(number: u8, channel: u8, times: nat)
    ensures
        repeated(transfer_byte(number, channel), times).len() == 26 * times,
    decreases times,
{
    if times > 0 {
        lemma_transfers_len(number, channel, (times - 1) as nat);
    }
}

/// Each op's code has the size that [`op_size`] names.
pub proof fn lemma_op_code_len(ops: Seq<BfOp>, k: int, n: int)
    requires
        0 <= k < ops.len(),
    ensures
        op_code(ops, k, n).len() == op_size(ops[k]),
{
    lemma_repeated_len(transfer_byte(0, 0), repeats(ops[k].argument));
    lemma_repeated_len(transfer_byte(1, 1), repeats(ops[k].argument));
    assert(transfer_byte(0, 0).len() == 26 && transfer_byte(1, 1).len() == 26);
    lemma_le_bytes_len(wrap32(18), 4);
    lemma_le_bytes_len(wrap32(-18), 4);
    lemma_le_bytes_len(wrap32(23), 4);
    lemma_le_bytes_len(wrap32(ops[k].argument as int), 4);
    lemma_le_bytes_len((-ops[k].argument) as nat, 4);
    if is_open(ops[k]) {
        let j = match_close(ops, k);
        lemma_le_bytes_len(wrap32(loop_span(ops, j)), 4);
        lemma_le_bytes_len(wrap32(0), 4);
    } else if is_close(ops[k]) {
        lemma_le_bytes_len(wrap32(-loop_span(ops, k)), 4);
        lemma_le_bytes_len(wrap32(0), 4);
    }
}

/// The code of the first `m` ops ends where op `m` starts.
pub proof fn lemma_body_len(ops: Seq<BfOp>, m: int, n: int)
    requires
        0 <= m <= ops.len(),
    ensures
        10 + body(ops, m, n).len() == op_start(ops, m),
    decreases m,
{
    if m > 0 {
        lemma_body_len(ops, m - 1, n);
        lemma_op_code_len(ops, m - 1, n);
    }
}

/// Ops start in the order in which they stand.
pub proof fn lemma_op_start_rises(ops: Seq<BfOp>, a: int, b: int)
    requires
        0 <= a <= b,
    ensures
        op_start(ops, a) <= op_start(ops, b),
    decreases b,
{
    if a < b {
        lemma_op_start_rises(ops, a, b - 1);
    }
}

/// Generating op `n` changes the code of an earlier op `k` only if `n`
/// closes the loop that `k` opens.
proof fn lemma_op_code_step(ops: Seq<BfOp>, k: int, n: int)
    requires
        0 <= k < n < ops.len(),
        !(is_matched_close(ops, n) && match_open(ops, n) == k),
    ensures
        op_code(ops, k, n + 1) == op_code(ops, k, n),
{
    lemma_close_from(ops, k, k + 1);
}

/// Generating op `n` leaves the code in front of the loop that it closes, if
/// any, as it was.
proof fn lemma_body_step_unchanged(ops: Seq<BfOp>, m: int, n: int)
    requires
        0 <= m <= n < ops.len(),
        is_matched_close(ops, n) ==> m <= match_open(ops, n),
    ensures
        body(ops, m, n + 1) == body(ops, m, n),
    decreases m,
{
    if m > 0 {
        lemma_body_step_unchanged(ops, m - 1, n);
        lemma_op_code_step(ops, m - 1, n);
    }
}

/// Generating a closing at `n` changes the code in front of it in one place:
/// the displacement field of the matching opening now holds the loop's span.
proof fn lemma_body_step_patched(ops: Seq<BfOp>, m: int, n: int)
    requires
        is_matched_close(ops, n),
        match_open(ops, n) < m <= n,
    ensures
        body(ops, m, n + 1) == spliced(
            body(ops, m, n),
            op_start(ops, match_open(ops, n)) - 3,
            op_start(ops, match_open(ops, n)) as int + 1,
            le_bytes(wrap32(loop_span(ops, n)), 4),
        ),
    decreases m,
{
    let i = match_open(ops, n);
    let field = le_bytes(wrap32(loop_span(ops, n)), 4);
    lemma_match(ops, n);
    lemma_le_bytes_len(wrap32(loop_span(ops, n)), 4);
    lemma_le_bytes_len(wrap32(0), 4);
    lemma_body_len(ops, i, n);
    lemma_body_len(ops, m - 1, n);
    if m - 1 == i {
        lemma_body_step_unchanged(ops, i, n);
        assert(op_code(ops, i, n + 1) == test_cell() + jump_if_zero(loop_span(ops, n)));
        assert(op_code(ops, i, n) == test_cell() + jump_if_zero(0));
        assert(body(ops, m, n + 1) =~= spliced(
            body(ops, m, n),
            op_start(ops, i) - 3,
            op_start(ops, i) as int + 1,
            field,
        ));
    } else {
        lemma_op_start_rises(ops, i + 1, m - 1);
        lemma_body_step_patched(ops, m - 1, n);
        lemma_op_code_step(ops, m - 1, n);
        assert(body(ops, m, n + 1) =~= spliced(
            body(ops, m, n),
            op_start(ops, i) - 3,
            op_start(ops, i) as int + 1,
            field,
        ));
    }
}

/// Once a fault has been found, later ops do not change it.
proof fn lemma_first_fault_stays(ops: Seq<BfOp>, n: int, m: int)
    requires
        0 <= n <= m,
        first_fault(ops, n) is Some,
    ensures
        first_fault(ops, m) == first_fault(ops, n),
    decreases m,
{
    if n < m {
        lemma_first_fault_stays(ops, n, m - 1);
    }
}

/// Generates the machine code for `ops`, for a tape that starts at the
/// address `tape_base`.
///
/// The op list must be balanced, and no loop may be longer than
/// [`MAX_DISPLACEMENT`] bytes; otherwise the first offending op is reported
/// and no code is returned.
#[verifier::rlimit(50)]
pub fn compile(ops: &[BfOp], tape_base: u64) -> (res: Result<MachineCode, CompileError>)
    ensures
        match res {
            Ok(code) => compile_spec(ops@, tape_base) == Ok::<Seq<u8>, CompileError>(code@),
            Err(e) => compile_spec(ops@, tape_base) == Err::<Seq<u8>, CompileError>(e),
        },
        res is Ok <==> balanced(ops@) && jumps_in_range(ops@),
        res matches Ok(code) ==> (well_formed(ops@) ==> runs_as(code@, tape_base, ops@)),
{
    proof {
        lemma_compile_succeeds(ops@, tape_base);
        if well_formed(ops@) && compile_spec(ops@, tape_base) is Ok {
            lemma_compile_sound(ops@, tape_base);
        }
    }
    let mut code = MachineCode::new();
    code.emit_bytes(&[0x49, 0xBD]);
    code.emit_u64(tape_base);
    proof {
        lemma_le_bytes_len(tape_base as nat, 8);
        assert(code@ =~= prologue(tape_base) + body(ops@, 0, 0));
    }
    // For each open loop, the op's index and the offset of its jump instruction.
    let mut open_sites: Vec<(usize, usize)> = Vec::new();
    let mut n: usize = 0;
    while n < ops.len()
        invariant
            n <= ops.len(),
            first_fault(ops@, n as int) is None,
            compile_spec(ops@, tape_base) is Ok <==> balanced(ops@) && jumps_in_range(ops@),
            compile_spec(ops@, tape_base) matches Ok(code) ==> (well_formed(ops@) ==> runs_as(
                code,
                tape_base,
                ops@,
            )),
            code@ == prologue(tape_base) + body(ops@, n as int, n as int),
            code@.len() == op_start(ops@, n as int),
            open_sites@.len() == depth(ops@, n as int),
            forall|t: int|
                0 <= t < open_sites@.len() ==> (#[trigger] open_sites@[t]).0 == open_loops(
                    ops@,
                    n as int,
                )[t] && open_sites@[t].1 == op_start(ops@, open_loops(ops@, n as int)[t]) + 5,
        decreases ops.len() - n,
    {
        let op = ops[n];
        let ghost before = code@;
        let ghost sites = open_sites@;
        proof {
            lemma_body_len(ops@, n as int, n as int);
            lemma_op_code_len(ops@, n as int, n as int + 1);
        }
        match op.kind {
            BfOpKind::JumpIfDataZero => {
                emit_test_cell(&mut code);
                open_sites.push((n, code.len()));
                code.emit_bytes(&[0x0F, 0x84]);
                code.emit_u32(0);
                proof {
                    lemma_close_from(ops@, n as int, n as int + 1);
                    lemma_body_step_unchanged(ops@, n as int, n as int);
                    assert(code@ =~= before + op_code(ops@, n as int, n as int + 1));
                    assert(open_loops(ops@, n as int + 1) == open_loops(ops@, n as int).push(
                        n as int,
                    ));
                }
            },
            BfOpKind::JumpIfDataNotZero => {
                match open_sites.pop() {
                    None => {
                        proof {
                            lemma_first_fault_stays(ops@, n as int + 1, ops@.len() as int);
                        }
                        return Err(CompileError::UnmatchedClose { index: n });
                    },
                    Some((_, site)) => {
                        proof {
                            lemma_match(ops@, n as int);
                            lemma_op_start_rises(ops@, match_open(ops@, n as int) + 1, n as int);
                            assert(site == op_start(ops@, match_open(ops@, n as int)) + 5);
                        }
                        emit_test_cell(&mut code);
                        let span: usize = code.len() - site;
                        assert(span == loop_span(ops@, n as int));
                        if span > MAX_DISPLACEMENT {
                            proof {
                                lemma_first_fault_stays(ops@, n as int + 1, ops@.len() as int);
                            }
                            return Err(CompileError::JumpTooFar { index: n });
                        }
                        let back: u32 = (0x1_0000_0000u64 - span as u64) as u32;
                        code.emit_bytes(&[0x0F, 0x85]);
                        code.emit_u32(back);
                        let ghost unpatched = code@;
                        code.replace_u32(site + 2, site + 6, span as u32);
                        proof {
                            let field = le_bytes(wrap32(span as int), 4);
                            let start = op_start(ops@, match_open(ops@, n as int)) as int;
                            let so_far = body(ops@, n as int, n as int);
                            let last = op_code(ops@, n as int, n as int + 1);
                            lemma_le_bytes_len(wrap32(span as int), 4);
                            lemma_body_step_patched(ops@, n as int, n as int);
                            assert(site == start + 5);
                            assert(start + 11 <= 10 + so_far.len());
                            assert(unpatched =~= prologue(tape_base) + so_far + last);
                            lemma_le_bytes_len(tape_base as nat, 8);
                            lemma_op_start_rises(ops@, 0, match_open(ops@, n as int));
                            lemma_spliced_inside(
                                prologue(tape_base),
                                so_far,
                                last,
                                site + 2,
                                site + 6,
                                field,
                            );
                            assert(code@ == prologue(tape_base) + spliced(
                                so_far,
                                start - 3,
                                start + 1,
                                field,
                            ) + last);
                            assert(open_loops(ops@, n as int + 1) == open_loops(
                                ops@,
                                n as int,
                            ).drop_last());
                        }
                    },
                }
            },
            _ => {
                emit_plain(&mut code, op);
                proof {
                    lemma_body_step_unchanged(ops@, n as int, n as int);
                    assert(code@ =~= before + op_code(ops@, n as int, n as int + 1));
                }
            },
        }
        proof {
            lemma_body_len(ops@, n as int + 1, n as int + 1);
        }
        n += 1;
    }
    if open_sites.len() > 0 {
        return Err(CompileError::UnmatchedOpen { index: open_sites[0].0 });
    }
    code.emit_byte(0xC3);
    assert(code@ =~= machine_code(ops@, tape_base));
    Ok(code)
}

/// No fault among the first `n` ops means no fault at any of them.
pub proof fn lemma_first_fault_none(ops: Seq<BfOp>, n: int)
    requires
        0 <= n,
    ensures
        first_fault(ops, n) is None <==> forall|j: int|
            0 <= j < n ==> #[trigger] op_fault(ops, j) is None,
    decreases n,
{
    if n > 0 {
        lemma_first_fault_none(ops, n - 1);
        if first_fault(ops, n) is None {
            assert forall|j: int| 0 <= j < n implies #[trigger] op_fault(ops, j) is None by {
                if j == n - 1 {
                }
            }
        } else {
            if first_fault(ops, n - 1) is None {
                assert(op_fault(ops, n - 1) is Some);
            }
        }
    }
}

/// There is machine code for exactly the op lists that are balanced and
/// whose loops are all short enough.
pub proof fn lemma_compile_succeeds(ops: Seq<BfOp>, tape_base: u64)
    ensures
        compile_spec(ops, tape_base) is Ok <==> balanced(ops) && jumps_in_range(ops),
{
    let len = ops.len() as int;
    lemma_first_fault_none(ops, len);
    if compile_spec(ops, tape_base) is Ok {
        assert forall|j: int| 0 <= j < len && is_close(#[trigger] ops[j]) implies depth(ops, j)
            > 0 && loop_span(ops, j) <= MAX_DISPLACEMENT by {
            assert(op_fault(ops, j) is None);
        }
    }
    if balanced(ops) && jumps_in_range(ops) {
        assert forall|j: int| 0 <= j < len implies #[trigger] op_fault(ops, j) is None by {
            if is_close(ops[j]) {
                assert(depth(ops, j) > 0);
                assert(loop_span(ops, j) <= MAX_DISPLACEMENT);
            }
        }
    }
}

/// Among ops whose closings all have an opening, the only fault is a loop
/// that is too long.
proof fn lemma_first_fault_matched(ops: Seq<BfOp>, n: int)
    requires
        0 <= n <= ops.len(),
        forall|j: int| 0 <= j < ops.len() && is_close(#[trigger] ops[j]) ==> depth(ops, j) > 0,
    ensures
        first_fault(ops, n) matches Some(e) ==> e is JumpTooFar,
    decreases n,
{
    if n > 0 {
        lemma_first_fault_matched(ops, n - 1);
    }
}

/// A balanced op list has machine code unless one of its loops is too long.
pub proof fn lemma_compile_balanced(ops: Seq<BfOp>, tape_base: u64)
    requires
        balanced(ops),
    ensures
        compile_spec(ops, tape_base) matches Err(e) ==> e is JumpTooFar,
{
    lemma_first_fault_matched(ops, ops.len() as int);
}

/// In the first `m` ops' code, the code of each op stands at the op's
/// start, less the prologue's length.
proof fn lemma_body_holds(ops: Seq<BfOp>, m: int, n: int, k: int)
    requires
        0 <= k < m <= ops.len(),
    ensures
        body(ops, m, n).subrange(op_start(ops, k) - 10, op_start(ops, k + 1) - 10) == op_code(
            ops,
            k,
            n,
        ),
    decreases m,
{
    lemma_body_len(ops, m - 1, n);
    lemma_body_len(ops, m, n);
    lemma_op_code_len(ops, m - 1, n);
    lemma_op_start_rises(ops, 0, k);
    lemma_op_start_rises(ops, k, k + 1);
    if k == m - 1 {
        assert(body(ops, m, n).subrange(op_start(ops, k) - 10, op_start(ops, k + 1) - 10)
            =~= op_code(ops, k, n));
    } else {
        lemma_body_holds(ops, m - 1, n, k);
        lemma_op_start_rises(ops, k + 1, m - 1);
        assert(body(ops, m, n).subrange(op_start(ops, k) - 10, op_start(ops, k + 1) - 10)
            =~= body(ops, m - 1, n).subrange(op_start(ops, k) - 10, op_start(ops, k + 1) - 10));
    }
}

/// In the finished routine, the code of each op stands at the op's start,
/// and the routine ends with the return behind the last op's code.
pub proof fn lemma_code_layout(ops: Seq<BfOp>, tape_base: u64, k: int)
    requires
        0 <= k < ops.len(),
    ensures
        machine_code(ops, tape_base).len() == op_start(ops, ops.len() as int) + 1,
        op_start(ops, k + 1) == op_start(ops, k) + op_size(ops[k]),
        op_start(ops, k + 1) <= op_start(ops, ops.len() as int),
        machine_code(ops, tape_base).subrange(
            op_start(ops, k) as int,
            op_start(ops, k + 1) as int,
        ) == op_code(ops, k, ops.len() as int),
{
    let len = ops.len() as int;
    lemma_le_bytes_len(tape_base as nat, 8);
    lemma_body_len(ops, len, len);
    lemma_body_holds(ops, len, len, k);
    lemma_op_start_rises(ops, k + 1, len);
    lemma_op_start_rises(ops, 0, k);
    assert(machine_code(ops, tape_base).subrange(
        op_start(ops, k) as int,
        op_start(ops, k + 1) as int,
    ) =~= body(ops, len, len).subrange(op_start(ops, k) - 10, op_start(ops, k + 1) - 10));
}

/// In the code of a well-formed op list, every jump leads to the start of
/// the op behind the jump that its argument names: the opening's jump to the
/// first byte behind the loop, the closing's jump to the first byte of the
/// loop's body. Each displacement is counted from the end of its own
/// instruction, which is the start of the next op.
pub proof fn lemma_jump_targets(ops: Seq<BfOp>, k: int)
    requires
        well_formed(ops),
        0 <= k < ops.len(),
    ensures
        is_open(ops[k]) ==> k < ops[k].argument < ops.len() && op_code(
            ops,
            k,
            ops.len() as int,
        ) == test_cell() + jump_if_zero(
            op_start(ops, ops[k].argument + 1) - op_start(ops, k + 1),
        ),
        is_close(ops[k]) ==> 0 <= ops[k].argument < k && op_code(ops, k, ops.len() as int)
            == test_cell() + jump_if_not_zero(
            op_start(ops, ops[k].argument + 1) - op_start(ops, k + 1),
        ),
{
    let len = ops.len() as int;
    assert(linked(ops, k));
    if is_open(ops[k]) {
        lemma_open_or_closed(ops, k, len);
        lemma_close_from(ops, k, k + 1);
    }
    if is_close(ops[k]) {
        assert(depth(ops, k) > 0);
        lemma_match(ops, k);
    }
}

} // verus!
