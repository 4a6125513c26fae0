use bf_jit::codegen::{compile, CompileError, MAX_DISPLACEMENT};
use bf_jit::ir::{BfOp, BfOpKind};

const BASE: u64 = 0x1122_3344_5566_7788;
const PROLOGUE: [u8; 10] = [0x49, 0xBD, 0x88, 0x77, 0x66, 0x55, 0x44, 0x33, 0x22, 0x11];
const TEST_CELL: [u8; 5] = [0x41, 0x80, 0x7D, 0x00, 0x00];
const WRITE: [u8; 26] = [
    0x48, 0xC7, 0xC0, 0x01, 0x00, 0x00, 0x00, 0x48, 0xC7, 0xC7, 0x01, 0x00, 0x00, 0x00, 0x4C,
    0x89, 0xEE, 0x48, 0xC7, 0xC2, 0x01, 0x00, 0x00, 0x00, 0x0F, 0x05,
];
const READ: [u8; 26] = [
    0x48, 0xC7, 0xC0, 0x00, 0x00, 0x00, 0x00, 0x48, 0xC7, 0xC7, 0x00, 0x00, 0x00, 0x00, 0x4C,
    0x89, 0xEE, 0x48, 0xC7, 0xC2, 0x01, 0x00, 0x00, 0x00, 0x0F, 0x05,
];

fn op(kind: BfOpKind, argument: i32) -> BfOp {
    BfOp { kind, argument }
}

/// The routine whose body is `parts`, one after the other.
fn routine(parts: &[&[u8]]) -> Vec<u8> {
    let mut bytes = PROLOGUE.to_vec();
    for part in parts {
        bytes.extend_from_slice(part);
    }
    bytes.push(0xC3);
    bytes
}

fn code_of(ops: &[BfOp]) -> Vec<u8> {
    compile(ops, BASE).unwrap().get().clone()
}

#[test]
fn no_ops_give_prologue_and_return() {
    assert_eq!(code_of(&[]), routine(&[]));
    assert_eq!(code_of(&[]).len(), 11);
}

#[test]
fn the_prologue_loads_the_tape_address() {
    let code = compile(&[], 0).unwrap();
    assert_eq!(code.get(), &vec![0x49, 0xBD, 0, 0, 0, 0, 0, 0, 0, 0, 0xC3]);
    let code = compile(&[], u64::MAX).unwrap();
    assert_eq!(
        code.get(),
        &vec![0x49, 0xBD, 0xFF, 0xFF, 0xFF, 0xFF, 0xFF, 0xFF, 0xFF, 0xFF, 0xC3]
    );
}

#[test]
fn pointer_moves() {
    assert_eq!(
        code_of(&[op(BfOpKind::IncPtr, 1)]),
        routine(&[&[0x49, 0x81, 0xC5, 0x01, 0x00, 0x00, 0x00]])
    );
    assert_eq!(
        code_of(&[op(BfOpKind::DecPtr, 2)]),
        routine(&[&[0x49, 0x81, 0xED, 0x02, 0x00, 0x00, 0x00]])
    );
    assert_eq!(
        code_of(&[op(BfOpKind::IncPtr, 0x1234_5678)]),
        routine(&[&[0x49, 0x81, 0xC5, 0x78, 0x56, 0x34, 0x12]])
    );
    assert_eq!(
        code_of(&[op(BfOpKind::DecPtr, i32::MAX)]),
        routine(&[&[0x49, 0x81, 0xED, 0xFF, 0xFF, 0xFF, 0x7F]])
    );
}

#[test]
fn a_negative_pointer_move_is_a_sign_extended_immediate() {
    assert_eq!(
        code_of(&[op(BfOpKind::IncPtr, -1)]),
        routine(&[&[0x49, 0x81, 0xC5, 0xFF, 0xFF, 0xFF, 0xFF]])
    );
    assert_eq!(
        code_of(&[op(BfOpKind::DecPtr, i32::MIN)]),
        routine(&[&[0x49, 0x81, 0xED, 0x00, 0x00, 0x00, 0x80]])
    );
}

#[test]
fn data_changes() {
    assert_eq!(
        code_of(&[op(BfOpKind::IncData, 3)]),
        routine(&[&[0x41, 0x80, 0x45, 0x00, 0x03]])
    );
    assert_eq!(
        code_of(&[op(BfOpKind::DecData, 4)]),
        routine(&[&[0x41, 0x80, 0x6D, 0x00, 0x04]])
    );
    assert_eq!(
        code_of(&[op(BfOpKind::IncData, 255)]),
        routine(&[&[0x41, 0x80, 0x45, 0x00, 0xFF]])
    );
}

#[test]
fn data_changes_are_taken_modulo_256() {
    assert_eq!(
        code_of(&[op(BfOpKind::IncData, 256)]),
        routine(&[&[0x41, 0x80, 0x45, 0x00, 0x00]])
    );
    assert_eq!(
        code_of(&[op(BfOpKind::IncData, 300)]),
        routine(&[&[0x41, 0x80, 0x45, 0x00, 0x2C]])
    );
    assert_eq!(
        code_of(&[op(BfOpKind::DecData, 65536 + 5)]),
        routine(&[&[0x41, 0x80, 0x6D, 0x00, 0x05]])
    );
    assert_eq!(
        code_of(&[op(BfOpKind::IncData, i32::MAX)]),
        routine(&[&[0x41, 0x80, 0x45, 0x00, 0xFF]])
    );
    assert_eq!(
        code_of(&[op(BfOpKind::IncData, -1)]),
        routine(&[&[0x41, 0x80, 0x45, 0x00, 0xFF]])
    );
    assert_eq!(
        code_of(&[op(BfOpKind::DecData, -256)]),
        routine(&[&[0x41, 0x80, 0x6D, 0x00, 0x00]])
    );
    assert_eq!(
        code_of(&[op(BfOpKind::DecData, i32::MIN)]),
        routine(&[&[0x41, 0x80, 0x6D, 0x00, 0x00]])
    );
}

#[test]
fn reads_and_writes_are_system_calls() {
    assert_eq!(code_of(&[op(BfOpKind::WriteStdout, 1)]), routine(&[&WRITE]));
    assert_eq!(code_of(&[op(BfOpKind::ReadStdin, 1)]), routine(&[&READ]));
}

#[test]
fn reads_and_writes_are_repeated() {
    assert_eq!(code_of(&[op(BfOpKind::WriteStdout, 2)]), routine(&[&WRITE, &WRITE]));
    assert_eq!(code_of(&[op(BfOpKind::ReadStdin, 3)]), routine(&[&READ, &READ, &READ]));
    assert_eq!(code_of(&[op(BfOpKind::WriteStdout, 0)]), routine(&[]));
    assert_eq!(code_of(&[op(BfOpKind::ReadStdin, -4)]), routine(&[]));
}

#[test]
fn set_to_zero_is_one_store() {
    assert_eq!(
        code_of(&[op(BfOpKind::LoopSetToZero, 0)]),
        routine(&[&[0x41, 0xC6, 0x45, 0x00, 0x00]])
    );
}

#[test]
fn move_pointer_up() {
    assert_eq!(
        code_of(&[op(BfOpKind::LoopMovePtr, 3)]),
        routine(&[
            &TEST_CELL,
            &[0x0F, 0x84, 0x12, 0x00, 0x00, 0x00],
            &[0x49, 0x81, 0xC5, 0x03, 0x00, 0x00, 0x00],
            &TEST_CELL,
            &[0x0F, 0x85, 0xEE, 0xFF, 0xFF, 0xFF],
        ])
    );
}

#[test]
fn move_pointer_down() {
    assert_eq!(
        code_of(&[op(BfOpKind::LoopMovePtr, -3)]),
        routine(&[
            &TEST_CELL,
            &[0x0F, 0x84, 0x12, 0x00, 0x00, 0x00],
            &[0x49, 0x81, 0xED, 0x03, 0x00, 0x00, 0x00],
            &TEST_CELL,
            &[0x0F, 0x85, 0xEE, 0xFF, 0xFF, 0xFF],
        ])
    );
}

#[test]
fn move_pointer_by_the_lowest_distance() {
    assert_eq!(
        code_of(&[op(BfOpKind::LoopMovePtr, i32::MIN)]),
        routine(&[
            &TEST_CELL,
            &[0x0F, 0x84, 0x12, 0x00, 0x00, 0x00],
            &[0x49, 0x81, 0xC5, 0x00, 0x00, 0x00, 0x80],
            &TEST_CELL,
            &[0x0F, 0x85, 0xEE, 0xFF, 0xFF, 0xFF],
        ])
    );
    assert_eq!(
        code_of(&[op(BfOpKind::LoopMovePtr, -i32::MAX)]),
        routine(&[
            &TEST_CELL,
            &[0x0F, 0x84, 0x12, 0x00, 0x00, 0x00],
            &[0x49, 0x81, 0xED, 0xFF, 0xFF, 0xFF, 0x7F],
            &TEST_CELL,
            &[0x0F, 0x85, 0xEE, 0xFF, 0xFF, 0xFF],
        ])
    );
}

#[test]
fn move_data_up() {
    assert_eq!(
        code_of(&[op(BfOpKind::LoopMoveData, 2)]),
        routine(&[
            &TEST_CELL,
            &[0x0F, 0x84, 0x17, 0x00, 0x00, 0x00],
            &[0x4D, 0x89, 0xEE],
            &[0x49, 0x81, 0xC6, 0x02, 0x00, 0x00, 0x00],
            &[0x49, 0x0F, 0xB6, 0x45, 0x00],
            &[0x41, 0x00, 0x06],
            &[0x41, 0xC6, 0x45, 0x00, 0x00],
        ])
    );
}

#[test]
fn move_data_down() {
    assert_eq!(
        code_of(&[op(BfOpKind::LoopMoveData, -2)]),
        routine(&[
            &TEST_CELL,
            &[0x0F, 0x84, 0x17, 0x00, 0x00, 0x00],
            &[0x4D, 0x89, 0xEE],
            &[0x49, 0x81, 0xEE, 0x02, 0x00, 0x00, 0x00],
            &[0x49, 0x0F, 0xB6, 0x45, 0x00],
            &[0x41, 0x00, 0x06],
            &[0x41, 0xC6, 0x45, 0x00, 0x00],
        ])
    );
}

#[test]
fn op_sizes() {
    let sizes = [
        (op(BfOpKind::IncPtr, 1), 7),
        (op(BfOpKind::DecPtr, 1), 7),
        (op(BfOpKind::IncData, 1), 5),
        (op(BfOpKind::DecData, 1), 5),
        (op(BfOpKind::ReadStdin, 1), 26),
        (op(BfOpKind::WriteStdout, 1), 26),
        (op(BfOpKind::WriteStdout, 5), 130),
        (op(BfOpKind::LoopSetToZero, 0), 5),
        (op(BfOpKind::LoopMovePtr, 1), 29),
        (op(BfOpKind::LoopMoveData, 1), 34),
    ];
    for (one, size) in sizes {
        assert_eq!(code_of(&[one]).len(), 10 + size + 1);
    }
    let pair = [op(BfOpKind::JumpIfDataZero, 1), op(BfOpKind::JumpIfDataNotZero, 0)];
    assert_eq!(code_of(&pair).len(), 10 + 11 + 11 + 1);
}

#[test]
fn a_loop_jumps_over_its_body_and_back_to_it() {
    let ops = [
        op(BfOpKind::JumpIfDataZero, 2),
        op(BfOpKind::WriteStdout, 1),
        op(BfOpKind::JumpIfDataNotZero, 0),
    ];
    assert_eq!(
        code_of(&ops),
        routine(&[
            &TEST_CELL,
            &[0x0F, 0x84, 0x25, 0x00, 0x00, 0x00],
            &WRITE,
            &TEST_CELL,
            &[0x0F, 0x85, 0xDB, 0xFF, 0xFF, 0xFF],
        ])
    );
}

#[test]
fn an_empty_loop() {
    let ops = [op(BfOpKind::JumpIfDataZero, 1), op(BfOpKind::JumpIfDataNotZero, 0)];
    assert_eq!(
        code_of(&ops),
        routine(&[
            &TEST_CELL,
            &[0x0F, 0x84, 0x0B, 0x00, 0x00, 0x00],
            &TEST_CELL,
            &[0x0F, 0x85, 0xF5, 0xFF, 0xFF, 0xFF],
        ])
    );
}

#[test]
fn nested_loops_are_patched_inside_out() {
    let ops = [
        op(BfOpKind::JumpIfDataZero, 4),
        op(BfOpKind::JumpIfDataZero, 3),
        op(BfOpKind::WriteStdout, 1),
        op(BfOpKind::JumpIfDataNotZero, 1),
        op(BfOpKind::JumpIfDataNotZero, 0),
    ];
    assert_eq!(
        code_of(&ops),
        routine(&[
            &TEST_CELL,
            &[0x0F, 0x84, 0x3B, 0x00, 0x00, 0x00],
            &TEST_CELL,
            &[0x0F, 0x84, 0x25, 0x00, 0x00, 0x00],
            &WRITE,
            &TEST_CELL,
            &[0x0F, 0x85, 0xDB, 0xFF, 0xFF, 0xFF],
            &TEST_CELL,
            &[0x0F, 0x85, 0xC5, 0xFF, 0xFF, 0xFF],
        ])
    );
}

#[test]
fn loops_side_by_side() {
    let ops = [
        op(BfOpKind::JumpIfDataZero, 2),
        op(BfOpKind::IncData, 1),
        op(BfOpKind::JumpIfDataNotZero, 0),
        op(BfOpKind::JumpIfDataZero, 5),
        op(BfOpKind::IncPtr, 1),
        op(BfOpKind::JumpIfDataNotZero, 3),
    ];
    assert_eq!(
        code_of(&ops),
        routine(&[
            &TEST_CELL,
            &[0x0F, 0x84, 0x10, 0x00, 0x00, 0x00],
            &[0x41, 0x80, 0x45, 0x00, 0x01],
            &TEST_CELL,
            &[0x0F, 0x85, 0xF0, 0xFF, 0xFF, 0xFF],
            &TEST_CELL,
            &[0x0F, 0x84, 0x12, 0x00, 0x00, 0x00],
            &[0x49, 0x81, 0xC5, 0x01, 0x00, 0x00, 0x00],
            &TEST_CELL,
            &[0x0F, 0x85, 0xEE, 0xFF, 0xFF, 0xFF],
        ])
    );
}

#[test]
fn a_displacement_of_more_than_one_byte() {
    let mut ops = vec![op(BfOpKind::JumpIfDataZero, 0)];
    for _ in 0..20 {
        ops.push(op(BfOpKind::WriteStdout, 1));
    }
    ops.push(op(BfOpKind::JumpIfDataNotZero, 0));
    let code = code_of(&ops);
    // The loop spans 20 * 26 + 11 = 531 = 0x213 bytes.
    assert_eq!(&code[15..21], &[0x0F, 0x84, 0x13, 0x02, 0x00, 0x00]);
    let end = code.len() - 1;
    assert_eq!(&code[end - 6..end], &[0x0F, 0x85, 0xED, 0xFD, 0xFF, 0xFF]);
}

#[test]
fn jumps_follow_the_nesting_and_not_the_arguments() {
    let linked = [
        op(BfOpKind::JumpIfDataZero, 2),
        op(BfOpKind::WriteStdout, 1),
        op(BfOpKind::JumpIfDataNotZero, 0),
    ];
    let unlinked = [
        op(BfOpKind::JumpIfDataZero, 99),
        op(BfOpKind::WriteStdout, 1),
        op(BfOpKind::JumpIfDataNotZero, -7),
    ];
    assert_eq!(code_of(&linked), code_of(&unlinked));
}

#[test]
fn a_closing_without_an_opening_is_reported() {
    assert_eq!(
        compile(&[op(BfOpKind::JumpIfDataNotZero, 0)], BASE).unwrap_err(),
        CompileError::UnmatchedClose { index: 0 }
    );
    let ops = [
        op(BfOpKind::JumpIfDataZero, 1),
        op(BfOpKind::JumpIfDataNotZero, 0),
        op(BfOpKind::IncData, 1),
        op(BfOpKind::JumpIfDataNotZero, 0),
        op(BfOpKind::JumpIfDataNotZero, 0),
    ];
    assert_eq!(compile(&ops, BASE).unwrap_err(), CompileError::UnmatchedClose { index: 3 });
}

#[test]
fn an_opening_without_a_closing_is_reported() {
    assert_eq!(
        compile(&[op(BfOpKind::JumpIfDataZero, 0)], BASE).unwrap_err(),
        CompileError::UnmatchedOpen { index: 0 }
    );
    let ops = [
        op(BfOpKind::IncData, 1),
        op(BfOpKind::JumpIfDataZero, 0),
        op(BfOpKind::JumpIfDataZero, 0),
        op(BfOpKind::JumpIfDataNotZero, 0),
    ];
    assert_eq!(compile(&ops, BASE).unwrap_err(), CompileError::UnmatchedOpen { index: 1 });
    let ops = [
        op(BfOpKind::JumpIfDataZero, 0),
        op(BfOpKind::JumpIfDataNotZero, 0),
        op(BfOpKind::JumpIfDataZero, 0),
        op(BfOpKind::JumpIfDataZero, 0),
    ];
    assert_eq!(compile(&ops, BASE).unwrap_err(), CompileError::UnmatchedOpen { index: 2 });
}

#[test]
fn a_closing_without_an_opening_comes_before_an_opening_without_a_closing() {
    let ops = [
        op(BfOpKind::JumpIfDataZero, 0),
        op(BfOpKind::JumpIfDataNotZero, 0),
        op(BfOpKind::JumpIfDataNotZero, 0),
        op(BfOpKind::JumpIfDataZero, 0),
    ];
    assert_eq!(compile(&ops, BASE).unwrap_err(), CompileError::UnmatchedClose { index: 2 });
}

#[test]
fn the_displacement_limit() {
    assert_eq!(MAX_DISPLACEMENT, 0x7fff_ffff);
}
