use bf_jit::ir::{BfOp, BfOpKind};
use bf_jit::optimize::optimize_loop;
use bf_jit::token::parse;
use bf_jit::translate::{translate, TranslateError, MAX_TOKENS};

fn op(kind: BfOpKind, argument: i32) -> BfOp {
    BfOp { kind, argument }
}

fn ops_of(source: &str) -> Result<Vec<BfOp>, TranslateError> {
    translate(&parse(source))
}

#[test]
fn three_plus_fold_into_one_op() {
    assert_eq!(ops_of("+++"), Ok(vec![op(BfOpKind::IncData, 3)]));
}

#[test]
fn a_run_of_each_kind_folds_into_one_op() {
    let kinds = [
        ('>', BfOpKind::IncPtr),
        ('<', BfOpKind::DecPtr),
        ('+', BfOpKind::IncData),
        ('-', BfOpKind::DecData),
        (',', BfOpKind::ReadStdin),
        ('.', BfOpKind::WriteStdout),
    ];
    for (c, kind) in kinds {
        for k in [1usize, 2, 7, 255, 256, 1000] {
            let run = vec![c; k];
            assert_eq!(translate(&run), Ok(vec![op(kind, k as i32)]));
        }
    }
}

#[test]
fn runs_of_different_tokens_become_different_ops() {
    assert_eq!(
        ops_of("++>>>-<."),
        Ok(vec![
            op(BfOpKind::IncData, 2),
            op(BfOpKind::IncPtr, 3),
            op(BfOpKind::DecData, 1),
            op(BfOpKind::DecPtr, 1),
            op(BfOpKind::WriteStdout, 1),
        ])
    );
}

#[test]
fn a_bracket_ends_a_run() {
    assert_eq!(
        ops_of("++[.]++"),
        Ok(vec![
            op(BfOpKind::IncData, 2),
            op(BfOpKind::JumpIfDataZero, 3),
            op(BfOpKind::WriteStdout, 1),
            op(BfOpKind::JumpIfDataNotZero, 1),
            op(BfOpKind::IncData, 2),
        ])
    );
}

#[test]
fn empty_input_gives_no_ops() {
    assert_eq!(translate(&[]), Ok(vec![]));
}

#[test]
fn the_loops_that_clear_a_cell_become_set_to_zero() {
    assert_eq!(ops_of("[-]"), Ok(vec![op(BfOpKind::LoopSetToZero, 0)]));
    assert_eq!(ops_of("[+]"), Ok(vec![op(BfOpKind::LoopSetToZero, 0)]));
}

#[test]
fn a_loop_with_a_step_other_than_one_stays_a_loop() {
    assert_eq!(
        ops_of("[--]"),
        Ok(vec![
            op(BfOpKind::JumpIfDataZero, 2),
            op(BfOpKind::DecData, 2),
            op(BfOpKind::JumpIfDataNotZero, 0),
        ])
    );
    assert_eq!(
        ops_of("[+++]"),
        Ok(vec![
            op(BfOpKind::JumpIfDataZero, 2),
            op(BfOpKind::IncData, 3),
            op(BfOpKind::JumpIfDataNotZero, 0),
        ])
    );
}

#[test]
fn the_loops_that_seek_a_zero_cell_become_move_pointer() {
    assert_eq!(ops_of("[>]"), Ok(vec![op(BfOpKind::LoopMovePtr, 1)]));
    assert_eq!(ops_of("[<]"), Ok(vec![op(BfOpKind::LoopMovePtr, -1)]));
    assert_eq!(ops_of("[>>>>]"), Ok(vec![op(BfOpKind::LoopMovePtr, 4)]));
    assert_eq!(ops_of("[<<<]"), Ok(vec![op(BfOpKind::LoopMovePtr, -3)]));
}

#[test]
fn the_loops_that_move_a_value_become_move_data() {
    assert_eq!(ops_of("[->+<]"), Ok(vec![op(BfOpKind::LoopMoveData, 1)]));
    assert_eq!(ops_of("[-<+>]"), Ok(vec![op(BfOpKind::LoopMoveData, -1)]));
    assert_eq!(ops_of("[->>>+<<<]"), Ok(vec![op(BfOpKind::LoopMoveData, 3)]));
    assert_eq!(ops_of("[-<<+>>]"), Ok(vec![op(BfOpKind::LoopMoveData, -2)]));
}

#[test]
fn a_move_without_the_way_back_stays_a_loop() {
    assert_eq!(
        ops_of("[->+]"),
        Ok(vec![
            op(BfOpKind::JumpIfDataZero, 4),
            op(BfOpKind::DecData, 1),
            op(BfOpKind::IncPtr, 1),
            op(BfOpKind::IncData, 1),
            op(BfOpKind::JumpIfDataNotZero, 0),
        ])
    );
}

#[test]
fn a_loop_that_does_not_come_back_stays_a_loop() {
    assert_eq!(
        ops_of("[->+<<]"),
        Ok(vec![
            op(BfOpKind::JumpIfDataZero, 5),
            op(BfOpKind::DecData, 1),
            op(BfOpKind::IncPtr, 1),
            op(BfOpKind::IncData, 1),
            op(BfOpKind::DecPtr, 2),
            op(BfOpKind::JumpIfDataNotZero, 0),
        ])
    );
    assert_eq!(
        ops_of("[->+>]"),
        Ok(vec![
            op(BfOpKind::JumpIfDataZero, 5),
            op(BfOpKind::DecData, 1),
            op(BfOpKind::IncPtr, 1),
            op(BfOpKind::IncData, 1),
            op(BfOpKind::IncPtr, 1),
            op(BfOpKind::JumpIfDataNotZero, 0),
        ])
    );
}

#[test]
fn a_move_with_steps_other_than_one_stays_a_loop() {
    assert_eq!(
        ops_of("[-->+<]"),
        Ok(vec![
            op(BfOpKind::JumpIfDataZero, 5),
            op(BfOpKind::DecData, 2),
            op(BfOpKind::IncPtr, 1),
            op(BfOpKind::IncData, 1),
            op(BfOpKind::DecPtr, 1),
            op(BfOpKind::JumpIfDataNotZero, 0),
        ])
    );
    assert_eq!(
        ops_of("[->++<]"),
        Ok(vec![
            op(BfOpKind::JumpIfDataZero, 5),
            op(BfOpKind::DecData, 1),
            op(BfOpKind::IncPtr, 1),
            op(BfOpKind::IncData, 2),
            op(BfOpKind::DecPtr, 1),
            op(BfOpKind::JumpIfDataNotZero, 0),
        ])
    );
    assert_eq!(
        ops_of("[+>-<]"),
        Ok(vec![
            op(BfOpKind::JumpIfDataZero, 5),
            op(BfOpKind::IncData, 1),
            op(BfOpKind::IncPtr, 1),
            op(BfOpKind::DecData, 1),
            op(BfOpKind::DecPtr, 1),
            op(BfOpKind::JumpIfDataNotZero, 0),
        ])
    );
}

#[test]
fn a_loop_that_reads_or_writes_stays_a_loop() {
    assert_eq!(
        ops_of("[.]"),
        Ok(vec![
            op(BfOpKind::JumpIfDataZero, 2),
            op(BfOpKind::WriteStdout, 1),
            op(BfOpKind::JumpIfDataNotZero, 0),
        ])
    );
    assert_eq!(
        ops_of("[,]"),
        Ok(vec![
            op(BfOpKind::JumpIfDataZero, 2),
            op(BfOpKind::ReadStdin, 1),
            op(BfOpKind::JumpIfDataNotZero, 0),
        ])
    );
}

#[test]
fn an_empty_loop_stays_a_loop() {
    assert_eq!(
        ops_of("[]"),
        Ok(vec![op(BfOpKind::JumpIfDataZero, 1), op(BfOpKind::JumpIfDataNotZero, 0)])
    );
}

#[test]
fn jumps_name_each_other() {
    assert_eq!(
        ops_of("+[>+<-.]"),
        Ok(vec![
            op(BfOpKind::IncData, 1),
            op(BfOpKind::JumpIfDataZero, 7),
            op(BfOpKind::IncPtr, 1),
            op(BfOpKind::IncData, 1),
            op(BfOpKind::DecPtr, 1),
            op(BfOpKind::DecData, 1),
            op(BfOpKind::WriteStdout, 1),
            op(BfOpKind::JumpIfDataNotZero, 1),
        ])
    );
}

#[test]
fn an_inner_loop_is_replaced_inside_an_outer_loop() {
    assert_eq!(
        ops_of("[[-]]"),
        Ok(vec![
            op(BfOpKind::JumpIfDataZero, 2),
            op(BfOpKind::LoopSetToZero, 0),
            op(BfOpKind::JumpIfDataNotZero, 0),
        ])
    );
    assert_eq!(
        ops_of("+[>[-]<[->+<]>.]"),
        Ok(vec![
            op(BfOpKind::IncData, 1),
            op(BfOpKind::JumpIfDataZero, 8),
            op(BfOpKind::IncPtr, 1),
            op(BfOpKind::LoopSetToZero, 0),
            op(BfOpKind::DecPtr, 1),
            op(BfOpKind::LoopMoveData, 1),
            op(BfOpKind::IncPtr, 1),
            op(BfOpKind::WriteStdout, 1),
            op(BfOpKind::JumpIfDataNotZero, 1),
        ])
    );
}

#[test]
fn nested_loops_are_matched_inside_out() {
    assert_eq!(
        ops_of("[.[.[.].].]"),
        Ok(vec![
            op(BfOpKind::JumpIfDataZero, 10),
            op(BfOpKind::WriteStdout, 1),
            op(BfOpKind::JumpIfDataZero, 8),
            op(BfOpKind::WriteStdout, 1),
            op(BfOpKind::JumpIfDataZero, 6),
            op(BfOpKind::WriteStdout, 1),
            op(BfOpKind::JumpIfDataNotZero, 4),
            op(BfOpKind::WriteStdout, 1),
            op(BfOpKind::JumpIfDataNotZero, 2),
            op(BfOpKind::WriteStdout, 1),
            op(BfOpKind::JumpIfDataNotZero, 0),
        ])
    );
}

#[test]
fn loops_side_by_side_are_matched_each_by_itself() {
    assert_eq!(
        ops_of("[.][,]"),
        Ok(vec![
            op(BfOpKind::JumpIfDataZero, 2),
            op(BfOpKind::WriteStdout, 1),
            op(BfOpKind::JumpIfDataNotZero, 0),
            op(BfOpKind::JumpIfDataZero, 5),
            op(BfOpKind::ReadStdin, 1),
            op(BfOpKind::JumpIfDataNotZero, 3),
        ])
    );
}

#[test]
fn the_multiplication_program_translates() {
    assert_eq!(
        ops_of("++++++++[>++++++++<-]>."),
        Ok(vec![
            op(BfOpKind::IncData, 8),
            op(BfOpKind::JumpIfDataZero, 6),
            op(BfOpKind::IncPtr, 1),
            op(BfOpKind::IncData, 8),
            op(BfOpKind::DecPtr, 1),
            op(BfOpKind::DecData, 1),
            op(BfOpKind::JumpIfDataNotZero, 1),
            op(BfOpKind::IncPtr, 1),
            op(BfOpKind::WriteStdout, 1),
        ])
    );
}

#[test]
fn a_lone_close_is_unmatched() {
    assert_eq!(ops_of("]"), Err(TranslateError::UnmatchedClose { position: 0 }));
}

#[test]
fn a_lone_open_is_unmatched() {
    assert_eq!(ops_of("["), Err(TranslateError::UnmatchedOpen { start: 0 }));
}

#[test]
fn an_unmatched_close_is_reported_at_its_position() {
    assert_eq!(ops_of("++]"), Err(TranslateError::UnmatchedClose { position: 2 }));
    assert_eq!(ops_of("[-]]"), Err(TranslateError::UnmatchedClose { position: 3 }));
    assert_eq!(ops_of("[.]+].[" ), Err(TranslateError::UnmatchedClose { position: 4 }));
}

#[test]
fn an_unmatched_open_is_reported_by_its_outermost_placeholder() {
    assert_eq!(ops_of("+++[."), Err(TranslateError::UnmatchedOpen { start: 1 }));
    assert_eq!(ops_of("[[[-]"), Err(TranslateError::UnmatchedOpen { start: 0 }));
    assert_eq!(ops_of("[.]>>[.[-]"), Err(TranslateError::UnmatchedOpen { start: 4 }));
    assert_eq!(ops_of("[.]["), Err(TranslateError::UnmatchedOpen { start: 3 }));
}

#[test]
fn a_character_that_is_no_instruction_is_invalid() {
    assert_eq!(translate(&['a']), Err(TranslateError::InvalidToken { position: 0 }));
    assert_eq!(translate(&['+', '+', ' ', '-']), Err(TranslateError::InvalidToken { position: 2 }));
}

#[test]
fn the_first_fault_is_reported() {
    assert_eq!(translate(&['[', 'x', ']', ']']), Err(TranslateError::InvalidToken { position: 1 }));
    assert_eq!(translate(&[']', 'x']), Err(TranslateError::UnmatchedClose { position: 0 }));
    assert_eq!(translate(&['[', '+', 'x']), Err(TranslateError::InvalidToken { position: 2 }));
}

#[test]
fn the_token_limit() {
    assert_eq!(MAX_TOKENS, 0x7fff_ffff);
}

#[test]
fn optimizer_finds_set_to_zero() {
    let ops = [op(BfOpKind::IncData, 5), op(BfOpKind::JumpIfDataZero, 0), op(BfOpKind::DecData, 1)];
    assert_eq!(optimize_loop(&ops, 1), vec![op(BfOpKind::LoopSetToZero, 0)]);
    let ops = [op(BfOpKind::JumpIfDataZero, 0), op(BfOpKind::IncData, 1)];
    assert_eq!(optimize_loop(&ops, 0), vec![op(BfOpKind::LoopSetToZero, 0)]);
}

#[test]
fn optimizer_keeps_a_step_other_than_one() {
    for n in [0, 2, 3, 255, 256, -1] {
        let ops = [op(BfOpKind::JumpIfDataZero, 0), op(BfOpKind::DecData, n)];
        assert_eq!(optimize_loop(&ops, 0), vec![]);
        let ops = [op(BfOpKind::JumpIfDataZero, 0), op(BfOpKind::IncData, n)];
        assert_eq!(optimize_loop(&ops, 0), vec![]);
    }
}

#[test]
fn optimizer_finds_move_pointer() {
    let ops = [op(BfOpKind::JumpIfDataZero, 0), op(BfOpKind::IncPtr, 7)];
    assert_eq!(optimize_loop(&ops, 0), vec![op(BfOpKind::LoopMovePtr, 7)]);
    let ops = [op(BfOpKind::JumpIfDataZero, 0), op(BfOpKind::DecPtr, 7)];
    assert_eq!(optimize_loop(&ops, 0), vec![op(BfOpKind::LoopMovePtr, -7)]);
    let ops = [op(BfOpKind::JumpIfDataZero, 0), op(BfOpKind::DecPtr, i32::MAX)];
    assert_eq!(optimize_loop(&ops, 0), vec![op(BfOpKind::LoopMovePtr, -i32::MAX)]);
}

#[test]
fn optimizer_keeps_a_pointer_step_without_a_repeat_count() {
    for n in [0, -1, i32::MIN] {
        let ops = [op(BfOpKind::JumpIfDataZero, 0), op(BfOpKind::IncPtr, n)];
        assert_eq!(optimize_loop(&ops, 0), vec![]);
        let ops = [op(BfOpKind::JumpIfDataZero, 0), op(BfOpKind::DecPtr, n)];
        assert_eq!(optimize_loop(&ops, 0), vec![]);
    }
}

#[test]
fn optimizer_finds_move_data() {
    let ops = [
        op(BfOpKind::JumpIfDataZero, 0),
        op(BfOpKind::DecData, 1),
        op(BfOpKind::IncPtr, 2),
        op(BfOpKind::IncData, 1),
        op(BfOpKind::DecPtr, 2),
    ];
    assert_eq!(optimize_loop(&ops, 0), vec![op(BfOpKind::LoopMoveData, 2)]);
    let ops = [
        op(BfOpKind::WriteStdout, 1),
        op(BfOpKind::JumpIfDataZero, 0),
        op(BfOpKind::DecData, 1),
        op(BfOpKind::DecPtr, 9),
        op(BfOpKind::IncData, 1),
        op(BfOpKind::IncPtr, 9),
    ];
    assert_eq!(optimize_loop(&ops, 1), vec![op(BfOpKind::LoopMoveData, -9)]);
}

#[test]
fn optimizer_keeps_other_bodies() {
    let ops = [
        op(BfOpKind::JumpIfDataZero, 0),
        op(BfOpKind::DecData, 1),
        op(BfOpKind::IncPtr, 2),
        op(BfOpKind::IncData, 1),
        op(BfOpKind::DecPtr, 3),
    ];
    assert_eq!(optimize_loop(&ops, 0), vec![]);
    let ops = [
        op(BfOpKind::JumpIfDataZero, 0),
        op(BfOpKind::DecData, 1),
        op(BfOpKind::IncPtr, 2),
        op(BfOpKind::IncData, 1),
        op(BfOpKind::IncPtr, 2),
    ];
    assert_eq!(optimize_loop(&ops, 0), vec![]);
    let ops = [op(BfOpKind::JumpIfDataZero, 0), op(BfOpKind::WriteStdout, 1)];
    assert_eq!(optimize_loop(&ops, 0), vec![]);
    let ops = [op(BfOpKind::JumpIfDataZero, 0), op(BfOpKind::LoopSetToZero, 0)];
    assert_eq!(optimize_loop(&ops, 0), vec![]);
    let ops = [
        op(BfOpKind::JumpIfDataZero, 0),
        op(BfOpKind::DecData, 1),
        op(BfOpKind::IncPtr, 1),
    ];
    assert_eq!(optimize_loop(&ops, 0), vec![]);
}

#[test]
fn optimizer_looks_at_the_span_from_the_start_given() {
    let ops = [
        op(BfOpKind::JumpIfDataZero, 0),
        op(BfOpKind::IncPtr, 1),
        op(BfOpKind::JumpIfDataZero, 0),
        op(BfOpKind::DecData, 1),
    ];
    assert_eq!(optimize_loop(&ops, 2), vec![op(BfOpKind::LoopSetToZero, 0)]);
    assert_eq!(optimize_loop(&ops, 0), vec![]);
    assert_eq!(optimize_loop(&ops, 3), vec![]);
    assert_eq!(optimize_loop(&ops, 4), vec![]);
    assert_eq!(optimize_loop(&ops, 5), vec![]);
}
