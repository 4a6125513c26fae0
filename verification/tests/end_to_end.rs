use bf_jit::codegen::CompileError;
use bf_jit::ir::{BfOp, BfOpKind};
use bf_jit::token::parse;
use bf_jit::translate::{translate, TranslateError};
use bf_jit::{build, BuildError};

/// Where the emulated memory starts, and where in it the tape starts.
const MEMORY_START: u64 = 0x7000_0000_0000;
const TAPE_OFFSET: usize = 4096;
const MEMORY_SIZE: usize = 65536;
const TAPE_BASE: u64 = MEMORY_START + TAPE_OFFSET as u64;
const STEP_LIMIT: usize = 50_000_000;

/// What a run left behind.
#[derive(Debug, PartialEq, Eq)]
struct Outcome {
    output: Vec<u8>,
    memory: Vec<u8>,
    pointer: u64,
}

fn sign_extended(bytes: &[u8]) -> u64 {
    i32::from_le_bytes([bytes[0], bytes[1], bytes[2], bytes[3]]) as i64 as u64
}

fn cell_index(address: u64) -> usize {
    let index = address.wrapping_sub(MEMORY_START);
    assert!(index < MEMORY_SIZE as u64, "access outside the memory at {:#x}", address);
    index as usize
}

/// Runs a routine on an emulated processor that knows the instructions that
/// the code generator uses, and no others.
fn emulate(code: &[u8], input: &[u8]) -> Outcome {
    let mut memory = vec![0u8; MEMORY_SIZE];
    let mut output = Vec::new();
    let mut consumed = 0;
    let (mut rax, mut rdi, mut rsi, mut rdx, mut r13, mut r14) = (0u64, 0u64, 0u64, 0u64, 0u64, 0u64);
    let mut zero = false;
    let mut pc = 0usize;
    for _ in 0..STEP_LIMIT {
        assert!(pc < code.len(), "ran off the routine at {}", pc);
        let rest = &code[pc..];
        if rest[0] == 0xC3 {
            return Outcome { output, memory, pointer: r13 };
        } else if rest.starts_with(&[0x49, 0xBD]) {
            r13 = u64::from_le_bytes([
                rest[2], rest[3], rest[4], rest[5], rest[6], rest[7], rest[8], rest[9],
            ]);
            pc += 10;
        } else if rest.starts_with(&[0x49, 0x81, 0xC5]) {
            r13 = r13.wrapping_add(sign_extended(&rest[3..7]));
            pc += 7;
        } else if rest.starts_with(&[0x49, 0x81, 0xED]) {
            r13 = r13.wrapping_sub(sign_extended(&rest[3..7]));
            pc += 7;
        } else if rest.starts_with(&[0x49, 0x81, 0xC6]) {
            r14 = r14.wrapping_add(sign_extended(&rest[3..7]));
            pc += 7;
        } else if rest.starts_with(&[0x49, 0x81, 0xEE]) {
            r14 = r14.wrapping_sub(sign_extended(&rest[3..7]));
            pc += 7;
        } else if rest.starts_with(&[0x41, 0x80, 0x45, 0x00]) {
            let at = cell_index(r13);
            memory[at] = memory[at].wrapping_add(rest[4]);
            pc += 5;
        } else if rest.starts_with(&[0x41, 0x80, 0x6D, 0x00]) {
            let at = cell_index(r13);
            memory[at] = memory[at].wrapping_sub(rest[4]);
            pc += 5;
        } else if rest.starts_with(&[0x41, 0x80, 0x7D, 0x00]) {
            zero = memory[cell_index(r13)] == rest[4];
            pc += 5;
        } else if rest.starts_with(&[0x41, 0xC6, 0x45, 0x00]) {
            memory[cell_index(r13)] = rest[4];
            pc += 5;
        } else if rest.starts_with(&[0x0F, 0x84]) {
            pc += 6;
            if zero {
                pc = (pc as u64).wrapping_add(sign_extended(&rest[2..6])) as usize;
            }
        } else if rest.starts_with(&[0x0F, 0x85]) {
            pc += 6;
            if !zero {
                pc = (pc as u64).wrapping_add(sign_extended(&rest[2..6])) as usize;
            }
        } else if rest.starts_with(&[0x4D, 0x89, 0xEE]) {
            r14 = r13;
            pc += 3;
        } else if rest.starts_with(&[0x4C, 0x89, 0xEE]) {
            rsi = r13;
            pc += 3;
        } else if rest.starts_with(&[0x49, 0x0F, 0xB6, 0x45, 0x00]) {
            rax = memory[cell_index(r13)] as u64;
            pc += 5;
        } else if rest.starts_with(&[0x41, 0x00, 0x06]) {
            let at = cell_index(r14);
            memory[at] = memory[at].wrapping_add(rax as u8);
            pc += 3;
        } else if rest.starts_with(&[0x48, 0xC7, 0xC0]) {
            rax = sign_extended(&rest[3..7]);
            pc += 7;
        } else if rest.starts_with(&[0x48, 0xC7, 0xC7]) {
            rdi = sign_extended(&rest[3..7]);
            pc += 7;
        } else if rest.starts_with(&[0x48, 0xC7, 0xC2]) {
            rdx = sign_extended(&rest[3..7]);
            pc += 7;
        } else if rest.starts_with(&[0x0F, 0x05]) {
            assert_eq!(rdx, 1, "a transfer of more than one byte");
            if rax == 0 {
                assert_eq!(rdi, 0, "a read from another channel than the input");
                if consumed < input.len() {
                    memory[cell_index(rsi)] = input[consumed];
                    consumed += 1;
                    rax = 1;
                } else {
                    rax = 0;
                }
            } else {
                assert_eq!(rax, 1, "a system call other than read and write");
                assert_eq!(rdi, 1, "a write to another channel than the output");
                output.push(memory[cell_index(rsi)]);
                rax = 1;
            }
            pc += 2;
        } else {
            panic!("unknown instruction at {}: {:#04x}", pc, rest[0]);
        }
    }
    panic!("the routine did not return");
}

/// Runs the source text itself, instruction by instruction.
fn interpret(source: &str, input: &[u8]) -> Outcome {
    let tokens: Vec<char> = source.chars().collect();
    let mut memory = vec![0u8; MEMORY_SIZE];
    let mut output = Vec::new();
    let mut consumed = 0;
    let mut pointer = TAPE_OFFSET;
    let mut pc = 0;
    let mut steps = 0;
    while pc < tokens.len() {
        steps += 1;
        assert!(steps < STEP_LIMIT, "the program did not end");
        match tokens[pc] {
            '>' => pointer += 1,
            '<' => pointer -= 1,
            '+' => memory[pointer] = memory[pointer].wrapping_add(1),
            '-' => memory[pointer] = memory[pointer].wrapping_sub(1),
            '.' => output.push(memory[pointer]),
            ',' => {
                if consumed < input.len() {
                    memory[pointer] = input[consumed];
                    consumed += 1;
                }
            }
            '[' => {
                if memory[pointer] == 0 {
                    let mut open = 1;
                    while open > 0 {
                        pc += 1;
                        match tokens[pc] {
                            '[' => open += 1,
                            ']' => open -= 1,
                            _ => {}
                        }
                    }
                }
            }
            ']' => {
                if memory[pointer] != 0 {
                    let mut open = 1;
                    while open > 0 {
                        pc -= 1;
                        match tokens[pc] {
                            ']' => open += 1,
                            '[' => open -= 1,
                            _ => {}
                        }
                    }
                }
            }
            _ => {}
        }
        pc += 1;
    }
    Outcome { output, memory, pointer: MEMORY_START + pointer as u64 }
}

/// Runs an op list, op by op.
fn run_ops(ops: &[BfOp], input: &[u8]) -> Outcome {
    let mut memory = vec![0u8; MEMORY_SIZE];
    let mut output = Vec::new();
    let mut consumed = 0;
    let mut pointer = TAPE_OFFSET as i64;
    let mut pc = 0;
    let mut steps = 0;
    while pc < ops.len() {
        steps += 1;
        assert!(steps < STEP_LIMIT, "the op list did not end");
        let n = ops[pc].argument;
        let at = pointer as usize;
        match ops[pc].kind {
            BfOpKind::IncPtr => pointer += n as i64,
            BfOpKind::DecPtr => pointer -= n as i64,
            BfOpKind::IncData => memory[at] = memory[at].wrapping_add(n as u8),
            BfOpKind::DecData => memory[at] = memory[at].wrapping_sub(n as u8),
            BfOpKind::WriteStdout => {
                for _ in 0..n {
                    output.push(memory[at]);
                }
            }
            BfOpKind::ReadStdin => {
                for _ in 0..n {
                    if consumed < input.len() {
                        memory[at] = input[consumed];
                        consumed += 1;
                    }
                }
            }
            BfOpKind::LoopSetToZero => memory[at] = 0,
            BfOpKind::LoopMovePtr => {
                while memory[pointer as usize] != 0 {
                    pointer += n as i64;
                }
            }
            BfOpKind::LoopMoveData => {
                if memory[at] != 0 {
                    let target = (pointer + n as i64) as usize;
                    memory[target] = memory[target].wrapping_add(memory[at]);
                    memory[at] = 0;
                }
            }
            BfOpKind::JumpIfDataZero => {
                if memory[at] == 0 {
                    pc = n as usize;
                }
            }
            BfOpKind::JumpIfDataNotZero => {
                if memory[at] != 0 {
                    pc = n as usize;
                }
            }
        }
        pc += 1;
    }
    Outcome { output, memory, pointer: MEMORY_START + pointer as u64 }
}

/// Builds `source` and runs the routine on the emulated processor.
fn build_and_run(source: &str, input: &[u8]) -> Outcome {
    let code = build(source, TAPE_BASE).unwrap();
    emulate(code.get(), input)
}

/// Checks that the source text, its op list and its routine do the same.
fn agree(source: &str, input: &[u8]) -> Outcome {
    let direct = interpret(source, input);
    let ops = translate(&parse(source)).unwrap();
    assert_eq!(run_ops(&ops, input), direct, "the op list of {:?}", source);
    assert_eq!(build_and_run(source, input), direct, "the routine of {:?}", source);
    direct
}

#[test]
fn eight_times_eight_is_written_as_one_byte() {
    let outcome = agree("++++++++[>++++++++<-]>.", &[]);
    assert_eq!(outcome.output, vec![64]);
}

#[test]
fn one_byte_is_copied_from_input_to_output() {
    for byte in 0..=255u8 {
        let outcome = agree(",.", &[byte]);
        assert_eq!(outcome.output, vec![byte]);
    }
}

#[test]
fn only_one_byte_is_taken_from_the_input() {
    let outcome = agree(",.", &[7, 8, 9]);
    assert_eq!(outcome.output, vec![7]);
}

#[test]
fn an_empty_text_runs_and_writes_nothing() {
    let outcome = agree("", &[1, 2, 3]);
    assert_eq!(outcome.output, Vec::<u8>::new());
    assert_eq!(outcome.pointer, TAPE_BASE);
    assert!(outcome.memory.iter().all(|&cell| cell == 0));
}

#[test]
fn a_text_of_comments_runs_and_writes_nothing() {
    let code = build("a program that does nothing at all\n", TAPE_BASE).unwrap();
    assert_eq!(code.get(), build("", TAPE_BASE).unwrap().get());
    let outcome = emulate(code.get(), &[]);
    assert_eq!(outcome.output, Vec::<u8>::new());
    assert_eq!(outcome.pointer, TAPE_BASE);
}

#[test]
fn a_text_without_instructions_builds_to_prologue_and_return() {
    let code = build("nothing", 0x0102_0304_0506_0708).unwrap();
    assert_eq!(
        code.get(),
        &vec![0x49, 0xBD, 0x08, 0x07, 0x06, 0x05, 0x04, 0x03, 0x02, 0x01, 0xC3]
    );
}

#[test]
fn a_lone_open_bracket_fails_without_code() {
    assert_eq!(
        build("[", TAPE_BASE).unwrap_err(),
        BuildError::Translate(TranslateError::UnmatchedOpen { start: 0 })
    );
}

#[test]
fn a_lone_close_bracket_fails_without_code() {
    assert_eq!(
        build("]", TAPE_BASE).unwrap_err(),
        BuildError::Translate(TranslateError::UnmatchedClose { position: 0 })
    );
}

#[test]
fn positions_count_instructions_only() {
    assert_eq!(
        build("one + two ] three", TAPE_BASE).unwrap_err(),
        BuildError::Translate(TranslateError::UnmatchedClose { position: 1 })
    );
}

#[test]
fn a_build_error_tells_its_stage() {
    let from_translate = BuildError::Translate(TranslateError::TooLong);
    let from_compile = BuildError::Compile(CompileError::JumpTooFar { index: 3 });
    assert_ne!(from_translate, from_compile);
}

#[test]
fn hello_world() {
    let source = "++++++++[>++++[>++>+++>+++>+<<<<-]>+>+>->>+[<]<-]>>.>---.+++++++..+++.>>.<-.<.+++.------.--------.>>+.>++.";
    let outcome = agree(source, &[]);
    assert_eq!(outcome.output, b"Hello World!\n".to_vec());
}

#[test]
fn repeated_writes_write_repeatedly() {
    let outcome = agree("+++...", &[]);
    assert_eq!(outcome.output, vec![3, 3, 3]);
}

#[test]
fn repeated_reads_keep_the_last_byte() {
    let outcome = agree(",,,.", &[1, 2, 3, 4]);
    assert_eq!(outcome.output, vec![3]);
}

#[test]
fn a_read_at_the_end_of_input_leaves_the_cell() {
    let outcome = agree("+++++,.", &[]);
    assert_eq!(outcome.output, vec![5]);
}

#[test]
fn clearing_a_cell_gives_zero_for_every_value() {
    for value in 0..=255u8 {
        for source in [",[-].", ",[+]."] {
            let outcome = agree(source, &[value]);
            assert_eq!(outcome.output, vec![0]);
            assert_eq!(outcome.pointer, TAPE_BASE);
        }
    }
}

#[test]
fn the_optimized_clear_does_what_the_loop_does() {
    let generic = [
        BfOp { kind: BfOpKind::ReadStdin, argument: 1 },
        BfOp { kind: BfOpKind::JumpIfDataZero, argument: 3 },
        BfOp { kind: BfOpKind::DecData, argument: 1 },
        BfOp { kind: BfOpKind::JumpIfDataNotZero, argument: 1 },
    ];
    let optimized = translate(&parse(",[-]")).unwrap();
    assert_eq!(optimized.len(), 2);
    for value in 0..=255u8 {
        assert_eq!(run_ops(&generic, &[value]), run_ops(&optimized, &[value]));
    }
}

#[test]
fn seeking_a_zero_cell_stops_at_the_first_one() {
    // Three cells that are not zero, then one that is.
    let outcome = agree("+>++>+++<<[>].", &[]);
    assert_eq!(outcome.pointer, TAPE_BASE + 3);
    assert_eq!(outcome.output, vec![0]);
    // Back down to the zero cell below the start.
    let outcome = agree(">+>++>+++[<]", &[]);
    assert_eq!(outcome.pointer, TAPE_BASE);
    // In steps of two.
    let outcome = agree("+>>+>>+>>>+<<<<<<<[>>]", &[]);
    assert_eq!(outcome.pointer, TAPE_BASE + 6);
}

#[test]
fn seeking_from_a_zero_cell_stays() {
    let outcome = agree(">+<[>]", &[]);
    assert_eq!(outcome.pointer, TAPE_BASE);
}

#[test]
fn the_optimized_seek_does_what_the_loop_does() {
    let prepare = "+>++>+++>>++++<<<<";
    let optimized = translate(&parse(&format!("{}[>]", prepare))).unwrap();
    let mut generic = translate(&parse(prepare)).unwrap();
    let start = generic.len() as i32;
    generic.push(BfOp { kind: BfOpKind::JumpIfDataZero, argument: start + 2 });
    generic.push(BfOp { kind: BfOpKind::IncPtr, argument: 1 });
    generic.push(BfOp { kind: BfOpKind::JumpIfDataNotZero, argument: start });
    assert_eq!(optimized.last().unwrap().kind, BfOpKind::LoopMovePtr);
    assert_eq!(run_ops(&optimized, &[]), run_ops(&generic, &[]));
    assert_eq!(run_ops(&optimized, &[]).pointer, TAPE_BASE + 3);
}

#[test]
fn moving_a_value_adds_it_modulo_256() {
    for (source, target) in [(200u8, 100u8), (0, 0), (0, 9), (9, 0), (255, 255), (1, 255), (128, 128)] {
        let outcome = agree(",>,<[->+<]>.<.", &[source, target]);
        assert_eq!(outcome.output, vec![source.wrapping_add(target), 0]);
        assert_eq!(outcome.pointer, TAPE_BASE);
    }
}

#[test]
fn moving_a_value_for_every_pair_of_values() {
    let ops = translate(&parse(",>,<[->+<]>.<.")).unwrap();
    assert!(ops.iter().any(|op| op.kind == BfOpKind::LoopMoveData));
    let code = build(",>,<[->+<]>.<.", TAPE_BASE).unwrap();
    for source in 0..=255u8 {
        for target in [0u8, 1, 2, 100, 127, 128, 200, 254, 255] {
            let expected = vec![source.wrapping_add(target), 0];
            assert_eq!(run_ops(&ops, &[source, target]).output, expected);
            let outcome = emulate(code.get(), &[source, target]);
            assert_eq!(outcome.output, expected);
            assert_eq!(outcome.pointer, TAPE_BASE);
        }
    }
}

#[test]
fn moving_a_value_down_and_far() {
    let outcome = agree(">>>>,<<<,>>>[-<<<+>>>]<<<.", &[40, 2]);
    assert_eq!(outcome.output, vec![42]);
    assert_eq!(outcome.pointer, TAPE_BASE + 1);
}

#[test]
fn the_optimized_move_does_what_the_loop_does() {
    let generic = [
        BfOp { kind: BfOpKind::ReadStdin, argument: 1 },
        BfOp { kind: BfOpKind::IncPtr, argument: 2 },
        BfOp { kind: BfOpKind::ReadStdin, argument: 1 },
        BfOp { kind: BfOpKind::JumpIfDataZero, argument: 8 },
        BfOp { kind: BfOpKind::DecData, argument: 1 },
        BfOp { kind: BfOpKind::DecPtr, argument: 2 },
        BfOp { kind: BfOpKind::IncData, argument: 1 },
        BfOp { kind: BfOpKind::IncPtr, argument: 2 },
        BfOp { kind: BfOpKind::JumpIfDataNotZero, argument: 3 },
    ];
    let optimized = translate(&parse(",>>,[-<<+>>]")).unwrap();
    assert_eq!(optimized.len(), 4);
    for source in [0u8, 1, 77, 255] {
        for target in [0u8, 1, 200, 255] {
            assert_eq!(run_ops(&generic, &[target, source]), run_ops(&optimized, &[target, source]));
        }
    }
}

#[test]
fn loops_that_stay_loops_run_as_written() {
    let outcome = agree("++++[>+++<-]>[.-]", &[]);
    assert_eq!(outcome.output, vec![12, 11, 10, 9, 8, 7, 6, 5, 4, 3, 2, 1]);
    let outcome = agree("++++++++++[--]>+.", &[]);
    assert_eq!(outcome.output, vec![1]);
}

#[test]
fn a_loop_is_skipped_when_the_cell_is_zero() {
    let outcome = agree("[.+]>[[.]]+.", &[]);
    assert_eq!(outcome.output, vec![1]);
}

#[test]
fn a_large_repeat_count_wraps_the_cell() {
    let source = "+".repeat(300) + ".";
    let outcome = agree(&source, &[]);
    assert_eq!(outcome.output, vec![44]);
    let source = "-".repeat(513) + ".";
    let outcome = agree(&source, &[]);
    assert_eq!(outcome.output, vec![255]);
}

#[test]
fn nested_loops_multiply() {
    // 2 * 3 * 4, counted down through three cells.
    let outcome = agree("++[>+++[>++++[>+<-]<-]<-]>>>.", &[]);
    assert_eq!(outcome.output, vec![24]);
}

#[test]
fn input_is_echoed_in_reverse() {
    let outcome = agree(">,>,>,>,[.<]", &[1, 2, 3, 4]);
    assert_eq!(outcome.output, vec![4, 3, 2, 1]);
}
