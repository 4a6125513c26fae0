//! A just-in-time compiler for an eight-instruction tape language.
//!
//! A source text is filtered down to its instruction characters
//! ([`token`]), translated into a list of ops with loops matched and the
//! common loop idioms replaced ([`translate`], [`optimize`]), and turned into
//! x86-64 machine code ([`codegen`], [`code`]). The decisions of running the
//! code are in [`engine`].
//!
//! The functions that do the work are [`token::parse`],
//! [`translate::translate`], [`optimize::optimize_loop`],
//! [`codegen::compile`], the methods of [`code::MachineCode`],
//! [`engine::engine_step`], and [`build`], which puts the first four
//! together. Everything else is specification and proof.
//!
//! What a program means is stated three times: for the tokens as they stand
//! ([`plain`]), for the ops ([`machine`]), and for the bytes of the routine
//! ([`processor`], [`listing`]). The translator keeps the meaning
//! ([`spelling`], [`equivalence`], [`preservation`]), and so does the code
//! generator ([`execution`]). A few small programs are followed from their
//! text to what their routines do in [`programs`].

use crate::code::MachineCode;
use crate::codegen::{
    compile, compile_spec, epilogue, jumps_in_range, lemma_compile_balanced,
    lemma_compile_succeeds, machine_code, prologue, CompileError,
};
use crate::execution::{lemma_routine_runs, represents, runs_as, starts_with, tape_fits};
use crate::ir::BfOp;
use crate::machine::{halts, Machine};
use crate::plain::plain_ops;
use crate::preservation::lemma_translate_preserves;
use crate::processor::{comes_back, Cpu};
use crate::token::{filter_tokens, is_token, lemma_filter_only_tokens, parse};
use crate::translate::{
    all_tokens, lemma_translate_outcome, lemma_translate_succeeds, lemma_translate_well_formed,
    translate, translate_spec, well_nested, TranslateError, MAX_TOKENS,
};
use vstd::prelude::*;

pub mod code;
pub mod codegen;
pub mod engine;
pub mod equivalence;
pub mod execution;
pub mod ir;
pub mod listing;
pub mod machine;
pub mod optimize;
pub mod plain;
pub mod preservation;
pub mod processor;
pub mod programs;
pub mod spelling;
pub mod token;
pub mod translate;

verus! {

/// Why a source text has no machine code.
#[derive(Clone, Copy, Debug, PartialEq, Eq, Structural)]
pub enum BuildError {
    /// The text's instructions have no translation.
    Translate(TranslateError),
    /// The translation has no machine code.
    Compile(CompileError),
}

/// What [`build`] returns for `text`: the machine code of the translation of
/// the text's instructions, or the error of the first stage that fails.
pub open spec fn build_spec(text: Seq<char>, tape_base: u64) -> Result<Seq<u8>, BuildError> {
    match translate_spec(filter_tokens(text)) {
        Err(e) => Err(BuildError::Translate(e)),
        Ok(ops) => match compile_spec(ops, tape_base) {
            Err(e) => Err(BuildError::Compile(e)),
            Ok(code) => Ok(code),
        },
    }
}

/// A text builds exactly where it has not too many instructions, its
/// brackets nest, and no loop of its translation is too long for a jump. A
/// text that fails is never reported for a character that is no
/// instruction, nor for an unbalanced op list.
pub proof fn lemma_build_outcome(text: Seq<char>, tape_base: u64)
    ensures
        match build_spec(text, tape_base) {
            Ok(_) => true,
            Err(BuildError::Translate(e)) => !(e is InvalidToken),
            Err(BuildError::Compile(e)) => e is JumpTooFar,
        },
        build_spec(text, tape_base) is Ok <==> filter_tokens(text).len() <= MAX_TOKENS
            && well_nested(filter_tokens(text)) && jumps_in_range(
            translate_spec(filter_tokens(text))->Ok_0,
        ),
{
    let tokens = filter_tokens(text);
    lemma_filter_only_tokens(text);
    assert(all_tokens(tokens));
    lemma_translate_succeeds(tokens);
    lemma_translate_well_formed(tokens);
    match translate_spec(tokens) {
        Ok(ops) => {
            lemma_compile_succeeds(ops, tape_base);
            lemma_compile_balanced(ops, tape_base);
        },
        Err(TranslateError::InvalidToken { position }) => {
            lemma_translate_outcome(tokens);
            assert(is_token(tokens[position as int]));
        },
        _ => {},
    }
}

/// A text without instructions builds, and its routine only loads the
/// tape's address and returns.
pub proof fn lemma_build_empty(text: Seq<char>, tape_base: u64)
    requires
        filter_tokens(text).len() == 0,
    ensures
        build_spec(text, tape_base) == Ok::<Seq<u8>, BuildError>(
            prologue(tape_base) + epilogue(),
        ),
{
    let none = Seq::<BfOp>::empty();
    assert(translate_spec(filter_tokens(text)) == Ok::<Seq<BfOp>, TranslateError>(none));
    assert(machine_code(none, tape_base) =~= prologue(tape_base) + epilogue());
}

/// The routine that is built for a text does what the text says. Where the
/// plain reading of the text's instructions, started on the first cell of
/// the tape, comes to its end, the routine, run on the model of the
/// processor from its first byte with the tape as memory, comes to its
/// return, and then holds the tape, the input, the output and the pointer as
/// the plain reading leaves them.
pub proof fn lemma_build_runs(
    text: Seq<char>,
    tape_base: u64,
    start: Machine,
    end: Machine,
    cpu: Cpu,
) -> (last: Cpu)
    requires
        build_spec(text, tape_base) is Ok,
        tape_fits(tape_base as int, start.tape.len()),
        start.pointer == 0,
        halts(plain_ops(filter_tokens(text)), start, end),
        starts_with(cpu, start),
    ensures
        comes_back(build_spec(text, tape_base)->Ok_0, tape_base as int, cpu, last),
        represents(last, end, tape_base as int),
{
    let tokens = filter_tokens(text);
    let ops = translate_spec(tokens)->Ok_0;
    lemma_translate_well_formed(tokens);
    lemma_translate_preserves(tokens, start, end);
    lemma_routine_runs(ops, tape_base, start, end, cpu)
}

/// The routine that is built for a text does what the plain reading of the
/// text's instructions does.
pub proof fn lemma_build_sound(text: Seq<char>, tape_base: u64)
    ensures
        build_spec(text, tape_base) matches Ok(code) ==> runs_as(
            code,
            tape_base,
            plain_ops(filter_tokens(text)),
        ),
{
    if build_spec(text, tape_base) is Ok {
        let code = build_spec(text, tape_base)->Ok_0;
        let plain = plain_ops(filter_tokens(text));
        assert forall|start: Machine, end: Machine, cpu: Cpu|
            #![trigger halts(plain, start, end), starts_with(cpu, start)]
            tape_fits(tape_base as int, start.tape.len()) && start.pointer == 0 && halts(
                plain,
                start,
                end,
            ) && starts_with(cpu, start) implies exists|last: Cpu| #[trigger]
            comes_back(code, tape_base as int, cpu, last) && represents(
                last,
                end,
                tape_base as int,
            ) by {
            let last = lemma_build_runs(text, tape_base, start, end, cpu);
            assert(comes_back(code, tape_base as int, cpu, last));
        }
    }
}

/// Builds the machine code for a source text, for a tape that starts at the
/// address `tape_base`: filters the text, translates its instructions, and
/// generates the code. No code is generated if the translation fails.
pub fn build(text: &str, tape_base: u64) -> (res: Result<MachineCode, BuildError>)
    ensures
        match res {
            Ok(code) => build_spec(text@, tape_base) == Ok::<Seq<u8>, BuildError>(code@),
            Err(e) => build_spec(text@, tape_base) == Err::<Seq<u8>, BuildError>(e),
        },
        filter_tokens(text@).len() == 0 ==> (res matches Ok(code) && code@ == prologue(tape_base)
            + epilogue()),
        res is Ok <==> filter_tokens(text@).len() <= MAX_TOKENS && well_nested(filter_tokens(text@))
            && jumps_in_range(translate_spec(filter_tokens(text@))->Ok_0),
        res matches Ok(code) ==> runs_as(code@, tape_base, plain_ops(filter_tokens(text@))),
{
    proof {
        lemma_build_outcome(text@, tape_base);
        lemma_build_sound(text@, tape_base);
        if filter_tokens(text@).len() == 0 {
            lemma_build_empty(text@, tape_base);
        }
    }
    let tokens = parse(text);
    match translate(tokens.as_slice()) {
        Err(e) => Err(BuildError::Translate(e)),
        Ok(ops) => match compile(ops.as_slice(), tape_base) {
            Err(e) => Err(BuildError::Compile(e)),
            Ok(code) => Ok(code),
        },
    }
}

} // verus!
