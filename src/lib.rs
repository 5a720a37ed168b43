//! Planning engine for plain-text task plans: blocks of tasks are lowered
//! into an id-addressed program, reordered by the optimizer and placed into
//! a workday window by one of the scheduling strategies.
pub mod text;
pub mod ast;
pub mod ir;
pub mod optimizer;
pub mod scheduler;
pub mod lexer;
pub mod config;
pub mod utils;
pub mod dsl;
pub mod dsl_ir;
pub mod parser;
pub mod runtime;

use vstd::prelude::*;
use crate::ast::Block;
use crate::config::{format_named, metadata_of, time_of, Config, ConfigError};
use crate::ir::{lowered_from, task_count, to_ir, IRMetadata, IRProgram};
use crate::optimizer::optimized;
use crate::lexer::{tokenize, tokens_of};
use crate::parser::{block_views, lemma_plan_task_count, parse, parsed, plan_task_count, toks, ParseError};
use crate::scheduler::{create_scheduler, default_deepwork_tag, mode_named, scheduled_by_mode};
use crate::text::lower_of;

verus! {

/// Why a plan text could not be compiled.
#[derive(Clone, Debug, PartialEq)]
pub enum CompileError {
    Parse(ParseError),
    Config(ConfigError),
    TooManyTasks,
}

/// The number of tasks in all blocks, or `None` when it does not fit in `usize`.
fn count_tasks(blocks: &Vec<Block>) -> (r: Option<usize>)
    ensures
        match r {
            Some(n) => n == task_count(blocks@),
            None => task_count(blocks@) > usize::MAX,
        },
{
    let mut total: usize = 0;
    let mut b: usize = 0;
    while b < blocks.len()
        invariant
            b <= blocks@.len(),
            total == task_count(blocks@.take(b as int)),
        decreases blocks@.len() - b,
    {
        assert(blocks@.take(b + 1).drop_last() == blocks@.take(b as int));
        let n = blocks[b].tasks.len();
        if total > usize::MAX - n {
            proof {
                crate::ir::lemma_task_count_prefix(blocks@, b + 1);
            }
            return None;
        }
        total = total + n;
        b = b + 1;
    }
    assert(blocks@.take(blocks@.len() as int) == blocks@);
    Some(total)
}

/// The deepwork tag of the settings, or `deepwork` when it is empty.
pub open spec fn deepwork_tag_of(config: Config) -> Seq<char> {
    if config.deepwork_tag@.len() == 0 {
        default_deepwork_tag()
    } else {
        config.deepwork_tag@
    }
}

/// The plan text parses, and the workday times, the schedule mode and the
/// output format of the settings are usable.
pub open spec fn inputs_valid(input: Seq<char>, config: Config) -> bool {
    &&& parsed(tokens_of(input)) is Ok
    &&& time_of(config.workday_start@) is Some
    &&& time_of(config.workday_end@) is Some
    &&& mode_named(lower_of(config.schedule_mode@)) is Some
    &&& format_named(lower_of(config.output_format@)) is Some
}

/// `p` is the compiled plan: the parsed blocks lowered with the settings'
/// metadata, optimized at the settings' level, then scheduled by the
/// settings' mode.
pub open spec fn compiled(input: Seq<char>, config: Config, p: IRProgram) -> bool {
    &&& inputs_valid(input, config)
    &&& exists|blocks: Seq<Block>, m: IRMetadata, lo: IRProgram, op: IRProgram|
        #![trigger lowered_from(lo, blocks, m), optimized(lo, op)]
        block_views(blocks) == parsed(tokens_of(input))->Ok_0 && metadata_of(config, m) && lowered_from(lo, blocks, m)
            && optimized(lo, op) && scheduled_by_mode(
            op,
            p,
            mode_named(lower_of(config.schedule_mode@))->Some_0,
            deepwork_tag_of(config),
        )
}

/// Compiles plan text: tokenize, parse, lower with the configured workday,
/// optimize at the configured level and schedule with the configured mode.
/// Fails on a parse error, then on an unusable workday time, schedule mode
/// or output format, in that order, and on a plan with more tasks than
/// `usize` can count.
pub fn compile(input: &str, config: &Config) -> (r: Result<IRProgram, CompileError>)
    ensures
        parsed(tokens_of(input@)) matches Err(e) ==> r matches Err(CompileError::Parse(x)) && x@ == e,
        parsed(tokens_of(input@)) is Ok && (time_of(config.workday_start@) is None || time_of(config.workday_end@) is None)
            ==> r matches Err(CompileError::Config(ConfigError::InvalidTime(_))),
        parsed(tokens_of(input@)) is Ok && time_of(config.workday_start@) is Some && time_of(config.workday_end@) is Some
            && mode_named(lower_of(config.schedule_mode@)) is None ==> r matches Err(CompileError::Config(ConfigError::InvalidScheduleMode(_))),
        parsed(tokens_of(input@)) is Ok && time_of(config.workday_start@) is Some && time_of(config.workday_end@) is Some
            && mode_named(lower_of(config.schedule_mode@)) is Some && format_named(lower_of(config.output_format@)) is None
            ==> r matches Err(CompileError::Config(ConfigError::InvalidOutputFormat(_))),
        inputs_valid(input@, *config) ==> (r is Ok <==> plan_task_count(parsed(tokens_of(input@))->Ok_0) <= usize::MAX),
        inputs_valid(input@, *config) && plan_task_count(parsed(tokens_of(input@))->Ok_0) > usize::MAX
            ==> r matches Err(CompileError::TooManyTasks),
        r matches Ok(p) ==> compiled(input@, *config, p),
{
    let tokens = tokenize(input);
    assert(toks(tokens@) == tokens_of(input@)) by {
        assert(toks(tokens@) =~= crate::lexer::token_views(tokens@));
    }
    let blocks = match parse(tokens.as_slice()) {
        Ok(b) => b,
        Err(e) => return Err(CompileError::Parse(e)),
    };
    let metadata = match config.to_ir_metadata() {
        Ok(m) => m,
        Err(e) => return Err(CompileError::Config(e)),
    };
    let mode = match config.get_schedule_mode() {
        Ok(m) => m,
        Err(e) => return Err(CompileError::Config(e)),
    };
    match config.get_output_format() {
        Ok(_) => {},
        Err(e) => return Err(CompileError::Config(e)),
    }
    match count_tasks(&blocks) {
        Some(_) => {},
        None => {
            proof {
                lemma_plan_task_count(blocks@);
            }
            return Err(CompileError::TooManyTasks);
        },
    }
    let mut program = to_ir(blocks.as_slice(), metadata);
    let ghost lo = program;
    crate::optimizer::optimize(&mut program);
    let ghost op = program;
    let tag = if config.deepwork_tag.as_str().is_empty() {
        None
    } else {
        Some(config.deepwork_tag.clone())
    };
    let scheduler = create_scheduler(mode, tag);
    scheduler.schedule(&mut program);
    proof {
        lemma_plan_task_count(blocks@);
        assert(scheduled_by_mode(op, program, mode, deepwork_tag_of(*config)));
        assert(lowered_from(lo, blocks@, metadata) && optimized(lo, op));
    }
    Ok(program)
}

} // verus!
