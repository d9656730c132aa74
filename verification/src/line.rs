//! What the shell makes of one line of input.
use vstd::prelude::*;

use crate::lexer::{lex, tokenize, tokens_view};
use crate::parser::{Pipeline, opt_string_view, parse, parse_tokens, pipeline_wf};

verus! {

/// What to do with a line.
#[derive(Debug)]
pub enum LinePlan {
    /// Nothing is run: report the message, where there is one, and end the
    /// line with the status.
    Finished { status: i32, message: Option<String> },
    /// Run the pipeline.
    Run(Pipeline),
}

/// The plan ends the line with `status`, reporting `message`.
pub open spec fn finished_with(r: LinePlan, status: i32, message: Option<Seq<char>>) -> bool {
    match r {
        LinePlan::Finished { status: s, message: m } => s == status && opt_string_view(m)
            == message,
        LinePlan::Run(_) => false,
    }
}

/// Tokenizes and parses one line: a line that cannot be tokenized or parsed
/// ends with status 1 and the error's message; a line without tokens ends
/// with status 0 and no message; any other line is a pipeline to run.
pub fn plan_line(line: &str) -> (r: LinePlan)
    ensures
        match lex(line@) {
            Err(e) => finished_with(r, 1, Some(e.message())),
            Ok(ts) => if ts.len() == 0 {
                finished_with(r, 0, None)
            } else {
                match parse_tokens(ts) {
                    Err(e) => finished_with(r, 1, Some(e.message())),
                    Ok(cs) => r matches LinePlan::Run(p) && p@ == cs,
                }
            },
        },
        r matches LinePlan::Run(p) ==> pipeline_wf(p@),
{
    let tokens = match tokenize(line) {
        Ok(t) => t,
        Err(e) => {
            return LinePlan::Finished { status: 1, message: Some(e) };
        },
    };
    if tokens.len() == 0 {
        return LinePlan::Finished { status: 0, message: None };
    }
    match parse(tokens) {
        Ok(p) => LinePlan::Run(p),
        Err(e) => LinePlan::Finished { status: 1, message: Some(e) },
    }
}

} // verus!
