//! From the text of a program to what it writes, in one step.
use crate::environment::Environment;
use crate::evaluator::{beginning, evaluate, ran};
use crate::lexer::{lexed, tokenize, LexError};
use crate::parser::{block, parse, plans, ParseError, StmtView};
use crate::value::EvalError;
use vstd::prelude::*;

verus! {

/// Why a program text gives no output: it has no tokens, its tokens make no
/// program, or its run has ended with an error.
#[derive(PartialEq, Eq, Structural, Clone, Copy, Debug)]
pub enum Failure {
    Lex(LexError),
    Parse(ParseError),
    Eval(EvalError),
}

/// What the run of the statements `stmts` gives, from an empty environment,
/// on the tape `tape`: the text that was written, or the error.
pub open spec fn run_of(stmts: Seq<StmtView>, limit: u64, tape: Seq<nat>) -> Result<
    Seq<char>,
    Failure,
> {
    let end = ran(stmts, 0, beginning(Map::empty(), limit), tape);
    match end.fault {
        Some(e) => Err(Failure::Eval(e)),
        None => Ok(end.out),
    }
}

/// The text of a result.
pub open spec fn written(r: Result<String, Failure>) -> Result<Seq<char>, Failure> {
    match r {
        Ok(text) => Ok(text@),
        Err(e) => Err(e),
    }
}

/// What a program text gives on the tape `tape`: what its run writes, or
/// the first error, of the lexer, of the parser or of the run.
pub open spec fn meaning(source: Seq<char>, limit: u64, tape: Seq<nat>) -> Result<
    Seq<char>,
    Failure,
> {
    match lexed(source, 0, Seq::empty()) {
        Err(e) => Err(Failure::Lex(e)),
        Ok(found) => match block(found, 0, false, Seq::empty(), StmtView::Empty) {
            Err(e) => Err(Failure::Parse(e)),
            Ok((stmts, _)) => run_of(stmts, limit, tape),
        },
    }
}

/// Reads a program, runs it in an environment of its own, and gives back
/// what it wrote. `limit` is the number of times that the `while` loops of
/// the program may go round in all. What the run draws is random: the
/// result is the meaning of the text on the tape of what was drawn. What
/// the parser lets through is finished, so the run never ends with
/// `Unfinished`.
pub fn interpret(source: String, limit: u64) -> (r: Result<String, Failure>)
    ensures
        exists|tape: Seq<nat>| #[trigger] meaning(source@, limit, tape) == written(r),
        r != Err::<String, Failure>(Failure::Eval(EvalError::Unfinished)),
{
    let list = match tokenize(source) {
        Ok(list) => list,
        Err(e) => {
            let r = Err(Failure::Lex(e));
            assert(meaning(source@, limit, Seq::empty()) == written(r));
            return r;
        },
    };
    let mut i: usize = 0;
    let program = match parse(&list, &mut i) {
        Ok(program) => program,
        Err(e) => {
            let r = Err(Failure::Parse(e));
            assert(meaning(source@, limit, Seq::empty()) == written(r));
            return r;
        },
    };
    let mut mem = Environment::new();
    let ghost start = mem@;
    let run = evaluate(&program, &mut mem, limit);
    let ghost tape = choose|tape: Seq<nat>|
        {
            let end = #[trigger] ran(plans(program), 0, beginning(start, limit), tape);
            &&& end.pos == tape.len()
            &&& end.env == mem@
            &&& match run {
                Ok(text) => end.fault is None && end.out == text@,
                Err(e) => end.fault == Some(e),
            }
        };
    let r = match run {
        Ok(text) => Ok(text),
        Err(e) => Err(Failure::Eval(e)),
    };
    assert(meaning(source@, limit, tape) == written(r));
    r
}

} // verus!
