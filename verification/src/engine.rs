//! The engine: syntax tree, instruction set and the three stages.
use crate::helper::chars_of;
use vstd::prelude::*;

use bound::lemma_parsed_compiles;
use codegen::{compile_spec, get_code, CodeGenError};
use evaluator::{accepts, eval, EvalError};
use parser::{parse, parse_spec, Ast, ParseError, Tree};
use shape::{is_productive, productive};
use text::instruction_text;

pub mod bound;
pub mod codegen;
pub mod evaluator;
pub mod parser;
pub mod shape;
pub mod text;

verus! {

/// One instruction of the matching machine. A program is a sequence of them,
/// and an address is an index into that sequence.
#[derive(Debug, PartialEq, Eq, Clone, Copy, Structural)]
pub enum Instruction {
    /// Consume one character of the line if it equals this one.
    Char(char),
    /// Consume one character of the line, whatever it is.
    Any,
    /// Pass only at the start of the line; consumes nothing.
    Start,
    /// Pass only at the end of the line; consumes nothing.
    End,
    /// Accept.
    Match,
    /// Continue at the address.
    Jump(usize),
    /// Continue at the first address, and keep the second as an alternative.
    Split(usize, usize),
}

/// Why matching a pattern against a line gave no answer: the error of the
/// stage that failed.
#[derive(Debug, PartialEq, Eq, Clone, Copy, Structural)]
pub enum MatchError {
    /// The pattern is malformed.
    Parse(ParseError),
    /// No program could be generated.
    CodeGen(CodeGenError),
    /// The program could not be run.
    Eval(EvalError),
}

/// What matching `line` against the pattern `expr` returns: the parser's
/// error, else the generator's error, else whether some run of the pattern's
/// program on the line reaches `Match`.
pub open spec fn match_spec(expr: Seq<char>, line: Seq<char>) -> Result<bool, MatchError> {
    match parse_spec(expr) {
        Err(e) => Err(MatchError::Parse(e)),
        Ok(t) => match compile_spec(t) {
            Err(e) => Err(MatchError::CodeGen(e)),
            Ok(prog) => Ok(accepts(prog, line, 0, 0)),
        },
    }
}

/// The pattern is malformed, or each of its repetitions consumes a character
/// each time round, so that matching comes to an end.
pub open spec fn terminating(expr: Seq<char>) -> bool {
    parse_spec(expr) matches Ok(t) ==> productive(t)
}

/// What matching `line` against a parsed pattern returns.
pub open spec fn match_tree_spec(t: Tree, line: Seq<char>) -> Result<bool, MatchError> {
    match compile_spec(t) {
        Err(e) => Err(MatchError::CodeGen(e)),
        Ok(prog) => Ok(accepts(prog, line, 0, 0)),
    }
}

/// Compiles a productive expression and runs it against the line.
fn match_tree(ast: &Ast, line: &str, is_depth: bool) -> (r: Result<bool, MatchError>)
    requires
        productive(ast@),
    ensures
        r == match_tree_spec(ast@, line@),
{
    let code = match get_code(ast) {
        Ok(code) => code,
        Err(e) => {
            return Err(MatchError::CodeGen(e));
        },
    };
    let line = chars_of(line);
    match eval(code.as_slice(), line.as_slice(), is_depth) {
        Ok(found) => Ok(found),
        Err(e) => Err(MatchError::Eval(e)),
    }
}

/// Matches `line` against the pattern `expr`, from the start of the line; the
/// match need not reach the end of the line. `is_depth` selects backtracking,
/// else all candidate threads are stepped in turn: the answer is the same.
///
/// A malformed pattern gives the parser's error and nothing is compiled; a
/// pattern that parses always compiles, unless it is so long that its
/// program has more instructions than an address can count.
///
/// The pattern must be terminating: under a `*` or `+` whose operand can
/// match without consuming a character, matching would not come to an end.
/// [`try_matching`] makes that test itself.
pub fn do_matching(expr: &str, line: &str, is_depth: bool) -> (r: Result<bool, MatchError>)
    requires
        terminating(expr@),
    ensures
        r == match_spec(expr@, line@),
        2 * expr@.len() < usize::MAX ==> !(r matches Err(MatchError::CodeGen(_))),
{
    proof {
        if parse_spec(expr@) is Ok && 2 * expr@.len() < usize::MAX {
            lemma_parsed_compiles(expr@);
        }
    }
    match parse(expr) {
        Ok(ast) => match_tree(&ast, line, is_depth),
        Err(e) => Err(MatchError::Parse(e)),
    }
}

/// Matches `line` against the pattern `expr` as [`do_matching`] does, or
/// returns `None` where the pattern is not terminating.
pub fn try_matching(expr: &str, line: &str, is_depth: bool) -> (r: Option<
    Result<bool, MatchError>,
>)
    ensures
        r == (if terminating(expr@) {
            Some(match_spec(expr@, line@))
        } else {
            None
        }),
{
    match parse(expr) {
        Ok(ast) => {
            if is_productive(&ast) {
                Some(match_tree(&ast, line, is_depth))
            } else {
                None
            }
        },
        Err(e) => Some(Err(MatchError::Parse(e))),
    }
}

/// The lines of a program's listing, one for each instruction.
pub open spec fn listing_spec(prog: Seq<Instruction>) -> Seq<Seq<char>> {
    Seq::new(prog.len(), |i: int| instruction_text(prog[i]))
}

/// The texts of a sequence of strings.
pub open spec fn texts(lines: Seq<String>) -> Seq<Seq<char>> {
    Seq::new(lines.len(), |i: int| lines[i]@)
}

/// The listing of a program: one line for each instruction, in order.
pub fn listing(code: &[Instruction]) -> (lines: Vec<String>)
    ensures
        texts(lines@) == listing_spec(code@),
{
    let mut lines: Vec<String> = Vec::new();
    let mut i: usize = 0;
    while i < code.len()
        invariant
            i <= code.len(),
            lines.len() == i,
            forall|k: int| 0 <= k < i ==> (#[trigger] lines[k])@ == instruction_text(code[k]),
        decreases code.len() - i,
    {
        lines.push(code[i].to_text());
        i += 1;
    }
    assert(texts(lines@) =~= listing_spec(code@));
    lines
}

/// Parses and compiles a pattern for inspection: its syntax tree and the
/// listing of its program, or the error of the stage that failed.
pub fn disassemble(expr: &str) -> (r: Result<(Ast, Vec<String>), MatchError>)
    ensures
        match parse_spec(expr@) {
            Err(e) => r == Err::<(Ast, Vec<String>), MatchError>(MatchError::Parse(e)),
            Ok(t) => match compile_spec(t) {
                Err(e) => r == Err::<(Ast, Vec<String>), MatchError>(MatchError::CodeGen(e)),
                Ok(prog) => r is Ok && r->Ok_0.0@ == t && texts(r->Ok_0.1@) == listing_spec(prog),
            },
        },
{
    let ast = match parse(expr) {
        Ok(ast) => ast,
        Err(e) => {
            return Err(MatchError::Parse(e));
        },
    };
    let code = match get_code(&ast) {
        Ok(code) => code,
        Err(e) => {
            return Err(MatchError::CodeGen(e));
        },
    };
    let lines = listing(code.as_slice());
    Ok((ast, lines))
}

} // verus!
