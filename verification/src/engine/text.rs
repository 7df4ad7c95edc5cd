//! Text forms of instructions and errors, for listings and diagnostics.
use super::codegen::CodeGenError;
use super::evaluator::EvalError;
use super::parser::ParseError;
use super::{Instruction, MatchError};
use vstd::prelude::*;

verus! {

/// `String::push` of the standard library: the character is appended to the
/// end of the string, and nothing else changes.
pub assume_specification[ String::push ](s: &mut String, ch: char)
    ensures
        final(s)@ == old(s)@.push(ch),
;

/// The character for a single decimal digit.
pub open spec fn digit_char(d: nat) -> char {
    if d == 0 {
        '0'
    } else if d == 1 {
        '1'
    } else if d == 2 {
        '2'
    } else if d == 3 {
        '3'
    } else if d == 4 {
        '4'
    } else if d == 5 {
        '5'
    } else if d == 6 {
        '6'
    } else if d == 7 {
        '7'
    } else if d == 8 {
        '8'
    } else {
        '9'
    }
}

/// The decimal digits of `n`, without leading zeros.
pub open spec fn decimal(n: nat) -> Seq<char>
    decreases n,
{
    if n < 10 {
        seq![digit_char(n)]
    } else {
        decimal(n / 10).push(digit_char(n % 10))
    }
}

/// The decimal digits of `n`, with zeros in front up to four digits.
pub open spec fn padded(n: nat) -> Seq<char> {
    if n < 10 {
        seq!['0', '0', '0'] + decimal(n)
    } else if n < 100 {
        seq!['0', '0'] + decimal(n)
    } else if n < 1000 {
        seq!['0'] + decimal(n)
    } else {
        decimal(n)
    }
}

/// The line that stands for an instruction in a listing.
pub open spec fn instruction_text(inst: Instruction) -> Seq<char> {
    match inst {
        Instruction::Char(c) => "char "@.push(c),
        Instruction::Any => "any"@,
        Instruction::Start => "start"@,
        Instruction::End => "end"@,
        Instruction::Match => "match"@,
        Instruction::Jump(a) => "jmp "@ + padded(a as nat),
        Instruction::Split(a, b) => "split "@ + padded(a as nat) + ", "@ + padded(b as nat),
    }
}

/// The diagnostic for a parse error.
pub open spec fn parse_error_text(e: ParseError) -> Seq<char> {
    match e {
        ParseError::InvalidEscape(pos, c) => ("ParseError: invalid escape: pos = "@ + decimal(
            pos as nat,
        ) + ", char = "@).push(c),
        ParseError::InvalidRightParen(pos) => "ParseError: invalid right parenthesis: pos = "@
            + decimal(pos as nat),
        ParseError::NoPrev(pos) => "ParseError: no previous expression: pos = "@ + decimal(
            pos as nat,
        ),
        ParseError::NoRightParen => "ParseError: no right parenthesis"@,
        ParseError::Empty => "ParseError: empty expression"@,
    }
}

/// The diagnostic for a code generation error.
pub open spec fn code_gen_error_text(e: CodeGenError) -> Seq<char> {
    match e {
        CodeGenError::PCOverFlow => "CodeGenError: PCOverFlow"@,
        CodeGenError::FailStar => "CodeGenError: FailStar"@,
        CodeGenError::FailOr => "CodeGenError: FailOr"@,
        CodeGenError::FailQuestion => "CodeGenError: FailQuestion"@,
    }
}

/// The diagnostic for an evaluation error.
pub open spec fn eval_error_text(e: EvalError) -> Seq<char> {
    match e {
        EvalError::PCOverFlow => "EvaluationError: PCOverFlow"@,
        EvalError::SPOverFlow => "EvaluationError: SPOverFlow"@,
        EvalError::InvalidPC => "EvaluationError: InvalidPC"@,
        EvalError::InvalidContext => "EvaluationError: InvalidContext"@,
    }
}

/// The character for the digit `d`.
fn digit(d: usize) -> (c: char)
    requires
        d < 10,
    ensures
        c == digit_char(d as nat),
{
    if d == 0 {
        '0'
    } else if d == 1 {
        '1'
    } else if d == 2 {
        '2'
    } else if d == 3 {
        '3'
    } else if d == 4 {
        '4'
    } else if d == 5 {
        '5'
    } else if d == 6 {
        '6'
    } else if d == 7 {
        '7'
    } else if d == 8 {
        '8'
    } else {
        '9'
    }
}

/// Appends the decimal digits of `n` to `s`.
fn push_decimal(s: &mut String, n: usize)
    ensures
        final(s)@ == old(s)@ + decimal(n as nat),
    decreases n,
{
    if n >= 10 {
        push_decimal(s, n / 10);
    }
    s.push(digit(n % 10));
    assert(s@ =~= old(s)@ + decimal(n as nat));
}

/// Appends the decimal digits of `n` to `s`, with zeros in front up to four
/// digits.
fn push_padded(s: &mut String, n: usize)
    ensures
        final(s)@ == old(s)@ + padded(n as nat),
{
    if n < 1000 {
        s.push('0');
    }
    if n < 100 {
        s.push('0');
    }
    if n < 10 {
        s.push('0');
    }
    push_decimal(s, n);
    assert(s@ =~= old(s)@ + padded(n as nat));
}

impl Instruction {
    /// The instruction as a line of a listing: `char c`, `any`, `start`,
    /// `end`, `match`, `jmp NNNN` or `split NNNN, NNNN`, each address in
    /// decimal with zeros in front up to four digits.
    pub fn to_text(&self) -> (r: String)
        ensures
            r@ == instruction_text(*self),
    {
        match self {
            Instruction::Char(c) => {
                let mut s = String::from_str("char ");
                s.push(*c);
                s
            },
            Instruction::Any => String::from_str("any"),
            Instruction::Start => String::from_str("start"),
            Instruction::End => String::from_str("end"),
            Instruction::Match => String::from_str("match"),
            Instruction::Jump(a) => {
                let mut s = String::from_str("jmp ");
                push_padded(&mut s, *a);
                s
            },
            Instruction::Split(a, b) => {
                let mut s = String::from_str("split ");
                push_padded(&mut s, *a);
                s.append(", ");
                push_padded(&mut s, *b);
                s
            },
        }
    }
}

impl ParseError {
    /// The error as a diagnostic, with the position and the character where
    /// the error has them.
    pub fn to_text(&self) -> (r: String)
        ensures
            r@ == parse_error_text(*self),
    {
        match self {
            ParseError::InvalidEscape(pos, c) => {
                let mut s = String::from_str("ParseError: invalid escape: pos = ");
                push_decimal(&mut s, *pos);
                s.append(", char = ");
                s.push(*c);
                s
            },
            ParseError::InvalidRightParen(pos) => {
                let mut s = String::from_str("ParseError: invalid right parenthesis: pos = ");
                push_decimal(&mut s, *pos);
                s
            },
            ParseError::NoPrev(pos) => {
                let mut s = String::from_str("ParseError: no previous expression: pos = ");
                push_decimal(&mut s, *pos);
                s
            },
            ParseError::NoRightParen => String::from_str("ParseError: no right parenthesis"),
            ParseError::Empty => String::from_str("ParseError: empty expression"),
        }
    }
}

impl CodeGenError {
    /// The error as a diagnostic.
    pub fn to_text(&self) -> (r: String)
        ensures
            r@ == code_gen_error_text(*self),
    {
        match self {
            CodeGenError::PCOverFlow => String::from_str("CodeGenError: PCOverFlow"),
            CodeGenError::FailStar => String::from_str("CodeGenError: FailStar"),
            CodeGenError::FailOr => String::from_str("CodeGenError: FailOr"),
            CodeGenError::FailQuestion => String::from_str("CodeGenError: FailQuestion"),
        }
    }
}

impl EvalError {
    /// The error as a diagnostic.
    pub fn to_text(&self) -> (r: String)
        ensures
            r@ == eval_error_text(*self),
    {
        match self {
            EvalError::PCOverFlow => String::from_str("EvaluationError: PCOverFlow"),
            EvalError::SPOverFlow => String::from_str("EvaluationError: SPOverFlow"),
            EvalError::InvalidPC => String::from_str("EvaluationError: InvalidPC"),
            EvalError::InvalidContext => String::from_str("EvaluationError: InvalidContext"),
        }
    }
}

impl MatchError {
    /// The diagnostic of the stage that failed.
    pub fn to_text(&self) -> (r: String)
        ensures
            r@ == match self {
                MatchError::Parse(e) => parse_error_text(*e),
                MatchError::CodeGen(e) => code_gen_error_text(*e),
                MatchError::Eval(e) => eval_error_text(*e),
            },
    {
        match self {
            MatchError::Parse(e) => e.to_text(),
            MatchError::CodeGen(e) => e.to_text(),
            MatchError::Eval(e) => e.to_text(),
        }
    }
}

} // verus!
