use regex_machine::engine::codegen::get_code;
use regex_machine::engine::evaluator::{eval, eval_depth, eval_width, EvalError};
use regex_machine::engine::parser::parse;
use regex_machine::engine::Instruction;

fn to_insts(regex: &str) -> Vec<Instruction> {
    let ast = parse(regex).unwrap();

    get_code(&ast).unwrap()
}

fn to_chars(s: &str) -> Vec<char> {
    s.chars().collect()
}

#[test]
fn test_simple() {
    let regex = "abc";
    let line = to_chars("abcde");
    let insts = to_insts(regex);

    let res = eval_depth(&insts, &line, 0, 0).unwrap();
    assert!(res);

    let res = eval_width(&insts, &line).unwrap();
    assert!(res)
}

#[test]
fn test_question() {
    let regex = "a?";
    let line = to_chars("ab");
    let insts = to_insts(regex);

    let res = eval_depth(&insts, &line, 0, 0).unwrap();
    assert!(res);

    let res = eval_width(&insts, &line).unwrap();
    assert!(res)
}

#[test]
fn test_plus() {
    let regex = "a+";
    let line = to_chars("aaaaaaaaaaaaaaaaaaaaaaaaaaaaaaaa");
    let insts = to_insts(regex);

    let res = eval_depth(&insts, &line, 0, 0).unwrap();
    assert!(res);

    let res = eval_width(&insts, &line).unwrap();
    assert!(res);

    let line = to_chars("b");
    let insts = to_insts(regex);

    let res = eval_depth(&insts, &line, 0, 0).unwrap();
    assert!(!res);

    let res = eval_width(&insts, &line).unwrap();
    assert!(!res)
}

#[test]
fn test_star() {
    let regex = "a*";
    let line = to_chars("aaaaaaaaaaaaaaaaaaaaaaaaaaaaaaaa");
    let insts = to_insts(regex);

    let res = eval_depth(&insts, &line, 0, 0).unwrap();
    assert!(res);

    let res = eval_width(&insts, &line).unwrap();
    assert!(res);
}

#[test]
fn test_or() {
    let regex = "abc|123|def";
    let line = to_chars("def");
    let insts = to_insts(regex);

    let res = eval_depth(&insts, &line, 0, 0).unwrap();
    assert!(res);

    let res = eval_width(&insts, &line).unwrap();
    assert!(res);

    let line = to_chars("ab3");
    let insts = to_insts(regex);

    let res = eval_depth(&insts, &line, 0, 0).unwrap();
    assert!(!res);

    let res = eval_width(&insts, &line).unwrap();
    assert!(!res)
}

#[test]
fn test_any() {
    let regex = "a.";
    let line = to_chars("ab");
    let insts = to_insts(regex);

    let res = eval_depth(&insts, &line, 0, 0).unwrap();
    assert!(res);

    let res = eval_width(&insts, &line).unwrap();
    assert!(res);

    let line = to_chars("a");
    let insts = to_insts(regex);

    let res = eval_depth(&insts, &line, 0, 0).unwrap();
    assert!(!res);

    let res = eval_width(&insts, &line).unwrap();
    assert!(!res)
}

#[test]
fn test_start() {
    let regex = "^abc(^def|123)";
    let line = to_chars("abc123");
    let insts = to_insts(regex);

    let res = eval_depth(&insts, &line, 0, 0).unwrap();
    assert!(res);

    let res = eval_width(&insts, &line).unwrap();
    assert!(res);

    let line = to_chars("abcdef");

    let res = eval_depth(&insts, &line, 0, 0).unwrap();
    assert!(!res);

    let res = eval_width(&insts, &line).unwrap();
    assert!(!res)
}

#[test]
fn test_end() {
    let regex = "abc(def|123$)+";
    let line = to_chars("abc123");
    let insts = to_insts(regex);

    let res = eval_depth(&insts, &line, 0, 0).unwrap();
    assert!(res);

    let res = eval_width(&insts, &line).unwrap();
    assert!(res);

    let line = to_chars("abc123def");

    let res = eval_depth(&insts, &line, 0, 0).unwrap();
    assert!(!res);

    let res = eval_width(&insts, &line).unwrap();
    assert!(!res)
}

#[test]
fn both_modes_agree_on_many_lines() {
    let patterns = [
        "abc", "a|b", "(ab|cd)+", "a*b", "a?b?c?", "^a.$", "(a|b)*abb", "x+y+", "a.c|a.d", "(a+b)*c$",
    ];
    let lines = [
        "", "a", "b", "ab", "abc", "abcd", "abb", "aabb", "babb", "xxyy", "xy", "axc", "axd", "abab",
        "aabaabc", "cd", "abcdab",
    ];
    for p in patterns {
        let insts = to_insts(p);
        for l in lines {
            let line = to_chars(l);
            let depth = eval(&insts, &line, true);
            let width = eval(&insts, &line, false);
            assert!(depth.is_ok());
            assert_eq!(depth, width);
            assert_eq!(depth, eval_depth(&insts, &line, 0, 0));
            assert_eq!(width, eval_width(&insts, &line));
        }
    }
}

#[test]
fn empty_line_against_star_matches() {
    let insts = to_insts("a*");
    assert_eq!(eval(&insts, &[], true), Ok(true));
    assert_eq!(eval(&insts, &[], false), Ok(true));
}

#[test]
fn exhausted_input_fails_the_thread_in_both_modes() {
    // The first alternative runs out of input; the second still matches.
    let insts = to_insts("a.|a");
    let line = to_chars("a");
    assert_eq!(eval(&insts, &line, true), Ok(true));
    assert_eq!(eval(&insts, &line, false), Ok(true));
    let insts = to_insts("ab|a");
    assert_eq!(eval(&insts, &line, true), Ok(true));
    assert_eq!(eval(&insts, &line, false), Ok(true));
}

#[test]
fn empty_program_is_an_invalid_pc() {
    assert_eq!(eval(&[], &[], true), Err(EvalError::InvalidPC));
    assert_eq!(eval(&[], &[], false), Err(EvalError::InvalidPC));
}

#[test]
fn jump_out_of_the_program_is_an_invalid_pc() {
    let insts = vec![Instruction::Char('a'), Instruction::Jump(7)];
    let line = to_chars("a");
    assert_eq!(eval_depth(&insts, &line, 0, 0), Err(EvalError::InvalidPC));
    assert_eq!(eval_width(&insts, &line), Err(EvalError::InvalidPC));
    // The thread fails before it reaches the jump.
    let line = to_chars("b");
    assert_eq!(eval_depth(&insts, &line, 0, 0), Ok(false));
    assert_eq!(eval_width(&insts, &line), Ok(false));
}

#[test]
fn running_off_the_end_is_an_invalid_pc() {
    let insts = vec![Instruction::Char('a')];
    let line = to_chars("a");
    assert_eq!(eval(&insts, &line, true), Err(EvalError::InvalidPC));
    assert_eq!(eval(&insts, &line, false), Err(EvalError::InvalidPC));
}

#[test]
fn backtracking_stops_at_the_first_error() {
    // First branch leaves the program, second would match.
    let insts = vec![
        Instruction::Split(1, 2),
        Instruction::Jump(9),
        Instruction::Match,
    ];
    assert_eq!(eval_depth(&insts, &[], 0, 0), Err(EvalError::InvalidPC));
    // Stepped in turn, the second thread reaches `Match` on its first step.
    let insts = vec![
        Instruction::Split(1, 3),
        Instruction::Start,
        Instruction::Jump(9),
        Instruction::Match,
    ];
    assert_eq!(eval_depth(&insts, &[], 0, 0), Err(EvalError::InvalidPC));
    assert_eq!(eval_width(&insts, &[]), Ok(true));
}

#[test]
fn eval_depth_starts_where_it_is_told() {
    let insts = to_insts("abc");
    let line = to_chars("xbc");
    assert_eq!(eval_depth(&insts, &line, 0, 0), Ok(false));
    assert_eq!(eval_depth(&insts, &line, 1, 1), Ok(true));
    assert_eq!(eval_depth(&insts, &line, 3, 0), Ok(true));
    assert_eq!(eval_depth(&insts, &line, 4, 0), Err(EvalError::InvalidPC));
    assert_eq!(eval_depth(&insts, &line, 0, 9), Ok(false));
}

#[test]
fn start_and_end_consume_nothing() {
    let insts = vec![
        Instruction::Start,
        Instruction::Start,
        Instruction::End,
        Instruction::Match,
    ];
    assert_eq!(eval(&insts, &[], true), Ok(true));
    assert_eq!(eval(&insts, &[], false), Ok(true));
    let line = to_chars("a");
    assert_eq!(eval(&insts, &line, true), Ok(false));
    assert_eq!(eval(&insts, &line, false), Ok(false));
}
