use regex_machine::engine::codegen::{get_code, CodeGenError};
use regex_machine::engine::evaluator::{eval, EvalError};
use regex_machine::engine::parser::{parse, Ast, ParseError};
use regex_machine::engine::shape::{is_nullable, is_productive};
use regex_machine::engine::{listing, Instruction, MatchError};
use regex_machine::{disassemble, do_matching, try_matching};

#[test]
fn test_do_matching() {
    assert!(do_matching("+b", "bbb", true).is_err());
    assert!(do_matching("*b", "bbb", true).is_err());
    assert!(do_matching("|b", "bbb", true).is_err());
    assert!(do_matching("?b", "bbb", true).is_err());

    assert!(do_matching("abc|def", "def", true).unwrap());
    assert!(do_matching("(abc)*", "abcabc", true).unwrap());
    assert!(do_matching("(ab|cd)+", "abcd", true).unwrap());
    assert!(do_matching("abc?", "abcd", true).unwrap());

    assert!(!do_matching("abc|def", "abd", true).unwrap());
    assert!(!do_matching("(ab|cd)+", "", true).unwrap());
    assert!(!do_matching("abc?", "acd", true).unwrap());
}

#[test]
fn alternation_matches_either_side() {
    for depth in [true, false] {
        assert_eq!(do_matching("abc|def", "def", depth), Ok(true));
        assert_eq!(do_matching("abc|def", "abc", depth), Ok(true));
        assert_eq!(do_matching("abc|def", "abd", depth), Ok(false));
    }
}

#[test]
fn plus_needs_one_repetition() {
    for depth in [true, false] {
        assert_eq!(do_matching("(ab|cd)+", "abcd", depth), Ok(true));
        assert_eq!(do_matching("(ab|cd)+", "cd", depth), Ok(true));
        assert_eq!(do_matching("(ab|cd)+", "", depth), Ok(false));
        assert_eq!(do_matching("(ab|cd)+", "ac", depth), Ok(false));
    }
}

#[test]
fn question_applies_to_the_last_character() {
    for depth in [true, false] {
        assert_eq!(do_matching("abc?", "abcd", depth), Ok(true));
        assert_eq!(do_matching("abc?", "abd", depth), Ok(true));
        assert_eq!(do_matching("abc?", "ab", depth), Ok(true));
        assert_eq!(do_matching("abc?", "acd", depth), Ok(false));
        assert_eq!(do_matching("ab?c", "acd", depth), Ok(true));
    }
}

#[test]
fn dot_needs_a_character() {
    for depth in [true, false] {
        assert_eq!(do_matching("a.", "a", depth), Ok(false));
        assert_eq!(do_matching("a.", "ab", depth), Ok(true));
        assert_eq!(do_matching("a.", "a語", depth), Ok(true));
    }
}

#[test]
fn start_holds_only_at_the_first_position() {
    for depth in [true, false] {
        assert_eq!(do_matching("^abc(^def|123)", "abc123", depth), Ok(true));
        assert_eq!(do_matching("^abc(^def|123)", "abcdef", depth), Ok(false));
    }
}

#[test]
fn end_holds_only_behind_the_last_character() {
    for depth in [true, false] {
        assert_eq!(do_matching("abc(def|123$)+", "abc123", depth), Ok(true));
        assert_eq!(do_matching("abc(def|123$)+", "abc123def", depth), Ok(false));
        assert_eq!(do_matching("abc$", "abc", depth), Ok(true));
        assert_eq!(do_matching("abc$", "abcd", depth), Ok(false));
    }
}

#[test]
fn match_starts_at_the_first_character_and_may_stop_early() {
    for depth in [true, false] {
        assert_eq!(do_matching("abc", "abcde", depth), Ok(true));
        assert_eq!(do_matching("bcd", "abcde", depth), Ok(false));
    }
}

#[test]
fn nested_alternatives_in_a_repetition() {
    assert_eq!(do_matching("abc|(de|cd)+", "decddede", true), Ok(true));
    assert_eq!(do_matching("abc|(de|cd)+", "decddede", false), Ok(true));
}

#[test]
fn first_error_is_the_parsers() {
    assert_eq!(
        do_matching("abc)", "abc", true),
        Err(MatchError::Parse(ParseError::InvalidRightParen(3)))
    );
    assert_eq!(
        do_matching("(abc(123)", "abc", false),
        Err(MatchError::Parse(ParseError::NoRightParen))
    );
    assert_eq!(
        do_matching("", "abc", false),
        Err(MatchError::Parse(ParseError::Empty))
    );
    assert_eq!(
        do_matching(r"a\b", "ab", true),
        Err(MatchError::Parse(ParseError::InvalidEscape(2, 'b')))
    );
}

#[test]
fn try_matching_answers_for_terminating_patterns() {
    assert_eq!(try_matching("a*b", "aaab", true), Some(Ok(true)));
    assert_eq!(try_matching("a*b", "aaac", false), Some(Ok(false)));
    assert_eq!(try_matching("(a|b)+c?", "abba", true), Some(Ok(true)));
    assert_eq!(
        try_matching("+", "a", true),
        Some(Err(MatchError::Parse(ParseError::NoPrev(0))))
    );
}

#[test]
fn try_matching_declines_repetitions_of_nothing() {
    for depth in [true, false] {
        assert_eq!(try_matching("(a*)*", "b", depth), None);
        assert_eq!(try_matching("a**", "a", depth), None);
        assert_eq!(try_matching("(a?)+", "a", depth), None);
        assert_eq!(try_matching("b?+*", "b", depth), None);
        assert_eq!(try_matching("(^)*a", "a", depth), None);
        assert_eq!(try_matching("(a|b*)+", "a", depth), None);
        assert_eq!(try_matching("x(a*$)+", "x", depth), None);
    }
}

#[test]
fn nullable_and_productive() {
    let nullable = ["a*", "a?", "^", "$", "a*b?", "a|b*", "(a?)+", "^$"];
    for p in nullable {
        assert!(is_nullable(&parse(p).unwrap()));
    }
    let consuming = ["a", ".", "a*b", "a|b", "a+", "^a", "(a|b)(c|d)*"];
    for p in consuming {
        assert!(!is_nullable(&parse(p).unwrap()));
    }
    let productive = ["a*", "(a|b)+", "(a*b)*", "(^a)*", "a?b?", "((a+)?b)+"];
    for p in productive {
        assert!(is_productive(&parse(p).unwrap()));
    }
    let looping = ["a**", "(a?)*", "(a*)+", "(a|^)*", "x(y|(z*)*)"];
    for p in looping {
        assert!(!is_productive(&parse(p).unwrap()));
    }
    assert!(is_nullable(&Ast::Concat(vec![])));
    assert!(is_productive(&Ast::Concat(vec![])));
    assert!(!is_productive(&Ast::Star(Box::new(Ast::Concat(vec![])))));
}

#[test]
fn productive_patterns_agree_in_both_modes() {
    let patterns = ["(a|b)*abb", "(a+b?)+c", "^(ab)*$", "a.*b", "(x|y|z)+$", "(a?b)+"];
    let lines = ["", "abb", "aabb", "ab", "abab", "aab", "axxb", "xyz", "xyzw", "b", "bab", "aabc"];
    for p in patterns {
        let ast = parse(p).unwrap();
        assert!(is_productive(&ast));
        let code = get_code(&ast).unwrap();
        for l in lines {
            let chars: Vec<char> = l.chars().collect();
            let depth = eval(&code, &chars, true);
            assert_eq!(depth, eval(&code, &chars, false));
            assert_eq!(do_matching(p, l, true).ok(), depth.ok());
            assert_eq!(do_matching(p, l, false).ok(), depth.ok());
        }
    }
}

#[test]
fn instruction_lines() {
    assert_eq!(Instruction::Char('c').to_text(), "char c");
    assert_eq!(Instruction::Char(' ').to_text(), "char  ");
    assert_eq!(Instruction::Match.to_text(), "match");
    assert_eq!(Instruction::Any.to_text(), "any");
    assert_eq!(Instruction::Start.to_text(), "start");
    assert_eq!(Instruction::End.to_text(), "end");
    assert_eq!(Instruction::Jump(0).to_text(), "jmp 0000");
    assert_eq!(Instruction::Jump(4).to_text(), "jmp 0004");
    assert_eq!(Instruction::Jump(10).to_text(), "jmp 0010");
    assert_eq!(Instruction::Jump(99).to_text(), "jmp 0099");
    assert_eq!(Instruction::Jump(100).to_text(), "jmp 0100");
    assert_eq!(Instruction::Jump(999).to_text(), "jmp 0999");
    assert_eq!(Instruction::Jump(1000).to_text(), "jmp 1000");
    assert_eq!(Instruction::Jump(12345).to_text(), "jmp 12345");
    assert_eq!(Instruction::Split(1, 5).to_text(), "split 0001, 0005");
    assert_eq!(Instruction::Split(1234, 50607).to_text(), "split 1234, 50607");
    assert_eq!(
        Instruction::Jump(usize::MAX).to_text(),
        format!("jmp {}", usize::MAX)
    );
}

#[test]
fn error_texts() {
    assert_eq!(
        ParseError::InvalidEscape(3, 'a').to_text(),
        "ParseError: invalid escape: pos = 3, char = a"
    );
    assert_eq!(
        ParseError::InvalidRightParen(120).to_text(),
        "ParseError: invalid right parenthesis: pos = 120"
    );
    assert_eq!(
        ParseError::NoPrev(0).to_text(),
        "ParseError: no previous expression: pos = 0"
    );
    assert_eq!(
        ParseError::NoRightParen.to_text(),
        "ParseError: no right parenthesis"
    );
    assert_eq!(ParseError::Empty.to_text(), "ParseError: empty expression");
    assert_eq!(
        MatchError::Parse(ParseError::Empty).to_text(),
        "ParseError: empty expression"
    );
    assert_eq!(CodeGenError::PCOverFlow.to_text(), "CodeGenError: PCOverFlow");
    assert_eq!(CodeGenError::FailStar.to_text(), "CodeGenError: FailStar");
    assert_eq!(CodeGenError::FailOr.to_text(), "CodeGenError: FailOr");
    assert_eq!(
        CodeGenError::FailQuestion.to_text(),
        "CodeGenError: FailQuestion"
    );
    assert_eq!(EvalError::PCOverFlow.to_text(), "EvaluationError: PCOverFlow");
    assert_eq!(EvalError::SPOverFlow.to_text(), "EvaluationError: SPOverFlow");
    assert_eq!(EvalError::InvalidPC.to_text(), "EvaluationError: InvalidPC");
    assert_eq!(
        EvalError::InvalidContext.to_text(),
        "EvaluationError: InvalidContext"
    );
    assert_eq!(
        MatchError::Eval(EvalError::InvalidPC).to_text(),
        "EvaluationError: InvalidPC"
    );
    assert_eq!(
        MatchError::CodeGen(CodeGenError::PCOverFlow).to_text(),
        "CodeGenError: PCOverFlow"
    );
}

#[test]
fn listing_has_one_line_for_each_instruction() {
    let code = get_code(&parse("a|b*").unwrap()).unwrap();
    assert_eq!(
        listing(&code),
        vec![
            "split 0001, 0003",
            "char a",
            "jmp 0006",
            "split 0004, 0006",
            "char b",
            "jmp 0003",
            "match",
        ]
    );
    assert!(listing(&[]).is_empty());
}

#[test]
fn disassemble_gives_tree_and_listing() {
    let (ast, lines) = disassemble("ab+").unwrap();
    assert_eq!(
        ast,
        Ast::Concat(vec![
            Ast::Char('a'),
            Ast::Plus(Box::new(Ast::Char('b')))
        ])
    );
    assert_eq!(lines, vec!["char a", "char b", "split 0001, 0003", "match"]);
    assert!(disassemble("abc|(de|cd)+").is_ok());
    assert_eq!(
        disassemble("(a").err(),
        Some(MatchError::Parse(ParseError::NoRightParen))
    );
}
