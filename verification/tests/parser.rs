use regex_machine::engine::parser::{
    fold_or, parse, parse_escape, parse_plus_star_question, Ast, ParseError, Psq,
};

#[test]
fn valid_parse_escape() {
    assert_eq!(parse_escape(3, '+').unwrap(), Ast::Char('+'));
    assert_eq!(parse_escape(1, '|').unwrap(), Ast::Char('|'))
}

#[test]
fn invalid_parse_escape() {
    assert_eq!(
        parse_escape(3, 'a').err().unwrap(),
        ParseError::InvalidEscape(3, 'a')
    );
    assert_eq!(
        parse_escape(123, 'b').err().unwrap(),
        ParseError::InvalidEscape(123, 'b')
    )
}

#[test]
fn valid_plus_star_question() {
    let mut seq = vec![Ast::Char('6')];
    parse_plus_star_question(&mut seq, Psq::Plus, 1).unwrap();
    assert_eq!(*seq.last().unwrap(), Ast::Plus(Box::new(Ast::Char('6'))));

    let mut seq = vec![Ast::Char('j')];
    parse_plus_star_question(&mut seq, Psq::Question, 1).unwrap();
    assert_eq!(
        *seq.last().unwrap(),
        Ast::Question(Box::new(Ast::Char('j')))
    );

    let mut seq = vec![Ast::Char('u')];
    parse_plus_star_question(&mut seq, Psq::Star, 1).unwrap();
    assert_eq!(*seq.last().unwrap(), Ast::Star(Box::new(Ast::Char('u'))));
}

#[test]
fn invalid_plus_star_question() {
    let mut seq = vec![];
    assert_eq!(
        parse_plus_star_question(&mut seq, Psq::Plus, 1)
            .err()
            .unwrap(),
        ParseError::NoPrev(1)
    );
}

#[test]
fn valid_or() {
    // abc|123
    let seq = vec![
        Ast::Concat(vec![Ast::Char('a'), Ast::Char('b'), Ast::Char('c')]),
        Ast::Concat(vec![Ast::Char('1'), Ast::Char('2'), Ast::Char('3')]),
    ];

    let res = fold_or(seq).unwrap();

    assert_eq!(
        res,
        Ast::Or(
            Box::new(Ast::Concat(vec![
                Ast::Char('a'),
                Ast::Char('b'),
                Ast::Char('c')
            ])),
            Box::new(Ast::Concat(vec![
                Ast::Char('1'),
                Ast::Char('2'),
                Ast::Char('3')
            ]))
        )
    );

    // foo
    let seq = vec![Ast::Concat(vec![
        Ast::Char('f'),
        Ast::Char('o'),
        Ast::Char('o'),
    ])];

    let res = fold_or(seq).unwrap();

    assert_eq!(
        res,
        Ast::Concat(vec![Ast::Char('f'), Ast::Char('o'), Ast::Char('o'),])
    )
}

#[test]
#[should_panic]
fn invalid_or() {
    // empty
    let seq = vec![];

    fold_or(seq).unwrap();
}

#[test]
fn simple_regex() {
    let regex = "abc";

    let ast = parse(regex).unwrap();

    assert_eq!(
        ast,
        Ast::Concat(vec![Ast::Char('a'), Ast::Char('b'), Ast::Char('c'),])
    )
}

#[test]
fn escaped_regex() {
    let regex = r"1\?\*23";

    let ast = parse(regex).unwrap();

    assert_eq!(
        ast,
        Ast::Concat(vec![
            Ast::Char('1'),
            Ast::Char('?'),
            Ast::Char('*'),
            Ast::Char('2'),
            Ast::Char('3')
        ])
    )
}

#[test]
fn plus_star_question_regex() {
    let regex = r"b?+*";

    let ast = parse(regex).unwrap();

    assert_eq!(
        ast,
        Ast::Concat(vec![Ast::Star(Box::new(Ast::Plus(Box::new(
            Ast::Question(Box::new(Ast::Char('b')))
        ))))])
    )
}

#[test]
fn parser_or_regex() {
    let regex = r"abc|123";

    let ast = parse(regex).unwrap();

    assert_eq!(
        ast,
        Ast::Or(
            Box::new(Ast::Concat(vec![
                Ast::Char('a'),
                Ast::Char('b'),
                Ast::Char('c'),
            ])),
            Box::new(Ast::Concat(vec![
                Ast::Char('1'),
                Ast::Char('2'),
                Ast::Char('3'),
            ]))
        )
    )
}

#[test]
fn nested_paren_regex() {
    let regex = r"(abc(123)def)";

    let ast = parse(regex).unwrap();

    assert_eq!(
        ast,
        Ast::Concat(vec![Ast::Concat(vec![
            Ast::Char('a'),
            Ast::Char('b'),
            Ast::Char('c'),
            Ast::Concat(vec![Ast::Char('1'), Ast::Char('2'), Ast::Char('3'),]),
            Ast::Char('d'),
            Ast::Char('e'),
            Ast::Char('f')
        ]),])
    )
}

#[test]
fn invalid_right_paren() {
    let regex = r"abc)";

    let err = parse(regex).err().unwrap();
    assert_eq!(err, ParseError::InvalidRightParen(3))
}

#[test]
fn missing_right_paren() {
    let regex = r"(abc(123)";

    let err = parse(regex).err().unwrap();
    assert_eq!(err, ParseError::NoRightParen)
}

#[test]
fn quantifier_without_operand_fails() {
    assert_eq!(parse("+b"), Err(ParseError::NoPrev(0)));
    assert_eq!(parse("*b"), Err(ParseError::NoPrev(0)));
    assert_eq!(parse("?b"), Err(ParseError::NoPrev(0)));
    assert_eq!(parse("|b"), Err(ParseError::NoPrev(0)));
    assert_eq!(parse("a(+)"), Err(ParseError::NoPrev(2)));
    assert_eq!(parse("a||b"), Err(ParseError::NoPrev(2)));
}

#[test]
fn empty_patterns_fail() {
    assert_eq!(parse(""), Err(ParseError::Empty));
    assert_eq!(parse("()"), Err(ParseError::Empty));
    assert_eq!(parse("(())"), Err(ParseError::Empty));
}

#[test]
fn invalid_escape_reports_position_and_character() {
    assert_eq!(parse(r"ab\c"), Err(ParseError::InvalidEscape(3, 'c')));
    assert_eq!(parse(r"\^"), Err(ParseError::InvalidEscape(1, '^')));
}

#[test]
fn positions_count_characters_not_bytes() {
    assert_eq!(parse("日本語)"), Err(ParseError::InvalidRightParen(3)));
    assert_eq!(parse("é+*\\é"), Err(ParseError::InvalidEscape(4, 'é')));
}

#[test]
fn all_metacharacters_can_be_escaped() {
    assert_eq!(
        parse(r"\\\(\)\|\+\*\?\."),
        Ok(Ast::Concat(vec![
            Ast::Char('\\'),
            Ast::Char('('),
            Ast::Char(')'),
            Ast::Char('|'),
            Ast::Char('+'),
            Ast::Char('*'),
            Ast::Char('?'),
            Ast::Char('.'),
        ]))
    );
}

#[test]
fn dot_caret_and_dollar_are_special() {
    assert_eq!(
        parse("^a.$"),
        Ok(Ast::Concat(vec![
            Ast::Start,
            Ast::Char('a'),
            Ast::Any,
            Ast::End
        ]))
    );
}

#[test]
fn alternatives_nest_to_the_right() {
    assert_eq!(
        parse("a|b|c"),
        Ok(Ast::Or(
            Box::new(Ast::Concat(vec![Ast::Char('a')])),
            Box::new(Ast::Or(
                Box::new(Ast::Concat(vec![Ast::Char('b')])),
                Box::new(Ast::Concat(vec![Ast::Char('c')])),
            )),
        ))
    );
}

#[test]
fn empty_group_adds_nothing() {
    assert_eq!(
        parse("a()b"),
        Ok(Ast::Concat(vec![Ast::Char('a'), Ast::Char('b')]))
    );
}

#[test]
fn trailing_bar_keeps_the_single_alternative() {
    assert_eq!(parse("a|"), Ok(Ast::Concat(vec![Ast::Char('a')])));
}

#[test]
fn group_is_quantified_as_a_whole() {
    assert_eq!(
        parse("(ab|c)+"),
        Ok(Ast::Concat(vec![Ast::Plus(Box::new(Ast::Or(
            Box::new(Ast::Concat(vec![Ast::Char('a'), Ast::Char('b')])),
            Box::new(Ast::Concat(vec![Ast::Char('c')])),
        )))]))
    );
}

#[test]
fn failed_quantifier_leaves_the_buffer_empty() {
    let mut seq: Vec<Ast> = vec![];
    assert_eq!(
        parse_plus_star_question(&mut seq, Psq::Star, 7),
        Err(ParseError::NoPrev(7))
    );
    assert!(seq.is_empty());
}

#[test]
fn quantifier_wraps_only_the_last_tree() {
    let mut seq = vec![Ast::Char('a'), Ast::Any];
    assert_eq!(parse_plus_star_question(&mut seq, Psq::Question, 2), Ok(()));
    assert_eq!(
        seq,
        vec![Ast::Char('a'), Ast::Question(Box::new(Ast::Any))]
    );
}
