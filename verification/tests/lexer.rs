use microc_dataflow::lexer::{
    lex, Delimiter, IntegerLiteral, Keyword, Literal, Symbol, Token, Type,
};

fn lex_line(line: &str) -> Vec<Token> {
    lex(&vec![line.to_string()]).unwrap()
}

#[test]
fn empty_input_gives_no_tokens() {
    let tokens = lex(&Vec::new()).unwrap();
    assert_eq!(tokens.len(), 0);
}

#[test]
fn lexes_a_variable_declaration() {
    let tokens = lex_line("int x;");
    assert_eq!(
        tokens,
        vec![
            Token::Keyword(Keyword::Type(Type::Int)),
            Token::Identifier("x".to_string()),
            Token::Symbol(Symbol::Semi),
        ]
    );
}

#[test]
fn lexes_an_assignment_with_a_literal() {
    let tokens = lex_line("x := 5;");
    assert_eq!(
        tokens,
        vec![
            Token::Identifier("x".to_string()),
            Token::Symbol(Symbol::ColonEq),
            Token::Literal(Literal::IntegerLiteral(IntegerLiteral::DecimalLiteral(5))),
            Token::Symbol(Symbol::Semi),
        ]
    );
}

#[test]
fn lexes_delimiters_and_keywords() {
    let tokens = lex_line("while (true) { break; }");
    assert_eq!(
        tokens,
        vec![
            Token::Keyword(Keyword::While),
            Token::Delimiter(Delimiter::OpenPar),
            Token::Literal(Literal::BooleanLiteral(true)),
            Token::Delimiter(Delimiter::ClosePar),
            Token::Delimiter(Delimiter::OpenCurly),
            Token::Keyword(Keyword::Break),
            Token::Symbol(Symbol::Semi),
            Token::Delimiter(Delimiter::CloseCurly),
        ]
    );
}

#[test]
fn line_comments_hide_the_rest_of_the_line() {
    let tokens = lex_line("int x; // int y;");
    assert_eq!(tokens.len(), 3);
}

#[test]
fn block_comments_can_span_lines() {
    let tokens = lex(&vec![
        "int a; /* start".to_string(),
        "still hidden".to_string(),
        "end */ int b;".to_string(),
    ])
    .unwrap();
    assert_eq!(
        tokens,
        vec![
            Token::Keyword(Keyword::Type(Type::Int)),
            Token::Identifier("a".to_string()),
            Token::Symbol(Symbol::Semi),
            Token::Keyword(Keyword::Type(Type::Int)),
            Token::Identifier("b".to_string()),
            Token::Symbol(Symbol::Semi),
        ]
    );
}

#[test]
fn multigraph_operators_are_combined_greedily() {
    let tokens = lex_line("a >>= b");
    assert_eq!(
        tokens,
        vec![
            Token::Identifier("a".to_string()),
            Token::Symbol(Symbol::ShrEq),
            Token::Identifier("b".to_string()),
        ]
    );
}

#[test]
fn integer_literal_bases() {
    assert_eq!(
        IntegerLiteral::try_from(&"123".to_string()),
        Ok(IntegerLiteral::DecimalLiteral(123))
    );
    assert_eq!(
        IntegerLiteral::try_from(&"0b101".to_string()),
        Ok(IntegerLiteral::BinaryLiteral(5))
    );
    assert_eq!(
        IntegerLiteral::try_from(&"0o17".to_string()),
        Ok(IntegerLiteral::OctalLiteral(15))
    );
    assert_eq!(
        IntegerLiteral::try_from(&"0x1A".to_string()),
        Ok(IntegerLiteral::HexadecimalLiteral(26))
    );
    assert!(IntegerLiteral::try_from(&"0b2".to_string()).is_err());
    assert!(IntegerLiteral::try_from(&"abc".to_string()).is_err());
    assert!(IntegerLiteral::try_from(&"".to_string()).is_err());
}

#[test]
fn oversized_literals_are_rejected() {
    // one past the largest signed machine word on 64-bit targets
    assert!(IntegerLiteral::try_from(&"9223372036854775808".to_string()).is_err());
    assert_eq!(
        IntegerLiteral::try_from(&"9223372036854775807".to_string()),
        Ok(IntegerLiteral::DecimalLiteral(isize::MAX))
    );
    let tokens = lex(&vec!["x := 99999999999999999999;".to_string()]);
    assert!(tokens.is_err());
}

#[test]
fn keywords_and_literals_convert() {
    assert_eq!(Keyword::try_from(&"break".to_string()), Ok(Keyword::Break));
    assert_eq!(
        Keyword::try_from(&"float".to_string()),
        Ok(Keyword::Type(Type::Float))
    );
    assert!(Keyword::try_from(&"banana".to_string()).is_err());
    assert_eq!(
        Literal::try_from(&"true".to_string()),
        Ok(Literal::BooleanLiteral(true))
    );
    assert_eq!(
        Literal::try_from(&"false".to_string()),
        Ok(Literal::BooleanLiteral(false))
    );
    assert!(Literal::try_from(&"maybe".to_string()).is_err());
}

#[test]
fn symbols_convert_and_render() {
    assert_eq!(Symbol::try_from_char('+'), Ok(Symbol::Plus));
    assert!(Symbol::try_from_char('@').is_err());
    assert_eq!(Symbol::try_from_pair(Symbol::Gt, Symbol::Gt), Ok(Symbol::Shr));
    assert_eq!(Symbol::try_from_pair(Symbol::Lt, Symbol::Lt), Ok(Symbol::Shl));
    assert_eq!(
        Symbol::try_from_pair(Symbol::Colon, Symbol::Eq),
        Ok(Symbol::ColonEq)
    );
    assert!(Symbol::try_from_pair(Symbol::Dot, Symbol::Dot).is_err());
    assert_eq!(
        Symbol::try_from_triple(Symbol::Gt, Symbol::Gt, Symbol::Eq),
        Ok(Symbol::ShrEq)
    );
    assert_eq!(
        Symbol::try_from_triple(Symbol::Lt, Symbol::Lt, Symbol::Eq),
        Ok(Symbol::ShlEq)
    );
    assert!(Symbol::try_from_triple(Symbol::Plus, Symbol::Plus, Symbol::Plus).is_err());
    assert_eq!(Symbol::Plus.text(), "+");
    assert_eq!(Symbol::ShlEq.text(), "<<=");
    assert_eq!(Delimiter::OpenCurly.text(), "{");
    assert_eq!(Type::Bool.text(), "bool");
    assert_eq!(Keyword::Type(Type::Float).text(), "float");
    assert_eq!(Keyword::Continue.text(), "continue");
}

#[test]
fn delimiters_convert() {
    assert_eq!(Delimiter::try_from('{'), Ok(Delimiter::OpenCurly));
    assert_eq!(Delimiter::try_from(')'), Ok(Delimiter::ClosePar));
    assert!(Delimiter::try_from('q').is_err());
}

#[test]
fn unknown_characters_are_skipped() {
    let tokens = lex_line("int @ x;");
    assert_eq!(tokens.len(), 3);
}

#[test]
fn symbol_words_convert() {
    assert_eq!(Symbol::try_from_text(&">>=".to_string()), Ok(Symbol::ShrEq));
    assert_eq!(Symbol::try_from_text(&":=".to_string()), Ok(Symbol::ColonEq));
    assert_eq!(Symbol::try_from_text(&"&&".to_string()), Ok(Symbol::AndAnd));
    assert_eq!(Symbol::try_from_text(&"%".to_string()), Ok(Symbol::Percent));
    assert!(Symbol::try_from_text(&"??".to_string()).is_err());
    assert!(Symbol::try_from_text(&"".to_string()).is_err());
}
