use microc_dataflow::lexer::{lex, IntegerLiteral, Type};
use microc_dataflow::microc::{
    ArithmeticLiteral, ArithmeticOp, AssignmentOp, BinaryOp, Declaration, LvalueExpr, Operator,
    RelationalOp,
};
use microc_dataflow::parser::{contains, parse, parse_declaration, parse_dimension};

fn tokens_of(line: &str) -> Vec<microc_dataflow::lexer::Token> {
    lex(&vec![line.to_string()]).unwrap()
}

#[test]
fn parses_a_variable_declaration() {
    let ast = parse(tokens_of("int x;")).unwrap();
    assert_eq!(ast.decls, vec![Declaration::Var(Type::Int, "x".to_string())]);
    assert!(ast.stmts.is_empty());
}

#[test]
fn parses_several_declarations() {
    let ast = parse(tokens_of("int x; bool flag; float y;")).unwrap();
    assert_eq!(
        ast.decls,
        vec![
            Declaration::Var(Type::Int, "x".to_string()),
            Declaration::Var(Type::Bool, "flag".to_string()),
            Declaration::Var(Type::Float, "y".to_string()),
        ]
    );
}

#[test]
fn parses_an_array_declaration() {
    let ast = parse(tokens_of("int [2, 3] grid;")).unwrap();
    assert_eq!(
        ast.decls,
        vec![Declaration::Array(
            Type::Int,
            vec![
                IntegerLiteral::DecimalLiteral(2),
                IntegerLiteral::DecimalLiteral(3)
            ],
            "grid".to_string()
        )]
    );
}

#[test]
fn parses_a_record_declaration() {
    let ast = parse(tokens_of("{ int x; int y; } point;")).unwrap();
    assert_eq!(
        ast.decls,
        vec![Declaration::Record(
            vec![
                Declaration::Var(Type::Int, "x".to_string()),
                Declaration::Var(Type::Int, "y".to_string()),
            ],
            "point".to_string()
        )]
    );
}

#[test]
fn rejects_an_empty_token_stream() {
    assert!(parse(Vec::new()).is_err());
}

#[test]
fn duplicate_names_stop_the_declaration_run() {
    let ast = parse(tokens_of("int x; int x;")).unwrap();
    assert_eq!(ast.decls, vec![Declaration::Var(Type::Int, "x".to_string())]);
}

#[test]
fn contains_finds_declarations_by_name() {
    let scope = vec![
        Declaration::Var(Type::Int, "x".to_string()),
        Declaration::Record(
            vec![Declaration::Var(Type::Bool, "b".to_string())],
            "r".to_string(),
        ),
    ];
    assert!(contains(&scope, &"x".to_string()).is_some());
    assert!(contains(&scope, &"r".to_string()).is_some());
    assert!(contains(&scope, &"b".to_string()).is_none());
    assert!(contains(&scope, &"y".to_string()).is_none());
}

#[test]
fn parse_dimension_reads_one_dimension() {
    let tokens = tokens_of("[2, 3] a;");
    // tokens: OpenSquare, 2, Comma, 3, CloseSquare, a, Semi
    let (first, next) = parse_dimension(&tokens, 1).unwrap();
    assert_eq!(first, IntegerLiteral::DecimalLiteral(2));
    assert_eq!(next, 3);
    let (second, after) = parse_dimension(&tokens, next).unwrap();
    assert_eq!(second, IntegerLiteral::DecimalLiteral(3));
    assert_eq!(after, 4);
    assert!(parse_dimension(&tokens, after).is_none());
}

#[test]
fn parse_declaration_dispatches_by_shape() {
    let tokens = tokens_of("int x; { bool b; int c; } r;");
    let mut scope = Vec::new();
    let next = parse_declaration(&tokens, 0, &mut scope).unwrap();
    assert_eq!(next, 3);
    let after = parse_declaration(&tokens, next, &mut scope).unwrap();
    assert_eq!(after, tokens.len());
    assert_eq!(scope.len(), 2);
    assert!(parse_declaration(&tokens, after, &mut scope).is_none());
    assert_eq!(scope.len(), 2);
}

#[test]
fn operator_words_convert_and_render() {
    assert_eq!(BinaryOp::try_from(&"&".to_string()), Ok(BinaryOp::BitAnd));
    assert_eq!(BinaryOp::try_from(&">>".to_string()), Ok(BinaryOp::Shr));
    assert!(BinaryOp::try_from(&"+".to_string()).is_err());
    assert_eq!(
        ArithmeticOp::try_from(&"+".to_string()),
        Ok(ArithmeticOp::Add)
    );
    // a bare minus may negate or subtract; reading it needs context
    assert!(ArithmeticOp::try_from(&"-".to_string()).is_err());
    assert_eq!(
        RelationalOp::try_from(&"<=".to_string()),
        Ok(RelationalOp::Leq)
    );
    assert!(RelationalOp::try_from(&"=".to_string()).is_err());
    assert_eq!(BinaryOp::Shl.text(), "<<");
    assert_eq!(ArithmeticOp::Rem.text(), "%");
    assert_eq!(RelationalOp::Neq.text(), "!=");
}

#[test]
fn general_operator_words_convert() {
    assert_eq!(
        Operator::try_from(&":=".to_string()),
        Ok(Operator::AssignmentOp(AssignmentOp::Assign))
    );
    assert_eq!(
        Operator::try_from(&"+".to_string()),
        Ok(Operator::ArithmeticOp(ArithmeticOp::Add))
    );
    assert_eq!(
        Operator::try_from(&"&".to_string()),
        Ok(Operator::BinaryOp(BinaryOp::BitAnd))
    );
    assert_eq!(
        Operator::try_from(&"<=".to_string()),
        Ok(Operator::RelationalOp(RelationalOp::Leq))
    );
    assert!(Operator::try_from(&"?".to_string()).is_err());
    assert_eq!(AssignmentOp::Assign.text(), ":=");
    assert_eq!(
        Operator::RelationalOp(RelationalOp::Geq).text(),
        ">="
    );
    assert!(AssignmentOp::try_from(&"=".to_string()).is_err());
}

#[test]
fn arithmetic_literals_convert() {
    assert_eq!(
        ArithmeticLiteral::try_from(&"42".to_string()),
        Ok(ArithmeticLiteral::Int(42))
    );
    assert_eq!(
        ArithmeticLiteral::try_from(&"-42".to_string()),
        Ok(ArithmeticLiteral::Int(-42))
    );
    assert!(ArithmeticLiteral::try_from(&"-".to_string()).is_err());
    assert!(ArithmeticLiteral::try_from(&"4a".to_string()).is_err());
}

#[test]
fn lvalues_convert_from_name_paths() {
    assert_eq!(
        LvalueExpr::try_from(&vec!["x".to_string()]),
        Ok(LvalueExpr::Variable("x".to_string()))
    );
    assert_eq!(
        LvalueExpr::try_from(&vec!["r".to_string(), "f".to_string()]),
        Ok(LvalueExpr::RecordMember("r".to_string(), "f".to_string()))
    );
    assert!(LvalueExpr::try_from(&Vec::new()).is_err());
    assert!(
        LvalueExpr::try_from(&vec!["a".to_string(), "b".to_string(), "c".to_string()]).is_err()
    );
}
