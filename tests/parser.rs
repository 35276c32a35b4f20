use ruka::{Binding, Compiler, Expression, Infix, Keyword, Node, ParseError, Parser, Precedence, Scanner, TokenType};

fn parse(name: &str, source: &str) -> Result<ruka::Ast, ParseError> {
    let compiler = Compiler::new_using_str(name.into(), source.into());
    let scanner = Scanner::new(compiler);
    let mut parser = Parser::new(scanner);
    parser.parse_program()
}

#[test]
fn test_assignment_parsing() {
    let source = "let x = 12";

    let compiler = Compiler::new_using_str("assignment parsing test".into(), source.into());

    let scanner = Scanner::new(compiler);
    let mut parser = Parser::new(scanner);

    let ast = parser.parse_program();

    let ast = ast.expect("a binding parses");
    assert_eq!(
        ast.nodes,
        vec![Node::Binding(Binding {
            kind: TokenType::Keyword(Keyword::Let),
            name: "x".into(),
            expl_type: None,
            value: Expression::Integer("12".into()),
        })]
    );
}

fn binding_value(ast: &ruka::Ast) -> &Expression {
    match &ast.nodes[0] {
        Node::Binding(b) => &b.value,
        _ => panic!("not a binding"),
    }
}

#[test]
fn product_binds_tighter_than_sum() {
    let ast = parse("precedence", "let x = 1 + 2 * 3").unwrap();
    let expected = Expression::Infix(Box::new(Infix {
        operator: TokenType::Plus,
        lhs: Expression::Integer("1".into()),
        rhs: Expression::Infix(Box::new(Infix {
            operator: TokenType::Asterisk,
            lhs: Expression::Integer("2".into()),
            rhs: Expression::Integer("3".into()),
        })),
    }));
    assert_eq!(binding_value(&ast), &expected);
}

#[test]
fn sum_groups_to_the_left() {
    let ast = parse("associativity", "const y = 1 - 2 - 3").unwrap();
    let expected = Expression::Infix(Box::new(Infix {
        operator: TokenType::Minus,
        lhs: Expression::Infix(Box::new(Infix {
            operator: TokenType::Minus,
            lhs: Expression::Integer("1".into()),
            rhs: Expression::Integer("2".into()),
        })),
        rhs: Expression::Integer("3".into()),
    }));
    assert_eq!(binding_value(&ast), &expected);
    match &ast.nodes[0] {
        Node::Binding(b) => assert_eq!(b.kind, TokenType::Keyword(Keyword::Const)),
        _ => panic!("not a binding"),
    }
}

#[test]
fn parentheses_group_first() {
    let ast = parse("group", "let z = (1 + 2) * 3").unwrap();
    let expected = Expression::Infix(Box::new(Infix {
        operator: TokenType::Asterisk,
        lhs: Expression::Infix(Box::new(Infix {
            operator: TokenType::Plus,
            lhs: Expression::Integer("1".into()),
            rhs: Expression::Integer("2".into()),
        })),
        rhs: Expression::Integer("3".into()),
    }));
    assert_eq!(binding_value(&ast), &expected);
}

#[test]
fn prefix_call_and_literals() {
    let ast = parse("prefix", "let a = -f(b, 2.5, true)").unwrap();
    match binding_value(&ast) {
        Expression::Prefix(p) => {
            assert_eq!(p.operator, TokenType::Minus);
            match &p.value {
                Expression::FnCall(c) => {
                    assert_eq!(c.func, Expression::Tag("f".into()));
                    assert_eq!(
                        c.args,
                        vec![Expression::Tag("b".into()), Expression::Float("2.5".into()), Expression::Boolean(true)]
                    );
                },
                e => panic!("unexpected {:?}", e),
            }
        },
        e => panic!("unexpected {:?}", e),
    }
}

#[test]
fn statements_on_separate_lines() {
    let ast = parse("lines", "let a = 1\nlet b = 2;\n\nconst c = a == b").unwrap();
    assert_eq!(ast.nodes.len(), 3);
}

#[test]
fn if_and_block_expressions() {
    let ast = parse("if", "let a = if x < 1 { let b = 2 } else { let c = 3 }").unwrap();
    match binding_value(&ast) {
        Expression::If(i) => {
            assert!(matches!(i.consequence, Expression::Block(_)));
            assert!(matches!(i.alternative, Expression::Block(_)));
        },
        e => panic!("unexpected {:?}", e),
    }
}

#[test]
fn match_expression() {
    let ast = parse("match", "let a = match x do 1 => 2, 3 => 4 end").unwrap();
    match binding_value(&ast) {
        Expression::Match(m) => assert_eq!(m.cases.len(), 2),
        e => panic!("unexpected {:?}", e),
    }
}

#[test]
fn empty_unit_parses_to_nothing() {
    let ast = parse("empty", "").unwrap();
    assert_eq!(ast.nodes.len(), 0);
}

#[test]
fn unsupported_statement_is_an_error() {
    match parse("unsupported", "x = 1") {
        Err(ParseError::UnsupportedStatement(t)) => assert_eq!(t.kind, TokenType::Tag("x".into())),
        r => panic!("unexpected {:?}", r),
    }
}

#[test]
fn missing_prefix_rule_is_an_error() {
    match parse("no prefix", "let x = ;") {
        Err(ParseError::NoPrefixRule(t)) => assert_eq!(t.kind, TokenType::Semicolon),
        r => panic!("unexpected {:?}", r),
    }
}

#[test]
fn missing_assignment_is_an_error() {
    match parse("expected", "let x 1") {
        Err(ParseError::Expected { expected, got }) => {
            assert_eq!(expected, "=");
            assert_eq!(got.kind, TokenType::Integer("1".into()));
        },
        r => panic!("unexpected {:?}", r),
    }
}

#[test]
fn missing_name_is_an_error() {
    match parse("expected tag", "let 1 = 2") {
        Err(ParseError::Expected { expected, .. }) => assert_eq!(expected, "tag"),
        r => panic!("unexpected {:?}", r),
    }
}

#[test]
fn precedence_table() {
    assert_eq!(Precedence::from_token_type(&TokenType::Equal), Precedence::Equals);
    assert_eq!(Precedence::from_token_type(&TokenType::GreaterEq), Precedence::LtGt);
    assert_eq!(Precedence::from_token_type(&TokenType::Minus), Precedence::Sum);
    assert_eq!(Precedence::from_token_type(&TokenType::Slash), Precedence::Product);
    assert_eq!(Precedence::from_token_type(&TokenType::LeftParen), Precedence::Call);
    assert_eq!(Precedence::from_token_type(&TokenType::LeftBracket), Precedence::Index);
    assert_eq!(Precedence::from_token_type(&TokenType::Comma), Precedence::Lowest);
    assert!(Precedence::Sum.rank() < Precedence::Product.rank());
}

#[test]
fn compile_and_interpret_a_unit() {
    let mut unit = Compiler::new_using_str("unit".into(), "let x = \"a\\q\"".into());
    assert!(unit.compile().is_err());
    assert_eq!(unit.errors.len(), 1);
    let mut clean = Compiler::new_using_str("clean".into(), "let x = 1".into());
    assert!(clean.compile().is_ok());
    assert!(clean.interpret().is_ok());
    assert!(clean.ast.is_some());
}

#[test]
fn nested_blocks_and_else_if() {
    let ast = parse("nested", "let a = if x do\n let b = { let c = 1 }\nend else if y { let d = 2 }").unwrap();
    match binding_value(&ast) {
        Expression::If(i) => {
            match &i.consequence {
                Expression::Block(b) => assert_eq!(b.statements.len(), 1),
                e => panic!("unexpected {:?}", e),
            }
            assert!(matches!(i.alternative, Expression::If(_)));
        },
        e => panic!("unexpected {:?}", e),
    }
}

#[test]
fn empty_call_and_index() {
    let ast = parse("calls", "let a = f()[1] * 2").unwrap();
    match binding_value(&ast) {
        Expression::Infix(i) => {
            assert_eq!(i.operator, TokenType::Asterisk);
            match &i.lhs {
                Expression::Infix(ix) => {
                    assert_eq!(ix.operator, TokenType::LeftBracket);
                    match &ix.lhs {
                        Expression::FnCall(c) => assert!(c.args.is_empty()),
                        e => panic!("unexpected {:?}", e),
                    }
                    assert_eq!(ix.rhs, Expression::Integer("1".into()));
                },
                e => panic!("unexpected {:?}", e),
            }
        },
        e => panic!("unexpected {:?}", e),
    }
}

#[test]
fn unclosed_block_is_an_error() {
    match parse("unclosed", "let a = { let b = 1") {
        Err(ParseError::Expected { expected, got }) => {
            assert_eq!(expected, "}");
            assert_eq!(got.kind, TokenType::Eof);
        },
        r => panic!("unexpected {:?}", r),
    }
}

#[test]
fn missing_assignment_error_text_and_parser_state() {
    let compiler = Compiler::new_using_str("unit".into(), "let x 12".into());
    let mut parser = Parser::new(Scanner::new(compiler));
    let r = parser.parse_program();
    match r {
        Err(e) => {
            assert_eq!(e.to_string(), "Parsing error in unit at 1, 7: \n\tExpected =, got: 12");
            match e {
                ParseError::Expected { expected, got } => {
                    assert_eq!(expected, "=");
                    assert_eq!(got.kind, TokenType::Integer("12".into()));
                    assert_eq!(parser.peek, got);
                },
                other => panic!("unexpected {:?}", other),
            }
        },
        r => panic!("unexpected {:?}", r),
    }
    assert_eq!(parser.read.kind, TokenType::Tag("x".into()));
}

#[test]
fn parser_starts_on_the_first_two_tokens() {
    let compiler = Compiler::new_using_str("unit".into(), "let x".into());
    let parser = Parser::new(Scanner::new(compiler));
    assert_eq!(parser.read.kind, TokenType::Keyword(Keyword::Let));
    assert_eq!(parser.read.pos, ruka::Position::new(1, 1));
    assert_eq!(parser.peek.kind, TokenType::Tag("x".into()));
    assert_eq!(parser.peek.pos, ruka::Position::new(1, 5));
    assert_eq!(parser.peek.file, "unit");
}

#[test]
fn unsupported_statement_error_text() {
    match parse("u", "\n  x = 1") {
        Err(e) => assert_eq!(e.to_string(), "Parsing error in u at 2, 3: \n\tUnsupported statement"),
        r => panic!("unexpected {:?}", r),
    }
}
