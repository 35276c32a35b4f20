use ruka::{Compiler, Keyword, Position, Scanner, Token, TokenType};

fn check_results(scanner: &mut Scanner, expected: Vec<Token>) {
    let mut i = 0;

    let mut token = scanner.next_token();
    while token.kind != TokenType::Eof {
        assert_eq!(token, expected[i]);
        i = i + 1;

        token = scanner.next_token();
    }
    assert_eq!(token, expected[i]);

    assert_eq!(i + 1, expected.len());
}

#[test]
fn test_next_token() {
    let source = "let x = 12_000 12_000.50";

    let expected = vec![
        Token::new(
            TokenType::Keyword(Keyword::Let),
            "next token scanning test".into(),
            Position::new(1, 1)
        ),
        Token::new(
            TokenType::Tag("x".into()),
            "next token scanning test".into(),
            Position::new(1, 5)
        ),
        Token::new(
            TokenType::Assign,
            "next token scanning test".into(),
            Position::new(1, 7)
        ),
        Token::new(
            TokenType::Integer("12_000".into()),
            "next token scanning test".into(),
            Position::new(1, 9)
        ),
        Token::new(
            TokenType::Float("12_000.50".into()),
            "next token scanning test".into(),
            Position::new(1, 16)
        ),
        Token::new(
            TokenType::Eof,
            "next token scanning test".into(),
            Position::new(1, 25)
        )
    ];

    let compiler = Compiler::new_using_str(
        "next token scanning test".into(),
        source.into()
    );

    let mut scanner = Scanner::new(compiler);

    check_results(&mut scanner, expected);
}

#[test]
fn test_compound_op() {
    let source = "== != >= <= |> <| << >> ++ -- ** -> => .. ..= :=";

    let expected = vec![
        Token::new(
            TokenType::Equal,
            "compound operator scanning test".into(),
            Position::new(1, 1)
        ),
        Token::new(
            TokenType::NotEqual,
            "compound operator scanning test".into(),
            Position::new(1, 4)
        ),
        Token::new(
            TokenType::GreaterEq,
            "compound operator scanning test".into(),
            Position::new(1, 7)
        ),
        Token::new(
            TokenType::LesserEq,
            "compound operator scanning test".into(),
            Position::new(1, 10)
        ),
        Token::new(
            TokenType::ReverseApp,
            "compound operator scanning test".into(),
            Position::new(1, 13)
        ),
        Token::new(
            TokenType::ForwardApp,
            "compound operator scanning test".into(),
            Position::new(1, 16)
        ),
        Token::new(
            TokenType::LeftShift,
            "compound operator scanning test".into(),
            Position::new(1, 19)
        ),
        Token::new(
            TokenType::RightShift,
            "compound operator scanning test".into(),
            Position::new(1, 22)
        ),
        Token::new(
            TokenType::Increment,
            "compound operator scanning test".into(),
            Position::new(1, 25)
        ),
        Token::new(
            TokenType::Decrement,
            "compound operator scanning test".into(),
            Position::new(1, 28)
        ),
        Token::new(
            TokenType::Power,
            "compound operator scanning test".into(),
            Position::new(1, 31)
        ),
        Token::new(
            TokenType::Arrow,
            "compound operator scanning test".into(),
            Position::new(1, 34)
        ),
        Token::new(
            TokenType::WideArrow,
            "compound operator scanning test".into(),
            Position::new(1, 37)
        ),
        Token::new(
            TokenType::RangeExc,
            "compound operator scanning test".into(),
            Position::new(1, 40)
        ),
        Token::new(
            TokenType::RangeInc,
            "compound operator scanning test".into(),
            Position::new(1, 43)
        ),
        Token::new(
            TokenType::AssignExp,
            "compound operator scanning test".into(),
            Position::new(1, 47)
        ),
        Token::new(
            TokenType::Eof,
            "compound operator scanning test".into(),
            Position::new(1, 49)
        )
    ];

    let compiler = Compiler::new_using_str(
        "compound operator scanning test".into(),
        source.into()
    );

    let mut scanner = Scanner::new(compiler);

    check_results(&mut scanner, expected);
}

#[test]
fn test_string_reading() {
    let source = "let x = \"Hello, world!\"";

    let expected = vec![
        Token::new(
            TokenType::Keyword(Keyword::Let),
            "string reading scanning test".into(),
            Position::new(1, 1)
        ),
        Token::new(
            TokenType::Tag("x".into()),
            "string reading scanning test".into(),
            Position::new(1, 5)
        ),
        Token::new(
            TokenType::Assign,
            "string reading scanning test".into(),
            Position::new(1, 7)
        ),
        Token::new(
            TokenType::String("Hello, world!".into()),
            "string reading scanning test".into(),
            Position::new(1, 9)
        ),
        Token::new(
            TokenType::Eof,
            "string reading scanning test".into(),
            Position::new(1, 24)
        )
    ];

    let compiler = Compiler::new_using_str(
        "string reading scanning test".into(),
        source.into()
    );

    let mut scanner = Scanner::new(compiler);

    check_results(&mut scanner, expected);
}

#[test]
fn test_multiline_string_reading() {
    let source = "let x = \"|\n\
        | Hello, world!\n\
        |\"";

    let expected = vec![
        Token::new(
            TokenType::Keyword(Keyword::Let),
            "multiline string scanning test".into(),
            Position::new(1, 1)
        ),
        Token::new(
            TokenType::Tag("x".into()),
            "multiline string scanning test".into(),
            Position::new(1, 5)
        ),
        Token::new(
            TokenType::Assign,
            "multiline string scanning test".into(),
            Position::new(1, 7)
        ),
        Token::new(
            TokenType::String("\n Hello, world!\n".into()),
            "multiline string scanning test".into(),
            Position::new(1, 9)
        ),
        Token::new(
            TokenType::Eof,
            "multiline string scanning test".into(),
            Position::new(3, 3)
        )
    ];

    let compiler = Compiler::new_using_str(
        "multiline string scanning test".into(),
        source.into()
    );

    let mut scanner = Scanner::new(compiler);

    check_results(&mut scanner, expected);
}

#[test]
fn test_escape_characters() {
    let source = "let x = \"Hello, \\n\\sworld!\"";

    let expected = vec![
        Token::new(
            TokenType::Keyword(Keyword::Let),
            "escape character scanning test".into(),
            Position::new(1, 1)
        ),
        Token::new(
            TokenType::Tag("x".into()),
            "escape character scanning test".into(),
            Position::new(1, 5)
        ),
        Token::new(
            TokenType::Assign,
            "escape character scanning test".into(),
            Position::new(1, 7)
        ),
        Token::new(
            TokenType::String("Hello, \n\\sworld!".into()),
            "escape character scanning test".into(),
            Position::new(1, 9)
        ),
        Token::new(
            TokenType::Eof,
            "escape character scanning test".into(),
            Position::new(1, 28)
        )
    ];

    let compiler = Compiler::new_using_str(
        "escape character scanning test".into(),
        source.into()
    );

    let mut scanner = Scanner::new(compiler);

    check_results(&mut scanner, expected);

    assert!(scanner.compiler.errors.len() == 1);
    let message: String = "Unrecognized escape character: \\s".into();
    assert!(scanner.compiler.errors[0].message() == &message);
}

#[test]
fn test_skip_single_comment() {
    let source = "let x = //12_000 12_000.50";

    let expected = vec![
        Token::new(
            TokenType::Keyword(Keyword::Let),
            "single comment skip scanning test".into(),
            Position::new(1, 1)
        ),
        Token::new(
            TokenType::Tag("x".into()),
            "single comment skip scanning test".into(),
            Position::new(1, 5)
        ),
        Token::new(
            TokenType::Assign,
            "single comment skip scanning test".into(),
            Position::new(1, 7)
        ),
        Token::new(
            TokenType::Eof,
            "single comment skip scanning test".into(),
            Position::new(1, 27)
        )
    ];

    let compiler = Compiler::new_using_str(
        "single comment skip scanning test".into(),
        source.into()
    );

    let mut scanner = Scanner::new(compiler);

    check_results(&mut scanner, expected);
}

#[test]
fn test_skip_multi_comment() {
    let source = "let x = /*\n\
                      12_000 12_000.50\n\
                   */";

    let expected = vec![
        Token::new(
            TokenType::Keyword(Keyword::Let),
            "multi comment skip scanning test".into(),
            Position::new(1, 1)
        ),
        Token::new(
            TokenType::Tag("x".into()),
            "multi comment skip scanning test".into(),
            Position::new(1, 5)
        ),
        Token::new(
            TokenType::Assign,
            "multi comment skip scanning test".into(),
            Position::new(1, 7)
        ),
        Token::new(
            TokenType::Eof,
            "multi comment skip scanning test".into(),
            Position::new(3, 3)
        )
    ];

    let compiler = Compiler::new_using_str(
        "multi comment skip scanning test".into(),
        source.into()
    );

    let mut scanner = Scanner::new(compiler);

    check_results(&mut scanner, expected);
}
