use ruka::{
    is_alphabetical, is_alphanumeric, is_integral, is_numeric, try_escape_char, Compiler, Error, Keyword, Mode,
    Position, ScanError, Scanner, Token, TokenType,
};

fn scan(source: &str) -> (Vec<Token>, Vec<Error>) {
    let compiler = Compiler::new_using_str("test".into(), source.into());
    let mut scanner = Scanner::new(compiler);
    let tokens = scanner.scan();
    (tokens, scanner.compiler.errors)
}

fn kinds(source: &str) -> Vec<TokenType> {
    scan(source).0.into_iter().map(|t| t.kind).collect()
}

#[test]
fn test_identifier() {
    let source = "let x = 12;";
    let compiler = Compiler::new_using_str("identifier scanning test".into(), source.into());
    let mut scanner = Scanner::new(compiler);
    let tokens = scanner.scan();

    assert!(tokens[0].kind == TokenType::Keyword(Keyword::Let));
    assert!(tokens[1].kind == TokenType::Tag("x".into()));
}

#[test]
fn single_character_operators() {
    let tokens = scan("( ) , ; @ $ # ? % ^ & ~ [ ] { } / !").0;
    let expected = vec![
        TokenType::LeftParen,
        TokenType::RightParen,
        TokenType::Comma,
        TokenType::Semicolon,
        TokenType::Address,
        TokenType::Cash,
        TokenType::Pound,
        TokenType::Question,
        TokenType::Percent,
        TokenType::Caret,
        TokenType::Ampersand,
        TokenType::Tilde,
        TokenType::LeftBracket,
        TokenType::RightBracket,
        TokenType::LeftSquirly,
        TokenType::RightSquirly,
        TokenType::Slash,
        TokenType::Bang,
        TokenType::Eof,
    ];
    let got: Vec<TokenType> = tokens.iter().map(|t| t.kind.clone()).collect();
    assert_eq!(got, expected);
    for (k, t) in tokens.iter().enumerate().take(18) {
        assert_eq!(t.pos, Position::new(1, 2 * k + 1));
    }
    assert_eq!(tokens[18].pos, Position::new(1, 36));
}

#[test]
fn longest_match_wins() {
    assert_eq!(kinds("..="), vec![TokenType::RangeInc, TokenType::Eof]);
    assert_eq!(kinds("<<"), vec![TokenType::LeftShift, TokenType::Eof]);
    assert_eq!(kinds("<|"), vec![TokenType::ForwardApp, TokenType::Eof]);
    assert_eq!(kinds("~= !~"), vec![TokenType::PatternMatch, TokenType::PatternNotMatch, TokenType::Eof]);
    assert_eq!(kinds("..."), vec![TokenType::RangeExc, TokenType::Dot, TokenType::Eof]);
    assert_eq!(kinds("==="), vec![TokenType::Equal, TokenType::Assign, TokenType::Eof]);
}

#[test]
fn blanks_change_positions_only() {
    let (a, _) = scan("let x = 1");
    let (b, _) = scan("let  \t x =\t\t1");
    let ka: Vec<TokenType> = a.iter().map(|t| t.kind.clone()).collect();
    let kb: Vec<TokenType> = b.iter().map(|t| t.kind.clone()).collect();
    assert_eq!(ka, kb);
    assert_ne!(a[1].pos, b[1].pos);
}

#[test]
fn comments_are_transparent() {
    let (a, _) = scan("let x = //comment\n");
    let (b, _) = scan("let x = ");
    let ka: Vec<TokenType> = a.iter().map(|t| t.kind.clone()).collect();
    let kb: Vec<TokenType> = b.iter().map(|t| t.kind.clone()).collect();
    assert_eq!(ka, kb);
    for k in 0..3 {
        assert_eq!(a[k].pos, b[k].pos);
    }
    assert_eq!(a[3].pos, Position::new(2, 1));
    assert_eq!(b[3].pos, Position::new(1, 9));
    assert_eq!(kinds("a /* b */ c"), kinds("a c"));
}

#[test]
fn unterminated_multiline_comment_is_reported() {
    let (tokens, errors) = scan("a /* b");
    assert_eq!(tokens.len(), 2);
    assert_eq!(errors.len(), 1);
    assert_eq!(errors[0].message(), "Unterminated multiline comment");
    assert_eq!(*errors[0].position(), Position::new(1, 7));
    assert_eq!(errors[0].kind(), "Scanning error");
}

#[test]
fn unterminated_string_is_reported_and_kept() {
    let (tokens, errors) = scan("\"abc");
    assert_eq!(tokens[0].kind, TokenType::String("abc".into()));
    assert_eq!(errors.len(), 1);
    assert_eq!(errors[0].message(), "Unterminated string literal");
    assert_eq!(tokens[1].kind, TokenType::Eof);
    assert_eq!(tokens[1].pos, Position::new(1, 6));
}

#[test]
fn trailing_backslash_is_an_unterminated_escape() {
    let (tokens, errors) = scan("\"ab\\");
    assert_eq!(tokens[0].kind, TokenType::String("ab\\".into()));
    let messages: Vec<String> = errors.iter().map(|e| e.message().clone()).collect();
    assert_eq!(messages, vec!["Unterminated string literal".to_string(), "Unterminated escape character".to_string()]);
}

#[test]
fn escaped_quote_stays_inside_string() {
    let (tokens, errors) = scan("\"a\\\"b\" c");
    assert_eq!(tokens[0].kind, TokenType::String("a\"b".into()));
    assert_eq!(tokens[1].kind, TokenType::Tag("c".into()));
    assert!(errors.is_empty());
}

#[test]
fn escapes_are_resolved() {
    let (tokens, errors) = scan("\"\\t\\r\\0\\\\\\'\"");
    assert_eq!(tokens[0].kind, TokenType::String("\t\r\0\\'".into()));
    assert!(errors.is_empty());
}

#[test]
fn multiline_string_needs_line_delimiters() {
    let (tokens, errors) = scan("\"|a\n  b\n  |c\"");
    assert_eq!(tokens[0].kind, TokenType::String("a\nb\nc".into()));
    assert_eq!(errors.len(), 1);
    assert_eq!(errors[0].message(), "Missing start of line delimiter '|'");
    assert_eq!(*errors[0].position(), Position::new(2, 3));
}

#[test]
fn multiline_string_keeps_escaped_bar() {
    let (tokens, errors) = scan("\"|a\\|b\"");
    assert_eq!(tokens[0].kind, TokenType::String("a|b".into()));
    assert!(errors.is_empty());
}

#[test]
fn numbers_need_a_digit_after_the_point() {
    assert_eq!(
        kinds("1..5"),
        vec![TokenType::Integer("1".into()), TokenType::RangeExc, TokenType::Integer("5".into()), TokenType::Eof]
    );
    assert_eq!(kinds("3.25"), vec![TokenType::Float("3.25".into()), TokenType::Eof]);
}

#[test]
fn words_resolve_keyword_then_mode_then_tag() {
    assert_eq!(
        kinds("comptime mut loc fn x1"),
        vec![
            TokenType::Keyword(Keyword::Comptime),
            TokenType::Mode(Mode::Mut),
            TokenType::Mode(Mode::Loc),
            TokenType::Keyword(Keyword::Fn),
            TokenType::Tag("x1".into()),
            TokenType::Eof,
        ]
    );
}

#[test]
fn newlines_are_tokens_and_move_lines() {
    let tokens = scan("a\nb").0;
    assert_eq!(tokens[1].kind, TokenType::Newline);
    assert_eq!(tokens[2].pos, Position::new(2, 1));
}

#[test]
fn illegal_characters() {
    assert_eq!(kinds("\u{e9}"), vec![TokenType::Illegal, TokenType::Eof]);
}

#[test]
fn eof_repeats() {
    let compiler = Compiler::new_using_str("eof".into(), "a".into());
    let mut scanner = Scanner::new(compiler);
    assert_eq!(scanner.next_token().kind, TokenType::Tag("a".into()));
    assert_eq!(scanner.next_token().kind, TokenType::Eof);
    assert_eq!(scanner.next_token().kind, TokenType::Eof);
}

#[test]
fn token_tables() {
    assert_eq!(TokenType::from_char('+'), TokenType::Plus);
    assert_eq!(TokenType::from_char('x'), TokenType::Illegal);
    assert_eq!(TokenType::try_from_str("=="), Some(TokenType::Equal));
    assert_eq!(TokenType::try_from_str("!="), Some(TokenType::NotEqual));
    assert_eq!(TokenType::try_from_str("+"), None);
    assert_eq!(TokenType::try_keyword("while"), Some(TokenType::Keyword(Keyword::While)));
    assert_eq!(TokenType::try_keyword("mut"), None);
    assert_eq!(TokenType::try_mode("mov"), Some(TokenType::Mode(Mode::Mov)));
    assert_eq!(TokenType::RangeInc.to_str(), "..=");
    assert_eq!(TokenType::Tag("abc".into()).to_str(), "abc");
    assert_eq!(Keyword::Interface.to_str(), "interface");
    assert_eq!(Mode::Comptime.to_str(), "comptime");
}

#[test]
fn character_classes_and_escapes() {
    assert!(is_alphabetical('q') && !is_alphabetical('1'));
    assert!(is_integral('_') && is_integral('7') && !is_integral('.'));
    assert!(is_numeric('.'));
    assert!(is_alphanumeric('Z') && !is_alphanumeric('-'));
    assert_eq!(try_escape_char(Some("\\n")), Some('\n'));
    assert_eq!(try_escape_char(Some("\\s")), None);
    assert_eq!(try_escape_char(None), None);
}

#[test]
fn diagnostics_as_text() {
    let e = Error::new("main".into(), "Scanning error".into(), "oops".into(), Position::new(12, 3));
    assert_eq!(e.to_string(), "Scanning error in main at 12, 3: \n\toops");
    let s = ScanError::new("f".into(), "bad".into(), Position::new(1, 105));
    assert_eq!(s.to_string(), "Scanning Error in f at 1, 105: \n\tbad");
    assert_eq!(s.kind(), "Scanning Error");
    let c = ruka::CompileError::new("g".into(), "worse".into(), Position::new(0, 9));
    assert_eq!(c.to_string(), "Compilation Error in g at 0, 9: \n\tworse");
}

#[test]
fn unterminated_multiline_string_is_reported() {
    let (tokens, errors) = scan("\"|abc");
    assert_eq!(tokens[0].kind, TokenType::String("abc".into()));
    assert_eq!(errors.len(), 1);
    assert_eq!(errors[0].message(), "Unterminated multiline string literal");
}

#[test]
fn nul_character_is_illegal_not_the_end() {
    assert_eq!(
        kinds("a\u{0}b"),
        vec![TokenType::Tag("a".into()), TokenType::Illegal, TokenType::Tag("b".into()), TokenType::Eof]
    );
}

#[test]
fn unterminated_comment_reports_once_despite_nested_opener() {
    let (tokens, errors) = scan("a /* b /* c");
    assert_eq!(tokens.len(), 2);
    assert_eq!(tokens[1].kind, TokenType::Eof);
    assert_eq!(tokens[1].pos, Position::new(1, 12));
    assert_eq!(errors.len(), 1);
    assert_eq!(errors[0].message(), "Unterminated multiline comment");
}
