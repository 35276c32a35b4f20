//! Tokens and the tables that classify characters, operators, keywords
//! and modes.

use vstd::prelude::*;

use crate::position::Position;
use crate::utility::str_eq;

verus! {

/// A token: its kind, the unit it was read from, and where it starts.
#[derive(Clone, Debug, PartialEq)]
pub struct Token {
    pub kind: TokenType,
    pub file: String,
    pub pos: Position,
}

impl Token {
    /// Creates a token of `kind`, read from `file` at `pos`.
    pub fn new(kind: TokenType, file: String, pos: Position) -> (r: Self)
        ensures
            r.kind == kind,
            r.file == file,
            r.pos == pos,
    {
        Token { kind, file, pos }
    }

    /// A copy of this token.
    pub fn duplicate(&self) -> (r: Token)
        ensures
            r == *self,
    {
        Token { kind: self.kind.duplicate(), file: self.file.clone(), pos: self.pos }
    }
}

/// The kind of a token.
#[derive(Clone, Debug, PartialEq)]
pub enum TokenType {
    Tag(String),
    Keyword(Keyword),
    Mode(Mode),
    String(String),
    Regex(String),
    Integer(String),
    Float(String),
    Assign,
    AssignExp,
    Dot,
    Comma,
    LeftParen,
    RightParen,
    LeftBracket,
    RightBracket,
    LeftSquirly,
    RightSquirly,
    SingleQuote,
    DoubleQuote,
    Backtick,
    Backslash,
    Colon,
    Semicolon,
    Arrow,
    WideArrow,
    Address,
    Cash,
    Pound,
    Bang,
    Question,
    RangeExc,
    RangeInc,
    ForwardApp,
    ReverseApp,
    PatternMatch,
    PatternNotMatch,
    Plus,
    Minus,
    Asterisk,
    Slash,
    Percent,
    Increment,
    Decrement,
    Power,
    Ampersand,
    Pipe,
    Caret,
    Tilde,
    LeftShift,
    RightShift,
    Lesser,
    LesserEq,
    Greater,
    GreaterEq,
    Equal,
    NotEqual,
    Newline,
    Illegal,
    Eof,
}

/// The kind that a lone character gives; `Illegal` for a character that
/// starts no token.
pub open spec fn char_kind(c: char) -> TokenType {
    if c == '=' {
        TokenType::Assign
    } else if c == '.' {
        TokenType::Dot
    } else if c == ',' {
        TokenType::Comma
    } else if c == '(' {
        TokenType::LeftParen
    } else if c == ')' {
        TokenType::RightParen
    } else if c == '[' {
        TokenType::LeftBracket
    } else if c == ']' {
        TokenType::RightBracket
    } else if c == '{' {
        TokenType::LeftSquirly
    } else if c == '}' {
        TokenType::RightSquirly
    } else if c == '\'' {
        TokenType::SingleQuote
    } else if c == '"' {
        TokenType::DoubleQuote
    } else if c == '`' {
        TokenType::Backtick
    } else if c == '\\' {
        TokenType::Backslash
    } else if c == ':' {
        TokenType::Colon
    } else if c == ';' {
        TokenType::Semicolon
    } else if c == '@' {
        TokenType::Address
    } else if c == '$' {
        TokenType::Cash
    } else if c == '#' {
        TokenType::Pound
    } else if c == '!' {
        TokenType::Bang
    } else if c == '?' {
        TokenType::Question
    } else if c == '+' {
        TokenType::Plus
    } else if c == '-' {
        TokenType::Minus
    } else if c == '*' {
        TokenType::Asterisk
    } else if c == '/' {
        TokenType::Slash
    } else if c == '%' {
        TokenType::Percent
    } else if c == '&' {
        TokenType::Ampersand
    } else if c == '|' {
        TokenType::Pipe
    } else if c == '^' {
        TokenType::Caret
    } else if c == '~' {
        TokenType::Tilde
    } else if c == '<' {
        TokenType::Lesser
    } else if c == '>' {
        TokenType::Greater
    } else if c == '\n' {
        TokenType::Newline
    } else {
        TokenType::Illegal
    }
}

/// The operator of two or more characters spelled `w`, if any.
pub open spec fn compound_of(w: Seq<char>) -> Option<TokenType> {
    if w == ":="@ {
        Some(TokenType::AssignExp)
    } else if w == "->"@ {
        Some(TokenType::Arrow)
    } else if w == "=>"@ {
        Some(TokenType::WideArrow)
    } else if w == ".."@ {
        Some(TokenType::RangeExc)
    } else if w == "..="@ {
        Some(TokenType::RangeInc)
    } else if w == "|>"@ {
        Some(TokenType::ReverseApp)
    } else if w == "<|"@ {
        Some(TokenType::ForwardApp)
    } else if w == "++"@ {
        Some(TokenType::Increment)
    } else if w == "--"@ {
        Some(TokenType::Decrement)
    } else if w == "**"@ {
        Some(TokenType::Power)
    } else if w == "<<"@ {
        Some(TokenType::LeftShift)
    } else if w == ">>"@ {
        Some(TokenType::RightShift)
    } else if w == "<="@ {
        Some(TokenType::LesserEq)
    } else if w == ">="@ {
        Some(TokenType::GreaterEq)
    } else if w == "=="@ {
        Some(TokenType::Equal)
    } else if w == "!="@ {
        Some(TokenType::NotEqual)
    } else if w == "~="@ {
        Some(TokenType::PatternMatch)
    } else if w == "!~"@ {
        Some(TokenType::PatternNotMatch)
    } else {
        None
    }
}

/// The keyword spelled `w`, if any.
pub open spec fn keyword_of(w: Seq<char>) -> Option<Keyword> {
    if w == "const"@ {
        Some(Keyword::Const)
    } else if w == "let"@ {
        Some(Keyword::Let)
    } else if w == "pub"@ {
        Some(Keyword::Pub)
    } else if w == "return"@ {
        Some(Keyword::Return)
    } else if w == "do"@ {
        Some(Keyword::Do)
    } else if w == "end"@ {
        Some(Keyword::End)
    } else if w == "record"@ {
        Some(Keyword::Record)
    } else if w == "enum"@ {
        Some(Keyword::Enum)
    } else if w == "use"@ {
        Some(Keyword::Use)
    } else if w == "interface"@ {
        Some(Keyword::Interface)
    } else if w == "module"@ {
        Some(Keyword::Module)
    } else if w == "defer"@ {
        Some(Keyword::Defer)
    } else if w == "when"@ {
        Some(Keyword::When)
    } else if w == "true"@ {
        Some(Keyword::True)
    } else if w == "false"@ {
        Some(Keyword::False)
    } else if w == "for"@ {
        Some(Keyword::For)
    } else if w == "while"@ {
        Some(Keyword::While)
    } else if w == "break"@ {
        Some(Keyword::Break)
    } else if w == "continue"@ {
        Some(Keyword::Continue)
    } else if w == "match"@ {
        Some(Keyword::Match)
    } else if w == "if"@ {
        Some(Keyword::If)
    } else if w == "else"@ {
        Some(Keyword::Else)
    } else if w == "and"@ {
        Some(Keyword::And)
    } else if w == "or"@ {
        Some(Keyword::Or)
    } else if w == "not"@ {
        Some(Keyword::Not)
    } else if w == "comptime"@ {
        Some(Keyword::Comptime)
    } else if w == "inline"@ {
        Some(Keyword::Inline)
    } else if w == "test"@ {
        Some(Keyword::Test)
    } else if w == "as"@ {
        Some(Keyword::As)
    } else if w == "private"@ {
        Some(Keyword::Private)
    } else if w == "derive"@ {
        Some(Keyword::Derive)
    } else if w == "static"@ {
        Some(Keyword::Static)
    } else if w == "error"@ {
        Some(Keyword::Error)
    } else if w == "macro"@ {
        Some(Keyword::Macro)
    } else if w == "from"@ {
        Some(Keyword::From)
    } else if w == "impl"@ {
        Some(Keyword::Impl)
    } else if w == "any"@ {
        Some(Keyword::Any)
    } else if w == "mod"@ {
        Some(Keyword::Mod)
    } else if w == "in"@ {
        Some(Keyword::In)
    } else if w == "fn"@ {
        Some(Keyword::Fn)
    } else {
        None
    }
}

/// The mode spelled `w`, if any.
pub open spec fn mode_of(w: Seq<char>) -> Option<Mode> {
    if w == "comptime"@ {
        Some(Mode::Comptime)
    } else if w == "mut"@ {
        Some(Mode::Mut)
    } else if w == "mov"@ {
        Some(Mode::Mov)
    } else if w == "loc"@ {
        Some(Mode::Loc)
    } else {
        None
    }
}

impl TokenType {
    /// How a token of this kind is written: the text it carries, or the
    /// operator's spelling; empty for `Illegal` and `Eof`.
    pub open spec fn spelling(&self) -> Seq<char> {
        match self {
            TokenType::Tag(s) => s@,
            TokenType::Keyword(k) => k.spelling(),
            TokenType::Mode(m) => m.spelling(),
            TokenType::String(s) => s@,
            TokenType::Regex(s) => s@,
            TokenType::Integer(s) => s@,
            TokenType::Float(s) => s@,
            TokenType::Assign => "="@,
            TokenType::AssignExp => ":="@,
            TokenType::Dot => "."@,
            TokenType::Comma => ","@,
            TokenType::LeftParen => "("@,
            TokenType::RightParen => ")"@,
            TokenType::LeftBracket => "["@,
            TokenType::RightBracket => "]"@,
            TokenType::LeftSquirly => "{"@,
            TokenType::RightSquirly => "}"@,
            TokenType::SingleQuote => "'"@,
            TokenType::DoubleQuote => "\""@,
            TokenType::Backtick => "`"@,
            TokenType::Backslash => "\\"@,
            TokenType::Colon => ":"@,
            TokenType::Semicolon => ";"@,
            TokenType::Arrow => "->"@,
            TokenType::WideArrow => "=>"@,
            TokenType::Address => "@"@,
            TokenType::Cash => "$"@,
            TokenType::Pound => "#"@,
            TokenType::Bang => "!"@,
            TokenType::Question => "?"@,
            TokenType::RangeExc => ".."@,
            TokenType::RangeInc => "..="@,
            TokenType::ForwardApp => "<|"@,
            TokenType::ReverseApp => "|>"@,
            TokenType::PatternMatch => "~="@,
            TokenType::PatternNotMatch => "!~"@,
            TokenType::Plus => "+"@,
            TokenType::Minus => "-"@,
            TokenType::Asterisk => "*"@,
            TokenType::Slash => "/"@,
            TokenType::Percent => "%"@,
            TokenType::Increment => "++"@,
            TokenType::Decrement => "--"@,
            TokenType::Power => "**"@,
            TokenType::Ampersand => "&"@,
            TokenType::Pipe => "|"@,
            TokenType::Caret => "^"@,
            TokenType::Tilde => "~"@,
            TokenType::LeftShift => "<<"@,
            TokenType::RightShift => ">>"@,
            TokenType::Lesser => "<"@,
            TokenType::LesserEq => "<="@,
            TokenType::Greater => ">"@,
            TokenType::GreaterEq => ">="@,
            TokenType::Equal => "=="@,
            TokenType::NotEqual => "!="@,
            TokenType::Newline => "\n"@,
            TokenType::Illegal => ""@,
            TokenType::Eof => ""@,
        }
    }

    /// A copy of this kind.
    pub fn duplicate(&self) -> (r: TokenType)
        ensures
            r == *self,
    {
        match self {
            TokenType::Tag(t) => TokenType::Tag(t.clone()),
            TokenType::String(t) => TokenType::String(t.clone()),
            TokenType::Regex(t) => TokenType::Regex(t.clone()),
            TokenType::Integer(t) => TokenType::Integer(t.clone()),
            TokenType::Float(t) => TokenType::Float(t.clone()),
            TokenType::Keyword(k) => TokenType::Keyword(*k),
            TokenType::Mode(m) => TokenType::Mode(*m),
            TokenType::Assign => TokenType::Assign,
            TokenType::AssignExp => TokenType::AssignExp,
            TokenType::Dot => TokenType::Dot,
            TokenType::Comma => TokenType::Comma,
            TokenType::LeftParen => TokenType::LeftParen,
            TokenType::RightParen => TokenType::RightParen,
            TokenType::LeftBracket => TokenType::LeftBracket,
            TokenType::RightBracket => TokenType::RightBracket,
            TokenType::LeftSquirly => TokenType::LeftSquirly,
            TokenType::RightSquirly => TokenType::RightSquirly,
            TokenType::SingleQuote => TokenType::SingleQuote,
            TokenType::DoubleQuote => TokenType::DoubleQuote,
            TokenType::Backtick => TokenType::Backtick,
            TokenType::Backslash => TokenType::Backslash,
            TokenType::Colon => TokenType::Colon,
            TokenType::Semicolon => TokenType::Semicolon,
            TokenType::Arrow => TokenType::Arrow,
            TokenType::WideArrow => TokenType::WideArrow,
            TokenType::Address => TokenType::Address,
            TokenType::Cash => TokenType::Cash,
            TokenType::Pound => TokenType::Pound,
            TokenType::Bang => TokenType::Bang,
            TokenType::Question => TokenType::Question,
            TokenType::RangeExc => TokenType::RangeExc,
            TokenType::RangeInc => TokenType::RangeInc,
            TokenType::ForwardApp => TokenType::ForwardApp,
            TokenType::ReverseApp => TokenType::ReverseApp,
            TokenType::PatternMatch => TokenType::PatternMatch,
            TokenType::PatternNotMatch => TokenType::PatternNotMatch,
            TokenType::Plus => TokenType::Plus,
            TokenType::Minus => TokenType::Minus,
            TokenType::Asterisk => TokenType::Asterisk,
            TokenType::Slash => TokenType::Slash,
            TokenType::Percent => TokenType::Percent,
            TokenType::Increment => TokenType::Increment,
            TokenType::Decrement => TokenType::Decrement,
            TokenType::Power => TokenType::Power,
            TokenType::Ampersand => TokenType::Ampersand,
            TokenType::Pipe => TokenType::Pipe,
            TokenType::Caret => TokenType::Caret,
            TokenType::Tilde => TokenType::Tilde,
            TokenType::LeftShift => TokenType::LeftShift,
            TokenType::RightShift => TokenType::RightShift,
            TokenType::Lesser => TokenType::Lesser,
            TokenType::LesserEq => TokenType::LesserEq,
            TokenType::Greater => TokenType::Greater,
            TokenType::GreaterEq => TokenType::GreaterEq,
            TokenType::Equal => TokenType::Equal,
            TokenType::NotEqual => TokenType::NotEqual,
            TokenType::Newline => TokenType::Newline,
            TokenType::Illegal => TokenType::Illegal,
            TokenType::Eof => TokenType::Eof,
        }
    }

    /// Whether this is the end-of-input kind.
    pub open spec fn spec_is_eof(&self) -> bool {
        self is Eof
    }

    /// Tests whether this is the end-of-input kind.
    pub fn is_eof(&self) -> (r: bool)
        ensures
            r == self.spec_is_eof(),
    {
        matches!(self, TokenType::Eof)
    }

    /// Converts a character into the kind of token it forms alone.
    pub fn from_char(ch: char) -> (r: TokenType)
        ensures
            r == char_kind(ch),
    {
        match ch {
            '=' => TokenType::Assign,
            '.' => TokenType::Dot,
            ',' => TokenType::Comma,
            '(' => TokenType::LeftParen,
            ')' => TokenType::RightParen,
            '[' => TokenType::LeftBracket,
            ']' => TokenType::RightBracket,
            '{' => TokenType::LeftSquirly,
            '}' => TokenType::RightSquirly,
            '\'' => TokenType::SingleQuote,
            '"' => TokenType::DoubleQuote,
            '`' => TokenType::Backtick,
            '\\' => TokenType::Backslash,
            ':' => TokenType::Colon,
            ';' => TokenType::Semicolon,
            '@' => TokenType::Address,
            '$' => TokenType::Cash,
            '#' => TokenType::Pound,
            '!' => TokenType::Bang,
            '?' => TokenType::Question,
            '+' => TokenType::Plus,
            '-' => TokenType::Minus,
            '*' => TokenType::Asterisk,
            '/' => TokenType::Slash,
            '%' => TokenType::Percent,
            '&' => TokenType::Ampersand,
            '|' => TokenType::Pipe,
            '^' => TokenType::Caret,
            '~' => TokenType::Tilde,
            '<' => TokenType::Lesser,
            '>' => TokenType::Greater,
            '\n' => TokenType::Newline,
            _ => TokenType::Illegal,
        }
    }

    /// Looks up the operator of two or more characters spelled `str`.
    pub fn try_from_str(str: &str) -> (r: Option<TokenType>)
        ensures
            r == compound_of(str@),
    {
        if str_eq(str, ":=") {
            return Some(TokenType::AssignExp);
        }
        if str_eq(str, "->") {
            return Some(TokenType::Arrow);
        }
        if str_eq(str, "=>") {
            return Some(TokenType::WideArrow);
        }
        if str_eq(str, "..") {
            return Some(TokenType::RangeExc);
        }
        if str_eq(str, "..=") {
            return Some(TokenType::RangeInc);
        }
        if str_eq(str, "|>") {
            return Some(TokenType::ReverseApp);
        }
        if str_eq(str, "<|") {
            return Some(TokenType::ForwardApp);
        }
        if str_eq(str, "++") {
            return Some(TokenType::Increment);
        }
        if str_eq(str, "--") {
            return Some(TokenType::Decrement);
        }
        if str_eq(str, "**") {
            return Some(TokenType::Power);
        }
        if str_eq(str, "<<") {
            return Some(TokenType::LeftShift);
        }
        if str_eq(str, ">>") {
            return Some(TokenType::RightShift);
        }
        if str_eq(str, "<=") {
            return Some(TokenType::LesserEq);
        }
        if str_eq(str, ">=") {
            return Some(TokenType::GreaterEq);
        }
        if str_eq(str, "==") {
            return Some(TokenType::Equal);
        }
        if str_eq(str, "!=") {
            return Some(TokenType::NotEqual);
        }
        if str_eq(str, "~=") {
            return Some(TokenType::PatternMatch);
        }
        if str_eq(str, "!~") {
            return Some(TokenType::PatternNotMatch);
        }
        None
    }

    /// Looks up the keyword spelled `str`.
    pub fn try_keyword(str: &str) -> (r: Option<TokenType>)
        ensures
            r == (match keyword_of(str@) {
                Some(k) => Some(TokenType::Keyword(k)),
                None => None,
            }),
    {
        if str_eq(str, "const") {
            return Some(TokenType::Keyword(Keyword::Const));
        }
        if str_eq(str, "let") {
            return Some(TokenType::Keyword(Keyword::Let));
        }
        if str_eq(str, "pub") {
            return Some(TokenType::Keyword(Keyword::Pub));
        }
        if str_eq(str, "return") {
            return Some(TokenType::Keyword(Keyword::Return));
        }
        if str_eq(str, "do") {
            return Some(TokenType::Keyword(Keyword::Do));
        }
        if str_eq(str, "end") {
            return Some(TokenType::Keyword(Keyword::End));
        }
        if str_eq(str, "record") {
            return Some(TokenType::Keyword(Keyword::Record));
        }
        if str_eq(str, "enum") {
            return Some(TokenType::Keyword(Keyword::Enum));
        }
        if str_eq(str, "use") {
            return Some(TokenType::Keyword(Keyword::Use));
        }
        if str_eq(str, "interface") {
            return Some(TokenType::Keyword(Keyword::Interface));
        }
        if str_eq(str, "module") {
            return Some(TokenType::Keyword(Keyword::Module));
        }
        if str_eq(str, "defer") {
            return Some(TokenType::Keyword(Keyword::Defer));
        }
        if str_eq(str, "when") {
            return Some(TokenType::Keyword(Keyword::When));
        }
        if str_eq(str, "true") {
            return Some(TokenType::Keyword(Keyword::True));
        }
        if str_eq(str, "false") {
            return Some(TokenType::Keyword(Keyword::False));
        }
        if str_eq(str, "for") {
            return Some(TokenType::Keyword(Keyword::For));
        }
        if str_eq(str, "while") {
            return Some(TokenType::Keyword(Keyword::While));
        }
        if str_eq(str, "break") {
            return Some(TokenType::Keyword(Keyword::Break));
        }
        if str_eq(str, "continue") {
            return Some(TokenType::Keyword(Keyword::Continue));
        }
        if str_eq(str, "match") {
            return Some(TokenType::Keyword(Keyword::Match));
        }
        if str_eq(str, "if") {
            return Some(TokenType::Keyword(Keyword::If));
        }
        if str_eq(str, "else") {
            return Some(TokenType::Keyword(Keyword::Else));
        }
        if str_eq(str, "and") {
            return Some(TokenType::Keyword(Keyword::And));
        }
        if str_eq(str, "or") {
            return Some(TokenType::Keyword(Keyword::Or));
        }
        if str_eq(str, "not") {
            return Some(TokenType::Keyword(Keyword::Not));
        }
        if str_eq(str, "comptime") {
            return Some(TokenType::Keyword(Keyword::Comptime));
        }
        if str_eq(str, "inline") {
            return Some(TokenType::Keyword(Keyword::Inline));
        }
        if str_eq(str, "test") {
            return Some(TokenType::Keyword(Keyword::Test));
        }
        if str_eq(str, "as") {
            return Some(TokenType::Keyword(Keyword::As));
        }
        if str_eq(str, "private") {
            return Some(TokenType::Keyword(Keyword::Private));
        }
        if str_eq(str, "derive") {
            return Some(TokenType::Keyword(Keyword::Derive));
        }
        if str_eq(str, "static") {
            return Some(TokenType::Keyword(Keyword::Static));
        }
        if str_eq(str, "error") {
            return Some(TokenType::Keyword(Keyword::Error));
        }
        if str_eq(str, "macro") {
            return Some(TokenType::Keyword(Keyword::Macro));
        }
        if str_eq(str, "from") {
            return Some(TokenType::Keyword(Keyword::From));
        }
        if str_eq(str, "impl") {
            return Some(TokenType::Keyword(Keyword::Impl));
        }
        if str_eq(str, "any") {
            return Some(TokenType::Keyword(Keyword::Any));
        }
        if str_eq(str, "mod") {
            return Some(TokenType::Keyword(Keyword::Mod));
        }
        if str_eq(str, "in") {
            return Some(TokenType::Keyword(Keyword::In));
        }
        if str_eq(str, "fn") {
            return Some(TokenType::Keyword(Keyword::Fn));
        }
        None
    }

    /// Looks up the mode spelled `str`.
    pub fn try_mode(str: &str) -> (r: Option<TokenType>)
        ensures
            r == (match mode_of(str@) {
                Some(m) => Some(TokenType::Mode(m)),
                None => None,
            }),
    {
        if str_eq(str, "comptime") {
            return Some(TokenType::Mode(Mode::Comptime));
        }
        if str_eq(str, "mut") {
            return Some(TokenType::Mode(Mode::Mut));
        }
        if str_eq(str, "mov") {
            return Some(TokenType::Mode(Mode::Mov));
        }
        if str_eq(str, "loc") {
            return Some(TokenType::Mode(Mode::Loc));
        }
        None
    }

    /// How a token of this kind is written.
    pub fn to_str(&self) -> (r: &str)
        ensures
            r@ == self.spelling(),
    {
        match self {
            TokenType::Tag(s) => s.as_str(),
            TokenType::Keyword(k) => k.to_str(),
            TokenType::Mode(m) => m.to_str(),
            TokenType::String(s) => s.as_str(),
            TokenType::Regex(s) => s.as_str(),
            TokenType::Integer(s) => s.as_str(),
            TokenType::Float(s) => s.as_str(),
            TokenType::Assign => "=",
            TokenType::AssignExp => ":=",
            TokenType::Dot => ".",
            TokenType::Comma => ",",
            TokenType::LeftParen => "(",
            TokenType::RightParen => ")",
            TokenType::LeftBracket => "[",
            TokenType::RightBracket => "]",
            TokenType::LeftSquirly => "{",
            TokenType::RightSquirly => "}",
            TokenType::SingleQuote => "'",
            TokenType::DoubleQuote => "\"",
            TokenType::Backtick => "`",
            TokenType::Backslash => "\\",
            TokenType::Colon => ":",
            TokenType::Semicolon => ";",
            TokenType::Arrow => "->",
            TokenType::WideArrow => "=>",
            TokenType::Address => "@",
            TokenType::Cash => "$",
            TokenType::Pound => "#",
            TokenType::Bang => "!",
            TokenType::Question => "?",
            TokenType::RangeExc => "..",
            TokenType::RangeInc => "..=",
            TokenType::ForwardApp => "<|",
            TokenType::ReverseApp => "|>",
            TokenType::PatternMatch => "~=",
            TokenType::PatternNotMatch => "!~",
            TokenType::Plus => "+",
            TokenType::Minus => "-",
            TokenType::Asterisk => "*",
            TokenType::Slash => "/",
            TokenType::Percent => "%",
            TokenType::Increment => "++",
            TokenType::Decrement => "--",
            TokenType::Power => "**",
            TokenType::Ampersand => "&",
            TokenType::Pipe => "|",
            TokenType::Caret => "^",
            TokenType::Tilde => "~",
            TokenType::LeftShift => "<<",
            TokenType::RightShift => ">>",
            TokenType::Lesser => "<",
            TokenType::LesserEq => "<=",
            TokenType::Greater => ">",
            TokenType::GreaterEq => ">=",
            TokenType::Equal => "==",
            TokenType::NotEqual => "!=",
            TokenType::Newline => "\n",
            TokenType::Illegal => "",
            TokenType::Eof => "",
        }
    }
}

/// The reserved words.
#[derive(Clone, Copy, Debug, PartialEq, Eq, Structural)]
pub enum Keyword {
    Const,
    Let,
    Pub,
    Return,
    Do,
    Begin,
    End,
    Record,
    Enum,
    Use,
    Interface,
    Module,
    Defer,
    When,
    True,
    False,
    For,
    While,
    Break,
    Continue,
    Match,
    If,
    Else,
    And,
    Or,
    Not,
    Comptime,
    Inline,
    Test,
    As,
    Private,
    Derive,
    Static,
    Error,
    Macro,
    From,
    Impl,
    Any,
    Mod,
    In,
    Fn,
}

impl Keyword {
    /// How the keyword is written.
    pub open spec fn spelling(&self) -> Seq<char> {
        match self {
            Keyword::Const => "const"@,
            Keyword::Let => "let"@,
            Keyword::Pub => "pub"@,
            Keyword::Return => "return"@,
            Keyword::Do => "do"@,
            Keyword::Begin => "begin"@,
            Keyword::End => "end"@,
            Keyword::Record => "record"@,
            Keyword::Enum => "enum"@,
            Keyword::Use => "use"@,
            Keyword::Interface => "interface"@,
            Keyword::Module => "module"@,
            Keyword::Defer => "defer"@,
            Keyword::When => "when"@,
            Keyword::True => "true"@,
            Keyword::False => "false"@,
            Keyword::For => "for"@,
            Keyword::While => "while"@,
            Keyword::Break => "break"@,
            Keyword::Continue => "continue"@,
            Keyword::Match => "match"@,
            Keyword::If => "if"@,
            Keyword::Else => "else"@,
            Keyword::And => "and"@,
            Keyword::Or => "or"@,
            Keyword::Not => "not"@,
            Keyword::Comptime => "comptime"@,
            Keyword::Inline => "inline"@,
            Keyword::Test => "test"@,
            Keyword::As => "as"@,
            Keyword::Private => "private"@,
            Keyword::Derive => "derive"@,
            Keyword::Static => "static"@,
            Keyword::Error => "error"@,
            Keyword::Macro => "macro"@,
            Keyword::From => "from"@,
            Keyword::Impl => "impl"@,
            Keyword::Any => "any"@,
            Keyword::Mod => "mod"@,
            Keyword::In => "in"@,
            Keyword::Fn => "fn"@,
        }
    }

    /// How the keyword is written.
    pub fn to_str(&self) -> (r: &'static str)
        ensures
            r@ == self.spelling(),
    {
        match self {
            Keyword::Const => "const",
            Keyword::Let => "let",
            Keyword::Pub => "pub",
            Keyword::Return => "return",
            Keyword::Do => "do",
            Keyword::Begin => "begin",
            Keyword::End => "end",
            Keyword::Record => "record",
            Keyword::Enum => "enum",
            Keyword::Use => "use",
            Keyword::Interface => "interface",
            Keyword::Module => "module",
            Keyword::Defer => "defer",
            Keyword::When => "when",
            Keyword::True => "true",
            Keyword::False => "false",
            Keyword::For => "for",
            Keyword::While => "while",
            Keyword::Break => "break",
            Keyword::Continue => "continue",
            Keyword::Match => "match",
            Keyword::If => "if",
            Keyword::Else => "else",
            Keyword::And => "and",
            Keyword::Or => "or",
            Keyword::Not => "not",
            Keyword::Comptime => "comptime",
            Keyword::Inline => "inline",
            Keyword::Test => "test",
            Keyword::As => "as",
            Keyword::Private => "private",
            Keyword::Derive => "derive",
            Keyword::Static => "static",
            Keyword::Error => "error",
            Keyword::Macro => "macro",
            Keyword::From => "from",
            Keyword::Impl => "impl",
            Keyword::Any => "any",
            Keyword::Mod => "mod",
            Keyword::In => "in",
            Keyword::Fn => "fn",
        }
    }
}

/// The modes a binding or parameter may carry.
#[derive(Clone, Copy, Debug, PartialEq, Eq, Structural)]
pub enum Mode {
    Comptime,
    Mut,
    Mov,
    Loc,
}

impl Mode {
    /// How the mode is written.
    pub open spec fn spelling(&self) -> Seq<char> {
        match self {
            Mode::Comptime => "comptime"@,
            Mode::Mut => "mut"@,
            Mode::Mov => "mov"@,
            Mode::Loc => "loc"@,
        }
    }

    /// How the mode is written.
    pub fn to_str(&self) -> (r: &'static str)
        ensures
            r@ == self.spelling(),
    {
        match self {
            Mode::Comptime => "comptime",
            Mode::Mut => "mut",
            Mode::Mov => "mov",
            Mode::Loc => "loc",
        }
    }
}

} // verus!
