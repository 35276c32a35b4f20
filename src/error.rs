//! Diagnostics and the text that reports them.

use vstd::prelude::*;

use crate::position::Position;
use crate::utility::push_char;

verus! {

/// The decimal digit character for `d`, which is below ten.
pub open spec fn digit_char(d: nat) -> char {
    if d == 0 {
        '0'
    } else if d == 1 {
        '1'
    } else if d == 2 {
        '2'
    } else if d == 3 {
        '3'
    } else if d == 4 {
        '4'
    } else if d == 5 {
        '5'
    } else if d == 6 {
        '6'
    } else if d == 7 {
        '7'
    } else if d == 8 {
        '8'
    } else {
        '9'
    }
}

/// `n` written in decimal, without leading zeros.
pub open spec fn decimal(n: nat) -> Seq<char>
    decreases n,
{
    if n < 10 {
        seq![digit_char(n)]
    } else {
        decimal(n / 10).push(digit_char(n % 10))
    }
}

/// The text of a diagnostic: its kind, unit, line, column and message.
pub open spec fn report(kind: Seq<char>, file: Seq<char>, pos: Position, msg: Seq<char>) -> Seq<char> {
    kind + " in "@ + file + " at "@ + decimal(pos.line as nat) + ", "@ + decimal(pos.column as nat)
        + ": \n\t"@ + msg
}

fn digit_of(d: usize) -> (r: char)
    requires
        d < 10,
    ensures
        r == digit_char(d as nat),
{
    match d {
        0 => '0',
        1 => '1',
        2 => '2',
        3 => '3',
        4 => '4',
        5 => '5',
        6 => '6',
        7 => '7',
        8 => '8',
        _ => '9',
    }
}

/// Appends `n` in decimal to `s`.
pub fn push_decimal(s: &mut String, n: usize)
    ensures
        final(s)@ == old(s)@ + decimal(n as nat),
    decreases n,
{
    if n >= 10 {
        push_decimal(s, n / 10);
    }
    push_char(s, digit_of(n % 10));
}

/// Writes the text of a diagnostic.
pub fn describe(kind: &str, file: &str, pos: Position, msg: &str) -> (r: String)
    ensures
        r@ == report(kind@, file@, pos, msg@),
{
    let mut s = String::from_str(kind);
    s.append(" in ");
    s.append(file);
    s.append(" at ");
    push_decimal(&mut s, pos.line);
    s.append(", ");
    push_decimal(&mut s, pos.column);
    s.append(": \n\t");
    s.append(msg);
    s
}

/// A diagnostic: the unit it concerns, its kind, its message and where it
/// arose.
#[derive(Clone, Debug, PartialEq)]
pub struct Error {
    pub file: String,
    pub kind: String,
    pub msg: String,
    pub pos: Position,
}

impl Error {
    /// Creates a diagnostic.
    pub fn new(file: String, kind: String, msg: String, pos: Position) -> (r: Self)
        ensures
            r.file == file,
            r.kind == kind,
            r.msg == msg,
            r.pos == pos,
    {
        Error { file, kind, msg, pos }
    }

    /// The diagnostic as text: kind, unit, line, column, then the message.
    pub fn to_string(&self) -> (r: String)
        ensures
            r@ == report(self.kind@, self.file@, self.pos, self.msg@),
    {
        describe(self.kind.as_str(), self.file.as_str(), self.pos, self.msg.as_str())
    }

    /// The message.
    pub fn message(&self) -> (r: &String)
        ensures
            r == &self.msg,
    {
        &self.msg
    }

    /// Where the diagnostic arose.
    pub fn position(&self) -> (r: &Position)
        ensures
            *r == self.pos,
    {
        &self.pos
    }

    /// The kind.
    pub fn kind(&self) -> (r: &String)
        ensures
            r == &self.kind,
    {
        &self.kind
    }
}

/// An error met while scanning a unit.
#[derive(Clone, Debug, PartialEq)]
pub struct ScanError {
    pub file: String,
    pub msg: String,
    pub pos: Position,
}

impl ScanError {
    /// Creates a boxed scanning error.
    pub fn new(file: String, msg: String, pos: Position) -> (r: Box<Self>)
        ensures
            r.file == file,
            r.msg == msg,
            r.pos == pos,
    {
        Box::new(ScanError { file, msg, pos })
    }

    /// The error as text: kind, unit, line, column, then the message.
    pub fn to_string(&self) -> (r: String)
        ensures
            r@ == report("Scanning Error"@, self.file@, self.pos, self.msg@),
    {
        describe("Scanning Error", self.file.as_str(), self.pos, self.msg.as_str())
    }

    /// The message.
    pub fn message(&self) -> (r: &String)
        ensures
            r == &self.msg,
    {
        &self.msg
    }

    /// Where the error arose.
    pub fn position(&self) -> (r: &Position)
        ensures
            *r == self.pos,
    {
        &self.pos
    }

    /// The kind, `Scanning Error`.
    pub fn kind(&self) -> (r: String)
        ensures
            r@ == "Scanning Error"@,
    {
        String::from_str("Scanning Error")
    }
}

/// An error met while compiling a unit.
#[derive(Clone, Debug, PartialEq)]
pub struct CompileError {
    pub file: String,
    pub msg: String,
    pub pos: Position,
}

impl CompileError {
    /// Creates a boxed compilation error.
    pub fn new(file: String, msg: String, pos: Position) -> (r: Box<Self>)
        ensures
            r.file == file,
            r.msg == msg,
            r.pos == pos,
    {
        Box::new(CompileError { file, msg, pos })
    }

    /// The error as text: kind, unit, line, column, then the message.
    pub fn to_string(&self) -> (r: String)
        ensures
            r@ == report("Compilation Error"@, self.file@, self.pos, self.msg@),
    {
        describe("Compilation Error", self.file.as_str(), self.pos, self.msg.as_str())
    }

    /// The message.
    pub fn message(&self) -> (r: &String)
        ensures
            r == &self.msg,
    {
        &self.msg
    }

    /// Where the error arose.
    pub fn position(&self) -> (r: &Position)
        ensures
            *r == self.pos,
    {
        &self.pos
    }

    /// The kind, `Compilation Error`.
    pub fn kind(&self) -> (r: String)
        ensures
            r@ == "Compilation Error"@,
    {
        String::from_str("Compilation Error")
    }
}

} // verus!
