//! The ways in which a translation fails.
use crate::decimal::{decimal, to_decimal};
use crate::utils::MemorySegment;
use vstd::prelude::*;
use vstd::string::*;

verus! {

/// What is wrong with a source line.
#[derive(Debug, Clone, Copy, PartialEq, Eq, Structural)]
pub enum ParseErrorKind {
    /// The first token is not the name of a command.
    UnknownCommand,
    /// The line ends before the command has all its operands.
    MissingOperand,
    /// The segment of a `push` or `pop` is not one of the eight segments.
    UnknownSegment,
    /// A numeric operand is not a non-negative integer of 32 bits.
    InvalidNumber,
}

/// A source line that is not a command.
#[derive(Debug, PartialEq, Eq)]
pub struct ParseError {
    pub kind: ParseErrorKind,
    /// The module that the line stands in.
    pub module: String,
    /// The number of the line in its module, counted from 1.
    pub line_number: usize,
    /// The line as it was read.
    pub line: String,
}

/// The mathematical model of a [`ParseError`].
pub struct ParseFailure {
    pub kind: ParseErrorKind,
    pub module: Seq<char>,
    pub line_number: nat,
    pub line: Seq<char>,
}

impl View for ParseError {
    type V = ParseFailure;

    open spec fn view(&self) -> ParseFailure {
        ParseFailure {
            kind: self.kind,
            module: self.module@,
            line_number: self.line_number as nat,
            line: self.line@,
        }
    }
}

/// A command that cannot be translated.
#[derive(Debug, PartialEq, Eq)]
pub enum CodeGenError {
    /// A pop into the `constant` segment, with the index it names.
    PopConstant(u32),
    /// A label declared for the second time within one function, or
    /// before the first function of its module; or a function declared
    /// for the second time in the program.
    DuplicateLabel(String),
    /// A `pointer` index above 1 or a `temp` index above 7, with the
    /// segment and the index.
    IndexOutOfRange(MemorySegment, u32),
    /// A return that stands before the first function of its module, so
    /// that it can belong to no function.
    ReturnOutsideFunction,
}

/// The mathematical model of a [`CodeGenError`].
pub enum CodeGenFailure {
    PopConstant(nat),
    DuplicateLabel(Seq<char>),
    IndexOutOfRange(MemorySegment, nat),
    ReturnOutsideFunction,
}

impl View for CodeGenError {
    type V = CodeGenFailure;

    open spec fn view(&self) -> CodeGenFailure {
        match self {
            CodeGenError::PopConstant(index) => CodeGenFailure::PopConstant(*index as nat),
            CodeGenError::DuplicateLabel(name) => CodeGenFailure::DuplicateLabel(name@),
            CodeGenError::IndexOutOfRange(segment, index) => CodeGenFailure::IndexOutOfRange(
                *segment,
                *index as nat,
            ),
            CodeGenError::ReturnOutsideFunction => CodeGenFailure::ReturnOutsideFunction,
        }
    }
}

/// Why a program was not translated.
#[derive(Debug, PartialEq, Eq)]
pub enum TranslateError {
    Parse(ParseError),
    CodeGen {
        /// The module that the command stands in.
        module: String,
        /// The number of the command's line in its module, counted from 1.
        line_number: usize,
        error: CodeGenError,
    },
}

/// The mathematical model of a [`TranslateError`].
pub enum TranslateFailure {
    Parse(ParseFailure),
    CodeGen { module: Seq<char>, line_number: nat, error: CodeGenFailure },
}

impl View for TranslateError {
    type V = TranslateFailure;

    open spec fn view(&self) -> TranslateFailure {
        match self {
            TranslateError::Parse(error) => TranslateFailure::Parse(error@),
            TranslateError::CodeGen { module, line_number, error } => TranslateFailure::CodeGen {
                module: module@,
                line_number: *line_number as nat,
                error: error@,
            },
        }
    }
}

impl ParseErrorKind {
    /// The kind of error in words.
    pub open spec fn reason(self) -> Seq<char> {
        match self {
            ParseErrorKind::UnknownCommand => "unknown command"@,
            ParseErrorKind::MissingOperand => "missing operand"@,
            ParseErrorKind::UnknownSegment => "unknown segment"@,
            ParseErrorKind::InvalidNumber => "invalid number"@,
        }
    }

    fn reason_str(self) -> (s: &'static str)
        ensures
            s@ == self.reason(),
    {
        match self {
            ParseErrorKind::UnknownCommand => "unknown command",
            ParseErrorKind::MissingOperand => "missing operand",
            ParseErrorKind::UnknownSegment => "unknown segment",
            ParseErrorKind::InvalidNumber => "invalid number",
        }
    }
}

/// Where a failure lies: the module, a colon, the line number, a colon
/// and a space.
pub open spec fn place(module: Seq<char>, line_number: nat) -> Seq<char> {
    module + ":"@ + decimal(line_number) + ": "@
}

fn place_string(module: &str, line_number: usize) -> (text: String)
    ensures
        text@ == place(module@, line_number as nat),
{
    let mut text = String::from_str(module);
    text.append(":");
    let number = to_decimal(line_number as u64);
    text.append(number.as_str());
    text.append(": ");
    text
}

impl ParseFailure {
    /// The failure in words: its place, the reason, and the line.
    pub open spec fn message(self) -> Seq<char> {
        place(self.module, self.line_number) + self.kind.reason() + ": "@ + self.line
    }
}

impl ParseError {
    /// Describes the error in words.
    pub fn to_string(&self) -> (text: String)
        ensures
            text@ == self@.message(),
    {
        let mut text = place_string(self.module.as_str(), self.line_number);
        text.append(self.kind.reason_str());
        text.append(": ");
        text.append(self.line.as_str());
        text
    }
}

impl CodeGenFailure {
    /// The failure in words.
    pub open spec fn message(self) -> Seq<char> {
        match self {
            CodeGenFailure::PopConstant(index) => {
                "cannot pop into the constant segment: pop constant "@ + decimal(index)
            },
            CodeGenFailure::DuplicateLabel(name) => "label declared twice: "@ + name,
            CodeGenFailure::IndexOutOfRange(segment, index) => "index outside the segment: "@
                + segment.name() + " "@ + decimal(index),
            CodeGenFailure::ReturnOutsideFunction => "return outside a function"@,
        }
    }
}

impl CodeGenError {
    /// Describes the error in words.
    pub fn to_string(&self) -> (text: String)
        ensures
            text@ == self@.message(),
    {
        match self {
            CodeGenError::PopConstant(index) => {
                let mut text = String::from_str(
                    "cannot pop into the constant segment: pop constant ",
                );
                let number = to_decimal(*index as u64);
                text.append(number.as_str());
                text
            },
            CodeGenError::DuplicateLabel(name) => {
                let mut text = String::from_str("label declared twice: ");
                text.append(name.as_str());
                text
            },
            CodeGenError::IndexOutOfRange(segment, index) => {
                let mut text = String::from_str("index outside the segment: ");
                text.append(segment.name_str());
                text.append(" ");
                let number = to_decimal(*index as u64);
                text.append(number.as_str());
                text
            },
            CodeGenError::ReturnOutsideFunction => String::from_str("return outside a function"),
        }
    }
}

impl TranslateFailure {
    /// The failure in words: its place and what is wrong there.
    pub open spec fn message(self) -> Seq<char> {
        match self {
            TranslateFailure::Parse(failure) => failure.message(),
            TranslateFailure::CodeGen { module, line_number, error } => place(module, line_number)
                + error.message(),
        }
    }
}

impl TranslateError {
    /// Describes the error in words.
    pub fn to_string(&self) -> (text: String)
        ensures
            text@ == self@.message(),
    {
        match self {
            TranslateError::Parse(error) => error.to_string(),
            TranslateError::CodeGen { module, line_number, error } => {
                let mut text = place_string(module.as_str(), *line_number);
                let what = error.to_string();
                text.append(what.as_str());
                text
            },
        }
    }
}

} // verus!
