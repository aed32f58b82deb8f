//! The commands of the virtual machine language.
use crate::decimal::{decimal, to_decimal};
use crate::text::{is_token, same_text};
use vstd::prelude::*;
use vstd::string::*;

verus! {

/// The arithmetic and logical operations on the operand stack.
#[derive(Debug, Clone, Copy, PartialEq, Eq, Structural)]
pub enum ArithmeticCommand {
    Add,
    Sub,
    Neg,
    Eq,
    Gt,
    Lt,
    And,
    Or,
    Not,
}

/// The memory segments that `push` and `pop` address.
#[derive(Debug, Clone, Copy, PartialEq, Eq, Structural)]
pub enum MemorySegment {
    Local,
    Argument,
    This,
    That,
    Pointer,
    Temp,
    Constant,
    Static,
}

/// One command of the virtual machine language.
#[derive(Debug, PartialEq, Eq)]
pub enum Command {
    Pop(MemorySegment, u32),
    Push(MemorySegment, u32),
    Arithmetic(ArithmeticCommand),
    Label(String),
    GoTo(String),
    IfGoTo(String),
    Function(String, u32),
    Call(String, u32),
    Return,
}

/// The mathematical model of a [`Command`].
pub enum Cmd {
    Pop(MemorySegment, nat),
    Push(MemorySegment, nat),
    Arithmetic(ArithmeticCommand),
    Label(Seq<char>),
    GoTo(Seq<char>),
    IfGoTo(Seq<char>),
    Function(Seq<char>, nat),
    Call(Seq<char>, nat),
    Return,
}

impl View for Command {
    type V = Cmd;

    open spec fn view(&self) -> Cmd {
        match self {
            Command::Pop(segment, index) => Cmd::Pop(*segment, *index as nat),
            Command::Push(segment, index) => Cmd::Push(*segment, *index as nat),
            Command::Arithmetic(op) => Cmd::Arithmetic(*op),
            Command::Label(name) => Cmd::Label(name@),
            Command::GoTo(name) => Cmd::GoTo(name@),
            Command::IfGoTo(name) => Cmd::IfGoTo(name@),
            Command::Function(name, locals) => Cmd::Function(name@, *locals as nat),
            Command::Call(name, args) => Cmd::Call(name@, *args as nat),
            Command::Return => Cmd::Return,
        }
    }
}

impl ArithmeticCommand {
    /// Whether the operation compares two operands: `eq`, `gt` or `lt`.
    pub open spec fn is_comparison(self) -> bool {
        self == ArithmeticCommand::Eq || self == ArithmeticCommand::Gt || self
            == ArithmeticCommand::Lt
    }

    /// Whether the operation takes one operand: `neg` or `not`.
    pub open spec fn is_unary(self) -> bool {
        self == ArithmeticCommand::Neg || self == ArithmeticCommand::Not
    }

    /// The name that the operation is described by.
    pub open spec fn name(self) -> Seq<char> {
        match self {
            ArithmeticCommand::Add => "Add"@,
            ArithmeticCommand::Sub => "Sub"@,
            ArithmeticCommand::Neg => "Neg"@,
            ArithmeticCommand::Eq => "Eq"@,
            ArithmeticCommand::Gt => "Gt"@,
            ArithmeticCommand::Lt => "Lt"@,
            ArithmeticCommand::And => "And"@,
            ArithmeticCommand::Or => "Or"@,
            ArithmeticCommand::Not => "Not"@,
        }
    }

    fn name_str(self) -> (s: &'static str)
        ensures
            s@ == self.name(),
    {
        match self {
            ArithmeticCommand::Add => "Add",
            ArithmeticCommand::Sub => "Sub",
            ArithmeticCommand::Neg => "Neg",
            ArithmeticCommand::Eq => "Eq",
            ArithmeticCommand::Gt => "Gt",
            ArithmeticCommand::Lt => "Lt",
            ArithmeticCommand::And => "And",
            ArithmeticCommand::Or => "Or",
            ArithmeticCommand::Not => "Not",
        }
    }
}

/// The segment that a source token names, if it names one.
pub open spec fn segment_named(token: Seq<char>) -> Option<MemorySegment> {
    if token == "local"@ {
        Some(MemorySegment::Local)
    } else if token == "argument"@ {
        Some(MemorySegment::Argument)
    } else if token == "this"@ {
        Some(MemorySegment::This)
    } else if token == "that"@ {
        Some(MemorySegment::That)
    } else if token == "pointer"@ {
        Some(MemorySegment::Pointer)
    } else if token == "temp"@ {
        Some(MemorySegment::Temp)
    } else if token == "constant"@ {
        Some(MemorySegment::Constant)
    } else if token == "static"@ {
        Some(MemorySegment::Static)
    } else {
        None
    }
}

impl MemorySegment {
    /// The name that the segment is described by.
    pub open spec fn name(self) -> Seq<char> {
        match self {
            MemorySegment::Local => "Local"@,
            MemorySegment::Argument => "Argument"@,
            MemorySegment::This => "This"@,
            MemorySegment::That => "That"@,
            MemorySegment::Pointer => "Pointer"@,
            MemorySegment::Temp => "Temp"@,
            MemorySegment::Constant => "Constant"@,
            MemorySegment::Static => "Static"@,
        }
    }

    pub(crate) fn name_str(self) -> (s: &'static str)
        ensures
            s@ == self.name(),
    {
        match self {
            MemorySegment::Local => "Local",
            MemorySegment::Argument => "Argument",
            MemorySegment::This => "This",
            MemorySegment::That => "That",
            MemorySegment::Pointer => "Pointer",
            MemorySegment::Temp => "Temp",
            MemorySegment::Constant => "Constant",
            MemorySegment::Static => "Static",
        }
    }

    /// Reads a segment's name as the source writes it. An unknown name is
    /// reported with a message that quotes it.
    pub fn try_from(segment: &str) -> (r: Result<MemorySegment, String>)
        ensures
            match segment_named(segment@) {
                Some(found) => r == Ok::<MemorySegment, String>(found),
                None => r is Err && r->Err_0@ == "Unknown segment: "@ + segment@,
            },
    {
        if same_text(segment, "local") {
            Ok(MemorySegment::Local)
        } else if same_text(segment, "argument") {
            Ok(MemorySegment::Argument)
        } else if same_text(segment, "this") {
            Ok(MemorySegment::This)
        } else if same_text(segment, "that") {
            Ok(MemorySegment::That)
        } else if same_text(segment, "pointer") {
            Ok(MemorySegment::Pointer)
        } else if same_text(segment, "temp") {
            Ok(MemorySegment::Temp)
        } else if same_text(segment, "constant") {
            Ok(MemorySegment::Constant)
        } else if same_text(segment, "static") {
            Ok(MemorySegment::Static)
        } else {
            let mut message = String::from_str("Unknown segment: ");
            message.append(segment);
            Err(message)
        }
    }
}

impl Cmd {
    /// The command restated in words, as it stands in a comment above its
    /// code.
    pub open spec fn describe(self) -> Seq<char> {
        match self {
            Cmd::Pop(segment, index) => "Pop "@ + segment.name() + " "@ + decimal(index),
            Cmd::Push(segment, index) => "Push "@ + segment.name() + " "@ + decimal(index),
            Cmd::Arithmetic(op) => op.name(),
            Cmd::Label(name) => "Label "@ + name,
            Cmd::GoTo(name) => "GoTo "@ + name,
            Cmd::IfGoTo(name) => "If GoTo "@ + name,
            Cmd::Function(name, locals) => "Function "@ + name + " "@ + decimal(locals),
            Cmd::Call(name, args) => "Call "@ + name + " "@ + decimal(args),
            Cmd::Return => "Return"@,
        }
    }

    /// Whether the names in the command are tokens: not empty, free of
    /// white space and of comment markers.
    pub open spec fn well_formed(self) -> bool {
        match self {
            Cmd::Label(name) => is_token(name),
            Cmd::GoTo(name) => is_token(name),
            Cmd::IfGoTo(name) => is_token(name),
            Cmd::Function(name, _) => is_token(name),
            Cmd::Call(name, _) => is_token(name),
            _ => true,
        }
    }

    /// How many fresh labels the code of the command defines: one for a
    /// comparison, which uses two names made from one number, and one for
    /// a call.
    pub open spec fn numbers_used(self) -> nat {
        match self {
            Cmd::Arithmetic(op) => if op.is_comparison() {
                1
            } else {
                0
            },
            Cmd::Call(_, _) => 1,
            _ => 0,
        }
    }
}

fn described(word: &str, name: &str) -> (text: String)
    ensures
        text@ == word@ + name@,
{
    let mut text = String::from_str(word);
    text.append(name);
    text
}

fn described_with_number(word: &str, name: &str, number: u32) -> (text: String)
    ensures
        text@ == word@ + name@ + " "@ + decimal(number as nat),
{
    let mut text = String::from_str(word);
    text.append(name);
    text.append(" ");
    let numeral = to_decimal(number as u64);
    text.append(numeral.as_str());
    text
}

impl Command {
    /// Restates the command in words.
    pub fn to_string(&self) -> (text: String)
        ensures
            text@ == self@.describe(),
    {
        match self {
            Command::Pop(segment, index) => described_with_number(
                "Pop ",
                segment.name_str(),
                *index,
            ),
            Command::Push(segment, index) => described_with_number(
                "Push ",
                segment.name_str(),
                *index,
            ),
            Command::Arithmetic(op) => String::from_str(op.name_str()),
            Command::Label(name) => described("Label ", name.as_str()),
            Command::GoTo(name) => described("GoTo ", name.as_str()),
            Command::IfGoTo(name) => described("If GoTo ", name.as_str()),
            Command::Function(name, locals) => described_with_number(
                "Function ",
                name.as_str(),
                *locals,
            ),
            Command::Call(name, args) => described_with_number("Call ", name.as_str(), *args),
            Command::Return => String::from_str("Return"),
        }
    }
}

} // verus!
