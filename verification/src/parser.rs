//! The parser: reads the lines of one module as commands.
use crate::decimal::{parse_index, parse_u32};
use crate::error::{ParseError, ParseErrorKind, ParseFailure};
use crate::text::{
    lemma_tokens_are_tokens, lemma_trimmed_has_token, lemma_without_comment, marker_at,
    same_text, split_whitespace, strings_view, strip_comment, to_chars, tokens, trim, trimmed,
    without_comment,
};
use crate::utils::{segment_named, ArithmeticCommand, Cmd, Command, MemorySegment};
use vstd::prelude::*;
use vstd::string::*;

verus! {

/// What a source line holds.
pub enum ParsedLine {
    /// Nothing but white space and a comment.
    Blank,
    /// A command.
    Command(Cmd),
    /// Something that is not a command.
    Error(ParseErrorKind),
}

/// What is left of a line without its comment and the white space around
/// the rest.
pub open spec fn trimmed_line(line: Seq<char>) -> Seq<char> {
    trimmed(without_comment(line))
}

/// The arithmetic command that a word names, if it names one.
pub open spec fn arithmetic_named(word: Seq<char>) -> Option<ArithmeticCommand> {
    if word == "add"@ {
        Some(ArithmeticCommand::Add)
    } else if word == "sub"@ {
        Some(ArithmeticCommand::Sub)
    } else if word == "neg"@ {
        Some(ArithmeticCommand::Neg)
    } else if word == "eq"@ {
        Some(ArithmeticCommand::Eq)
    } else if word == "gt"@ {
        Some(ArithmeticCommand::Gt)
    } else if word == "lt"@ {
        Some(ArithmeticCommand::Lt)
    } else if word == "and"@ {
        Some(ArithmeticCommand::And)
    } else if word == "or"@ {
        Some(ArithmeticCommand::Or)
    } else if word == "not"@ {
        Some(ArithmeticCommand::Not)
    } else {
        None
    }
}

/// The operands of `pop` and `push`: a segment, then an index. The
/// segment is looked at before the index is asked for.
pub open spec fn parse_access(operands: Seq<Seq<char>>) -> Result<
    (MemorySegment, nat),
    ParseErrorKind,
> {
    if operands.len() < 1 {
        Err(ParseErrorKind::MissingOperand)
    } else {
        match segment_named(operands[0]) {
            None => Err(ParseErrorKind::UnknownSegment),
            Some(segment) => if operands.len() < 2 {
                Err(ParseErrorKind::MissingOperand)
            } else {
                match parse_index(operands[1]) {
                    None => Err(ParseErrorKind::InvalidNumber),
                    Some(index) => Ok((segment, index as nat)),
                }
            },
        }
    }
}

/// The operand of `label`, `goto` and `if-goto`: a name.
pub open spec fn parse_name(operands: Seq<Seq<char>>) -> Result<Seq<char>, ParseErrorKind> {
    if operands.len() < 1 {
        Err(ParseErrorKind::MissingOperand)
    } else {
        Ok(operands[0])
    }
}

/// The operands of `function` and `call`: a name, then a count.
pub open spec fn parse_name_and_count(operands: Seq<Seq<char>>) -> Result<
    (Seq<char>, nat),
    ParseErrorKind,
> {
    if operands.len() < 2 {
        Err(ParseErrorKind::MissingOperand)
    } else {
        match parse_index(operands[1]) {
            None => Err(ParseErrorKind::InvalidNumber),
            Some(count) => Ok((operands[0], count as nat)),
        }
    }
}

/// What the tokens of a line say: the first names the command, the next
/// ones are its operands, and what follows the operands is passed over.
pub open spec fn parse_tokens(words: Seq<Seq<char>>) -> Result<Cmd, ParseErrorKind>
    recommends
        words.len() > 0,
{
    let word = words[0];
    let operands = words.drop_first();
    if arithmetic_named(word) is Some {
        Ok(Cmd::Arithmetic(arithmetic_named(word)->Some_0))
    } else if word == "pop"@ {
        match parse_access(operands) {
            Ok(access) => Ok(Cmd::Pop(access.0, access.1)),
            Err(kind) => Err(kind),
        }
    } else if word == "push"@ {
        match parse_access(operands) {
            Ok(access) => Ok(Cmd::Push(access.0, access.1)),
            Err(kind) => Err(kind),
        }
    } else if word == "label"@ {
        match parse_name(operands) {
            Ok(name) => Ok(Cmd::Label(name)),
            Err(kind) => Err(kind),
        }
    } else if word == "goto"@ {
        match parse_name(operands) {
            Ok(name) => Ok(Cmd::GoTo(name)),
            Err(kind) => Err(kind),
        }
    } else if word == "if-goto"@ {
        match parse_name(operands) {
            Ok(name) => Ok(Cmd::IfGoTo(name)),
            Err(kind) => Err(kind),
        }
    } else if word == "function"@ {
        match parse_name_and_count(operands) {
            Ok(pair) => Ok(Cmd::Function(pair.0, pair.1)),
            Err(kind) => Err(kind),
        }
    } else if word == "call"@ {
        match parse_name_and_count(operands) {
            Ok(pair) => Ok(Cmd::Call(pair.0, pair.1)),
            Err(kind) => Err(kind),
        }
    } else if word == "return"@ {
        Ok(Cmd::Return)
    } else {
        Err(ParseErrorKind::UnknownCommand)
    }
}

/// What a source line holds.
pub open spec fn parse_line(line: Seq<char>) -> ParsedLine {
    let text = trimmed_line(line);
    if text.len() == 0 {
        ParsedLine::Blank
    } else {
        match parse_tokens(tokens(text)) {
            Ok(command) => ParsedLine::Command(command),
            Err(kind) => ParsedLine::Error(kind),
        }
    }
}

/// The index of the first line at or after `from` that is not blank, or
/// the number of lines if all are.
pub open spec fn next_command_line(lines: Seq<Seq<char>>, from: int) -> int
    decreases lines.len() - from,
{
    if from < 0 || from >= lines.len() {
        lines.len() as int
    } else if parse_line(lines[from]) is Blank {
        next_command_line(lines, from + 1)
    } else {
        from
    }
}

/// Cuts the comment and the white space around the rest off a line.
pub fn get_trimmed_line(line: &str) -> (text: &str)
    ensures
        text@ == trimmed_line(line@),
{
    let without_comments = strip_comment(line);
    trim(without_comments)
}

fn read_access(words: &Vec<String>) -> (r: Result<(MemorySegment, u32), ParseErrorKind>)
    requires
        words@.len() > 0,
    ensures
        match parse_access(strings_view(words@).drop_first()) {
            Ok(access) => r == Ok::<(MemorySegment, u32), ParseErrorKind>(
                (access.0, access.1 as u32),
            ),
            Err(kind) => r == Err::<(MemorySegment, u32), ParseErrorKind>(kind),
        },
{
    if words.len() < 2 {
        return Err(ParseErrorKind::MissingOperand);
    }
    let segment = match MemorySegment::try_from(words[1].as_str()) {
        Ok(segment) => segment,
        Err(_) => {
            return Err(ParseErrorKind::UnknownSegment);
        },
    };
    if words.len() < 3 {
        return Err(ParseErrorKind::MissingOperand);
    }
    let digits = to_chars(words[2].as_str());
    match parse_u32(&digits) {
        Some(index) => Ok((segment, index)),
        None => Err(ParseErrorKind::InvalidNumber),
    }
}

fn read_name(words: &Vec<String>) -> (r: Result<String, ParseErrorKind>)
    requires
        words@.len() > 0,
    ensures
        match parse_name(strings_view(words@).drop_first()) {
            Ok(name) => r is Ok && r->Ok_0@ == name,
            Err(kind) => r == Err::<String, ParseErrorKind>(kind),
        },
{
    if words.len() < 2 {
        return Err(ParseErrorKind::MissingOperand);
    }
    Ok(words[1].clone())
}

fn read_name_and_count(words: &Vec<String>) -> (r: Result<(String, u32), ParseErrorKind>)
    requires
        words@.len() > 0,
    ensures
        match parse_name_and_count(strings_view(words@).drop_first()) {
            Ok(pair) => r is Ok && r->Ok_0.0@ == pair.0 && r->Ok_0.1 == pair.1,
            Err(kind) => r == Err::<(String, u32), ParseErrorKind>(kind),
        },
{
    if words.len() < 3 {
        return Err(ParseErrorKind::MissingOperand);
    }
    let digits = to_chars(words[2].as_str());
    match parse_u32(&digits) {
        Some(count) => Ok((words[1].clone(), count)),
        None => Err(ParseErrorKind::InvalidNumber),
    }
}

fn read_arithmetic(word: &str) -> (r: Option<ArithmeticCommand>)
    ensures
        r == arithmetic_named(word@),
{
    if same_text(word, "add") {
        Some(ArithmeticCommand::Add)
    } else if same_text(word, "sub") {
        Some(ArithmeticCommand::Sub)
    } else if same_text(word, "neg") {
        Some(ArithmeticCommand::Neg)
    } else if same_text(word, "eq") {
        Some(ArithmeticCommand::Eq)
    } else if same_text(word, "gt") {
        Some(ArithmeticCommand::Gt)
    } else if same_text(word, "lt") {
        Some(ArithmeticCommand::Lt)
    } else if same_text(word, "and") {
        Some(ArithmeticCommand::And)
    } else if same_text(word, "or") {
        Some(ArithmeticCommand::Or)
    } else if same_text(word, "not") {
        Some(ArithmeticCommand::Not)
    } else {
        None
    }
}

fn read_tokens(words: &Vec<String>) -> (r: Result<Command, ParseErrorKind>)
    requires
        words@.len() > 0,
    ensures
        match parse_tokens(strings_view(words@)) {
            Ok(command) => r is Ok && r->Ok_0@ == command,
            Err(kind) => r == Err::<Command, ParseErrorKind>(kind),
        },
{
    let word = words[0].as_str();
    assert(word@ == strings_view(words@)[0]);
    if let Some(op) = read_arithmetic(word) {
        Ok(Command::Arithmetic(op))
    } else if same_text(word, "pop") {
        match read_access(words) {
            Ok((segment, index)) => Ok(Command::Pop(segment, index)),
            Err(kind) => Err(kind),
        }
    } else if same_text(word, "push") {
        match read_access(words) {
            Ok((segment, index)) => Ok(Command::Push(segment, index)),
            Err(kind) => Err(kind),
        }
    } else if same_text(word, "label") {
        match read_name(words) {
            Ok(name) => Ok(Command::Label(name)),
            Err(kind) => Err(kind),
        }
    } else if same_text(word, "goto") {
        match read_name(words) {
            Ok(name) => Ok(Command::GoTo(name)),
            Err(kind) => Err(kind),
        }
    } else if same_text(word, "if-goto") {
        match read_name(words) {
            Ok(name) => Ok(Command::IfGoTo(name)),
            Err(kind) => Err(kind),
        }
    } else if same_text(word, "function") {
        match read_name_and_count(words) {
            Ok((name, locals)) => Ok(Command::Function(name, locals)),
            Err(kind) => Err(kind),
        }
    } else if same_text(word, "call") {
        match read_name_and_count(words) {
            Ok((name, args)) => Ok(Command::Call(name, args)),
            Err(kind) => Err(kind),
        }
    } else if same_text(word, "return") {
        Ok(Command::Return)
    } else {
        Err(ParseErrorKind::UnknownCommand)
    }
}

/// Reads one source line: `None` for a blank line, else the command or
/// what is wrong with the line.
pub fn read_line(line: &str) -> (r: Option<Result<Command, ParseErrorKind>>)
    ensures
        match parse_line(line@) {
            ParsedLine::Blank => r is None,
            ParsedLine::Command(command) => r is Some && r->Some_0 is Ok && r->Some_0->Ok_0@
                == command && command.well_formed(),
            ParsedLine::Error(kind) => r == Some(Err::<Command, ParseErrorKind>(kind)),
        },
{
    proof {
        lemma_parsed_command_well_formed(line@);
    }
    let text = get_trimmed_line(line);
    if text.is_empty() {
        return None;
    }
    let words = split_whitespace(text);
    proof {
        lemma_trimmed_has_token(without_comment(line@));
        assert(strings_view(words@).len() == words@.len());
    }
    Some(read_tokens(&words))
}

/// The mathematical model of a [`Parser`].
pub struct ParserState {
    /// The name of the module.
    pub module: Seq<char>,
    /// The lines of the module.
    pub lines: Seq<Seq<char>>,
    /// How many lines have been read.
    pub position: nat,
}

/// A parser over the lines of one module. It reads the lines once, from
/// the first to the last.
pub struct Parser {
    module: String,
    lines: Vec<String>,
    position: usize,
}

impl View for Parser {
    type V = ParserState;

    closed spec fn view(&self) -> ParserState {
        ParserState {
            module: self.module@,
            lines: strings_view(self.lines@),
            position: self.position as nat,
        }
    }
}

impl Parser {
    /// The invariant of a parser: it has read no more lines than there
    /// are.
    pub closed spec fn well_formed(&self) -> bool {
        self.position <= self.lines@.len()
    }

    /// A parser at the first of the lines of the module `module`.
    pub fn new(module: &str, lines: Vec<String>) -> (parser: Parser)
        ensures
            parser.well_formed(),
            parser@ == (ParserState {
                module: module@,
                lines: strings_view(lines@),
                position: 0,
            }),
    {
        Parser { module: String::from_str(module), lines, position: 0 }
    }

    /// How many lines have been read: the number, counted from 1, of the
    /// line that the last command or error came from.
    pub fn line_number(&self) -> (n: usize)
        ensures
            n == self@.position,
    {
        self.position
    }

    /// Reads on to the next line that is not blank. Returns its command,
    /// whose names are tokens, or an error that names the module, the
    /// line and its number, or `None` when no such line is left.
    pub fn next(&mut self) -> (r: Option<Result<Command, ParseError>>)
        requires
            old(self).well_formed(),
        ensures
            final(self).well_formed(),
            final(self)@.module == old(self)@.module,
            final(self)@.lines == old(self)@.lines,
            ({
                let lines = old(self)@.lines;
                let found = next_command_line(lines, old(self)@.position as int);
                if found == lines.len() {
                    r is None && final(self)@.position == lines.len()
                } else {
                    &&& final(self)@.position == found + 1
                    &&& match parse_line(lines[found]) {
                        ParsedLine::Blank => false,
                        ParsedLine::Command(command) => r is Some && r->Some_0 is Ok
                            && r->Some_0->Ok_0@ == command && command.well_formed(),
                        ParsedLine::Error(kind) => {
                            &&& r is Some && r->Some_0 is Err
                            &&& r->Some_0->Err_0@ == (ParseFailure {
                                kind,
                                module: old(self)@.module,
                                line_number: (found + 1) as nat,
                                line: lines[found],
                            })
                        },
                    }
                }
            }),
    {
        let ghost lines = self@.lines;
        let ghost start = self.position as int;
        while self.position < self.lines.len()
            invariant
                self.well_formed(),
                self@.module == old(self)@.module,
                self@.lines == lines,
                lines == old(self)@.lines,
                start == old(self)@.position,
                start <= self.position,
                lines.len() == self.lines@.len(),
                next_command_line(lines, start) == next_command_line(lines, self.position as int),
            decreases self.lines@.len() - self.position,
        {
            let index: usize = self.position;
            let read = read_line(self.lines[index].as_str());
            proof {
                assert(lines[index as int] == self.lines@[index as int]@);
                if parse_line(lines[index as int]) is Blank {
                    assert(next_command_line(lines, index as int) == next_command_line(
                        lines,
                        index + 1,
                    ));
                } else {
                    assert(next_command_line(lines, index as int) == index);
                }
            }
            self.position = index + 1;
            match read {
                None => {},
                Some(Ok(command)) => {
                    return Some(Ok(command));
                },
                Some(Err(kind)) => {
                    return Some(
                        Err(
                            ParseError {
                                kind,
                                module: self.module.clone(),
                                line_number: index + 1,
                                line: self.lines[index].clone(),
                            },
                        ),
                    );
                },
            }
        }
        None
    }
}

/// A line without a comment marker before its end holds only tokens, so
/// the names in a command that was read are well formed.
pub proof fn lemma_parsed_command_well_formed(line: Seq<char>)
    ensures
        parse_line(line) is Command ==> parse_line(line)->Command_0.well_formed(),
{
    let rest = without_comment(line);
    let text = trimmed_line(line);
    lemma_without_comment(line);
    if text.len() > 0 {
        assert forall|k: int| !marker_at(text, k) by {
            if marker_at(text, k) {
                let start = crate::text::skip_spaces(rest, 0);
                crate::text::lemma_skip_spaces(rest, 0);
                crate::text::lemma_skip_spaces_back(rest, rest.len() as int);
                assert(marker_at(rest, start + k));
            }
        }
        lemma_tokens_are_tokens(text, 0);
        lemma_trimmed_has_token(rest);
        let words = tokens(text);
        let operands = words.drop_first();
        assert forall|j: int| 0 <= j < operands.len() implies crate::text::is_token(
            #[trigger] operands[j],
        ) by {
            assert(operands[j] == words[j + 1]);
        }
    }
}

} // verus!
