use vmtranslator::error::{ParseError, ParseErrorKind};
use vmtranslator::parser::{get_trimmed_line, read_line, Parser};
use vmtranslator::utils::{ArithmeticCommand, Command, MemorySegment};

fn lines(source: &[&str]) -> Vec<String> {
    source.iter().map(|line| line.to_string()).collect()
}

fn parse_all(source: &[&str]) -> Vec<Result<Command, ParseError>> {
    let mut parser = Parser::new("Main", lines(source));
    let mut items = Vec::new();
    while let Some(item) = parser.next() {
        items.push(item);
    }
    items
}

fn command(line: &str) -> Command {
    match read_line(line) {
        Some(Ok(command)) => command,
        other => panic!("{line:?} gave {other:?}"),
    }
}

fn error(line: &str) -> ParseErrorKind {
    match read_line(line) {
        Some(Err(kind)) => kind,
        other => panic!("{line:?} gave {other:?}"),
    }
}

#[test]
fn reads_every_arithmetic_command() {
    let cases = [
        ("add", ArithmeticCommand::Add),
        ("sub", ArithmeticCommand::Sub),
        ("neg", ArithmeticCommand::Neg),
        ("eq", ArithmeticCommand::Eq),
        ("gt", ArithmeticCommand::Gt),
        ("lt", ArithmeticCommand::Lt),
        ("and", ArithmeticCommand::And),
        ("or", ArithmeticCommand::Or),
        ("not", ArithmeticCommand::Not),
    ];
    for (word, op) in cases {
        assert_eq!(command(word), Command::Arithmetic(op));
    }
}

#[test]
fn reads_push_and_pop_with_every_segment() {
    let cases = [
        ("local", MemorySegment::Local),
        ("argument", MemorySegment::Argument),
        ("this", MemorySegment::This),
        ("that", MemorySegment::That),
        ("pointer", MemorySegment::Pointer),
        ("temp", MemorySegment::Temp),
        ("constant", MemorySegment::Constant),
        ("static", MemorySegment::Static),
    ];
    for (word, segment) in cases {
        assert_eq!(command(&format!("push {word} 3")), Command::Push(segment, 3));
        assert_eq!(command(&format!("pop {word} 41")), Command::Pop(segment, 41));
    }
}

#[test]
fn reads_branching_and_function_commands() {
    assert_eq!(command("label LOOP"), Command::Label("LOOP".to_string()));
    assert_eq!(command("goto LOOP"), Command::GoTo("LOOP".to_string()));
    assert_eq!(command("if-goto END"), Command::IfGoTo("END".to_string()));
    assert_eq!(command("function Main.f 2"), Command::Function("Main.f".to_string(), 2));
    assert_eq!(command("call Main.f 3"), Command::Call("Main.f".to_string(), 3));
    assert_eq!(command("return"), Command::Return);
}

#[test]
fn passes_over_comments_white_space_and_what_follows_the_operands() {
    assert_eq!(command("   push   constant\t7   // seven"), Command::Push(MemorySegment::Constant, 7));
    assert_eq!(command("add//comment"), Command::Arithmetic(ArithmeticCommand::Add));
    assert_eq!(command("add extra tokens"), Command::Arithmetic(ArithmeticCommand::Add));
    assert_eq!(command("push local 3 4"), Command::Push(MemorySegment::Local, 3));
    assert_eq!(command("label A/B"), Command::Label("A/B".to_string()));
    assert_eq!(command("\u{3000}return\u{a0}"), Command::Return);
    assert_eq!(command("return\r"), Command::Return);
}

#[test]
fn blank_lines_hold_nothing() {
    for line in ["", "   ", "\t", "// only a comment", "   // push constant 1", "//", "\r"] {
        assert_eq!(read_line(line), None, "{line:?}");
    }
}

#[test]
fn a_single_slash_is_no_comment() {
    assert_eq!(error("/ add"), ParseErrorKind::UnknownCommand);
    assert_eq!(command("goto a/b // c"), Command::GoTo("a/b".to_string()));
}

#[test]
fn numbers_are_non_negative_and_of_thirty_two_bits() {
    assert_eq!(command("push constant 0"), Command::Push(MemorySegment::Constant, 0));
    assert_eq!(command("push constant 007"), Command::Push(MemorySegment::Constant, 7));
    assert_eq!(command("push constant +5"), Command::Push(MemorySegment::Constant, 5));
    assert_eq!(
        command("push constant 4294967295"),
        Command::Push(MemorySegment::Constant, u32::MAX)
    );
    for bad in ["4294967296", "99999999999999999999999", "-1", "-0", "1x", "x", "+", "1.5", "0x10", "１"] {
        assert_eq!(error(&format!("push constant {bad}")), ParseErrorKind::InvalidNumber, "{bad}");
        assert_eq!(error(&format!("function f {bad}")), ParseErrorKind::InvalidNumber, "{bad}");
        assert_eq!(error(&format!("call f {bad}")), ParseErrorKind::InvalidNumber, "{bad}");
    }
}

#[test]
fn unknown_words_and_segments_are_errors() {
    assert_eq!(error("mul"), ParseErrorKind::UnknownCommand);
    assert_eq!(error("Add"), ParseErrorKind::UnknownCommand);
    assert_eq!(error("push"), ParseErrorKind::MissingOperand);
    assert_eq!(error("pushconstant 1"), ParseErrorKind::UnknownCommand);
    assert_eq!(error("push heap 1"), ParseErrorKind::UnknownSegment);
    assert_eq!(error("pop Local 1"), ParseErrorKind::UnknownSegment);
}

#[test]
fn missing_operands_are_errors() {
    for line in ["push", "pop", "push local", "pop static", "label", "goto", "if-goto", "function", "function f", "call", "call f"] {
        assert_eq!(error(line), ParseErrorKind::MissingOperand, "{line}");
    }
}

#[test]
fn the_segment_is_looked_at_before_the_index_is_missed() {
    assert_eq!(error("push heap"), ParseErrorKind::UnknownSegment);
    assert_eq!(error("push heap x"), ParseErrorKind::UnknownSegment);
    assert_eq!(error("push local x"), ParseErrorKind::InvalidNumber);
}

#[test]
fn trims_lines_as_the_parser_sees_them() {
    assert_eq!(get_trimmed_line("  push constant 1  // one\n"), "push constant 1");
    assert_eq!(get_trimmed_line("// nothing"), "");
    assert_eq!(get_trimmed_line("   "), "");
    assert_eq!(get_trimmed_line("a / b"), "a / b");
    assert_eq!(get_trimmed_line("\tadd\r\n"), "add");
    assert_eq!(get_trimmed_line("a//b//c"), "a");
}

#[test]
fn parser_yields_the_commands_in_order() {
    let items = parse_all(&[
        "// Adds two numbers",
        "",
        "push constant 7",
        "push constant 8   // the second",
        "   ",
        "add",
    ]);
    assert_eq!(
        items,
        vec![
            Ok(Command::Push(MemorySegment::Constant, 7)),
            Ok(Command::Push(MemorySegment::Constant, 8)),
            Ok(Command::Arithmetic(ArithmeticCommand::Add)),
        ]
    );
}

#[test]
fn parser_counts_lines_from_one() {
    let mut parser = Parser::new("Main", lines(&["", "add", "// x", "", "sub", ""]));
    assert_eq!(parser.line_number(), 0);
    assert_eq!(parser.next(), Some(Ok(Command::Arithmetic(ArithmeticCommand::Add))));
    assert_eq!(parser.line_number(), 2);
    assert_eq!(parser.next(), Some(Ok(Command::Arithmetic(ArithmeticCommand::Sub))));
    assert_eq!(parser.line_number(), 5);
    assert_eq!(parser.next(), None);
    assert_eq!(parser.line_number(), 6);
    assert_eq!(parser.next(), None);
    assert_eq!(parser.line_number(), 6);
}

#[test]
fn parser_reports_the_module_the_line_and_its_number() {
    let mut parser = Parser::new("Demo", lines(&["add", "", "  push nowhere 3 // oops", "sub"]));
    assert_eq!(parser.next(), Some(Ok(Command::Arithmetic(ArithmeticCommand::Add))));
    assert_eq!(
        parser.next(),
        Some(Err(ParseError {
            kind: ParseErrorKind::UnknownSegment,
            module: "Demo".to_string(),
            line_number: 3,
            line: "  push nowhere 3 // oops".to_string(),
        }))
    );
    assert_eq!(parser.next(), Some(Ok(Command::Arithmetic(ArithmeticCommand::Sub))));
    assert_eq!(parser.next(), None);
}

#[test]
fn parser_of_no_lines_is_exhausted() {
    let mut parser = Parser::new("Empty", Vec::new());
    assert_eq!(parser.next(), None);
    assert_eq!(parser.line_number(), 0);
}

#[test]
fn parse_error_describes_itself() {
    let error = ParseError {
        kind: ParseErrorKind::InvalidNumber,
        module: "Demo".to_string(),
        line_number: 12,
        line: "push constant x".to_string(),
    };
    assert_eq!(error.to_string(), "Demo:12: invalid number: push constant x");
    let kinds = [
        (ParseErrorKind::UnknownCommand, "M:1: unknown command: l"),
        (ParseErrorKind::MissingOperand, "M:1: missing operand: l"),
        (ParseErrorKind::UnknownSegment, "M:1: unknown segment: l"),
    ];
    for (kind, text) in kinds {
        let error =
            ParseError { kind, module: "M".to_string(), line_number: 1, line: "l".to_string() };
        assert_eq!(error.to_string(), text);
    }
}

#[test]
fn segment_names_are_read_exactly() {
    assert_eq!(MemorySegment::try_from("local"), Ok(MemorySegment::Local));
    assert_eq!(MemorySegment::try_from("argument"), Ok(MemorySegment::Argument));
    assert_eq!(MemorySegment::try_from("this"), Ok(MemorySegment::This));
    assert_eq!(MemorySegment::try_from("that"), Ok(MemorySegment::That));
    assert_eq!(MemorySegment::try_from("pointer"), Ok(MemorySegment::Pointer));
    assert_eq!(MemorySegment::try_from("temp"), Ok(MemorySegment::Temp));
    assert_eq!(MemorySegment::try_from("constant"), Ok(MemorySegment::Constant));
    assert_eq!(MemorySegment::try_from("static"), Ok(MemorySegment::Static));
    assert_eq!(MemorySegment::try_from("heap"), Err("Unknown segment: heap".to_string()));
    assert_eq!(MemorySegment::try_from(""), Err("Unknown segment: ".to_string()));
    assert_eq!(MemorySegment::try_from("LOCAL"), Err("Unknown segment: LOCAL".to_string()));
}

#[test]
fn commands_are_restated_in_words() {
    let cases = [
        (Command::Pop(MemorySegment::Local, 2), "Pop Local 2"),
        (Command::Push(MemorySegment::Constant, 17), "Push Constant 17"),
        (Command::Push(MemorySegment::Static, 0), "Push Static 0"),
        (Command::Arithmetic(ArithmeticCommand::Add), "Add"),
        (Command::Arithmetic(ArithmeticCommand::Not), "Not"),
        (Command::Label("LOOP".to_string()), "Label LOOP"),
        (Command::GoTo("LOOP".to_string()), "GoTo LOOP"),
        (Command::IfGoTo("END".to_string()), "If GoTo END"),
        (Command::Function("Main.f".to_string(), 3), "Function Main.f 3"),
        (Command::Call("Main.f".to_string(), 4294967295), "Call Main.f 4294967295"),
        (Command::Return, "Return"),
    ];
    for (command, text) in cases {
        assert_eq!(command.to_string(), text);
    }
}
