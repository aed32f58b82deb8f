use vmtranslator::assembly::{render_lines, render_text};
use vmtranslator::driver::{
    has_entry, parse_module, sort_by_name, translate_module, translate_program, Module,
    ParsedModule, SourceCommand,
};
use vmtranslator::error::{CodeGenError, ParseError, ParseErrorKind, TranslateError};
use vmtranslator::utils::{ArithmeticCommand, Command, MemorySegment};
use vmtranslator::writer::Writer;

fn module(name: &str, source: &str) -> Module {
    Module { name: name.to_string(), lines: source.lines().map(|l| l.to_string()).collect() }
}

fn lines(modules: Vec<Module>) -> Vec<String> {
    render_lines(&translate_program(&modules).expect("the program translates"))
}

fn labels(lines: &[String]) -> Vec<String> {
    lines
        .iter()
        .filter(|line| line.starts_with('('))
        .map(|line| line[1..line.len() - 1].to_string())
        .collect()
}

#[test]
fn program_without_modules_is_start_and_end() {
    let code = translate_program(&Vec::new()).unwrap();
    assert_eq!(
        render_text(&code),
        "// Initialize stack pointer\n@256\nD=A\n@SP\nM=D\n\n// Final loop\n($H)\n@$H\n0;JMP\n"
    );
}

#[test]
fn each_command_follows_a_comment_that_restates_it() {
    let lines = lines(vec![module("Main", "push constant 7\npush constant 8\nadd\n")]);
    let expected = [
        "// Initialize stack pointer",
        "@256",
        "D=A",
        "@SP",
        "M=D",
        "",
        "// Module Main",
        "// Push Constant 7",
        "@7",
        "D=A",
        "@SP",
        "A=M",
        "M=D",
        "@SP",
        "M=M+1",
        "",
        "// Push Constant 8",
        "@8",
        "D=A",
        "@SP",
        "A=M",
        "M=D",
        "@SP",
        "M=M+1",
        "",
        "// Add",
        "@SP",
        "AM=M-1",
        "D=M",
        "@SP",
        "A=M-1",
        "M=D+M",
        "",
        "// Final loop",
        "($H)",
        "@$H",
        "0;JMP",
    ];
    assert_eq!(lines, expected);
}

#[test]
fn modules_are_translated_in_the_order_of_their_names() {
    let given = vec![
        module("Zeta", "push static 0\n"),
        module("Alpha", "push static 0\n"),
        module("alpha", "push static 0\n"),
        module("Beta", "push static 0\n"),
        module("Alph", "push static 0\n"),
    ];
    let statics: Vec<String> =
        lines(given).into_iter().filter(|line| line.ends_with(".0")).collect();
    assert_eq!(statics, ["@Alph.0", "@Alpha.0", "@Beta.0", "@Zeta.0", "@alpha.0"]);
}

#[test]
fn translation_does_not_depend_on_the_order_given() {
    let a = || module("A", "push constant 1\npush constant 2\neq\n");
    let b = || module("B", "call B.f 0\nfunction B.f 0\npush constant 3\nreturn\n");
    let c = || module("C", "push static 1\npush constant 2\nlt\n");
    let first = lines(vec![a(), b(), c()]);
    assert_eq!(lines(vec![c(), b(), a()]), first);
    assert_eq!(lines(vec![b(), a(), c()]), first);
    assert_eq!(lines(vec![a(), b(), c()]), first);
}

#[test]
fn sorting_keeps_modules_of_one_name_in_their_order() {
    let modules = vec![
        module("B", ""),
        module("A", "add"),
        module("C", ""),
        module("A", "sub"),
        module("", ""),
        module("B", "neg"),
    ];
    assert_eq!(sort_by_name(&modules), vec![4, 1, 3, 0, 5, 2]);
    assert_eq!(sort_by_name(&Vec::new()), Vec::<usize>::new());
}

#[test]
fn label_numbers_run_on_across_modules() {
    let lines = lines(vec![
        module("B", "push constant 1\npush constant 1\neq\ncall f 0\n"),
        module("A", "push constant 1\npush constant 2\ngt\npush constant 3\nlt\n"),
    ]);
    assert_eq!(labels(&lines), ["$T0", "$E0", "$T1", "$E1", "$T2", "$E2", "$R3", "$H"]);
}

#[test]
fn generated_labels_are_two_for_a_comparison_and_one_for_a_call() {
    let source = "function Main.main 0\n\
                  push constant 1\npush constant 2\neq\n\
                  push constant 1\npush constant 2\ngt\n\
                  push constant 1\npush constant 2\nlt\n\
                  label LOOP\n\
                  call Main.main 0\ncall Main.other 2\n\
                  goto LOOP\n\
                  function Main.other 1\n\
                  label LOOP\n\
                  push argument 0\npush argument 1\nlt\n\
                  return\n";
    let lines = lines(vec![module("Main", source), module("Other", "call Main.main 0\neq\n")]);
    let all = labels(&lines);
    let user = ["Main.main$F", "Main.LOOP$L2", "Main.other$F", "Main.LOOP$L3", "$H"];
    let generated: Vec<&String> =
        all.iter().filter(|label| !user.contains(&label.as_str())).collect();
    // Five comparisons and three calls.
    assert_eq!(generated.len(), 2 * 5 + 3);
    for (i, label) in generated.iter().enumerate() {
        for other in &generated[i + 1..] {
            assert_ne!(label, other);
        }
        assert!(!user.contains(&label.as_str()));
    }
    assert_eq!(all.len(), generated.len() + user.len());
}

#[test]
fn entry_function_is_called_before_any_module() {
    let lines = lines(vec![
        module("Main", "function Main.main 0\npush constant 1\nreturn\n"),
        module("Sys", "function Sys.init 0\ncall Main.main 0\nlabel HALT\ngoto HALT\n"),
    ]);
    assert_eq!(&lines[..6], ["// Initialize stack pointer", "@256", "D=A", "@SP", "M=D", ""]);
    assert_eq!(&lines[6..9], ["// Call Sys.init 0", "@$R0", "D=A"]);
    let jump = lines.iter().position(|line| line == "@Sys.init$F").unwrap();
    assert_eq!(
        &lines[jump..jump + 6],
        ["@Sys.init$F", "0;JMP", "($R0)", "", "// Module Main", "// Function Main.main 0"]
    );
    assert_eq!(
        labels(&lines),
        ["$R0", "Main.main$F", "Sys.init$F", "$R1", "Sys.HALT$L4", "$H"]
    );
}

#[test]
fn programs_without_entry_function_are_not_entered_by_a_call() {
    let lines = lines(vec![module("Sys", "function Sys.start 0\ncall Sys.init 0\n")]);
    assert_eq!(&lines[6..8], ["// Module Sys", "// Function Sys.start 0"]);
    assert_eq!(labels(&lines), ["Sys.start$F", "$R0", "$H"]);
}

#[test]
fn first_line_that_is_no_command_fails_the_translation() {
    let error = translate_program(&vec![
        module("Zeta", "bad line\n"),
        module("Main", "push constant 1\n\n  // note\npush constant\nwrong\n"),
    ])
    .unwrap_err();
    assert_eq!(
        error,
        TranslateError::Parse(ParseError {
            kind: ParseErrorKind::MissingOperand,
            module: "Main".to_string(),
            line_number: 4,
            line: "push constant".to_string(),
        })
    );
    assert_eq!(error.to_string(), "Main:4: missing operand: push constant");
}

#[test]
fn lines_are_parsed_before_commands_are_translated() {
    let error = translate_program(&vec![
        module("A", "pop constant 1\n"),
        module("B", "push constant 1\nfoo\n"),
    ])
    .unwrap_err();
    assert_eq!(
        error,
        TranslateError::Parse(ParseError {
            kind: ParseErrorKind::UnknownCommand,
            module: "B".to_string(),
            line_number: 2,
            line: "foo".to_string(),
        })
    );
}

#[test]
fn pop_constant_fails_the_translation() {
    let error = translate_program(&vec![module(
        "Main",
        "// header\npush constant 5\n\npop constant 5\npop constant 6\n",
    )])
    .unwrap_err();
    assert_eq!(
        error,
        TranslateError::CodeGen {
            module: "Main".to_string(),
            line_number: 4,
            error: CodeGenError::PopConstant(5),
        }
    );
    assert_eq!(
        error.to_string(),
        "Main:4: cannot pop into the constant segment: pop constant 5"
    );
}

#[test]
fn label_declared_twice_in_one_function_fails_the_translation() {
    let error = translate_program(&vec![module(
        "Main",
        "function Main.f 0\nlabel A\nlabel B\ngoto A\nlabel A\nreturn\n",
    )])
    .unwrap_err();
    assert_eq!(
        error,
        TranslateError::CodeGen {
            module: "Main".to_string(),
            line_number: 5,
            error: CodeGenError::DuplicateLabel("A".to_string()),
        }
    );
    assert_eq!(error.to_string(), "Main:5: label declared twice: A");
}

#[test]
fn label_declared_twice_before_any_function_fails_the_translation() {
    let error =
        translate_program(&vec![module("Main", "label A\nlabel A\nfunction f 0\n")]).unwrap_err();
    assert_eq!(
        error,
        TranslateError::CodeGen {
            module: "Main".to_string(),
            line_number: 2,
            error: CodeGenError::DuplicateLabel("A".to_string()),
        }
    );
}

#[test]
fn functions_and_modules_may_declare_the_same_label() {
    let lines = lines(vec![
        module(
            "Main",
            "label loop\nfunction Main.f 0\nlabel loop\ngoto loop\nreturn\n\
             function Main.g 0\nlabel loop\nif-goto loop\nreturn\n",
        ),
        module("Other", "label loop\ngoto loop\n"),
    ]);
    assert_eq!(
        labels(&lines),
        [
            "Main.loop$L1",
            "Main.f$F",
            "Main.loop$L2",
            "Main.g$F",
            "Main.loop$L3",
            "Other.loop$L4",
            "$H"
        ]
    );
    let jumps: Vec<&String> = lines.iter().filter(|line| line.contains("loop$") && line.starts_with('@')).collect();
    assert_eq!(jumps, ["@Main.loop$L2", "@Main.loop$L3", "@Other.loop$L4"]);
}

#[test]
fn function_declared_twice_fails_the_translation() {
    let error = translate_program(&vec![
        module("A", "function f 0\nreturn\n"),
        module("B", "function g 0\nreturn\nfunction f 2\nreturn\n"),
    ])
    .unwrap_err();
    assert_eq!(
        error,
        TranslateError::CodeGen {
            module: "B".to_string(),
            line_number: 3,
            error: CodeGenError::DuplicateLabel("f".to_string()),
        }
    );
    // A label and a function may have the same name.
    let lines = lines(vec![module("A", "label f\nfunction f 0\nlabel f\nreturn\n")]);
    assert_eq!(labels(&lines), ["A.f$L1", "f$F", "A.f$L2", "$H"]);
}

#[test]
fn any_names_are_translated_and_no_label_is_defined_twice() {
    // Names that look like made-up labels, like the label of the final
    // loop, like registers, like numbers and like static variables.
    let names = [
        "j0", "$T0", "$E0", "$R0", "$R1", "$H", "end", "SP", "LCL", "R13", "SCREEN", "7up",
        "Main.3", "Main.0", "a$F", "a$L1", "Main.a$L1", "x",
    ];
    let mut source = String::from("push static 3\npush static 0\n");
    for name in names {
        source.push_str(&format!("label {name}\n"));
    }
    for name in names {
        source.push_str(&format!("function {name} 0\nlabel {name}\nlabel x2\n"));
        source.push_str(&format!("push constant 1\npush constant 1\neq\ncall {name} 0\n"));
    }
    let lines = lines(vec![module("Main", &source), module("Sys", "function Sys.init 0\n")]);
    let all = labels(&lines);
    assert_eq!(all.len(), names.len() + names.len() * 6 + 3);
    for (i, label) in all.iter().enumerate() {
        assert!(!all[i + 1..].contains(label), "{label} twice");
        assert!(!["SP", "LCL", "R13", "SCREEN", "Main.3", "Main.0"].contains(&label.as_str()));
        assert!(!label.chars().all(|c| c.is_ascii_digit()));
    }
}

#[test]
fn index_outside_its_segment_fails_the_translation() {
    let cases = [
        ("push pointer 2", vmtranslator::utils::MemorySegment::Pointer, 2),
        ("pop pointer 7", vmtranslator::utils::MemorySegment::Pointer, 7),
        ("push temp 8", vmtranslator::utils::MemorySegment::Temp, 8),
        ("pop temp 4294967295", vmtranslator::utils::MemorySegment::Temp, u32::MAX),
    ];
    for (source, segment, index) in cases {
        let error = translate_program(&vec![module("Main", source)]).unwrap_err();
        assert_eq!(
            error,
            TranslateError::CodeGen {
                module: "Main".to_string(),
                line_number: 1,
                error: CodeGenError::IndexOutOfRange(segment, index),
            },
            "{source}"
        );
    }
    let error = translate_program(&vec![module("Main", "push pointer 2")]).unwrap_err();
    assert_eq!(error.to_string(), "Main:1: index outside the segment: Pointer 2");
}

#[test]
fn first_failing_command_is_the_one_reported() {
    let error = translate_program(&vec![module("Main", "label A\npop constant 0\nlabel A\n")])
        .unwrap_err();
    assert_eq!(
        error,
        TranslateError::CodeGen {
            module: "Main".to_string(),
            line_number: 2,
            error: CodeGenError::PopConstant(0),
        }
    );
    let error = translate_program(&vec![
        module("B", "pop constant 9\n"),
        module("A", "label A\nlabel A\n"),
    ])
    .unwrap_err();
    assert_eq!(
        error,
        TranslateError::CodeGen {
            module: "A".to_string(),
            line_number: 2,
            error: CodeGenError::DuplicateLabel("A".to_string()),
        }
    );
}

#[test]
fn module_is_parsed_with_its_line_numbers() {
    let parsed = parse_module(&module("Main", "// c\npush constant 1\n\nadd // sum\n")).unwrap();
    assert_eq!(
        parsed,
        vec![
            SourceCommand { line_number: 2, command: Command::Push(MemorySegment::Constant, 1) },
            SourceCommand { line_number: 4, command: Command::Arithmetic(ArithmeticCommand::Add) },
        ]
    );
    assert_eq!(parse_module(&module("Main", "\n\n")), Ok(Vec::new()));
    assert_eq!(
        parse_module(&module("Main", "add\nadd\npush\npop\n")),
        Err(ParseError {
            kind: ParseErrorKind::MissingOperand,
            module: "Main".to_string(),
            line_number: 3,
            line: "push".to_string(),
        })
    );
}

#[test]
fn module_is_translated_under_its_name() {
    let commands = vec![
        SourceCommand { line_number: 1, command: Command::Push(MemorySegment::Static, 2) },
        SourceCommand { line_number: 2, command: Command::Arithmetic(ArithmeticCommand::Neg) },
    ];
    let mut writer = Writer::new();
    let mut functions = vec!["f".to_string()];
    assert_eq!(translate_module(&mut writer, "Unit", &commands, &mut functions), Ok(()));
    assert_eq!(functions, ["f"]);
    assert_eq!(writer.module(), "Unit");
    assert_eq!(
        writer.lines(),
        [
            "// Module Unit",
            "// Push Static 2",
            "@Unit.2",
            "D=M",
            "@SP",
            "A=M",
            "M=D",
            "@SP",
            "M=M+1",
            "",
            "// Neg",
            "@SP",
            "A=M-1",
            "M=-M",
            ""
        ]
    );
}

#[test]
fn entry_function_is_found_in_any_module() {
    let unit = |name: &str, function: &str| ParsedModule {
        name: name.to_string(),
        commands: vec![
            SourceCommand { line_number: 1, command: Command::Arithmetic(ArithmeticCommand::Add) },
            SourceCommand { line_number: 2, command: Command::Function(function.to_string(), 0) },
        ],
    };
    assert!(!has_entry(&Vec::new()));
    assert!(!has_entry(&vec![unit("A", "A.f"), unit("B", "Sys.Init")]));
    assert!(has_entry(&vec![unit("A", "A.f"), unit("B", "Sys.init")]));
    assert!(has_entry(&vec![unit("A", "Sys.init"), unit("B", "B.f")]));
    let call_only = ParsedModule {
        name: "C".to_string(),
        commands: vec![SourceCommand {
            line_number: 1,
            command: Command::Call("Sys.init".to_string(), 0),
        }],
    };
    assert!(!has_entry(&vec![call_only]));
}

#[test]
fn return_before_the_first_function_fails_the_translation() {
    let error = translate_program(&vec![module(
        "Main",
        "push constant 1\nreturn\nfunction Main.f 0\nreturn\n",
    )])
    .unwrap_err();
    assert_eq!(
        error,
        TranslateError::CodeGen {
            module: "Main".to_string(),
            line_number: 2,
            error: CodeGenError::ReturnOutsideFunction,
        }
    );
    assert_eq!(error.to_string(), "Main:2: return outside a function");
}

#[test]
fn returns_behind_a_function_are_translated() {
    let lines = lines(vec![
        module("A", "function A.f 0\npush constant 1\nreturn\nlabel X\npush constant 2\nreturn\n"),
        module("B", "function B.g 0\nreturn\n"),
    ]);
    assert_eq!(lines.iter().filter(|line| *line == "// Return").count(), 3);
    // Each module is looked at by itself: a function of another module
    // does not make a return stand in a function.
    let error = translate_program(&vec![module("A", "function A.f 0\n"), module("B", "return\n")])
        .unwrap_err();
    assert_eq!(
        error,
        TranslateError::CodeGen {
            module: "B".to_string(),
            line_number: 1,
            error: CodeGenError::ReturnOutsideFunction,
        }
    );
}

#[test]
fn module_adds_the_functions_it_declares() {
    let commands = vec![
        SourceCommand { line_number: 1, command: Command::Function("g".to_string(), 0) },
        SourceCommand { line_number: 2, command: Command::Label("f".to_string()) },
        SourceCommand { line_number: 3, command: Command::GoTo("f".to_string()) },
        SourceCommand { line_number: 4, command: Command::Function("f".to_string(), 0) },
        SourceCommand { line_number: 5, command: Command::Label("there".to_string()) },
    ];
    let mut writer = Writer::new();
    let mut functions = vec!["f".to_string()];
    assert_eq!(
        translate_module(&mut writer, "Unit", &commands, &mut functions),
        Err(TranslateError::CodeGen {
            module: "Unit".to_string(),
            line_number: 4,
            error: CodeGenError::DuplicateLabel("f".to_string()),
        })
    );
    assert_eq!(functions, ["f", "g"]);
    assert_eq!(writer.lines().last().map(String::as_str), Some(""));
    assert_eq!(writer.lines().iter().filter(|line| line.starts_with("//")).count(), 4);
}
