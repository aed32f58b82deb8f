use vmtranslator::assembly::{render_lines, render_text, Comp, Dest, Instruction, Jump, Register};
use vmtranslator::error::CodeGenError;
use vmtranslator::resolver::{resolve, AddressingMode};
use vmtranslator::utils::{ArithmeticCommand, Command, MemorySegment};
use vmtranslator::writer::{check, Writer};

fn lines_of(commands: &[Command]) -> Vec<String> {
    let mut writer = Writer::new();
    writer.set_module("Main");
    assert_eq!(writer.lines(), ["// Module Main"]);
    for command in commands {
        writer.write(command).expect("the command translates");
    }
    writer.lines()[1..].to_vec()
}

fn strings(lines: &[&str]) -> Vec<String> {
    lines.iter().map(|line| line.to_string()).collect()
}

#[test]
fn new_writer_has_written_nothing() {
    let writer = Writer::new();
    assert!(writer.lines().is_empty());
    assert!(writer.instructions().is_empty());
    assert_eq!(writer.text(), "");
    assert_eq!(writer.jump_index(), 0);
    assert_eq!(writer.module(), "");
}

#[test]
fn comment_is_one_line() {
    let mut writer = Writer::new();
    writer.write_comment("Push Constant 7");
    writer.write_comment("");
    assert_eq!(writer.lines(), strings(&["// Push Constant 7", "// "]));
    assert_eq!(
        writer.into_instructions(),
        vec![
            Instruction::Comment("Push Constant 7".to_string()),
            Instruction::Comment(String::new())
        ]
    );
}

#[test]
fn stack_pointer_starts_at_256() {
    let mut writer = Writer::new();
    writer.initialize_stack_pointer();
    assert_eq!(
        writer.lines(),
        strings(&["// Initialize stack pointer", "@256", "D=A", "@SP", "M=D", ""])
    );
}

#[test]
fn final_loop_jumps_to_itself() {
    let mut writer = Writer::new();
    writer.add_final_loop();
    assert_eq!(writer.lines(), strings(&["// Final loop", "($H)", "@$H", "0;JMP"]));
    assert_eq!(writer.text(), "// Final loop\n($H)\n@$H\n0;JMP\n");
}

#[test]
fn push_constant_loads_the_number() {
    assert_eq!(
        lines_of(&[Command::Push(MemorySegment::Constant, 17)]),
        strings(&["@17", "D=A", "@SP", "A=M", "M=D", "@SP", "M=M+1", ""])
    );
}

#[test]
fn push_through_a_base_register_adds_the_index() {
    let cases = [
        (MemorySegment::Local, "@LCL"),
        (MemorySegment::Argument, "@ARG"),
        (MemorySegment::This, "@THIS"),
        (MemorySegment::That, "@THAT"),
    ];
    for (segment, base) in cases {
        assert_eq!(
            lines_of(&[Command::Push(segment, 3)]),
            strings(&[base, "D=M", "@3", "A=D+A", "D=M", "@SP", "A=M", "M=D", "@SP", "M=M+1", ""])
        );
    }
}

#[test]
fn pop_through_a_base_register_keeps_the_address_in_r13() {
    let cases = [
        (MemorySegment::Local, "@LCL"),
        (MemorySegment::Argument, "@ARG"),
        (MemorySegment::This, "@THIS"),
        (MemorySegment::That, "@THAT"),
    ];
    for (segment, base) in cases {
        assert_eq!(
            lines_of(&[Command::Pop(segment, 2)]),
            strings(&[
                base, "D=M", "@2", "D=D+A", "@R13", "M=D", "@SP", "AM=M-1", "D=M", "@R13", "A=M",
                "M=D", ""
            ])
        );
    }
}

#[test]
fn temp_and_pointer_have_fixed_addresses() {
    assert_eq!(
        lines_of(&[Command::Push(MemorySegment::Temp, 6)]),
        strings(&["@11", "D=M", "@SP", "A=M", "M=D", "@SP", "M=M+1", ""])
    );
    assert_eq!(
        lines_of(&[Command::Pop(MemorySegment::Temp, 0)]),
        strings(&["@SP", "AM=M-1", "D=M", "@5", "M=D", ""])
    );
    assert_eq!(
        lines_of(&[Command::Push(MemorySegment::Pointer, 0)]),
        strings(&["@3", "D=M", "@SP", "A=M", "M=D", "@SP", "M=M+1", ""])
    );
    assert_eq!(
        lines_of(&[Command::Pop(MemorySegment::Pointer, 1)]),
        strings(&["@SP", "AM=M-1", "D=M", "@4", "M=D", ""])
    );
    assert_eq!(lines_of(&[Command::Push(MemorySegment::Temp, 7)])[0], "@12");
    assert_eq!(lines_of(&[Command::Pop(MemorySegment::Pointer, 0)])[3], "@3");
}

#[test]
fn statics_are_named_by_module_and_index() {
    let mut writer = Writer::new();
    writer.set_module("First");
    writer.write(&Command::Push(MemorySegment::Static, 3)).unwrap();
    writer.set_module("Second");
    assert_eq!(writer.module(), "Second");
    writer.write(&Command::Pop(MemorySegment::Static, 3)).unwrap();
    assert_eq!(
        writer.lines(),
        strings(&[
            "// Module First", "@First.3", "D=M", "@SP", "A=M", "M=D", "@SP", "M=M+1", "",
            "// Module Second", "@SP", "AM=M-1", "D=M", "@Second.3", "M=D", ""
        ])
    );
}

#[test]
fn binary_operations_work_on_the_two_top_cells() {
    let cases = [
        (ArithmeticCommand::Add, "M=D+M"),
        (ArithmeticCommand::Sub, "M=M-D"),
        (ArithmeticCommand::And, "M=D&M"),
        (ArithmeticCommand::Or, "M=D|M"),
    ];
    for (op, last) in cases {
        assert_eq!(
            lines_of(&[Command::Arithmetic(op)]),
            strings(&["@SP", "AM=M-1", "D=M", "@SP", "A=M-1", last, ""])
        );
    }
}

#[test]
fn unary_operations_work_in_place() {
    assert_eq!(
        lines_of(&[Command::Arithmetic(ArithmeticCommand::Neg)]),
        strings(&["@SP", "A=M-1", "M=-M", ""])
    );
    assert_eq!(
        lines_of(&[Command::Arithmetic(ArithmeticCommand::Not)]),
        strings(&["@SP", "A=M-1", "M=!M", ""])
    );
}

#[test]
fn comparisons_branch_on_the_difference() {
    let cases = [
        (ArithmeticCommand::Eq, "D;JEQ"),
        (ArithmeticCommand::Gt, "D;JGT"),
        (ArithmeticCommand::Lt, "D;JLT"),
    ];
    for (op, jump) in cases {
        assert_eq!(
            lines_of(&[Command::Arithmetic(op)]),
            strings(&[
                "@SP", "AM=M-1", "D=M", "@SP", "A=M-1", "D=M-D", "@$T0", jump, "@SP", "A=M-1",
                "M=0", "@$E0", "0;JMP", "($T0)", "@SP", "A=M-1", "M=-1", "($E0)", ""
            ])
        );
    }
}

#[test]
fn branching_commands_name_their_label() {
    assert_eq!(
        lines_of(&[Command::Label("LOOP".to_string())]),
        strings(&["(Main.LOOP$L1)", ""])
    );
    assert_eq!(
        lines_of(&[Command::GoTo("LOOP".to_string())]),
        strings(&["@Main.LOOP$L1", "0;JMP", ""])
    );
    assert_eq!(
        lines_of(&[Command::IfGoTo("LOOP".to_string())]),
        strings(&["@SP", "AM=M-1", "D=M", "@Main.LOOP$L1", "D;JNE", ""])
    );
}

#[test]
fn function_entry_pushes_a_zero_for_each_local() {
    assert_eq!(
        lines_of(&[Command::Function("Main.f".to_string(), 0)]),
        strings(&["(Main.f$F)", ""])
    );
    let zero = ["@0", "D=A", "@SP", "A=M", "M=D", "@SP", "M=M+1"];
    let mut expected = vec!["(Main.f$F)"];
    expected.extend(zero);
    expected.extend(zero);
    expected.push("");
    assert_eq!(lines_of(&[Command::Function("Main.f".to_string(), 2)]), strings(&expected));
    assert_eq!(
        lines_of(&[Command::Function("Main.f".to_string(), 2)]),
        {
            let mut same = strings(&["(Main.f$F)"]);
            same.extend(lines_of(&[Command::Push(MemorySegment::Constant, 0)]).into_iter().take(7));
            same.extend(lines_of(&[Command::Push(MemorySegment::Constant, 0)]));
            same
        }
    );
}

#[test]
fn call_saves_the_frame_and_moves_the_bases() {
    let push = ["@SP", "A=M", "M=D", "@SP", "M=M+1"];
    let mut expected = vec!["@$R0", "D=A"];
    expected.extend(push);
    for base in ["@LCL", "@ARG", "@THIS", "@THAT"] {
        expected.push(base);
        expected.push("D=M");
        expected.extend(push);
    }
    expected.extend([
        "@SP", "D=M", "@7", "D=D-A", "@ARG", "M=D", "@SP", "D=M", "@LCL", "M=D", "@Main.f$F",
        "0;JMP", "($R0)", "",
    ]);
    assert_eq!(lines_of(&[Command::Call("Main.f".to_string(), 2)]), strings(&expected));
}

#[test]
fn return_restores_the_frame_and_jumps_back() {
    assert_eq!(
        lines_of(&[Command::Return]),
        strings(&[
            "@LCL", "D=M", "@R13", "M=D", "@5", "A=D-A", "D=M", "@R14", "M=D", "@SP", "AM=M-1",
            "D=M", "@ARG", "A=M", "M=D", "@ARG", "D=M+1", "@SP", "M=D", "@R13", "AM=M-1", "D=M",
            "@THAT", "M=D", "@R13", "AM=M-1", "D=M", "@THIS", "M=D", "@R13", "AM=M-1", "D=M",
            "@ARG", "M=D", "@R13", "AM=M-1", "D=M", "@LCL", "M=D", "@R14", "A=M", "0;JMP", ""
        ])
    );
}

#[test]
fn comparisons_and_calls_take_numbers_from_one_counter() {
    let mut writer = Writer::new();
    let commands = [
        Command::Arithmetic(ArithmeticCommand::Eq),
        Command::Push(MemorySegment::Constant, 1),
        Command::Call("f".to_string(), 0),
        Command::Arithmetic(ArithmeticCommand::Add),
        Command::Arithmetic(ArithmeticCommand::Lt),
        Command::Label("L".to_string()),
        Command::Function("f".to_string(), 1),
        Command::Return,
        Command::Call("g".to_string(), 1),
    ];
    let mut expected = 0;
    for command in &commands {
        assert_eq!(writer.jump_index(), expected);
        writer.write(command).unwrap();
        let takes_number = matches!(
            command,
            Command::Arithmetic(ArithmeticCommand::Eq | ArithmeticCommand::Gt | ArithmeticCommand::Lt)
                | Command::Call(_, _)
        );
        if takes_number {
            expected += 1;
        }
    }
    assert_eq!(writer.jump_index(), 4);
    let labels: Vec<String> =
        writer.lines().into_iter().filter(|line| line.starts_with('(')).collect();
    assert_eq!(
        labels,
        strings(&["($T0)", "($E0)", "($R1)", "($T2)", "($E2)", "(.L$L0)", "(f$F)", "($R3)"])
    );
}

#[test]
fn pop_constant_is_refused_and_writes_nothing() {
    let mut writer = Writer::new();
    writer.set_module("Main");
    writer.write(&Command::Arithmetic(ArithmeticCommand::Eq)).unwrap();
    let before = writer.lines();
    assert_eq!(
        writer.write(&Command::Pop(MemorySegment::Constant, 5)),
        Err(CodeGenError::PopConstant(5))
    );
    assert_eq!(writer.lines(), before);
    assert_eq!(writer.jump_index(), 1);
    assert_eq!(writer.module(), "Main");
    writer.write(&Command::Push(MemorySegment::Constant, 5)).unwrap();
    assert_eq!(writer.lines().len(), before.len() + 8);
}

#[test]
fn code_gen_errors_describe_themselves() {
    assert_eq!(
        CodeGenError::PopConstant(5).to_string(),
        "cannot pop into the constant segment: pop constant 5"
    );
    assert_eq!(
        CodeGenError::DuplicateLabel("LOOP".to_string()).to_string(),
        "label declared twice: LOOP"
    );
    assert_eq!(CodeGenError::ReturnOutsideFunction.to_string(), "return outside a function");
    assert_eq!(
        CodeGenError::IndexOutOfRange(MemorySegment::Temp, 8).to_string(),
        "index outside the segment: Temp 8"
    );
}

#[test]
fn any_name_can_be_declared() {
    // A label named like the label that the first comparison defines, one
    // named like the label of the final loop, and functions named alike.
    let mut writer = Writer::new();
    assert_eq!(writer.write(&Command::Label("$T0".to_string())), Ok(()));
    assert_eq!(writer.write(&Command::Label("$H".to_string())), Ok(()));
    assert_eq!(writer.write(&Command::Label("end".to_string())), Ok(()));
    assert_eq!(writer.write(&Command::Arithmetic(ArithmeticCommand::Eq)), Ok(()));
    assert_eq!(writer.write(&Command::Function("$R1".to_string(), 0)), Ok(()));
    assert_eq!(writer.write(&Command::Function("SP".to_string(), 0)), Ok(()));
    assert_eq!(writer.write(&Command::Label("$T0".to_string())), Ok(()));
    assert_eq!(writer.write(&Command::Call("$R1".to_string(), 0)), Ok(()));
    writer.add_final_loop();
    let labels: Vec<String> =
        writer.lines().into_iter().filter(|line| line.starts_with('(')).collect();
    assert_eq!(
        labels,
        strings(&[
            "(.$T0$L0)", "(.$H$L0)", "(.end$L0)", "($T0)", "($E0)", "($R1$F)", "(SP$F)",
            "(.$T0$L2)", "($R1)", "($H)"
        ])
    );
    for (i, label) in labels.iter().enumerate() {
        assert!(!labels[i + 1..].contains(label), "{label} twice");
    }
}

#[test]
fn functions_and_modules_start_scopes() {
    let mut writer = Writer::new();
    assert_eq!(writer.scope(), 0);
    writer.set_module("A");
    assert_eq!(writer.scope(), 1);
    writer.write(&Command::Label("x".to_string())).unwrap();
    writer.write(&Command::Function("f".to_string(), 0)).unwrap();
    assert_eq!(writer.scope(), 2);
    writer.write(&Command::Label("x".to_string())).unwrap();
    writer.write(&Command::GoTo("x".to_string())).unwrap();
    writer.write(&Command::Function("g".to_string(), 0)).unwrap();
    writer.write(&Command::IfGoTo("x".to_string())).unwrap();
    writer.set_module("B");
    assert_eq!(writer.scope(), 4);
    writer.write(&Command::Label("x".to_string())).unwrap();
    let symbols: Vec<String> = writer
        .lines()
        .into_iter()
        .filter(|line| line.contains('$') || line.starts_with("//"))
        .collect();
    assert_eq!(
        symbols,
        strings(&[
            "// Module A", "(A.x$L1)", "(f$F)", "(A.x$L2)", "@A.x$L2", "(g$F)", "@A.x$L3",
            "// Module B", "(B.x$L4)"
        ])
    );
}

#[test]
fn indices_are_held_to_their_segments() {
    assert_eq!(check(&Command::Push(MemorySegment::Pointer, 1)), Ok(()));
    assert_eq!(check(&Command::Pop(MemorySegment::Temp, 7)), Ok(()));
    assert_eq!(check(&Command::Push(MemorySegment::Local, u32::MAX)), Ok(()));
    assert_eq!(check(&Command::Push(MemorySegment::Static, 500)), Ok(()));
    assert_eq!(
        check(&Command::Push(MemorySegment::Pointer, 2)),
        Err(CodeGenError::IndexOutOfRange(MemorySegment::Pointer, 2))
    );
    assert_eq!(
        check(&Command::Pop(MemorySegment::Pointer, 2)),
        Err(CodeGenError::IndexOutOfRange(MemorySegment::Pointer, 2))
    );
    assert_eq!(
        check(&Command::Push(MemorySegment::Temp, 8)),
        Err(CodeGenError::IndexOutOfRange(MemorySegment::Temp, 8))
    );
    assert_eq!(
        check(&Command::Pop(MemorySegment::Temp, 8)),
        Err(CodeGenError::IndexOutOfRange(MemorySegment::Temp, 8))
    );
    let mut writer = Writer::new();
    assert_eq!(
        writer.write(&Command::Push(MemorySegment::Pointer, 2)),
        Err(CodeGenError::IndexOutOfRange(MemorySegment::Pointer, 2))
    );
    assert!(writer.lines().is_empty());
}

#[test]
fn the_generator_checks_no_labels_and_no_frames() {
    let mut writer = Writer::new();
    assert_eq!(writer.write(&Command::Return), Ok(()));
    assert_eq!(writer.write(&Command::Label("A".to_string())), Ok(()));
    assert_eq!(writer.write(&Command::Label("A".to_string())), Ok(()));
    assert_eq!(check(&Command::Return), Ok(()));
    assert_eq!(check(&Command::Pop(MemorySegment::Static, 1)), Ok(()));
    assert_eq!(check(&Command::Push(MemorySegment::Constant, 1)), Ok(()));
    assert_eq!(
        check(&Command::Pop(MemorySegment::Constant, 1)),
        Err(CodeGenError::PopConstant(1))
    );
}

#[test]
fn segments_resolve_to_their_addressing() {
    assert_eq!(resolve(MemorySegment::Local, 4, "M"), AddressingMode::FixedBase(Register::Lcl));
    assert_eq!(resolve(MemorySegment::Argument, 4, "M"), AddressingMode::FixedBase(Register::Arg));
    assert_eq!(resolve(MemorySegment::This, 4, "M"), AddressingMode::FixedBase(Register::This));
    assert_eq!(resolve(MemorySegment::That, 4, "M"), AddressingMode::FixedBase(Register::That));
    assert_eq!(resolve(MemorySegment::Temp, 4, "M"), AddressingMode::AbsoluteBase(5));
    assert_eq!(resolve(MemorySegment::Pointer, 1, "M"), AddressingMode::AbsoluteBase(3));
    assert_eq!(resolve(MemorySegment::Constant, 4, "M"), AddressingMode::Immediate(4));
    assert_eq!(
        resolve(MemorySegment::Static, 4, "M"),
        AddressingMode::Symbolic("M.4".to_string())
    );
}

#[test]
fn every_instruction_has_its_text() {
    let comps = [
        (Comp::Zero, "0"),
        (Comp::One, "1"),
        (Comp::MinusOne, "-1"),
        (Comp::D, "D"),
        (Comp::A, "A"),
        (Comp::M, "M"),
        (Comp::NotD, "!D"),
        (Comp::NotA, "!A"),
        (Comp::NotM, "!M"),
        (Comp::NegD, "-D"),
        (Comp::NegA, "-A"),
        (Comp::NegM, "-M"),
        (Comp::DPlusOne, "D+1"),
        (Comp::APlusOne, "A+1"),
        (Comp::MPlusOne, "M+1"),
        (Comp::DMinusOne, "D-1"),
        (Comp::AMinusOne, "A-1"),
        (Comp::MMinusOne, "M-1"),
        (Comp::DPlusA, "D+A"),
        (Comp::DPlusM, "D+M"),
        (Comp::DMinusA, "D-A"),
        (Comp::DMinusM, "D-M"),
        (Comp::AMinusD, "A-D"),
        (Comp::MMinusD, "M-D"),
        (Comp::DAndA, "D&A"),
        (Comp::DAndM, "D&M"),
        (Comp::DOrA, "D|A"),
        (Comp::DOrM, "D|M"),
    ];
    for (comp, text) in comps {
        assert_eq!(Instruction::Compute(Dest::Null, comp, Jump::Never).render(), text);
    }
    let dests = [
        (Dest::Null, "D"),
        (Dest::M, "M=D"),
        (Dest::D, "D=D"),
        (Dest::MD, "MD=D"),
        (Dest::A, "A=D"),
        (Dest::AM, "AM=D"),
        (Dest::AD, "AD=D"),
        (Dest::AMD, "AMD=D"),
    ];
    for (dest, text) in dests {
        assert_eq!(Instruction::Compute(dest, Comp::D, Jump::Never).render(), text);
    }
    let jumps = [
        (Jump::Never, "D"),
        (Jump::Jgt, "D;JGT"),
        (Jump::Jeq, "D;JEQ"),
        (Jump::Jge, "D;JGE"),
        (Jump::Jlt, "D;JLT"),
        (Jump::Jne, "D;JNE"),
        (Jump::Jle, "D;JLE"),
        (Jump::Jmp, "D;JMP"),
    ];
    for (jump, text) in jumps {
        assert_eq!(Instruction::Compute(Dest::Null, Comp::D, jump).render(), text);
    }
    let registers = [
        (Register::Sp, "@SP"),
        (Register::Lcl, "@LCL"),
        (Register::Arg, "@ARG"),
        (Register::This, "@THIS"),
        (Register::That, "@THAT"),
        (Register::R13, "@R13"),
        (Register::R14, "@R14"),
    ];
    for (register, text) in registers {
        assert_eq!(Instruction::Reg(register).render(), text);
    }
    assert_eq!(Instruction::Const(0).render(), "@0");
    assert_eq!(Instruction::Const(32767).render(), "@32767");
    assert_eq!(Instruction::Symbol("Main.3".to_string()).render(), "@Main.3");
    assert_eq!(Instruction::Label("LOOP".to_string()).render(), "(LOOP)");
    assert_eq!(Instruction::Comment("text".to_string()).render(), "// text");
    assert_eq!(Instruction::Blank.render(), "");
    assert_eq!(Instruction::Compute(Dest::AMD, Comp::DPlusM, Jump::Jle).render(), "AMD=D+M;JLE");
}

#[test]
fn a_program_is_its_lines_each_ended_by_a_line_feed() {
    let code = vec![
        Instruction::Comment("x".to_string()),
        Instruction::Const(1),
        Instruction::Blank,
        Instruction::Compute(Dest::D, Comp::A, Jump::Never),
    ];
    assert_eq!(render_lines(&code), strings(&["// x", "@1", "", "D=A"]));
    assert_eq!(render_text(&code), "// x\n@1\n\nD=A\n");
    assert_eq!(render_text(&Vec::new()), "");
    assert!(render_lines(&Vec::new()).is_empty());
}
