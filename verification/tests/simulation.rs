//! Runs translated programs on a small model of the target machine and
//! looks at the memory they leave behind.
use std::collections::HashMap;
use vmtranslator::driver::{translate_program, Module};
use vmtranslator::assembly::render_lines;

const SP: usize = 0;
const LCL: usize = 1;
const ARG: usize = 2;
const THIS: usize = 3;
const THAT: usize = 4;
const TRUE: u16 = 0xFFFF;

enum Op {
    Load(u16),
    Compute { dest: String, comp: String, jump: String },
}

struct Machine {
    rom: Vec<Op>,
    ram: Vec<u16>,
    a: u16,
    d: u16,
    pc: usize,
}

fn predefined(symbol: &str) -> Option<u16> {
    match symbol {
        "SP" => Some(0),
        "LCL" => Some(1),
        "ARG" => Some(2),
        "THIS" => Some(3),
        "THAT" => Some(4),
        "SCREEN" => Some(16384),
        "KBD" => Some(24576),
        _ => {
            let number = symbol.strip_prefix('R')?;
            let value: u16 = number.parse().ok()?;
            if value < 16 && !number.starts_with('+') {
                Some(value)
            } else {
                None
            }
        }
    }
}

fn code_lines(lines: &[String]) -> Vec<String> {
    let mut code = Vec::new();
    for line in lines {
        let text = match line.find("//") {
            Some(at) => &line[..at],
            None => &line[..],
        };
        let text = text.trim();
        if !text.is_empty() {
            code.push(text.to_string());
        }
    }
    code
}

fn assemble(lines: &[String]) -> Machine {
    let code = code_lines(lines);
    let mut symbols: HashMap<String, u16> = HashMap::new();
    let mut address: u16 = 0;
    for line in &code {
        if line.starts_with('(') {
            assert!(line.ends_with(')'), "label line {line}");
            let name = &line[1..line.len() - 1];
            assert!(predefined(name).is_none(), "label {name} hides a register");
            let earlier = symbols.insert(name.to_string(), address);
            assert!(earlier.is_none(), "label {name} defined twice");
        } else {
            address += 1;
        }
    }
    let mut next_variable: u16 = 16;
    let mut rom = Vec::new();
    for line in &code {
        if line.starts_with('(') {
            continue;
        }
        if let Some(operand) = line.strip_prefix('@') {
            let value = if operand.chars().all(|c| c.is_ascii_digit()) {
                let value: u16 = operand.parse().expect("number");
                assert!(value < 0x8000, "constant {value} too large");
                value
            } else if let Some(value) = predefined(operand) {
                value
            } else if let Some(value) = symbols.get(operand) {
                *value
            } else {
                let value = next_variable;
                symbols.insert(operand.to_string(), value);
                next_variable += 1;
                value
            };
            rom.push(Op::Load(value));
        } else {
            let (dest, rest) = match line.split_once('=') {
                Some((dest, rest)) => (dest.to_string(), rest),
                None => (String::new(), &line[..]),
            };
            let (comp, jump) = match rest.split_once(';') {
                Some((comp, jump)) => (comp.to_string(), jump.to_string()),
                None => (rest.to_string(), String::new()),
            };
            assert!(
                matches!(dest.as_str(), "" | "M" | "D" | "MD" | "A" | "AM" | "AD" | "AMD"),
                "destination in {line}"
            );
            rom.push(Op::Compute { dest, comp, jump });
        }
    }
    Machine { rom, ram: vec![0; 0x8000], a: 0, d: 0, pc: 0 }
}

fn compute(comp: &str, a: u16, d: u16, m: u16) -> u16 {
    match comp {
        "0" => 0,
        "1" => 1,
        "-1" => 0xFFFF,
        "D" => d,
        "A" => a,
        "M" => m,
        "!D" => !d,
        "!A" => !a,
        "!M" => !m,
        "-D" => d.wrapping_neg(),
        "-A" => a.wrapping_neg(),
        "-M" => m.wrapping_neg(),
        "D+1" => d.wrapping_add(1),
        "A+1" => a.wrapping_add(1),
        "M+1" => m.wrapping_add(1),
        "D-1" => d.wrapping_sub(1),
        "A-1" => a.wrapping_sub(1),
        "M-1" => m.wrapping_sub(1),
        "D+A" => d.wrapping_add(a),
        "D+M" => d.wrapping_add(m),
        "D-A" => d.wrapping_sub(a),
        "D-M" => d.wrapping_sub(m),
        "A-D" => a.wrapping_sub(d),
        "M-D" => m.wrapping_sub(d),
        "D&A" => d & a,
        "D&M" => d & m,
        "D|A" => d | a,
        "D|M" => d | m,
        _ => panic!("computation {comp}"),
    }
}

fn jumps(jump: &str, value: u16) -> bool {
    let value = value as i16;
    match jump {
        "" => false,
        "JGT" => value > 0,
        "JEQ" => value == 0,
        "JGE" => value >= 0,
        "JLT" => value < 0,
        "JNE" => value != 0,
        "JLE" => value <= 0,
        "JMP" => true,
        _ => panic!("jump {jump}"),
    }
}

impl Machine {
    fn step(&mut self) {
        match &self.rom[self.pc] {
            Op::Load(value) => {
                self.a = *value;
                self.pc += 1;
            }
            Op::Compute { dest, comp, jump } => {
                let address = self.a as usize;
                let needs_memory = comp.contains('M') || dest.contains('M');
                assert!(!needs_memory || address < 0x8000, "address {address} out of memory");
                let m = if comp.contains('M') { self.ram[address] } else { 0 };
                let value = compute(comp, self.a, self.d, m);
                let target = self.a as usize;
                if dest.contains('M') {
                    self.ram[address] = value;
                }
                if dest.contains('A') {
                    self.a = value;
                }
                if dest.contains('D') {
                    self.d = value;
                }
                if jumps(jump, value) {
                    self.pc = target;
                } else {
                    self.pc += 1;
                }
            }
        }
    }

    /// Runs until the machine jumps to the instruction it is at, which is
    /// how a program ends.
    fn run(&mut self) {
        for _ in 0..1_000_000 {
            assert!(self.pc < self.rom.len(), "ran off the end of the program");
            let before = self.pc;
            self.step();
            if self.pc + 1 == before {
                if let Op::Load(address) = self.rom[self.pc] {
                    if address as usize == self.pc {
                        return;
                    }
                }
            }
        }
        panic!("the program did not end");
    }

    fn top(&self) -> u16 {
        self.ram[self.ram[SP] as usize - 1]
    }
}

fn module(name: &str, source: &str) -> Module {
    Module { name: name.to_string(), lines: source.lines().map(|l| l.to_string()).collect() }
}

fn translated(modules: Vec<Module>) -> Vec<String> {
    let code = translate_program(&modules).expect("the program translates");
    render_lines(&code)
}

fn machine_for(source: &str) -> Machine {
    assemble(&translated(vec![module("Main", source)]))
}

fn run_source(source: &str) -> Machine {
    let mut machine = machine_for(source);
    machine.run();
    machine
}

#[test]
fn add_leaves_the_sum_on_top() {
    let machine = run_source("push constant 7\npush constant 8\nadd\n");
    assert_eq!(machine.top(), 15);
    assert_eq!(machine.ram[SP], 257);
}

#[test]
fn gt_leaves_true_on_top() {
    let machine = run_source("push constant 5\npush constant 3\ngt\n");
    assert_eq!(machine.top(), TRUE);
    assert_eq!(machine.ram[SP], 257);
}

#[test]
fn comparisons_give_all_ones_or_zero() {
    let cases = [
        ("eq", 4, 4, TRUE),
        ("eq", 4, 5, 0),
        ("gt", 3, 5, 0),
        ("gt", 5, 5, 0),
        ("lt", 3, 5, TRUE),
        ("lt", 5, 3, 0),
        ("lt", 5, 5, 0),
    ];
    for (op, x, y, expected) in cases {
        let source = format!("push constant {x}\npush constant {y}\n{op}\n");
        let machine = run_source(&source);
        assert_eq!(machine.top(), expected, "{x} {op} {y}");
        assert_eq!(machine.ram[SP], 257);
    }
}

#[test]
fn nested_comparisons_use_their_own_labels() {
    let machine = run_source(
        "push constant 1\npush constant 2\nlt\npush constant 3\npush constant 3\neq\nand\n\
         push constant 9\npush constant 1\ngt\nand\n",
    );
    assert_eq!(machine.top(), TRUE);
    assert_eq!(machine.ram[SP], 257);
}

#[test]
fn arithmetic_computes_in_sixteen_bits() {
    let cases = [
        ("push constant 9\npush constant 4\nsub\n", 5u16),
        ("push constant 4\npush constant 9\nsub\n", 5u16.wrapping_neg()),
        ("push constant 12\npush constant 10\nand\n", 8),
        ("push constant 12\npush constant 10\nor\n", 14),
        ("push constant 12\nneg\n", 12u16.wrapping_neg()),
        ("push constant 12\nnot\n", !12u16),
        ("push constant 0\nnot\n", TRUE),
    ];
    for (source, expected) in cases {
        let machine = run_source(source);
        assert_eq!(machine.top(), expected, "{source}");
    }
}

#[test]
fn unary_operations_keep_the_stack_pointer() {
    let machine = run_source("push constant 3\nneg\nnot\n");
    assert_eq!(machine.ram[SP], 257);
    assert_eq!(machine.top(), !(3u16.wrapping_neg()));
}

#[test]
fn push_pop_local_round_trip() {
    let mut direct = machine_for("push constant 17\n");
    direct.run();
    let mut machine = machine_for("push constant 17\npop local 0\npush local 0\n");
    machine.ram[LCL] = 300;
    machine.run();
    assert_eq!(machine.top(), 17);
    assert_eq!(machine.top(), direct.top());
    assert_eq!(machine.ram[SP], direct.ram[SP]);
    assert_eq!(machine.ram[300], 17);
}

#[test]
fn each_segment_is_addressed_by_its_rule() {
    let mut machine = machine_for(
        "push constant 10\npop local 2\n\
         push constant 11\npop argument 3\n\
         push constant 12\npop this 4\n\
         push constant 13\npop that 5\n\
         push constant 14\npop temp 6\n\
         push constant 15\npop static 7\n\
         push local 2\npush argument 3\npush this 4\npush that 5\npush temp 6\npush static 7\n",
    );
    machine.ram[LCL] = 300;
    machine.ram[ARG] = 400;
    machine.ram[THIS] = 3000;
    machine.ram[THAT] = 3010;
    machine.run();
    assert_eq!(machine.ram[302], 10);
    assert_eq!(machine.ram[403], 11);
    assert_eq!(machine.ram[3004], 12);
    assert_eq!(machine.ram[3015], 13);
    assert_eq!(machine.ram[5 + 6], 14);
    assert_eq!(machine.ram[16], 15);
    assert_eq!(machine.ram[SP], 262);
    assert_eq!(&machine.ram[256..262], &[10, 11, 12, 13, 14, 15]);
}

#[test]
fn pointer_selects_the_bases_of_this_and_that() {
    let machine = run_source(
        "push constant 3030\npop pointer 0\npush constant 3040\npop pointer 1\n\
         push constant 32\npop this 2\npush constant 46\npop that 6\n\
         push pointer 0\npush pointer 1\nadd\npush this 2\nsub\npush that 6\nadd\n",
    );
    assert_eq!(machine.ram[THIS], 3030);
    assert_eq!(machine.ram[THAT], 3040);
    assert_eq!(machine.ram[3032], 32);
    assert_eq!(machine.ram[3046], 46);
    assert_eq!(machine.top(), 3030 + 3040 - 32 + 46);
}

#[test]
fn stack_pointer_moves_by_the_declared_effect() {
    let cases = [
        ("push constant 1\n", 1i32),
        ("push local 0\n", 1),
        ("push static 3\n", 1),
        ("push temp 1\n", 1),
        ("push pointer 1\n", 1),
        ("push constant 1\npop local 0\n", 0),
        ("push constant 1\npop temp 7\n", 0),
        ("push constant 1\npop static 2\n", 0),
        ("push constant 1\npop pointer 0\n", 0),
        ("push constant 1\npush constant 2\nadd\n", 1),
        ("push constant 1\npush constant 2\nsub\n", 1),
        ("push constant 1\npush constant 2\nand\n", 1),
        ("push constant 1\npush constant 2\nor\n", 1),
        ("push constant 1\npush constant 2\neq\n", 1),
        ("push constant 1\npush constant 2\ngt\n", 1),
        ("push constant 1\npush constant 2\nlt\n", 1),
        ("push constant 1\nneg\n", 1),
        ("push constant 1\nnot\n", 1),
        ("label HERE\n", 0),
        ("goto THERE\nlabel THERE\n", 0),
        ("push constant 1\nif-goto THERE\nlabel THERE\n", 0),
        ("push constant 0\nif-goto THERE\nlabel THERE\n", 0),
        ("function Main.f 4\n", 4),
        ("function Main.f 0\n", 0),
    ];
    for (source, delta) in cases {
        let mut machine = machine_for(source);
        machine.ram[LCL] = 300;
        machine.ram[ARG] = 400;
        machine.ram[THIS] = 3000;
        machine.ram[THAT] = 3010;
        machine.run();
        assert_eq!(machine.ram[SP] as i32, 256 + delta, "{source}");
    }
}

#[test]
fn if_goto_jumps_when_the_top_is_not_zero() {
    let taken = run_source(
        "push constant 1\nif-goto SKIP\npush constant 111\nlabel SKIP\npush constant 222\n",
    );
    assert_eq!(taken.ram[SP], 257);
    assert_eq!(taken.top(), 222);
    let not_taken = run_source(
        "push constant 0\nif-goto SKIP\npush constant 111\nlabel SKIP\npush constant 222\n",
    );
    assert_eq!(not_taken.ram[SP], 258);
    assert_eq!(not_taken.ram[256], 111);
    assert_eq!(not_taken.top(), 222);
}

#[test]
fn goto_loops_until_the_counter_runs_out() {
    // Sums 1 + 2 + ... + 10 in temp 1, counting down in temp 0.
    let machine = run_source(
        "push constant 10\npop temp 0\npush constant 0\npop temp 1\n\
         label LOOP\n\
         push temp 0\npush temp 1\nadd\npop temp 1\n\
         push temp 0\npush constant 1\nsub\npop temp 0\n\
         push temp 0\nif-goto LOOP\n\
         push temp 1\n",
    );
    assert_eq!(machine.top(), 55);
    assert_eq!(machine.ram[SP], 257);
}

#[test]
fn function_entry_pushes_zeroed_locals() {
    let mut machine = machine_for("function Main.f 3\n");
    for address in 256..260 {
        machine.ram[address] = 99;
    }
    machine.run();
    assert_eq!(machine.ram[SP], 259);
    assert_eq!(&machine.ram[256..259], &[0, 0, 0]);
    assert_eq!(machine.ram[259], 99);
}

#[test]
fn function_with_one_local_returns_it_in_place_of_the_argument() {
    let mut machine = machine_for(
        "function Sys.init 0\n\
         push constant 9\n\
         call demo.f 1\n\
         label HALT\n\
         goto HALT\n\
         function demo.f 1\n\
         return\n",
    );
    // The entry call lays its frame of five cells on the empty stack, so
    // the caller starts with the stack pointer at 261.
    let level = 256 + 5;
    machine.run();
    assert_eq!(machine.ram[LCL], level);
    assert_eq!(machine.ram[SP], level + 1);
    assert_eq!(machine.top(), 0);
}

#[test]
fn call_and_return_keep_the_callers_segments() {
    let mut machine = machine_for(
        "function Sys.init 0\n\
         push constant 4000\npop pointer 0\n\
         push constant 5000\npop pointer 1\n\
         call Main.seven 0\n\
         label HALT\n\
         goto HALT\n\
         function Main.seven 0\n\
         push constant 1234\npop pointer 0\n\
         push constant 4321\npop pointer 1\n\
         push constant 7\n\
         return\n",
    );
    let mut entered = None;
    for _ in 0..10_000 {
        machine.step();
        if entered.is_none() && machine.ram[THAT] == 5000 {
            entered =
                Some((machine.ram[SP], machine.ram[LCL], machine.ram[ARG], machine.ram[THIS]));
        }
    }
    let (sp, lcl, arg, this) = entered.expect("the caller set its segments");
    assert_eq!(machine.ram[SP], sp + 1);
    assert_eq!(machine.top(), 7);
    assert_eq!(machine.ram[LCL], lcl);
    assert_eq!(machine.ram[ARG], arg);
    assert_eq!(machine.ram[THIS], this);
    assert_eq!(machine.ram[THIS], 4000);
    assert_eq!(machine.ram[THAT], 5000);
}

#[test]
fn recursive_calls_return_through_every_frame() {
    // Main.sum n = n + Main.sum (n - 1), Main.sum 0 = 0.
    let mut machine = machine_for(
        "function Sys.init 0\n\
         push constant 3000\npop pointer 0\n\
         push constant 12\n\
         call Main.sum 1\n\
         label HALT\n\
         goto HALT\n\
         function Main.sum 1\n\
         push argument 0\n\
         if-goto MORE\n\
         push constant 0\n\
         return\n\
         label MORE\n\
         push argument 0\n\
         pop local 0\n\
         push argument 0\n\
         push constant 1\n\
         sub\n\
         call Main.sum 1\n\
         push local 0\n\
         add\n\
         return\n",
    );
    for _ in 0..100_000 {
        machine.step();
    }
    assert_eq!(machine.top(), 78);
    assert_eq!(machine.ram[THIS], 3000);
    // Sys.init's frame: five cells above 256, no locals, one value.
    assert_eq!(machine.ram[SP], 262);
    assert_eq!(machine.ram[LCL], 261);
    assert_eq!(machine.ram[ARG], 256);
}

#[test]
fn nested_calls_without_arguments_return_their_constant() {
    let mut machine = machine_for(
        "function Sys.init 0\n\
         call Main.outer 0\n\
         label HALT\n\
         goto HALT\n\
         function Main.outer 0\n\
         call Main.inner 0\n\
         pop temp 0\n\
         push constant 21\n\
         return\n\
         function Main.inner 0\n\
         push constant 42\n\
         return\n",
    );
    for _ in 0..10_000 {
        machine.step();
    }
    assert_eq!(machine.ram[SP], 262);
    assert_eq!(machine.top(), 21);
    assert_eq!(machine.ram[5], 42);
    assert_eq!(machine.ram[LCL], 261);
    assert_eq!(machine.ram[ARG], 256);
}

#[test]
fn statics_of_two_modules_do_not_share_a_cell() {
    let lines = translated(vec![
        module("Second", "push constant 222\npop static 0\npush static 0\n"),
        module("First", "push constant 111\npop static 0\npush static 0\n"),
    ]);
    assert!(lines.contains(&"@First.0".to_string()));
    assert!(lines.contains(&"@Second.0".to_string()));
    let mut machine = assemble(&lines);
    machine.run();
    // First is translated first, so its variable gets the first cell.
    assert_eq!(machine.ram[16], 111);
    assert_eq!(machine.ram[17], 222);
    assert_eq!(&machine.ram[256..258], &[111, 222]);
}

#[test]
fn statics_of_one_module_share_a_cell() {
    let machine = run_source(
        "push constant 5\npop static 0\npush constant 6\npop static 1\n\
         push static 0\npush static 0\nadd\npush static 1\nadd\n",
    );
    assert_eq!(machine.top(), 16);
    assert_eq!(machine.ram[16], 5);
    assert_eq!(machine.ram[17], 6);
}

#[test]
fn bootstrap_sets_the_stack_pointer_and_the_program_ends_in_a_loop() {
    let lines = translated(vec![module("Main", "")]);
    assert_eq!(
        lines,
        vec![
            "// Initialize stack pointer",
            "@256",
            "D=A",
            "@SP",
            "M=D",
            "",
            "// Module Main",
            "// Final loop",
            "($H)",
            "@$H",
            "0;JMP",
        ]
    );
    let mut machine = assemble(&lines);
    machine.run();
    assert_eq!(machine.ram[SP], 256);
}

#[test]
fn functions_may_use_the_same_label() {
    // Each function counts down in a loop of its own with the label LOOP.
    let mut machine = machine_for(
        "function Sys.init 0\n\
         push constant 3\n\
         call Main.twice 1\n\
         label LOOP\n\
         goto LOOP\n\
         function Main.twice 1\n\
         push argument 0\n\
         pop local 0\n\
         label LOOP\n\
         push local 0\n\
         push argument 0\n\
         add\n\
         pop local 0\n\
         push local 0\n\
         push constant 6\n\
         lt\n\
         if-goto LOOP\n\
         push local 0\n\
         return\n",
    );
    machine.run();
    assert_eq!(machine.top(), 6);
    assert_eq!(machine.ram[SP], 262);
}

#[test]
fn names_that_look_like_other_labels_are_translated() {
    // A function named like the label of the final loop, with labels named
    // like a made-up label and like a register.
    let mut machine = machine_for(
        "function Sys.init 0\n\
         push constant 1\n\
         push constant 2\n\
         call $H 2\n\
         label $T0\n\
         goto $T0\n\
         function $H 0\n\
         push argument 0\n\
         push argument 1\n\
         lt\n\
         if-goto SP\n\
         push constant 111\n\
         return\n\
         label SP\n\
         push constant 222\n\
         return\n",
    );
    machine.run();
    assert_eq!(machine.top(), 222);
    assert_eq!(machine.ram[SP], 262);
}
