//! The code generator: translates commands one by one and collects the
//! lines of the program.
use crate::assembly::{
    code_view, lemma_code_view_push, render_all, render_lines, render_text, Comp, Dest, Instr,
    Instruction, Jump, Register,
};
use crate::error::CodeGenError;
use crate::labels::{
    make_end_label, make_function_symbol, make_halt_label, make_label_symbol,
    make_return_label, make_true_label, return_label,
};
use crate::resolver::{addressing, resolve, Addressing, AddressingMode};
use crate::translation::{
    arithmetic_code, assign, bootstrap_code, branch, call_code, command_body, command_code,
    compare_code, enter_code, fetch_code, final_loop_code, frame_code, function_code,
    increase_sp_code, load_from_segment_code, load_last_code, load_last_two_code,
    load_value_code, marked, move_result_code, out_of_range, pop_code, pop_into_segment_code,
    push_code, push_d_code, push_label_code, push_register_code, rejection, repeated,
    reposition_code, restore_code, restore_frame_code, resume_code, return_code,
    save_frame_code, translatable,
};
use crate::utils::{ArithmeticCommand, Cmd, Command, MemorySegment};
use vstd::prelude::*;
use vstd::string::*;

verus! {

/// The mathematical model of a [`Writer`].
pub struct WriterState {
    /// The lines written so far.
    pub code: Seq<Instr>,
    /// The number that the next fresh label is made from.
    pub counter: nat,
    /// The name of the module whose commands are being translated.
    pub module: Seq<char>,
    /// The number of the scope that labels are declared in. A new scope
    /// starts with each module and with each function.
    pub scope: nat,
}

impl WriterState {
    /// The state after `lines` have been written.
    pub open spec fn emit(self, lines: Seq<Instr>) -> WriterState {
        WriterState { code: self.code + lines, ..self }
    }

    /// The state after a translatable command has been translated: the
    /// lines of the command with its marks on are written, the counter
    /// has moved on if the command took a label number, and a function
    /// has started a scope.
    pub open spec fn translate(self, command: Cmd) -> WriterState {
        WriterState {
            code: self.code + command_code(
                marked(command, self.module, self.scope),
                self.module,
                self.counter,
            ),
            counter: self.counter + command.numbers_used(),
            module: self.module,
            scope: if command is Function {
                self.scope + 1
            } else {
                self.scope
            },
        }
    }

    /// The state after a module has been entered: a comment names the
    /// module, and a scope starts.
    pub open spec fn enter_module(self, name: Seq<char>) -> WriterState {
        WriterState {
            code: self.code + seq![Instr::Comment(module_heading(name))],
            counter: self.counter,
            module: name,
            scope: self.scope + 1,
        }
    }
}

/// The comment that stands above the lines of a module.
pub open spec fn module_heading(name: Seq<char>) -> Seq<char> {
    "Module "@ + name
}

/// The code generator. It owns the lines written so far, the counter that
/// fresh labels are numbered by, the name of the current module and the
/// number of the current scope.
pub struct Writer {
    out: Vec<Instruction>,
    jump_index: usize,
    module: String,
    scope: usize,
}

impl View for Writer {
    type V = WriterState;

    closed spec fn view(&self) -> WriterState {
        WriterState {
            code: code_view(self.out@),
            counter: self.jump_index as nat,
            module: self.module@,
            scope: self.scope as nat,
        }
    }
}

/// Writing four blocks one after the other writes their concatenation.
proof fn lemma_emit_four(
    s: WriterState,
    a: Seq<Instr>,
    b: Seq<Instr>,
    c: Seq<Instr>,
    d: Seq<Instr>,
)
    ensures
        s.emit(a).emit(b).emit(c).emit(d) == s.emit(a + b + c + d),
{
    assert(((((s.code + a) + b) + c) + d) =~= s.code + (a + b + c + d));
}

fn set_to(dest: Dest, comp: Comp) -> (i: Instruction)
    ensures
        i@ == assign(dest, comp),
{
    Instruction::Compute(dest, comp, Jump::Never)
}

fn branch_on(comp: Comp, jump: Jump) -> (i: Instruction)
    ensures
        i@ == branch(comp, jump),
{
    Instruction::Compute(Dest::Null, comp, jump)
}

fn check_index(segment: MemorySegment, index: u32) -> (r: Result<(), CodeGenError>)
    ensures
        match out_of_range(segment, index as nat) {
            None => r is Ok,
            Some(failure) => r is Err && r->Err_0@ == failure,
        },
{
    match segment {
        MemorySegment::Pointer => if index >= 2 {
            Err(CodeGenError::IndexOutOfRange(segment, index))
        } else {
            Ok(())
        },
        MemorySegment::Temp => if index >= 8 {
            Err(CodeGenError::IndexOutOfRange(segment, index))
        } else {
            Ok(())
        },
        _ => Ok(()),
    }
}

/// Whether a command can be translated, and why not if it cannot. The
/// generator refuses a pop into the `constant` segment and a `pointer`
/// or `temp` index outside the segment. It refuses no command for the
/// names in it.
pub fn check(command: &Command) -> (r: Result<(), CodeGenError>)
    ensures
        match rejection(command@) {
            None => r is Ok,
            Some(failure) => r is Err && r->Err_0@ == failure,
        },
{
    match command {
        Command::Pop(segment, index) => match segment {
            MemorySegment::Constant => Err(CodeGenError::PopConstant(*index)),
            _ => check_index(*segment, *index),
        },
        Command::Push(segment, index) => check_index(*segment, *index),
        _ => Ok(()),
    }
}

impl Writer {
    /// The invariant of a generator: every fresh label and every new
    /// scope came with at least one line, so neither the counter nor the
    /// number of the scope exceeds the number of lines.
    pub closed spec fn well_formed(&self) -> bool {
        self.jump_index <= self.out@.len() && self.scope <= self.out@.len()
    }

    /// A generator that has written nothing, with the counter at 0, an
    /// empty module name and the scope 0.
    pub fn new() -> (writer: Writer)
        ensures
            writer.well_formed(),
            writer@ == (WriterState {
                code: Seq::empty(),
                counter: 0,
                module: Seq::empty(),
                scope: 0,
            }),
    {
        let writer = Writer { out: Vec::new(), jump_index: 0, module: String::new(), scope: 0 };
        assert(writer@.code =~= Seq::empty());
        writer
    }

    /// Enters the module whose commands come next: writes a comment that
    /// names it and starts a scope. The name is part of the symbol of
    /// each static variable and of each label that the module declares.
    pub fn set_module(&mut self, name: &str)
        requires
            old(self).well_formed(),
        ensures
            final(self).well_formed(),
            final(self)@ == old(self)@.enter_module(name@),
    {
        let mut heading = String::from_str("Module ");
        heading.append(name);
        self.write_comment(heading.as_str());
        self.module = String::from_str(name);
        // The number of the lines fits a `usize` because `len` returns
        // it, and the comment is one more line than the scopes before it.
        let lines: usize = self.out.len();
        assert(lines == self@.code.len() == old(self)@.code.len() + 1);
        assert(self.scope < lines);
        self.scope = self.scope + 1;
    }

    /// The number of the current scope.
    pub fn scope(&self) -> (n: usize)
        ensures
            n == self@.scope,
    {
        self.scope
    }

    /// The number that the next fresh label is made from.
    pub fn jump_index(&self) -> (n: usize)
        ensures
            n == self@.counter,
    {
        self.jump_index
    }

    /// The name of the current module.
    pub fn module(&self) -> (name: &str)
        ensures
            name@ == self@.module,
    {
        self.module.as_str()
    }

    /// The lines written so far.
    pub fn instructions(&self) -> (code: &Vec<Instruction>)
        ensures
            code_view(code@) == self@.code,
    {
        &self.out
    }

    /// Hands over the lines written.
    pub fn into_instructions(self) -> (code: Vec<Instruction>)
        ensures
            code_view(code@) == self@.code,
    {
        self.out
    }

    /// The lines written so far as text, one string per line.
    pub fn lines(&self) -> (lines: Vec<String>)
        ensures
            lines@.len() == self@.code.len(),
            forall|i: int|
                0 <= i < lines@.len() ==> (#[trigger] lines@[i])@ == crate::assembly::render(
                    self@.code[i],
                ),
    {
        render_lines(&self.out)
    }

    /// The lines written so far as one text, each ended by a line feed.
    pub fn text(&self) -> (text: String)
        ensures
            text@ == render_all(self@.code),
    {
        render_text(&self.out)
    }

    /// Writes one line.
    pub fn writeln(&mut self, line: Instruction)
        requires
            old(self).well_formed(),
        ensures
            final(self).well_formed(),
            final(self)@ == old(self)@.emit(seq![line@]),
    {
        proof {
            lemma_code_view_push(self.out@, line);
        }
        self.out.push(line);
        assert(self@.code =~= old(self)@.code + seq![line@]);
    }

    /// Writes a comment line.
    pub fn write_comment(&mut self, string: &str)
        requires
            old(self).well_formed(),
        ensures
            final(self).well_formed(),
            final(self)@ == old(self)@.emit(seq![Instr::Comment(string@)]),
    {
        self.writeln(Instruction::Comment(String::from_str(string)));
    }

    /// Writes the lines that start a program: they set the stack pointer
    /// to 256.
    pub fn initialize_stack_pointer(&mut self)
        requires
            old(self).well_formed(),
        ensures
            final(self).well_formed(),
            final(self)@ == old(self)@.emit(bootstrap_code()),
    {
        self.write_comment("Initialize stack pointer");
        self.writeln(Instruction::Const(256));
        self.writeln(set_to(Dest::D, Comp::A));
        self.writeln(Instruction::Reg(Register::Sp));
        self.writeln(set_to(Dest::M, Comp::D));
        self.writeln(Instruction::Blank);
        assert(self@.code =~= old(self)@.code + bootstrap_code());
    }

    /// Translates one command: writes its lines and, for a comparison or
    /// a call, takes the next label number. The labels in the lines carry
    /// the marks of their families, so that no name that a program uses
    /// can be taken for another label: any name is translated. A command
    /// that cannot be translated is refused, and nothing is written for
    /// it. A number above 32767 is written as it is, in a push, a pop or
    /// a call with that many arguments; the machine cannot load such a
    /// number, and the laws about the machine leave those programs out.
    pub fn write(&mut self, command: &Command) -> (r: Result<(), CodeGenError>)
        requires
            old(self).well_formed(),
        ensures
            final(self).well_formed(),
            match rejection(command@) {
                None => r is Ok && final(self)@ == old(self)@.translate(command@),
                Some(failure) => r is Err && r->Err_0@ == failure && final(self)@ == old(self)@,
            },
    {
        match check(command) {
            Ok(()) => {
                self.write_code(command);
                Ok(())
            },
            Err(error) => Err(error),
        }
    }

    /// Writes the lines of a command that can be translated.
    pub(crate) fn write_code(&mut self, command: &Command)
        requires
            old(self).well_formed(),
            translatable(command@),
        ensures
            final(self).well_formed(),
            final(self)@ == old(self)@.translate(command@),
    {
        let ghost before = self@;
        match command {
            Command::Pop(segment, index) => {
                self.write_pop(*segment, *index);
            },
            Command::Push(segment, index) => {
                self.write_push(*segment, *index);
            },
            Command::Arithmetic(op) => {
                self.write_arithmetic(*op);
            },
            Command::Label(label) => {
                let symbol = make_label_symbol(self.module.as_str(), label.as_str(), self.scope);
                self.writeln(Instruction::Label(symbol));
            },
            Command::GoTo(label) => {
                let symbol = make_label_symbol(self.module.as_str(), label.as_str(), self.scope);
                self.writeln(Instruction::Symbol(symbol));
                self.writeln(branch_on(Comp::Zero, Jump::Jmp));
            },
            Command::IfGoTo(label) => {
                let symbol = make_label_symbol(self.module.as_str(), label.as_str(), self.scope);
                self.load_last_stack_value();
                self.writeln(Instruction::Symbol(symbol));
                self.writeln(branch_on(Comp::D, Jump::Jne));
            },
            Command::Function(name, locals) => {
                let symbol = make_function_symbol(name.as_str());
                self.write_function_entry(symbol.as_str(), *locals);
            },
            Command::Call(name, args) => {
                let symbol = make_function_symbol(name.as_str());
                self.write_call(symbol.as_str(), *args);
            },
            Command::Return => {
                self.write_return();
            },
        }
        let ghost written = marked(command@, before.module, before.scope);
        let ghost body = command_body(written, before.module, before.counter);
        assert(self@.code =~= before.code + body);
        self.writeln(Instruction::Blank);
        assert(self@.code =~= before.code + command_code(written, before.module, before.counter));
        match command {
            Command::Function(_, _) => {
                // The number of the lines fits a `usize` because `len`
                // returns it, and the lines of the function are more than
                // the scopes before it.
                let lines: usize = self.out.len();
                assert(lines == self@.code.len() > before.code.len());
                assert(self.scope < lines);
                self.scope = self.scope + 1;
            },
            _ => {},
        }
    }

    fn write_pop(&mut self, segment: MemorySegment, index: u32)
        requires
            old(self).well_formed(),
            segment != MemorySegment::Constant,
        ensures
            final(self).well_formed(),
            final(self)@ == old(self)@.emit(
                pop_code(addressing(segment, index as nat, old(self)@.module), index as nat),
            ),
    {
        let mode = resolve(segment, index, self.module.as_str());
        match mode {
            AddressingMode::FixedBase(base) => {
                self.pop_stack_into_segment(base, index);
            },
            AddressingMode::AbsoluteBase(base) => {
                self.load_last_stack_value();
                self.writeln(Instruction::Const(base as u64 + index as u64));
                self.writeln(set_to(Dest::M, Comp::D));
            },
            AddressingMode::Symbolic(symbol) => {
                self.load_last_stack_value();
                self.writeln(Instruction::Symbol(symbol));
                self.writeln(set_to(Dest::M, Comp::D));
            },
            AddressingMode::Immediate(_) => {
                // Only `constant` is addressed so.
            },
        }
        assert(self@.code =~= old(self)@.code + pop_code(
            addressing(segment, index as nat, old(self)@.module),
            index as nat,
        ));
    }

    fn write_push(&mut self, segment: MemorySegment, index: u32)
        requires
            old(self).well_formed(),
        ensures
            final(self).well_formed(),
            final(self)@ == old(self)@.emit(
                push_code(addressing(segment, index as nat, old(self)@.module), index as nat),
            ),
    {
        let mode = resolve(segment, index, self.module.as_str());
        match mode {
            AddressingMode::FixedBase(base) => {
                self.load_from_segment_into_d(base, index);
            },
            AddressingMode::AbsoluteBase(base) => {
                self.writeln(Instruction::Const(base as u64 + index as u64));
                self.writeln(set_to(Dest::D, Comp::M));
            },
            AddressingMode::Symbolic(symbol) => {
                self.writeln(Instruction::Symbol(symbol));
                self.writeln(set_to(Dest::D, Comp::M));
            },
            AddressingMode::Immediate(value) => {
                self.load_value_into_d(value);
            },
        }
        let ghost fetched = self@;
        assert(fetched.code =~= old(self)@.code + fetch_code(
            addressing(segment, index as nat, old(self)@.module),
            index as nat,
        ));
        self.push_d_into_stack();
        self.increase_sp();
        assert(self@.code =~= old(self)@.code + push_code(
            addressing(segment, index as nat, old(self)@.module),
            index as nat,
        ));
    }

    fn write_arithmetic(&mut self, op: ArithmeticCommand)
        requires
            old(self).well_formed(),
        ensures
            final(self).well_formed(),
            final(self)@ == (WriterState {
                code: old(self)@.code + arithmetic_code(op, old(self)@.counter),
                counter: old(self)@.counter + Cmd::Arithmetic(op).numbers_used(),
                module: old(self)@.module,
                scope: old(self)@.scope,
            }),
    {
        match op {
            ArithmeticCommand::Neg => {
                self.writeln(Instruction::Reg(Register::Sp));
                self.writeln(set_to(Dest::A, Comp::MMinusOne));
                self.writeln(set_to(Dest::M, Comp::NegM));
            },
            ArithmeticCommand::Not => {
                self.writeln(Instruction::Reg(Register::Sp));
                self.writeln(set_to(Dest::A, Comp::MMinusOne));
                self.writeln(set_to(Dest::M, Comp::NotM));
            },
            ArithmeticCommand::Add => {
                self.load_last_two_stack_values();
                self.writeln(set_to(Dest::M, Comp::DPlusM));
            },
            ArithmeticCommand::Sub => {
                self.load_last_two_stack_values();
                self.writeln(set_to(Dest::M, Comp::MMinusD));
            },
            ArithmeticCommand::And => {
                self.load_last_two_stack_values();
                self.writeln(set_to(Dest::M, Comp::DAndM));
            },
            ArithmeticCommand::Or => {
                self.load_last_two_stack_values();
                self.writeln(set_to(Dest::M, Comp::DOrM));
            },
            ArithmeticCommand::Eq => {
                self.load_last_two_stack_values();
                self.add_compare_instructions(Jump::Jeq);
            },
            ArithmeticCommand::Gt => {
                self.load_last_two_stack_values();
                self.add_compare_instructions(Jump::Jgt);
            },
            ArithmeticCommand::Lt => {
                self.load_last_two_stack_values();
                self.add_compare_instructions(Jump::Jlt);
            },
        }
        assert(self@.code =~= old(self)@.code + arithmetic_code(op, old(self)@.counter));
    }

    /// Writes the lines that end a program: a loop that never ends.
    pub fn add_final_loop(&mut self)
        requires
            old(self).well_formed(),
        ensures
            final(self).well_formed(),
            final(self)@ == old(self)@.emit(final_loop_code()),
    {
        self.write_comment("Final loop");
        self.writeln(Instruction::Label(make_halt_label()));
        self.writeln(Instruction::Symbol(make_halt_label()));
        self.writeln(branch_on(Comp::Zero, Jump::Jmp));
        assert(self@.code =~= old(self)@.code + final_loop_code());
    }

    fn increase_sp(&mut self)
        requires
            old(self).well_formed(),
        ensures
            final(self).well_formed(),
            final(self)@ == old(self)@.emit(increase_sp_code()),
    {
        self.writeln(Instruction::Reg(Register::Sp));
        self.writeln(set_to(Dest::M, Comp::MPlusOne));
        assert(self@.code =~= old(self)@.code + increase_sp_code());
    }

    fn load_value_into_d(&mut self, value: u32)
        requires
            old(self).well_formed(),
        ensures
            final(self).well_formed(),
            final(self)@ == old(self)@.emit(load_value_code(value as nat)),
    {
        self.writeln(Instruction::Const(value as u64));
        self.writeln(set_to(Dest::D, Comp::A));
        assert(self@.code =~= old(self)@.code + load_value_code(value as nat));
    }

    fn load_from_segment_into_d(&mut self, memory_segment: Register, addr: u32)
        requires
            old(self).well_formed(),
        ensures
            final(self).well_formed(),
            final(self)@ == old(self)@.emit(load_from_segment_code(memory_segment, addr as nat)),
    {
        self.writeln(Instruction::Reg(memory_segment));
        self.writeln(set_to(Dest::D, Comp::M));
        self.writeln(Instruction::Const(addr as u64));
        self.writeln(set_to(Dest::A, Comp::DPlusA));
        self.writeln(set_to(Dest::D, Comp::M));
        assert(self@.code =~= old(self)@.code + load_from_segment_code(
            memory_segment,
            addr as nat,
        ));
    }

    fn pop_stack_into_segment(&mut self, memory_segment: Register, addr: u32)
        requires
            old(self).well_formed(),
        ensures
            final(self).well_formed(),
            final(self)@ == old(self)@.emit(pop_into_segment_code(memory_segment, addr as nat)),
    {
        self.writeln(Instruction::Reg(memory_segment));
        self.writeln(set_to(Dest::D, Comp::M));
        self.writeln(Instruction::Const(addr as u64));
        self.writeln(set_to(Dest::D, Comp::DPlusA));
        self.writeln(Instruction::Reg(Register::R13));
        self.writeln(set_to(Dest::M, Comp::D));
        self.load_last_stack_value();
        self.writeln(Instruction::Reg(Register::R13));
        self.writeln(set_to(Dest::A, Comp::M));
        self.writeln(set_to(Dest::M, Comp::D));
        assert(self@.code =~= old(self)@.code + pop_into_segment_code(
            memory_segment,
            addr as nat,
        ));
    }

    fn push_d_into_stack(&mut self)
        requires
            old(self).well_formed(),
        ensures
            final(self).well_formed(),
            final(self)@ == old(self)@.emit(push_d_code()),
    {
        self.writeln(Instruction::Reg(Register::Sp));
        self.writeln(set_to(Dest::A, Comp::M));
        self.writeln(set_to(Dest::M, Comp::D));
        assert(self@.code =~= old(self)@.code + push_d_code());
    }

    fn load_last_stack_value(&mut self)
        requires
            old(self).well_formed(),
        ensures
            final(self).well_formed(),
            final(self)@ == old(self)@.emit(load_last_code()),
    {
        self.writeln(Instruction::Reg(Register::Sp));
        self.writeln(set_to(Dest::AM, Comp::MMinusOne));
        self.writeln(set_to(Dest::D, Comp::M));
        assert(self@.code =~= old(self)@.code + load_last_code());
    }

    fn load_last_two_stack_values(&mut self)
        requires
            old(self).well_formed(),
        ensures
            final(self).well_formed(),
            final(self)@ == old(self)@.emit(load_last_two_code()),
    {
        self.writeln(Instruction::Reg(Register::Sp));
        self.writeln(set_to(Dest::AM, Comp::MMinusOne));
        self.writeln(set_to(Dest::D, Comp::M));
        self.writeln(Instruction::Reg(Register::Sp));
        self.writeln(set_to(Dest::A, Comp::MMinusOne));
        assert(self@.code =~= old(self)@.code + load_last_two_code());
    }

    fn add_compare_instructions(&mut self, operation: Jump)
        requires
            old(self).well_formed(),
        ensures
            final(self).well_formed(),
            final(self)@ == (WriterState {
                code: old(self)@.code + compare_code(operation, old(self)@.counter),
                counter: old(self)@.counter + 1,
                module: old(self)@.module,
                scope: old(self)@.scope,
            }),
    {
        let n: usize = self.jump_index;
        self.writeln(set_to(Dest::D, Comp::MMinusD));
        self.writeln(Instruction::Symbol(make_true_label(n)));
        self.writeln(branch_on(Comp::D, operation));
        self.writeln(Instruction::Reg(Register::Sp));
        self.writeln(set_to(Dest::A, Comp::MMinusOne));
        self.writeln(set_to(Dest::M, Comp::Zero));
        self.writeln(Instruction::Symbol(make_end_label(n)));
        self.writeln(branch_on(Comp::Zero, Jump::Jmp));
        self.writeln(Instruction::Label(make_true_label(n)));
        self.writeln(Instruction::Reg(Register::Sp));
        self.writeln(set_to(Dest::A, Comp::MMinusOne));
        self.writeln(set_to(Dest::M, Comp::MinusOne));
        self.writeln(Instruction::Label(make_end_label(n)));
        assert(self@.code =~= old(self)@.code + compare_code(operation, n as nat));
        // The counter is below the number of lines, which fits a `usize`
        // because `len` returns it: so the counter can move on.
        let lines: usize = self.out.len();
        assert(n < lines);
        self.jump_index = n + 1;
    }

    fn push_register(&mut self, register: Register)
        requires
            old(self).well_formed(),
        ensures
            final(self).well_formed(),
            final(self)@ == old(self)@.emit(push_register_code(register)),
    {
        self.writeln(Instruction::Reg(register));
        self.writeln(set_to(Dest::D, Comp::M));
        self.push_d_into_stack();
        self.increase_sp();
        assert(self@.code =~= old(self)@.code + push_register_code(register));
    }

    fn write_function_entry(&mut self, name: &str, locals: u32)
        requires
            old(self).well_formed(),
        ensures
            final(self).well_formed(),
            final(self)@ == old(self)@.emit(function_code(name@, locals as nat)),
    {
        self.writeln(Instruction::Label(String::from_str(name)));
        let ghost zero = push_code(Addressing::Immediate(0), 0);
        let mut i: u32 = 0;
        while i < locals
            invariant
                self.well_formed(),
                i <= locals,
                zero == push_code(Addressing::Immediate(0), 0),
                self@ == old(self)@.emit(seq![Instr::Label(name@)] + repeated(zero, i as nat)),
            decreases locals - i,
        {
            let ghost before = self@;
            self.load_value_into_d(0);
            self.push_d_into_stack();
            self.increase_sp();
            assert(self@.code =~= before.code + zero);
            assert(self@.code =~= old(self)@.code + (seq![Instr::Label(name@)] + repeated(
                zero,
                (i + 1) as nat,
            )));
            i = i + 1;
        }
    }

    fn push_label(&mut self, label: String)
        requires
            old(self).well_formed(),
        ensures
            final(self).well_formed(),
            final(self)@ == old(self)@.emit(push_label_code(label@)),
    {
        self.writeln(Instruction::Symbol(label));
        self.writeln(set_to(Dest::D, Comp::A));
        self.push_d_into_stack();
        self.increase_sp();
        assert(self@.code =~= old(self)@.code + push_label_code(label@));
    }

    fn save_frame(&mut self)
        requires
            old(self).well_formed(),
        ensures
            final(self).well_formed(),
            final(self)@ == old(self)@.emit(save_frame_code()),
    {
        self.push_register(Register::Lcl);
        self.push_register(Register::Arg);
        self.push_register(Register::This);
        self.push_register(Register::That);
        proof {
            lemma_emit_four(
                old(self)@,
                push_register_code(Register::Lcl),
                push_register_code(Register::Arg),
                push_register_code(Register::This),
                push_register_code(Register::That),
            );
        }
    }

    fn reposition(&mut self, args: u32)
        requires
            old(self).well_formed(),
        ensures
            final(self).well_formed(),
            final(self)@ == old(self)@.emit(reposition_code(args as nat)),
    {
        self.writeln(Instruction::Reg(Register::Sp));
        self.writeln(set_to(Dest::D, Comp::M));
        self.writeln(Instruction::Const(args as u64 + 5));
        self.writeln(set_to(Dest::D, Comp::DMinusA));
        self.writeln(Instruction::Reg(Register::Arg));
        self.writeln(set_to(Dest::M, Comp::D));
        self.writeln(Instruction::Reg(Register::Sp));
        self.writeln(set_to(Dest::D, Comp::M));
        self.writeln(Instruction::Reg(Register::Lcl));
        self.writeln(set_to(Dest::M, Comp::D));
        assert(self@.code =~= old(self)@.code + reposition_code(args as nat));
    }

    fn enter(&mut self, name: &str, label: String)
        requires
            old(self).well_formed(),
        ensures
            final(self).well_formed(),
            final(self)@ == old(self)@.emit(enter_code(name@, label@)),
    {
        self.writeln(Instruction::Symbol(String::from_str(name)));
        self.writeln(branch_on(Comp::Zero, Jump::Jmp));
        self.writeln(Instruction::Label(label));
        assert(self@.code =~= old(self)@.code + enter_code(name@, label@));
    }

    fn write_call(&mut self, name: &str, args: u32)
        requires
            old(self).well_formed(),
        ensures
            final(self).well_formed(),
            final(self)@ == (WriterState {
                code: old(self)@.code + call_code(name@, args as nat, old(self)@.counter),
                counter: old(self)@.counter + 1,
                module: old(self)@.module,
                scope: old(self)@.scope,
            }),
    {
        let n: usize = self.jump_index;
        self.push_label(make_return_label(n));
        self.save_frame();
        self.reposition(args);
        let ghost lines_before = self.out@.len();
        self.enter(name, make_return_label(n));
        proof {
            assert(enter_code(name@, return_label(n as nat)).len() == 3);
            assert(self@.code.len() == self.out@.len());
            assert(self.out@.len() == lines_before + 3);
            lemma_emit_four(
                old(self)@,
                push_label_code(return_label(n as nat)),
                save_frame_code(),
                reposition_code(args as nat),
                enter_code(name@, return_label(n as nat)),
            );
        }
        // The counter is below the number of lines, which fits a `usize`
        // because `len` returns it: so the counter can move on.
        let lines: usize = self.out.len();
        assert(n < lines);
        self.jump_index = n + 1;
    }

    fn keep_frame(&mut self)
        requires
            old(self).well_formed(),
        ensures
            final(self).well_formed(),
            final(self)@ == old(self)@.emit(frame_code()),
    {
        self.writeln(Instruction::Reg(Register::Lcl));
        self.writeln(set_to(Dest::D, Comp::M));
        self.writeln(Instruction::Reg(Register::R13));
        self.writeln(set_to(Dest::M, Comp::D));
        self.writeln(Instruction::Const(5));
        self.writeln(set_to(Dest::A, Comp::DMinusA));
        self.writeln(set_to(Dest::D, Comp::M));
        self.writeln(Instruction::Reg(Register::R14));
        self.writeln(set_to(Dest::M, Comp::D));
        assert(self@.code =~= old(self)@.code + frame_code());
    }

    fn move_result(&mut self)
        requires
            old(self).well_formed(),
        ensures
            final(self).well_formed(),
            final(self)@ == old(self)@.emit(move_result_code()),
    {
        self.load_last_stack_value();
        self.writeln(Instruction::Reg(Register::Arg));
        self.writeln(set_to(Dest::A, Comp::M));
        self.writeln(set_to(Dest::M, Comp::D));
        self.writeln(Instruction::Reg(Register::Arg));
        self.writeln(set_to(Dest::D, Comp::MPlusOne));
        self.writeln(Instruction::Reg(Register::Sp));
        self.writeln(set_to(Dest::M, Comp::D));
        assert(self@.code =~= old(self)@.code + move_result_code());
    }

    fn restore(&mut self, register: Register)
        requires
            old(self).well_formed(),
        ensures
            final(self).well_formed(),
            final(self)@ == old(self)@.emit(restore_code(register)),
    {
        self.writeln(Instruction::Reg(Register::R13));
        self.writeln(set_to(Dest::AM, Comp::MMinusOne));
        self.writeln(set_to(Dest::D, Comp::M));
        self.writeln(Instruction::Reg(register));
        self.writeln(set_to(Dest::M, Comp::D));
        assert(self@.code =~= old(self)@.code + restore_code(register));
    }

    fn restore_frame(&mut self)
        requires
            old(self).well_formed(),
        ensures
            final(self).well_formed(),
            final(self)@ == old(self)@.emit(restore_frame_code()),
    {
        self.restore(Register::That);
        self.restore(Register::This);
        self.restore(Register::Arg);
        self.restore(Register::Lcl);
        proof {
            lemma_emit_four(
                old(self)@,
                restore_code(Register::That),
                restore_code(Register::This),
                restore_code(Register::Arg),
                restore_code(Register::Lcl),
            );
        }
    }

    fn resume(&mut self)
        requires
            old(self).well_formed(),
        ensures
            final(self).well_formed(),
            final(self)@ == old(self)@.emit(resume_code()),
    {
        self.writeln(Instruction::Reg(Register::R14));
        self.writeln(set_to(Dest::A, Comp::M));
        self.writeln(branch_on(Comp::Zero, Jump::Jmp));
        assert(self@.code =~= old(self)@.code + resume_code());
    }

    fn write_return(&mut self)
        requires
            old(self).well_formed(),
        ensures
            final(self).well_formed(),
            final(self)@ == old(self)@.emit(return_code()),
    {
        self.keep_frame();
        self.move_result();
        self.restore_frame();
        self.resume();
        proof {
            lemma_emit_four(
                old(self)@,
                frame_code(),
                move_result_code(),
                restore_frame_code(),
                resume_code(),
            );
        }
    }
}

} // verus!
