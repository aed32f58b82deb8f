//! The assembly language of the target machine: its instructions and the
//! text that each is written as.
use crate::decimal::{decimal, to_decimal};
use vstd::prelude::*;
use vstd::string::*;

verus! {

/// The memory cells with a fixed name that generated code refers to.
#[derive(Debug, Clone, Copy, PartialEq, Eq, Structural)]
pub enum Register {
    Sp,
    Lcl,
    Arg,
    This,
    That,
    R13,
    R14,
}

/// Where a computed value is stored.
#[derive(Debug, Clone, Copy, PartialEq, Eq, Structural)]
pub enum Dest {
    Null,
    M,
    D,
    MD,
    A,
    AM,
    AD,
    AMD,
}

/// What a compute instruction computes from `A`, `D` and `M`, the memory
/// cell that `A` addresses.
#[derive(Debug, Clone, Copy, PartialEq, Eq, Structural)]
pub enum Comp {
    Zero,
    One,
    MinusOne,
    D,
    A,
    M,
    NotD,
    NotA,
    NotM,
    NegD,
    NegA,
    NegM,
    DPlusOne,
    APlusOne,
    MPlusOne,
    DMinusOne,
    AMinusOne,
    MMinusOne,
    DPlusA,
    DPlusM,
    DMinusA,
    DMinusM,
    AMinusD,
    MMinusD,
    DAndA,
    DAndM,
    DOrA,
    DOrM,
}

/// When a compute instruction jumps to the address in `A`, by the sign of
/// the computed value.
#[derive(Debug, Clone, Copy, PartialEq, Eq, Structural)]
pub enum Jump {
    Never,
    Jgt,
    Jeq,
    Jge,
    Jlt,
    Jne,
    Jle,
    Jmp,
}

/// One line of an assembly program.
#[derive(Debug, PartialEq, Eq)]
pub enum Instruction {
    /// `// text`
    Comment(String),
    /// An empty line.
    Blank,
    /// `(name)`: gives the address of the next instruction a name.
    Label(String),
    /// `@17`: loads a number into `A`.
    Const(u64),
    /// `@SP`: loads the address of a named cell into `A`.
    Reg(Register),
    /// `@name`: loads the address that a symbol stands for into `A`.
    Symbol(String),
    /// `dest=comp;jump`
    Compute(Dest, Comp, Jump),
}

/// The mathematical model of an [`Instruction`].
pub enum Instr {
    Comment(Seq<char>),
    Blank,
    Label(Seq<char>),
    Const(nat),
    Reg(Register),
    Symbol(Seq<char>),
    Compute(Dest, Comp, Jump),
}

impl View for Instruction {
    type V = Instr;

    open spec fn view(&self) -> Instr {
        match self {
            Instruction::Comment(text) => Instr::Comment(text@),
            Instruction::Blank => Instr::Blank,
            Instruction::Label(name) => Instr::Label(name@),
            Instruction::Const(value) => Instr::Const(*value as nat),
            Instruction::Reg(register) => Instr::Reg(*register),
            Instruction::Symbol(name) => Instr::Symbol(name@),
            Instruction::Compute(dest, comp, jump) => Instr::Compute(*dest, *comp, *jump),
        }
    }
}

/// The model of a list of instructions.
pub open spec fn code_view(code: Seq<Instruction>) -> Seq<Instr> {
    code.map_values(|i: Instruction| i@)
}

pub proof fn lemma_code_view_push(code: Seq<Instruction>, i: Instruction)
    ensures
        code_view(code.push(i)) == code_view(code).push(i@),
{
    assert(code_view(code.push(i)) =~= code_view(code).push(i@));
}

pub open spec fn register_name(r: Register) -> Seq<char> {
    match r {
        Register::Sp => seq!['S', 'P'],
        Register::Lcl => seq!['L', 'C', 'L'],
        Register::Arg => seq!['A', 'R', 'G'],
        Register::This => seq!['T', 'H', 'I', 'S'],
        Register::That => seq!['T', 'H', 'A', 'T'],
        Register::R13 => seq!['R', '1', '3'],
        Register::R14 => seq!['R', '1', '4'],
    }
}

pub open spec fn dest_text(d: Dest) -> Seq<char> {
    match d {
        Dest::Null => Seq::empty(),
        Dest::M => seq!['M', '='],
        Dest::D => seq!['D', '='],
        Dest::MD => seq!['M', 'D', '='],
        Dest::A => seq!['A', '='],
        Dest::AM => seq!['A', 'M', '='],
        Dest::AD => seq!['A', 'D', '='],
        Dest::AMD => seq!['A', 'M', 'D', '='],
    }
}

pub open spec fn comp_text(c: Comp) -> Seq<char> {
    match c {
        Comp::Zero => seq!['0'],
        Comp::One => seq!['1'],
        Comp::MinusOne => seq!['-', '1'],
        Comp::D => seq!['D'],
        Comp::A => seq!['A'],
        Comp::M => seq!['M'],
        Comp::NotD => seq!['!', 'D'],
        Comp::NotA => seq!['!', 'A'],
        Comp::NotM => seq!['!', 'M'],
        Comp::NegD => seq!['-', 'D'],
        Comp::NegA => seq!['-', 'A'],
        Comp::NegM => seq!['-', 'M'],
        Comp::DPlusOne => seq!['D', '+', '1'],
        Comp::APlusOne => seq!['A', '+', '1'],
        Comp::MPlusOne => seq!['M', '+', '1'],
        Comp::DMinusOne => seq!['D', '-', '1'],
        Comp::AMinusOne => seq!['A', '-', '1'],
        Comp::MMinusOne => seq!['M', '-', '1'],
        Comp::DPlusA => seq!['D', '+', 'A'],
        Comp::DPlusM => seq!['D', '+', 'M'],
        Comp::DMinusA => seq!['D', '-', 'A'],
        Comp::DMinusM => seq!['D', '-', 'M'],
        Comp::AMinusD => seq!['A', '-', 'D'],
        Comp::MMinusD => seq!['M', '-', 'D'],
        Comp::DAndA => seq!['D', '&', 'A'],
        Comp::DAndM => seq!['D', '&', 'M'],
        Comp::DOrA => seq!['D', '|', 'A'],
        Comp::DOrM => seq!['D', '|', 'M'],
    }
}

pub open spec fn jump_text(j: Jump) -> Seq<char> {
    match j {
        Jump::Never => Seq::empty(),
        Jump::Jgt => seq![';', 'J', 'G', 'T'],
        Jump::Jeq => seq![';', 'J', 'E', 'Q'],
        Jump::Jge => seq![';', 'J', 'G', 'E'],
        Jump::Jlt => seq![';', 'J', 'L', 'T'],
        Jump::Jne => seq![';', 'J', 'N', 'E'],
        Jump::Jle => seq![';', 'J', 'L', 'E'],
        Jump::Jmp => seq![';', 'J', 'M', 'P'],
    }
}

/// The text of one line, without its line end.
pub open spec fn render(i: Instr) -> Seq<char> {
    match i {
        Instr::Comment(text) => seq!['/', '/', ' '] + text,
        Instr::Blank => Seq::empty(),
        Instr::Label(name) => seq!['('] + name + seq![')'],
        Instr::Const(value) => seq!['@'] + decimal(value),
        Instr::Reg(register) => seq!['@'] + register_name(register),
        Instr::Symbol(name) => seq!['@'] + name,
        Instr::Compute(dest, comp, jump) => dest_text(dest) + comp_text(comp) + jump_text(jump),
    }
}

/// The text of a program: each line followed by a line feed.
pub open spec fn render_all(code: Seq<Instr>) -> Seq<char>
    decreases code.len(),
{
    if code.len() == 0 {
        Seq::empty()
    } else {
        render_all(code.drop_last()) + render(code.last()) + seq!['\n']
    }
}

fn register_str(r: Register) -> (s: &'static str)
    ensures
        s@ =~= register_name(r),
{
    proof {
        reveal_strlit("SP");
        reveal_strlit("LCL");
        reveal_strlit("ARG");
        reveal_strlit("THIS");
        reveal_strlit("THAT");
        reveal_strlit("R13");
        reveal_strlit("R14");
    }
    match r {
        Register::Sp => "SP",
        Register::Lcl => "LCL",
        Register::Arg => "ARG",
        Register::This => "THIS",
        Register::That => "THAT",
        Register::R13 => "R13",
        Register::R14 => "R14",
    }
}

fn dest_str(d: Dest) -> (s: &'static str)
    ensures
        s@ =~= dest_text(d),
{
    proof {
        reveal_strlit("");
        reveal_strlit("M=");
        reveal_strlit("D=");
        reveal_strlit("MD=");
        reveal_strlit("A=");
        reveal_strlit("AM=");
        reveal_strlit("AD=");
        reveal_strlit("AMD=");
    }
    match d {
        Dest::Null => "",
        Dest::M => "M=",
        Dest::D => "D=",
        Dest::MD => "MD=",
        Dest::A => "A=",
        Dest::AM => "AM=",
        Dest::AD => "AD=",
        Dest::AMD => "AMD=",
    }
}

fn comp_str(c: Comp) -> (s: &'static str)
    ensures
        s@ =~= comp_text(c),
{
    proof {
        reveal_strlit("0");
        reveal_strlit("1");
        reveal_strlit("-1");
        reveal_strlit("D");
        reveal_strlit("A");
        reveal_strlit("M");
        reveal_strlit("!D");
        reveal_strlit("!A");
        reveal_strlit("!M");
        reveal_strlit("-D");
        reveal_strlit("-A");
        reveal_strlit("-M");
        reveal_strlit("D+1");
        reveal_strlit("A+1");
        reveal_strlit("M+1");
        reveal_strlit("D-1");
        reveal_strlit("A-1");
        reveal_strlit("M-1");
        reveal_strlit("D+A");
        reveal_strlit("D+M");
        reveal_strlit("D-A");
        reveal_strlit("D-M");
        reveal_strlit("A-D");
        reveal_strlit("M-D");
        reveal_strlit("D&A");
        reveal_strlit("D&M");
        reveal_strlit("D|A");
        reveal_strlit("D|M");
    }
    match c {
        Comp::Zero => "0",
        Comp::One => "1",
        Comp::MinusOne => "-1",
        Comp::D => "D",
        Comp::A => "A",
        Comp::M => "M",
        Comp::NotD => "!D",
        Comp::NotA => "!A",
        Comp::NotM => "!M",
        Comp::NegD => "-D",
        Comp::NegA => "-A",
        Comp::NegM => "-M",
        Comp::DPlusOne => "D+1",
        Comp::APlusOne => "A+1",
        Comp::MPlusOne => "M+1",
        Comp::DMinusOne => "D-1",
        Comp::AMinusOne => "A-1",
        Comp::MMinusOne => "M-1",
        Comp::DPlusA => "D+A",
        Comp::DPlusM => "D+M",
        Comp::DMinusA => "D-A",
        Comp::DMinusM => "D-M",
        Comp::AMinusD => "A-D",
        Comp::MMinusD => "M-D",
        Comp::DAndA => "D&A",
        Comp::DAndM => "D&M",
        Comp::DOrA => "D|A",
        Comp::DOrM => "D|M",
    }
}

fn jump_str(j: Jump) -> (s: &'static str)
    ensures
        s@ =~= jump_text(j),
{
    proof {
        reveal_strlit("");
        reveal_strlit(";JGT");
        reveal_strlit(";JEQ");
        reveal_strlit(";JGE");
        reveal_strlit(";JLT");
        reveal_strlit(";JNE");
        reveal_strlit(";JLE");
        reveal_strlit(";JMP");
    }
    match j {
        Jump::Never => "",
        Jump::Jgt => ";JGT",
        Jump::Jeq => ";JEQ",
        Jump::Jge => ";JGE",
        Jump::Jlt => ";JLT",
        Jump::Jne => ";JNE",
        Jump::Jle => ";JLE",
        Jump::Jmp => ";JMP",
    }
}

impl Instruction {
    /// Writes the instruction as one line of assembly text, without its
    /// line end.
    pub fn render(&self) -> (text: String)
        ensures
            text@ == render(self@),
    {
        proof {
            reveal_strlit("// ");
            reveal_strlit("");
            reveal_strlit("(");
            reveal_strlit(")");
            reveal_strlit("@");
            assert("// "@ =~= seq!['/', '/', ' ']);
            assert(""@ =~= Seq::<char>::empty());
            assert("("@ =~= seq!['(']);
            assert(")"@ =~= seq![')']);
            assert("@"@ =~= seq!['@']);
        }
        match self {
            Instruction::Comment(comment) => {
                let mut text = String::from_str("// ");
                text.append(comment.as_str());
                text
            },
            Instruction::Blank => String::from_str(""),
            Instruction::Label(name) => {
                let mut text = String::from_str("(");
                text.append(name.as_str());
                text.append(")");
                text
            },
            Instruction::Const(value) => {
                let mut text = String::from_str("@");
                let number = to_decimal(*value);
                text.append(number.as_str());
                text
            },
            Instruction::Reg(register) => {
                let mut text = String::from_str("@");
                text.append(register_str(*register));
                text
            },
            Instruction::Symbol(name) => {
                let mut text = String::from_str("@");
                text.append(name.as_str());
                text
            },
            Instruction::Compute(dest, comp, jump) => {
                let mut text = String::from_str(dest_str(*dest));
                text.append(comp_str(*comp));
                text.append(jump_str(*jump));
                text
            },
        }
    }
}

/// Writes a program as text lines, one per instruction.
pub fn render_lines(code: &Vec<Instruction>) -> (lines: Vec<String>)
    ensures
        lines@.len() == code@.len(),
        forall|i: int| 0 <= i < code@.len() ==> (#[trigger] lines@[i])@ == render(code@[i]@),
{
    let mut lines: Vec<String> = Vec::new();
    let mut i: usize = 0;
    while i < code.len()
        invariant
            i <= code@.len(),
            lines@.len() == i,
            forall|k: int| 0 <= k < i ==> (#[trigger] lines@[k])@ == render(code@[k]@),
        decreases code@.len() - i,
    {
        lines.push(code[i].render());
        i = i + 1;
    }
    lines
}

/// Writes a program as one text, each line ended by a line feed.
pub fn render_text(code: &Vec<Instruction>) -> (text: String)
    ensures
        text@ == render_all(code_view(code@)),
{
    let mut text = String::new();
    let mut i: usize = 0;
    while i < code.len()
        invariant
            i <= code@.len(),
            text@ == render_all(code_view(code@.take(i as int))),
        decreases code@.len() - i,
    {
        let line = code[i].render();
        text.append(line.as_str());
        text.append("\n");
        proof {
            reveal_strlit("\n");
            let before = code_view(code@.take(i as int));
            let after = code_view(code@.take(i + 1));
            assert(after.drop_last() =~= before);
            assert(after.last() == code@[i as int]@);
            assert("\n"@ =~= seq!['\n']);
        }
        i = i + 1;
    }
    assert(code@.take(i as int) =~= code@);
    text
}

} // verus!
