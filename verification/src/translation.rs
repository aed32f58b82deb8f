//! What each command is translated to: the instructions, as a function of
//! the command, the module it stands in and the number of the next fresh
//! label.
use crate::assembly::{Comp, Dest, Instr, Jump, Register};
use crate::error::CodeGenFailure;
use crate::labels::{end_label, function_symbol, halt_label, label_symbol, return_label, true_label};
use crate::resolver::{addressing, Addressing};
use crate::utils::{ArithmeticCommand, Cmd, MemorySegment};
use vstd::prelude::*;

verus! {

/// The instruction `dest=comp`.
pub open spec fn assign(dest: Dest, comp: Comp) -> Instr {
    Instr::Compute(dest, comp, Jump::Never)
}

/// The instruction `comp;jump`.
pub open spec fn branch(comp: Comp, jump: Jump) -> Instr {
    Instr::Compute(Dest::Null, comp, jump)
}

/// `block` repeated `count` times.
pub open spec fn repeated(block: Seq<Instr>, count: nat) -> Seq<Instr>
    decreases count,
{
    if count == 0 {
        Seq::empty()
    } else {
        repeated(block, (count - 1) as nat) + block
    }
}

/// Moves the stack pointer up by one cell.
pub open spec fn increase_sp_code() -> Seq<Instr> {
    seq![Instr::Reg(Register::Sp), assign(Dest::M, Comp::MPlusOne)]
}

/// Stores `D` in the first free cell of the stack.
pub open spec fn push_d_code() -> Seq<Instr> {
    seq![Instr::Reg(Register::Sp), assign(Dest::A, Comp::M), assign(Dest::M, Comp::D)]
}

/// Loads a number into `D`.
pub open spec fn load_value_code(value: nat) -> Seq<Instr> {
    seq![Instr::Const(value), assign(Dest::D, Comp::A)]
}

/// Loads into `D` the cell `index` cells above the address in `base`.
pub open spec fn load_from_segment_code(base: Register, index: nat) -> Seq<Instr> {
    seq![
        Instr::Reg(base),
        assign(Dest::D, Comp::M),
        Instr::Const(index),
        assign(Dest::A, Comp::DPlusA),
        assign(Dest::D, Comp::M),
    ]
}

/// Moves the stack pointer down by one cell and loads the cell it then
/// points at into `D`.
pub open spec fn load_last_code() -> Seq<Instr> {
    seq![Instr::Reg(Register::Sp), assign(Dest::AM, Comp::MMinusOne), assign(Dest::D, Comp::M)]
}

/// Takes the top cell off the stack into `D` and lets `A` address the
/// cell below it.
pub open spec fn load_last_two_code() -> Seq<Instr> {
    seq![
        Instr::Reg(Register::Sp),
        assign(Dest::AM, Comp::MMinusOne),
        assign(Dest::D, Comp::M),
        Instr::Reg(Register::Sp),
        assign(Dest::A, Comp::MMinusOne),
    ]
}

/// Takes the top cell off the stack and stores it `index` cells above the
/// address in `base`. The target address is kept in `R13` meanwhile.
pub open spec fn pop_into_segment_code(base: Register, index: nat) -> Seq<Instr> {
    seq![
        Instr::Reg(base),
        assign(Dest::D, Comp::M),
        Instr::Const(index),
        assign(Dest::D, Comp::DPlusA),
        Instr::Reg(Register::R13),
        assign(Dest::M, Comp::D),
    ] + load_last_code() + seq![
        Instr::Reg(Register::R13),
        assign(Dest::A, Comp::M),
        assign(Dest::M, Comp::D),
    ]
}

/// With the first operand addressed by `A` and the second in `D`:
/// subtracts, and overwrites the first operand with all ones if the
/// difference meets `jump`, with zero if not. Defines the two labels of
/// number `n`.
pub open spec fn compare_code(jump: Jump, n: nat) -> Seq<Instr> {
    seq![
        assign(Dest::D, Comp::MMinusD),
        Instr::Symbol(true_label(n)),
        branch(Comp::D, jump),
        Instr::Reg(Register::Sp),
        assign(Dest::A, Comp::MMinusOne),
        assign(Dest::M, Comp::Zero),
        Instr::Symbol(end_label(n)),
        branch(Comp::Zero, Jump::Jmp),
        Instr::Label(true_label(n)),
        Instr::Reg(Register::Sp),
        assign(Dest::A, Comp::MMinusOne),
        assign(Dest::M, Comp::MinusOne),
        Instr::Label(end_label(n)),
    ]
}

/// Loads into `D` what a push from the addressed cell puts on the stack.
pub open spec fn fetch_code(mode: Addressing, index: nat) -> Seq<Instr> {
    match mode {
        Addressing::FixedBase(base) => load_from_segment_code(base, index),
        Addressing::AbsoluteBase(base) => seq![
            Instr::Const(base + index),
            assign(Dest::D, Comp::M),
        ],
        Addressing::Symbolic(symbol) => seq![Instr::Symbol(symbol), assign(Dest::D, Comp::M)],
        Addressing::Immediate(value) => load_value_code(value),
    }
}

/// Pushes the addressed cell, or the immediate value.
pub open spec fn push_code(mode: Addressing, index: nat) -> Seq<Instr> {
    fetch_code(mode, index) + push_d_code() + increase_sp_code()
}

/// Pops the top of the stack into the addressed cell. There is no such
/// code for an immediate value.
pub open spec fn pop_code(mode: Addressing, index: nat) -> Seq<Instr> {
    match mode {
        Addressing::FixedBase(base) => pop_into_segment_code(base, index),
        Addressing::AbsoluteBase(base) => load_last_code() + seq![
            Instr::Const(base + index),
            assign(Dest::M, Comp::D),
        ],
        Addressing::Symbolic(symbol) => load_last_code() + seq![
            Instr::Symbol(symbol),
            assign(Dest::M, Comp::D),
        ],
        Addressing::Immediate(_) => Seq::empty(),
    }
}

/// What a binary operation other than a comparison computes, with the
/// first operand in `M` and the second in `D`.
pub open spec fn binary_comp(op: ArithmeticCommand) -> Comp {
    match op {
        ArithmeticCommand::Add => Comp::DPlusM,
        ArithmeticCommand::Sub => Comp::MMinusD,
        ArithmeticCommand::And => Comp::DAndM,
        _ => Comp::DOrM,
    }
}

/// The condition on the difference of the operands under which a
/// comparison holds.
pub open spec fn comparison_jump(op: ArithmeticCommand) -> Jump {
    match op {
        ArithmeticCommand::Eq => Jump::Jeq,
        ArithmeticCommand::Gt => Jump::Jgt,
        _ => Jump::Jlt,
    }
}

/// What a unary operation computes from the operand in `M`.
pub open spec fn unary_comp(op: ArithmeticCommand) -> Comp {
    match op {
        ArithmeticCommand::Neg => Comp::NegM,
        _ => Comp::NotM,
    }
}

/// The code of an arithmetic command; a comparison uses label number `n`.
pub open spec fn arithmetic_code(op: ArithmeticCommand, n: nat) -> Seq<Instr> {
    if op.is_unary() {
        seq![
            Instr::Reg(Register::Sp),
            assign(Dest::A, Comp::MMinusOne),
            assign(Dest::M, unary_comp(op)),
        ]
    } else if op.is_comparison() {
        load_last_two_code() + compare_code(comparison_jump(op), n)
    } else {
        load_last_two_code() + seq![assign(Dest::M, binary_comp(op))]
    }
}

/// Pushes the value of a register.
pub open spec fn push_register_code(register: Register) -> Seq<Instr> {
    seq![Instr::Reg(register), assign(Dest::D, Comp::M)] + push_d_code() + increase_sp_code()
}

/// The entry of a function: its label, then one zero pushed for each
/// local variable.
pub open spec fn function_code(name: Seq<char>, locals: nat) -> Seq<Instr> {
    seq![Instr::Label(name)] + repeated(push_code(Addressing::Immediate(0), 0), locals)
}

/// Pushes the address that a label stands for.
pub open spec fn push_label_code(label: Seq<char>) -> Seq<Instr> {
    seq![Instr::Symbol(label), assign(Dest::D, Comp::A)] + push_d_code() + increase_sp_code()
}

/// Pushes the caller's four segment bases: `LCL`, `ARG`, `THIS`, `THAT`.
pub open spec fn save_frame_code() -> Seq<Instr> {
    push_register_code(Register::Lcl) + push_register_code(Register::Arg) + push_register_code(
        Register::This,
    ) + push_register_code(Register::That)
}

/// Sets `ARG` to the stack pointer less the arguments and the five saved
/// cells, and `LCL` to the stack pointer.
pub open spec fn reposition_code(args: nat) -> Seq<Instr> {
    seq![
        Instr::Reg(Register::Sp),
        assign(Dest::D, Comp::M),
        Instr::Const(args + 5),
        assign(Dest::D, Comp::DMinusA),
        Instr::Reg(Register::Arg),
        assign(Dest::M, Comp::D),
        Instr::Reg(Register::Sp),
        assign(Dest::D, Comp::M),
        Instr::Reg(Register::Lcl),
        assign(Dest::M, Comp::D),
    ]
}

/// Jumps to a function and defines the label at which its caller is
/// resumed.
pub open spec fn enter_code(name: Seq<char>, label: Seq<char>) -> Seq<Instr> {
    seq![Instr::Symbol(name), branch(Comp::Zero, Jump::Jmp), Instr::Label(label)]
}

/// A call: saves the return address and the caller's four segment bases
/// on the stack, sets `ARG` below the arguments and the saved frame and
/// `LCL` to the stack pointer, jumps to the function, and defines the
/// return label of number `n` behind the jump.
pub open spec fn call_code(name: Seq<char>, args: nat, n: nat) -> Seq<Instr> {
    push_label_code(return_label(n)) + save_frame_code() + reposition_code(args) + enter_code(
        name,
        return_label(n),
    )
}

/// Keeps the frame address, which `LCL` holds, in `R13`, and the return
/// address, five cells below it, in `R14`.
pub open spec fn frame_code() -> Seq<Instr> {
    seq![
        Instr::Reg(Register::Lcl),
        assign(Dest::D, Comp::M),
        Instr::Reg(Register::R13),
        assign(Dest::M, Comp::D),
        Instr::Const(5),
        assign(Dest::A, Comp::DMinusA),
        assign(Dest::D, Comp::M),
        Instr::Reg(Register::R14),
        assign(Dest::M, Comp::D),
    ]
}

/// Moves the top of the stack to the cell that `ARG` points at and sets
/// the stack pointer just above that cell.
pub open spec fn move_result_code() -> Seq<Instr> {
    load_last_code() + seq![
        Instr::Reg(Register::Arg),
        assign(Dest::A, Comp::M),
        assign(Dest::M, Comp::D),
        Instr::Reg(Register::Arg),
        assign(Dest::D, Comp::MPlusOne),
        Instr::Reg(Register::Sp),
        assign(Dest::M, Comp::D),
    ]
}

/// Restores one segment base from the cell below the one that `R13`
/// points at, and moves `R13` down to it.
pub open spec fn restore_code(register: Register) -> Seq<Instr> {
    seq![
        Instr::Reg(Register::R13),
        assign(Dest::AM, Comp::MMinusOne),
        assign(Dest::D, Comp::M),
        Instr::Reg(register),
        assign(Dest::M, Comp::D),
    ]
}

/// Restores `THAT`, `THIS`, `ARG` and `LCL`, in this order, from the four
/// cells below the frame address.
pub open spec fn restore_frame_code() -> Seq<Instr> {
    restore_code(Register::That) + restore_code(Register::This) + restore_code(Register::Arg)
        + restore_code(Register::Lcl)
}

/// Jumps to the address kept in `R14`.
pub open spec fn resume_code() -> Seq<Instr> {
    seq![Instr::Reg(Register::R14), assign(Dest::A, Comp::M), branch(Comp::Zero, Jump::Jmp)]
}

/// A return: keeps the frame address and the return address, hands the
/// top of the stack to the caller in place of its arguments, restores
/// the caller's segment bases, and jumps to the return address.
pub open spec fn return_code() -> Seq<Instr> {
    frame_code() + move_result_code() + restore_frame_code() + resume_code()
}

/// How many cells a segment with a fixed window has: `pointer` has two
/// and `temp` has eight. The other segments have no such bound.
pub open spec fn window(segment: MemorySegment) -> Option<nat> {
    match segment {
        MemorySegment::Pointer => Some(2),
        MemorySegment::Temp => Some(8),
        _ => None,
    }
}

/// Why an index lies outside its segment, if it does.
pub open spec fn out_of_range(segment: MemorySegment, index: nat) -> Option<CodeGenFailure> {
    if window(segment) is Some && index >= window(segment)->Some_0 {
        Some(CodeGenFailure::IndexOutOfRange(segment, index))
    } else {
        None
    }
}

/// Why the generator refuses a command, if it does: a pop into the
/// `constant` segment, or a `pointer` or `temp` index outside the
/// segment. It refuses no command for the names in it.
pub open spec fn rejection(command: Cmd) -> Option<CodeGenFailure> {
    match command {
        Cmd::Pop(segment, index) => if segment == MemorySegment::Constant {
            Some(CodeGenFailure::PopConstant(index))
        } else {
            out_of_range(segment, index)
        },
        Cmd::Push(segment, index) => out_of_range(segment, index),
        _ => None,
    }
}

/// A command as it is written into the program: with the mark of its
/// family on each label. The label of a `label` command, and the label
/// that a `goto` or an `if-goto` jumps to, is the label of that name in
/// the module and in the scope at hand; the label of a function, and the
/// label that a call jumps to, is the label of the function.
pub open spec fn marked(command: Cmd, module: Seq<char>, scope: nat) -> Cmd {
    match command {
        Cmd::Label(name) => Cmd::Label(label_symbol(module, name, scope)),
        Cmd::GoTo(name) => Cmd::GoTo(label_symbol(module, name, scope)),
        Cmd::IfGoTo(name) => Cmd::IfGoTo(label_symbol(module, name, scope)),
        Cmd::Function(name, locals) => Cmd::Function(function_symbol(name), locals),
        Cmd::Call(name, args) => Cmd::Call(function_symbol(name), args),
        _ => command,
    }
}

/// Whether a command can be translated: the generator does not refuse
/// it.
pub open spec fn translatable(command: Cmd) -> bool {
    rejection(command) is None
}

/// The instructions that do the work of a command, with the symbols in
/// it written as the command names them.
pub open spec fn command_body(command: Cmd, module: Seq<char>, n: nat) -> Seq<Instr> {
    match command {
        Cmd::Push(segment, index) => push_code(addressing(segment, index, module), index),
        Cmd::Pop(segment, index) => pop_code(addressing(segment, index, module), index),
        Cmd::Arithmetic(op) => arithmetic_code(op, n),
        Cmd::Label(name) => seq![Instr::Label(name)],
        Cmd::GoTo(name) => seq![Instr::Symbol(name), branch(Comp::Zero, Jump::Jmp)],
        Cmd::IfGoTo(name) => load_last_code() + seq![
            Instr::Symbol(name),
            branch(Comp::D, Jump::Jne),
        ],
        Cmd::Function(name, locals) => function_code(name, locals),
        Cmd::Call(name, args) => call_code(name, args, n),
        Cmd::Return => return_code(),
    }
}

/// The lines of a translatable command in `module` when `n` is the
/// number of the next fresh label: its instructions and an empty line.
/// The generator writes these lines of the command with its marks on,
/// [`marked`].
pub open spec fn command_code(command: Cmd, module: Seq<char>, n: nat) -> Seq<Instr> {
    command_body(command, module, n).push(Instr::Blank)
}

/// The lines that start a program: they set the stack pointer to 256,
/// the first address above the registers and the static variables.
pub open spec fn bootstrap_code() -> Seq<Instr> {
    seq![
        Instr::Comment("Initialize stack pointer"@),
        Instr::Const(256),
        assign(Dest::D, Comp::A),
        Instr::Reg(Register::Sp),
        assign(Dest::M, Comp::D),
        Instr::Blank,
    ]
}

/// The lines that end a program: a loop that jumps to itself for ever.
pub open spec fn final_loop_code() -> Seq<Instr> {
    seq![
        Instr::Comment("Final loop"@),
        Instr::Label(halt_label()),
        Instr::Symbol(halt_label()),
        branch(Comp::Zero, Jump::Jmp),
    ]
}

} // verus!
