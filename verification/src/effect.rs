//! What the code of each command does when the machine runs it: how far
//! it moves the stack pointer, and what it leaves on the stack.
use crate::assembly::{Comp, Instr, Jump, Register};
use crate::driver::listing;
use crate::labels::{
    end_label, function_symbol, lemma_static_symbol_injective, return_label, static_symbol,
    true_label,
};
use crate::machine::{
    cell, execute, instructions_between, is_instruction, lemma_all_instructions, lemma_fetch,
    lemma_holds_parts, lemma_instructions_between_split, lemma_instructions_of_block,
    lemma_one_line, lemma_run_split, register_address, run, signed, step, word_and, word_or,
    wrap, Machine, Program,
};
use crate::resolver::{addressing, Addressing};
use crate::translation::{
    arithmetic_code, branch, call_code, command_body, command_code, enter_code, frame_code,
    function_code, increase_sp_code, load_last_code, move_result_code, pop_code, push_code,
    push_d_code, push_label_code, push_register_code, repeated, reposition_code, restore_code,
    restore_frame_code, resume_code, return_code, save_frame_code,
};
use crate::utils::{ArithmeticCommand, Cmd, MemorySegment};
use vstd::prelude::*;

verus! {

/// Whether a line never jumps.
pub open spec fn falls_through(line: Instr) -> bool {
    match line {
        Instr::Compute(_, _, jump) => jump == Jump::Never,
        _ => true,
    }
}

/// The machine after the lines of `block` from index `from` up to index
/// `to` have run one after the other.
pub open spec fn run_lines(p: Program, m: Machine, block: Seq<Instr>, from: int, to: int) -> Machine
    decreases to - from,
{
    if from >= to || from < 0 || to > block.len() {
        m
    } else {
        run_lines(p, execute(p, m, block[from]), block, from + 1, to)
    }
}

/// Where a block stands in the program and the machine is at its line
/// `from`, and no line before line `to - 1` jumps, the machine runs the
/// lines `from` up to `to` one after the other, in as many steps as
/// there are instructions among them, and comes out behind them unless
/// the last line jumps.
pub proof fn lemma_run_lines(
    p: Program,
    m: Machine,
    at: int,
    block: Seq<Instr>,
    from: int,
    to: int,
)
    requires
        p.holds(at, block),
        0 <= from <= to <= block.len(),
        m.pc == p.address(at + from),
        forall|i: int| from <= i < to - 1 ==> falls_through(#[trigger] block[i]),
    ensures
        instructions_between(block, from, to) >= 0,
        run(p, m, instructions_between(block, from, to) as nat) == run_lines(
            p,
            m,
            block,
            from,
            to,
        ),
        to == from || falls_through(block[to - 1]) ==> run_lines(p, m, block, from, to).pc
            == p.address(at + to),
    decreases to - from,
{
    lemma_instructions_between_split(block, from, to, to);
    if from < to {
        let line = block[from];
        assert(p.code[at + from] == line);
        lemma_instructions_between_split(p.code, 0, at + from, at + from + 1);
        if is_instruction(line) {
            lemma_fetch(p.code, at + from);
            let next = execute(p, m, line);
            assert(step(p, m) == next);
            lemma_one_line(p.code, at + from);
            if from < to - 1 {
                assert(falls_through(block[from]));
            }
            if from < to - 1 || falls_through(line) {
                lemma_run_lines(p, next, at, block, from + 1, to);
            } else {
                assert(run_lines(p, next, block, from + 1, to) == next);
                assert(instructions_between(block, from + 1, to) == 0);
                assert(run(p, next, 0) == next);
            }
            lemma_instructions_between_split(block, from + 1, to, to);
            assert(run(p, m, (1 + instructions_between(block, from + 1, to)) as nat) == run(
                p,
                next,
                instructions_between(block, from + 1, to) as nat,
            ));
        } else {
            lemma_one_line(p.code, at + from);
            lemma_run_lines(p, m, at, block, from + 1, to);
        }
    }
}

/// Where the lines `from` up to `to` of a block are all instructions,
/// the machine runs them in as many steps as there are lines.
pub proof fn lemma_run_block(
    p: Program,
    m: Machine,
    at: int,
    block: Seq<Instr>,
    from: int,
    to: int,
)
    requires
        p.holds(at, block),
        0 <= from <= to <= block.len(),
        m.pc == p.address(at + from),
        forall|i: int| from <= i < to ==> is_instruction(#[trigger] block[i]),
        forall|i: int| from <= i < to - 1 ==> falls_through(#[trigger] block[i]),
    ensures
        run(p, m, (to - from) as nat) == run_lines(p, m, block, from, to),
        p.address(at + to) == m.pc + (to - from),
        to == from || falls_through(block[to - 1]) ==> run_lines(p, m, block, from, to).pc
            == m.pc + (to - from),
{
    lemma_run_lines(p, m, at, block, from, to);
    lemma_all_instructions(block, from, to);
    lemma_instructions_of_block(p.code, at, block, from, to);
    lemma_instructions_between_split(p.code, 0, at + from, at + to);
}

/// A line that is no instruction takes no room: the address behind it
/// is the address before it.
pub proof fn lemma_no_room(p: Program, at: int)
    requires
        0 <= at < p.code.len(),
        !is_instruction(p.code[at]),
    ensures
        p.address(at + 1) == p.address(at),
{
    lemma_instructions_between_split(p.code, 0, at, at + 1);
    lemma_one_line(p.code, at);
}

/// The address of the cell that a push reads and a pop writes.
pub open spec fn effective_address(p: Program, m: Machine, mode: Addressing, index: nat) -> int {
    match mode {
        Addressing::FixedBase(base) => cell(wrap(m.register(base) + index)),
        Addressing::AbsoluteBase(base) => (base + index) as int,
        Addressing::Symbolic(symbol) => p.symbols[symbol],
        Addressing::Immediate(_) => 0,
    }
}

/// The value that a push puts on the stack.
pub open spec fn pushed_value(p: Program, m: Machine, mode: Addressing, index: nat) -> int {
    match mode {
        Addressing::Immediate(value) => value as int,
        _ => m.ram[effective_address(p, m, mode, index)],
    }
}

/// Whether the numbers that the code of a push or a pop loads into `A`
/// are numbers of 15 bits.
pub open spec fn loadable(mode: Addressing, index: nat) -> bool {
    match mode {
        Addressing::FixedBase(_) => index < 0x8000,
        Addressing::AbsoluteBase(base) => base + index < 0x8000,
        Addressing::Symbolic(_) => true,
        Addressing::Immediate(value) => value < 0x8000,
    }
}

/// The first lines of the code of a push load the value into `D`.
proof fn lemma_fetch_through_base(p: Program, m: Machine, at: int, base: Register, index: nat)
    requires
        p.holds(at, push_code(Addressing::FixedBase(base), index)),
        m.pc == p.address(at),
        m.well_formed(),
        index < 0x8000,
    ensures
        ({
            let after = run(p, m, 5);
            &&& after.well_formed()
            &&& after.pc == m.pc + 5
            &&& after.ram == m.ram
            &&& after.d == m.ram[cell(wrap(m.register(base) + index))]
        }),
{
    let code = push_code(Addressing::FixedBase(base), index);
    reveal_with_fuel(run_lines, 6);
    lemma_run_block(p, m, at, code, 0, 5);
}

proof fn lemma_fetch_directly(p: Program, m: Machine, at: int, mode: Addressing, index: nat)
    requires
        !(mode is FixedBase),
        p.well_formed(),
        p.holds(at, push_code(mode, index)),
        m.pc == p.address(at),
        m.well_formed(),
        loadable(mode, index),
    ensures
        ({
            let after = run(p, m, 2);
            &&& after.well_formed()
            &&& after.pc == m.pc + 2
            &&& after.ram == m.ram
            &&& after.d == pushed_value(p, m, mode, index)
        }),
{
    let code = push_code(mode, index);
    reveal_with_fuel(run_lines, 3);
    lemma_run_block(p, m, at, code, 0, 2);
}

/// The last five lines of the code of a push store `D` in the first
/// free cell of the stack and move the stack pointer up by one.
proof fn lemma_push_d(p: Program, m: Machine, at: int, code: Seq<Instr>, from: int)
    requires
        p.holds(at, code),
        0 <= from,
        from + 5 == code.len(),
        code.subrange(from, from + 5) == push_d_code() + increase_sp_code(),
        m.pc == p.address(at + from),
        m.well_formed(),
        m.stack_ok(0, 1),
    ensures
        ({
            let after = run(p, m, 5);
            &&& after.well_formed()
            &&& after.pc == m.pc + 5
            &&& after.pc == p.address(at + code.len())
            &&& after.ram == m.ram.insert(m.sp(), m.d).insert(0, m.sp() + 1)
        }),
{
    let tail = push_d_code() + increase_sp_code();
    assert forall|i: int| from <= i < from + 5 implies code[i] == tail[i - from] by {
        assert(code.subrange(from, from + 5)[i - from] == code[i]);
    }
    reveal_with_fuel(run_lines, 4);
    assert(cell(m.sp()) == m.sp());
    lemma_run_block(p, m, at, code, from, from + 3);
    let m1 = run(p, m, 3);
    assert(m1.ram =~= m.ram.insert(m.sp(), m.d));
    assert(m1.well_formed());
    lemma_run_block(p, m1, at, code, from + 3, from + 5);
    let m2 = run(p, m1, 2);
    lemma_run_split(p, m, 3, 2);
    assert(m2.ram =~= m.ram.insert(m.sp(), m.d).insert(0, m.sp() + 1));
}

/// A push stores the addressed cell, or the immediate value, in the
/// first free cell of the stack and moves the stack pointer up by one.
/// It changes no other cell.
pub proof fn lemma_push(p: Program, m: Machine, at: int, mode: Addressing, index: nat)
    requires
        p.well_formed(),
        p.holds(at, push_code(mode, index)),
        m.pc == p.address(at),
        m.well_formed(),
        m.stack_ok(0, 1),
        loadable(mode, index),
    ensures
        ({
            let code = push_code(mode, index);
            let after = run(p, m, code.len());
            &&& after.well_formed()
            &&& after.pc == m.pc + code.len()
            &&& after.pc == p.address(at + code.len())
            &&& after.ram == m.ram.insert(m.sp(), pushed_value(p, m, mode, index)).insert(
                0,
                m.sp() + 1,
            )
        }),
{
    let code = push_code(mode, index);
    let loaded = code.len() - 5;
    assert(code.subrange(loaded, loaded + 5) =~= push_d_code() + increase_sp_code());
    match mode {
        Addressing::FixedBase(base) => {
            lemma_fetch_through_base(p, m, at, base, index);
        },
        _ => {
            lemma_fetch_directly(p, m, at, mode, index);
        },
    }
    let m1 = run(p, m, loaded as nat);
    lemma_all_instructions(code, 0, loaded);
    lemma_instructions_of_block(p.code, at, code, 0, loaded);
    lemma_instructions_between_split(p.code, 0, at, at + loaded);
    lemma_push_d(p, m1, at, code, loaded);
    lemma_run_split(p, m, loaded as nat, 5);
}

/// The memory with what a pop changes besides the stack pointer and the
/// addressed cell: where the cell is found through a base register, its
/// address is left in `R13`.
pub open spec fn pop_scratch(p: Program, m: Machine, mode: Addressing, index: nat) -> Map<
    int,
    int,
> {
    match mode {
        Addressing::FixedBase(base) => m.ram.insert(13, wrap(m.register(base) + index)),
        _ => m.ram,
    }
}

proof fn lemma_pop_through_base(p: Program, m: Machine, at: int, base: Register, index: nat)
    requires
        p.holds(at, pop_code(Addressing::FixedBase(base), index)),
        m.pc == p.address(at),
        m.well_formed(),
        m.stack_ok(1, 0),
        index < 0x8000,
    ensures
        ({
            let found = wrap(m.register(base) + index);
            let after = run(p, m, 12);
            &&& after.well_formed()
            &&& after.pc == m.pc + 12
            &&& after.pc == p.address(at + 12)
            &&& after.ram == m.ram.insert(13, found).insert(0, m.sp() - 1).insert(
                cell(found),
                m.top(),
            )
        }),
{
    let code = pop_code(Addressing::FixedBase(base), index);
    reveal_with_fuel(run_lines, 7);
    assert(cell(m.sp() - 1) == m.sp() - 1);
    let found = wrap(m.register(base) + index);
    // The address is kept in `R13`, the top cell is taken off the stack,
    // and the cell is stored where `R13` says.
    lemma_run_block(p, m, at, code, 0, 6);
    let m1 = run(p, m, 6);
    assert(m1.ram =~= m.ram.insert(13, found));
    assert(m1.well_formed());
    lemma_run_block(p, m1, at, code, 6, 9);
    let m2 = run(p, m1, 3);
    assert(m2.ram =~= m.ram.insert(13, found).insert(0, m.sp() - 1));
    assert(m2.d == m.top());
    assert(m2.well_formed());
    lemma_run_block(p, m2, at, code, 9, 12);
    let m3 = run(p, m2, 3);
    lemma_run_split(p, m, 6, 3);
    lemma_run_split(p, m, 9, 3);
    assert(m3.ram =~= m.ram.insert(13, found).insert(0, m.sp() - 1).insert(
        cell(found),
        m.top(),
    ));
}

proof fn lemma_pop_directly(p: Program, m: Machine, at: int, mode: Addressing, index: nat)
    requires
        mode is AbsoluteBase || mode is Symbolic,
        p.well_formed(),
        p.holds(at, pop_code(mode, index)),
        m.pc == p.address(at),
        m.well_formed(),
        m.stack_ok(1, 0),
        loadable(mode, index),
    ensures
        ({
            let after = run(p, m, 5);
            &&& after.well_formed()
            &&& after.pc == m.pc + 5
            &&& after.pc == p.address(at + 5)
            &&& after.ram == m.ram.insert(0, m.sp() - 1).insert(
                effective_address(p, m, mode, index),
                m.top(),
            )
        }),
{
    let code = pop_code(mode, index);
    let target = effective_address(p, m, mode, index);
    assert(cell(m.sp() - 1) == m.sp() - 1);
    assert(cell(target) == target);
    reveal_with_fuel(run_lines, 4);
    lemma_run_block(p, m, at, code, 0, 3);
    let m1 = run(p, m, 3);
    assert(m1.ram =~= m.ram.insert(0, m.sp() - 1));
    assert(m1.d == m.top());
    assert(m1.well_formed());
    lemma_run_block(p, m1, at, code, 3, 5);
    let after = run(p, m1, 2);
    lemma_run_split(p, m, 3, 2);
    assert(after.ram =~= m.ram.insert(0, m.sp() - 1).insert(target, m.top()));
}

/// A pop moves the stack pointer down by one and stores the cell that
/// was on top of the stack in the addressed cell. The cell's address is
/// found before the stack pointer moves.
pub proof fn lemma_pop(p: Program, m: Machine, at: int, mode: Addressing, index: nat)
    requires
        !(mode is Immediate),
        p.well_formed(),
        p.holds(at, pop_code(mode, index)),
        m.pc == p.address(at),
        m.well_formed(),
        m.stack_ok(1, 0),
        loadable(mode, index),
    ensures
        ({
            let code = pop_code(mode, index);
            let after = run(p, m, code.len());
            &&& after.well_formed()
            &&& after.pc == m.pc + code.len()
            &&& after.pc == p.address(at + code.len())
            &&& after.ram == pop_scratch(p, m, mode, index).insert(0, m.sp() - 1).insert(
                effective_address(p, m, mode, index),
                m.top(),
            )
        }),
{
    match mode {
        Addressing::FixedBase(base) => {
            lemma_pop_through_base(p, m, at, base, index);
        },
        _ => {
            lemma_pop_directly(p, m, at, mode, index);
        },
    }
}

/// What a unary operation makes of a word.
pub open spec fn unary_result(op: ArithmeticCommand, x: int) -> int {
    match op {
        ArithmeticCommand::Neg => wrap(-x),
        _ => wrap(-x - 1),
    }
}

/// What a binary operation other than a comparison makes of two words.
pub open spec fn binary_result(op: ArithmeticCommand, x: int, y: int) -> int {
    match op {
        ArithmeticCommand::Add => wrap(x + y),
        ArithmeticCommand::Sub => wrap(x - y),
        ArithmeticCommand::And => word_and(y, x),
        _ => word_or(y, x),
    }
}

/// Whether a comparison holds of two words: it looks at their
/// difference, as a word, read as a signed number.
pub open spec fn comparison_holds(op: ArithmeticCommand, x: int, y: int) -> bool {
    match op {
        ArithmeticCommand::Eq => wrap(x - y) == 0,
        ArithmeticCommand::Gt => signed(wrap(x - y)) > 0,
        _ => signed(wrap(x - y)) < 0,
    }
}

/// The word that stands for a truth value: all ones for true, zero for
/// false.
pub open spec fn truth(holds: bool) -> int {
    if holds {
        0xFFFF
    } else {
        0
    }
}

/// The bits of two words are the bits of a word.
pub proof fn lemma_word_bits(x: int, y: int)
    ensures
        0 <= word_and(x, y) < 0x10000,
        0 <= word_or(x, y) < 0x10000,
{
}

/// A unary operation overwrites the top of the stack with its result
/// and leaves the stack pointer where it is.
pub proof fn lemma_unary(p: Program, m: Machine, at: int, op: ArithmeticCommand, n: nat)
    requires
        op.is_unary(),
        p.holds(at, arithmetic_code(op, n)),
        m.pc == p.address(at),
        m.well_formed(),
        m.stack_ok(1, 0),
    ensures
        ({
            let after = run(p, m, 3);
            &&& after.well_formed()
            &&& after.pc == m.pc + 3
            &&& after.pc == p.address(at + 3)
            &&& after.ram == m.ram.insert(m.sp() - 1, unary_result(op, m.top()))
        }),
{
    let code = arithmetic_code(op, n);
    lemma_run_block(p, m, at, code, 0, 3);
    reveal_with_fuel(run_lines, 4);
    let after = run_lines(p, m, code, 0, 3);
    assert(after.ram =~= m.ram.insert(m.sp() - 1, unary_result(op, m.top())));
}

/// A binary operation other than a comparison takes the two cells on
/// top of the stack, the second operand being the upper one, puts its
/// result in the place of the first and moves the stack pointer down by
/// one.
pub proof fn lemma_binary(p: Program, m: Machine, at: int, op: ArithmeticCommand, n: nat)
    requires
        !op.is_unary(),
        !op.is_comparison(),
        p.holds(at, arithmetic_code(op, n)),
        m.pc == p.address(at),
        m.well_formed(),
        m.stack_ok(2, 0),
    ensures
        ({
            let after = run(p, m, 6);
            &&& after.well_formed()
            &&& after.pc == m.pc + 6
            &&& after.pc == p.address(at + 6)
            &&& after.ram == m.ram.insert(0, m.sp() - 1).insert(
                m.sp() - 2,
                binary_result(op, m.ram[m.sp() - 2], m.top()),
            )
        }),
{
    let code = arithmetic_code(op, n);
    reveal_with_fuel(run_lines, 4);
    assert(cell(m.sp() - 1) == m.sp() - 1);
    assert(cell(m.sp() - 2) == m.sp() - 2);
    lemma_run_block(p, m, at, code, 0, 3);
    let m1 = run(p, m, 3);
    assert(m1.ram =~= m.ram.insert(0, m.sp() - 1));
    assert(m1.d == m.top());
    assert(m1.well_formed());
    lemma_run_block(p, m1, at, code, 3, 6);
    let after = run(p, m1, 3);
    lemma_run_split(p, m, 3, 3);
    lemma_word_bits(m.top(), m.ram[m.sp() - 2]);
    assert(after.ram =~= m.ram.insert(0, m.sp() - 1).insert(
        m.sp() - 2,
        binary_result(op, m.ram[m.sp() - 2], m.top()),
    ));
}

/// A comparison takes the two cells on top of the stack, the second
/// operand being the upper one, puts all ones in the place of the first
/// if it holds and zero if not, and moves the stack pointer down by one.
/// The machine leaves the code at its end on either way through it.
pub proof fn lemma_comparison(p: Program, m: Machine, at: int, op: ArithmeticCommand, n: nat)
    requires
        op.is_comparison(),
        p.well_formed(),
        p.holds(at, arithmetic_code(op, n)),
        m.pc == p.address(at),
        m.well_formed(),
        m.stack_ok(2, 0),
    ensures
        exists|steps: nat|
            {
                let after = #[trigger] run(p, m, steps);
                &&& after.well_formed()
                &&& after.pc == p.address(at + 18)
                &&& after.ram == m.ram.insert(0, m.sp() - 1).insert(
                    m.sp() - 2,
                    truth(comparison_holds(op, m.ram[m.sp() - 2], m.top())),
                )
            },
{
    let code = arithmetic_code(op, n);
    let expected = m.ram.insert(0, m.sp() - 1).insert(
        m.sp() - 2,
        truth(comparison_holds(op, m.ram[m.sp() - 2], m.top())),
    );
    assert(p.code[at + 13] == code[13]);
    assert(p.code[at + 17] == code[17]);
    assert(p.symbols[true_label(n)] == p.address(at + 13));
    assert(p.symbols[end_label(n)] == p.address(at + 17));
    reveal_with_fuel(run_lines, 6);
    reveal_with_fuel(instructions_between, 6);
    assert(cell(m.sp() - 1) == m.sp() - 1);
    assert(cell(m.sp() - 2) == m.sp() - 2);
    // The operands are taken, then the difference decides the jump.
    lemma_run_block(p, m, at, code, 0, 5);
    let m0 = run(p, m, 5);
    assert(m0.ram =~= m.ram.insert(0, m.sp() - 1));
    assert(m0.d == m.top() && m0.a == m.sp() - 2);
    assert(m0.well_formed());
    lemma_run_block(p, m0, at, code, 5, 8);
    lemma_run_split(p, m, 5, 3);
    let m1 = run(p, m, 8);
    assert(m1.ram == m0.ram);
    assert(m1.well_formed());
    if comparison_holds(op, m.ram[m.sp() - 2], m.top()) {
        assert(m1.pc == p.address(at + 13));
        lemma_run_lines(p, m1, at, code, 13, 18);
        assert(instructions_between(code, 13, 18) == 3);
        lemma_run_split(p, m, 8, 3);
        let after = run(p, m, 11);
        assert(after.ram =~= expected);
    } else {
        assert(m1.pc == p.address(at + 8));
        lemma_run_block(p, m1, at, code, 8, 13);
        let m2 = run(p, m1, 5);
        assert(m2.pc == p.address(at + 17));
        lemma_no_room(p, at + 17);
        lemma_run_split(p, m, 8, 5);
        let after = run(p, m, 13);
        assert(after.ram =~= expected);
    }
}

/// A goto jumps to the instruction that the name stands for and changes
/// nothing in memory.
pub proof fn lemma_goto(p: Program, m: Machine, at: int, name: Seq<char>)
    requires
        p.well_formed(),
        p.holds(at, seq![Instr::Symbol(name), branch(Comp::Zero, Jump::Jmp)]),
        m.pc == p.address(at),
        m.well_formed(),
    ensures
        ({
            let after = run(p, m, 2);
            &&& after.well_formed()
            &&& after.pc == p.symbols[name]
            &&& after.ram == m.ram
        }),
{
    let code = seq![Instr::Symbol(name), branch(Comp::Zero, Jump::Jmp)];
    lemma_run_block(p, m, at, code, 0, 2);
    reveal_with_fuel(run_lines, 3);
}

/// The code of an `if-goto`.
pub open spec fn if_goto_code(name: Seq<char>) -> Seq<Instr> {
    load_last_code() + seq![Instr::Symbol(name), branch(Comp::D, Jump::Jne)]
}

/// An `if-goto` takes the top cell off the stack, and jumps to the
/// instruction that the name stands for if the cell is not zero.
pub proof fn lemma_if_goto(p: Program, m: Machine, at: int, name: Seq<char>)
    requires
        p.well_formed(),
        p.holds(at, if_goto_code(name)),
        m.pc == p.address(at),
        m.well_formed(),
        m.stack_ok(1, 0),
    ensures
        ({
            let after = run(p, m, 5);
            &&& after.well_formed()
            &&& after.pc == if m.top() != 0 {
                p.symbols[name]
            } else {
                p.address(at + 5)
            }
            &&& after.ram == m.ram.insert(0, m.sp() - 1)
        }),
{
    let code = if_goto_code(name);
    lemma_run_block(p, m, at, code, 0, 5);
    reveal_with_fuel(run_lines, 6);
    let after = run_lines(p, m, code, 0, 5);
    assert(after.ram =~= m.ram.insert(0, m.sp() - 1));
}

/// The memory with `count` zeros pushed on a stack whose pointer was
/// `sp`.
pub open spec fn zeroed(ram: Map<int, int>, sp: int, count: nat) -> Map<int, int>
    decreases count,
{
    if count == 0 {
        ram
    } else {
        zeroed(ram, sp, (count - 1) as nat).insert(sp + count - 1, 0).insert(0, sp + count)
    }
}

/// The code that pushes one zero.
pub open spec fn push_zero_code() -> Seq<Instr> {
    push_code(Addressing::Immediate(0), 0)
}

proof fn lemma_repeated_len(count: nat)
    ensures
        repeated(push_zero_code(), count).len() == 7 * count,
    decreases count,
{
    if count > 0 {
        lemma_repeated_len((count - 1) as nat);
    }
}

/// What pushing zeros leaves of the memory: the stack pointer has moved
/// up by their number, the cells it moved over hold zero, and every
/// other cell is as it was.
pub proof fn lemma_zeroed(ram: Map<int, int>, sp: int, count: nat)
    requires
        ram[0] == sp,
        sp > 0,
    ensures
        zeroed(ram, sp, count)[0] == sp + count,
        forall|address: int|
            sp <= address < sp + count ==> #[trigger] zeroed(ram, sp, count)[address] == 0,
        forall|address: int|
            address != 0 && !(sp <= address < sp + count) ==> #[trigger] zeroed(
                ram,
                sp,
                count,
            )[address] == ram[address],
        forall|address: int|
            ram.dom().contains(address) ==> #[trigger] zeroed(ram, sp, count).dom().contains(
                address,
            ),
    decreases count,
{
    if count > 0 {
        lemma_zeroed(ram, sp, (count - 1) as nat);
    }
}

proof fn lemma_push_zeros(p: Program, m: Machine, at: int, count: nat)
    requires
        p.well_formed(),
        p.holds(at, repeated(push_zero_code(), count)),
        m.pc == p.address(at),
        m.well_formed(),
        m.stack_ok(0, count as int),
    ensures
        ({
            let after = run(p, m, 7 * count);
            &&& after.well_formed()
            &&& after.pc == m.pc + 7 * count
            &&& after.pc == p.address(at + 7 * count)
            &&& after.ram == zeroed(m.ram, m.sp(), count)
        }),
    decreases count,
{
    if count > 0 {
        let before = (count - 1) as nat;
        lemma_repeated_len(before);
        lemma_holds_parts(p, at, repeated(push_zero_code(), before), push_zero_code());
        lemma_push_zeros(p, m, at, before);
        let m1 = run(p, m, 7 * before);
        lemma_zeroed(m.ram, m.sp(), before);
        lemma_push(p, m1, at + 7 * before, Addressing::Immediate(0), 0);
        lemma_run_split(p, m, 7 * before, 7);
        assert(7 * before + 7 == 7 * count);
    }
}

/// The entry of a function pushes one zero for each local variable: the
/// stack pointer moves up by their number.
pub proof fn lemma_function(p: Program, m: Machine, at: int, name: Seq<char>, locals: nat)
    requires
        p.well_formed(),
        p.holds(at, function_code(name, locals)),
        m.pc == p.address(at),
        m.well_formed(),
        m.stack_ok(0, locals as int),
    ensures
        ({
            let after = run(p, m, 7 * locals);
            &&& after.well_formed()
            &&& after.pc == p.address(at + 1 + 7 * locals)
            &&& after.ram == zeroed(m.ram, m.sp(), locals)
            &&& after.sp() == m.sp() + locals
        }),
{
    let label = seq![Instr::Label(name)];
    lemma_holds_parts(p, at, label, repeated(push_zero_code(), locals));
    assert(p.code[at + 0] == label[0]);
    lemma_no_room(p, at);
    lemma_push_zeros(p, m, at + 1, locals);
    lemma_zeroed(m.ram, m.sp(), locals);
}

/// Pushing the address of a label.
pub proof fn lemma_push_label(p: Program, m: Machine, at: int, label: Seq<char>)
    requires
        p.well_formed(),
        p.holds(at, push_label_code(label)),
        m.pc == p.address(at),
        m.well_formed(),
        m.stack_ok(0, 1),
    ensures
        ({
            let after = run(p, m, 7);
            &&& after.well_formed()
            &&& after.pc == m.pc + 7
            &&& after.pc == p.address(at + 7)
            &&& after.ram == m.ram.insert(m.sp(), p.symbols[label]).insert(0, m.sp() + 1)
        }),
{
    let code = push_label_code(label);
    reveal_with_fuel(run_lines, 6);
    assert(cell(m.sp()) == m.sp());
    lemma_run_block(p, m, at, code, 0, 5);
    let m1 = run(p, m, 5);
    assert(m1.ram =~= m.ram.insert(m.sp(), p.symbols[label]));
    assert(m1.well_formed());
    lemma_run_block(p, m1, at, code, 5, 7);
    let after = run(p, m1, 2);
    lemma_run_split(p, m, 5, 2);
    assert(after.ram =~= m.ram.insert(m.sp(), p.symbols[label]).insert(0, m.sp() + 1));
}

/// Pushing the value of a named cell.
pub proof fn lemma_push_register(p: Program, m: Machine, at: int, register: Register)
    requires
        p.holds(at, push_register_code(register)),
        m.pc == p.address(at),
        m.well_formed(),
        m.stack_ok(0, 1),
    ensures
        ({
            let after = run(p, m, 7);
            &&& after.well_formed()
            &&& after.pc == m.pc + 7
            &&& after.pc == p.address(at + 7)
            &&& after.ram == m.ram.insert(m.sp(), m.register(register)).insert(0, m.sp() + 1)
        }),
{
    let code = push_register_code(register);
    reveal_with_fuel(run_lines, 6);
    assert(cell(m.sp()) == m.sp());
    lemma_run_block(p, m, at, code, 0, 5);
    let m1 = run(p, m, 5);
    assert(m1.ram =~= m.ram.insert(m.sp(), m.register(register)));
    assert(m1.well_formed());
    lemma_run_block(p, m1, at, code, 5, 7);
    let after = run(p, m1, 2);
    lemma_run_split(p, m, 5, 2);
    assert(after.ram =~= m.ram.insert(m.sp(), m.register(register)).insert(0, m.sp() + 1));
}

/// The memory with the frame of a call laid down from address `sp` on:
/// the return address, then the caller's `LCL`, `ARG`, `THIS` and `THAT`.
pub open spec fn with_frame(ram: Map<int, int>, sp: int, return_address: int) -> Map<int, int> {
    ram.insert(sp, return_address).insert(sp + 1, ram[1]).insert(sp + 2, ram[2]).insert(
        sp + 3,
        ram[3],
    ).insert(sp + 4, ram[4])
}

/// The memory as a call hands it to the function: the frame lies on the
/// stack, `ARG` points at the first argument, and `LCL` and the stack
/// pointer point behind the frame.
pub open spec fn entered(ram: Map<int, int>, return_address: int, args: nat) -> Map<int, int> {
    let sp = ram[0];
    with_frame(ram, sp, return_address).insert(2, sp - args).insert(1, sp + 5).insert(0, sp + 5)
}

proof fn lemma_save_frame(p: Program, m: Machine, at: int)
    requires
        p.holds(at, save_frame_code()),
        m.pc == p.address(at),
        m.well_formed(),
        m.stack_ok(0, 4),
    ensures
        ({
            let after = run(p, m, 28);
            let sp = m.sp();
            &&& after.well_formed()
            &&& after.pc == m.pc + 28
            &&& after.pc == p.address(at + 28)
            &&& after.ram == m.ram.insert(sp, m.ram[1]).insert(sp + 1, m.ram[2]).insert(
                sp + 2,
                m.ram[3],
            ).insert(sp + 3, m.ram[4]).insert(0, sp + 4)
        }),
{
    let sp = m.sp();
    let lcl = push_register_code(Register::Lcl);
    let arg = push_register_code(Register::Arg);
    let this = push_register_code(Register::This);
    let that = push_register_code(Register::That);
    lemma_holds_parts(p, at, lcl + arg + this, that);
    lemma_holds_parts(p, at, lcl + arg, this);
    lemma_holds_parts(p, at, lcl, arg);
    lemma_push_register(p, m, at, Register::Lcl);
    let m1 = run(p, m, 7);
    lemma_push_register(p, m1, at + 7, Register::Arg);
    let m2 = run(p, m1, 7);
    lemma_push_register(p, m2, at + 14, Register::This);
    let m3 = run(p, m2, 7);
    lemma_push_register(p, m3, at + 21, Register::That);
    let m4 = run(p, m3, 7);
    lemma_run_split(p, m, 7, 7);
    lemma_run_split(p, m, 14, 7);
    lemma_run_split(p, m, 21, 7);
    assert(m4.ram =~= m.ram.insert(sp, m.ram[1]).insert(sp + 1, m.ram[2]).insert(
        sp + 2,
        m.ram[3],
    ).insert(sp + 3, m.ram[4]).insert(0, sp + 4));
}

proof fn lemma_reposition(p: Program, m: Machine, at: int, args: nat)
    requires
        p.holds(at, reposition_code(args)),
        m.pc == p.address(at),
        m.well_formed(),
        m.stack_ok(args as int + 5, 0),
        args + 5 < 0x8000,
    ensures
        ({
            let after = run(p, m, 10);
            &&& after.well_formed()
            &&& after.pc == m.pc + 10
            &&& after.pc == p.address(at + 10)
            &&& after.ram == m.ram.insert(2, m.sp() - args - 5).insert(1, m.sp())
        }),
{
    let code = reposition_code(args);
    reveal_with_fuel(run_lines, 7);
    lemma_run_block(p, m, at, code, 0, 6);
    let m1 = run(p, m, 6);
    assert(m1.ram =~= m.ram.insert(2, m.sp() - args - 5));
    assert(m1.well_formed());
    lemma_run_block(p, m1, at, code, 6, 10);
    let m2 = run(p, m1, 4);
    lemma_run_split(p, m, 6, 4);
    assert(m2.ram =~= m.ram.insert(2, m.sp() - args - 5).insert(1, m.sp()));
}

/// A call lays the frame down on the stack, above the arguments: the
/// address of the instruction behind the call, where the return label
/// stands, and the caller's four segment bases. It sets `ARG` to the
/// first argument and `LCL` to the cell behind the frame, where the stack
/// pointer then is, and jumps to the function.
pub proof fn lemma_call(p: Program, m: Machine, at: int, name: Seq<char>, args: nat, n: nat)
    requires
        p.well_formed(),
        p.holds(at, call_code(name, args, n)),
        m.pc == p.address(at),
        m.well_formed(),
        m.stack_ok(args as int, 5),
        args + 5 < 0x8000,
    ensures
        ({
            let after = run(p, m, 47);
            &&& after.well_formed()
            &&& after.pc == p.symbols[name]
            &&& p.symbols[return_label(n)] == m.pc + 47
            &&& p.address(at + 48) == m.pc + 47
            &&& after.ram == entered(m.ram, m.pc + 47, args)
        }),
{
    let sp = m.sp();
    let code = call_code(name, args, n);
    let a = push_label_code(return_label(n));
    let b = save_frame_code();
    let c = reposition_code(args);
    let d = enter_code(name, return_label(n));
    lemma_holds_parts(p, at, a + b + c, d);
    lemma_holds_parts(p, at, a + b, c);
    lemma_holds_parts(p, at, a, b);
    assert(a.len() == 7);
    assert(b.len() == 28);
    assert(c.len() == 10);
    assert(p.code[at + 45 + 2] == d[2]);
    assert(p.symbols[return_label(n)] == p.address(at + 47));
    lemma_no_room(p, at + 47);
    lemma_push_label(p, m, at, return_label(n));
    let m1 = run(p, m, 7);
    lemma_save_frame(p, m1, at + 7);
    let m2 = run(p, m1, 28);
    lemma_reposition(p, m2, at + 35, args);
    let m3 = run(p, m2, 10);
    lemma_run_block(p, m3, at + 45, d, 0, 2);
    reveal_with_fuel(run_lines, 3);
    let m4 = run(p, m3, 2);
    lemma_run_split(p, m, 7, 28);
    lemma_run_split(p, m, 35, 10);
    lemma_run_split(p, m, 45, 2);
    assert(m4.ram =~= entered(m.ram, m.pc + 47, args));
}

/// Whether the machine can return: the frame that `LCL` points behind
/// lies above the cell that `ARG` points at, the stack holds a value
/// above the frame, and all of it lies where the stack may lie.
pub open spec fn can_return(m: Machine) -> bool {
    &&& 256 <= m.ram[2]
    &&& m.ram[2] + 5 <= m.ram[1]
    &&& m.ram[1] < m.sp()
    &&& m.sp() < 0x8000
}

/// The memory as a return hands it back to the caller: the value that
/// was on top of the stack lies where the first argument lay, the stack
/// pointer points behind it, and the four segment bases are those that
/// the frame held. `R13` and `R14` were used meanwhile.
pub open spec fn returned(ram: Map<int, int>) -> Map<int, int> {
    let frame = ram[1];
    let arg = ram[2];
    let sp = ram[0];
    ram.insert(13, frame - 4).insert(14, ram[frame - 5]).insert(arg, ram[sp - 1]).insert(
        4,
        ram[frame - 1],
    ).insert(3, ram[frame - 2]).insert(2, ram[frame - 3]).insert(1, ram[frame - 4]).insert(
        0,
        arg + 1,
    )
}

proof fn lemma_restore(p: Program, m: Machine, at: int, register: Register)
    requires
        p.holds(at, restore_code(register)),
        m.pc == p.address(at),
        m.well_formed(),
        256 < m.ram[13] < 0x8000,
        register != Register::R13,
    ensures
        ({
            let after = run(p, m, 5);
            &&& after.well_formed()
            &&& after.pc == m.pc + 5
            &&& after.pc == p.address(at + 5)
            &&& after.ram == m.ram.insert(13, m.ram[13] - 1).insert(
                register_address(register),
                m.ram[m.ram[13] - 1],
            )
        }),
{
    let code = restore_code(register);
    lemma_run_block(p, m, at, code, 0, 5);
    reveal_with_fuel(run_lines, 6);
    let after = run_lines(p, m, code, 0, 5);
    assert(after.ram =~= m.ram.insert(13, m.ram[13] - 1).insert(
        register_address(register),
        m.ram[m.ram[13] - 1],
    ));
}

proof fn lemma_restore_frame(p: Program, m: Machine, at: int)
    requires
        p.holds(at, restore_frame_code()),
        m.pc == p.address(at),
        m.well_formed(),
        256 + 4 < m.ram[13] < 0x8000,
    ensures
        ({
            let after = run(p, m, 20);
            let frame = m.ram[13];
            &&& after.well_formed()
            &&& after.pc == m.pc + 20
            &&& after.pc == p.address(at + 20)
            &&& after.ram == m.ram.insert(13, frame - 4).insert(4, m.ram[frame - 1]).insert(
                3,
                m.ram[frame - 2],
            ).insert(2, m.ram[frame - 3]).insert(1, m.ram[frame - 4])
        }),
{
    let frame = m.ram[13];
    let that = restore_code(Register::That);
    let this = restore_code(Register::This);
    let arg = restore_code(Register::Arg);
    let lcl = restore_code(Register::Lcl);
    lemma_holds_parts(p, at, that + this + arg, lcl);
    lemma_holds_parts(p, at, that + this, arg);
    lemma_holds_parts(p, at, that, this);
    lemma_restore(p, m, at, Register::That);
    let m1 = run(p, m, 5);
    lemma_restore(p, m1, at + 5, Register::This);
    let m2 = run(p, m1, 5);
    lemma_restore(p, m2, at + 10, Register::Arg);
    let m3 = run(p, m2, 5);
    lemma_restore(p, m3, at + 15, Register::Lcl);
    let m4 = run(p, m3, 5);
    lemma_run_split(p, m, 5, 5);
    lemma_run_split(p, m, 10, 5);
    lemma_run_split(p, m, 15, 5);
    assert(m4.ram =~= m.ram.insert(13, frame - 4).insert(4, m.ram[frame - 1]).insert(
        3,
        m.ram[frame - 2],
    ).insert(2, m.ram[frame - 3]).insert(1, m.ram[frame - 4]));
}

/// A return hands the value on top of the stack to the caller in the
/// place of its first argument, sets the stack pointer behind that
/// value, restores the caller's four segment bases from the frame, and
/// jumps to the return address that the frame holds. The return address
/// is read before the value is moved, which may overwrite it.
pub proof fn lemma_return(p: Program, m: Machine, at: int)
    requires
        p.holds(at, return_code()),
        m.pc == p.address(at),
        m.well_formed(),
        can_return(m),
    ensures
        ({
            let after = run(p, m, 42);
            &&& after.well_formed()
            &&& after.pc == m.ram[m.ram[1] - 5]
            &&& after.ram == returned(m.ram)
        }),
{
    let a = frame_code();
    let b = move_result_code();
    let c = restore_frame_code();
    let d = resume_code();
    lemma_holds_parts(p, at, a + b + c, d);
    lemma_holds_parts(p, at, a + b, c);
    lemma_holds_parts(p, at, a, b);
    assert(a.len() == 9);
    assert(b.len() == 10);
    assert(c.len() == 20);
    let frame = m.ram[1];
    let arg = m.ram[2];
    reveal_with_fuel(run_lines, 11);
    lemma_run_block(p, m, at, a, 0, 9);
    let m1 = run(p, m, 9);
    assert(m1.ram =~= m.ram.insert(13, frame).insert(14, m.ram[frame - 5]));
    lemma_run_block(p, m1, at + 9, b, 0, 10);
    let m2 = run(p, m1, 10);
    assert(m2.ram =~= m1.ram.insert(arg, m.ram[m.sp() - 1]).insert(0, arg + 1));
    lemma_restore_frame(p, m2, at + 19);
    let m3 = run(p, m2, 20);
    lemma_run_block(p, m3, at + 39, d, 0, 3);
    let m4 = run(p, m3, 3);
    lemma_run_split(p, m, 9, 10);
    lemma_run_split(p, m, 19, 20);
    lemma_run_split(p, m, 39, 3);
    assert(m4.ram =~= returned(m.ram));
}

/// How far a command moves the stack pointer: a push by one cell up, a
/// pop and an `if-goto` by one cell down, an operation on two operands by
/// one cell down, an operation on one operand not at all, the entry of a
/// function up by the number of its local variables, and a call, once
/// the function has returned, down by the number of arguments and up by
/// one for the value that takes their place. A return has no such
/// number: it sets the stack pointer behind the cell that `ARG` points at.
pub open spec fn stack_effect(command: Cmd) -> int
    recommends
        !(command is Return),
{
    match command {
        Cmd::Push(_, _) => 1,
        Cmd::Pop(_, _) => -1,
        Cmd::Arithmetic(op) => if op.is_unary() {
            0
        } else {
            -1
        },
        Cmd::Label(_) => 0,
        Cmd::GoTo(_) => 0,
        Cmd::IfGoTo(_) => -1,
        Cmd::Function(_, locals) => locals as int,
        Cmd::Call(_, args) => 1 - args,
        Cmd::Return => 0,
    }
}

/// Whether the machine is ready to run the code of a command that is
/// neither a call nor a return: the stack holds the operands and has
/// room for what is pushed, the numbers in the code are numbers of 15
/// bits, and a pop does not write to the stack pointer itself.
pub open spec fn ready(p: Program, m: Machine, command: Cmd, module: Seq<char>) -> bool {
    match command {
        Cmd::Push(segment, index) => m.stack_ok(0, 1) && loadable(
            addressing(segment, index, module),
            index,
        ),
        Cmd::Pop(segment, index) => {
            &&& segment != MemorySegment::Constant
            &&& m.stack_ok(1, 0)
            &&& loadable(addressing(segment, index, module), index)
            &&& effective_address(p, m, addressing(segment, index, module), index) != 0
        },
        Cmd::Arithmetic(op) => if op.is_unary() {
            m.stack_ok(1, 0)
        } else {
            m.stack_ok(2, 0)
        },
        Cmd::IfGoTo(_) => m.stack_ok(1, 0),
        Cmd::Function(_, locals) => m.stack_ok(0, locals as int),
        _ => true,
    }
}

/// The instruction at which the machine leaves the code of a command
/// that stands at line `at` and is neither a call nor a return: the one
/// that a jump leads to, or the one behind the code.
pub open spec fn leaves_at(
    p: Program,
    m: Machine,
    at: int,
    command: Cmd,
    module: Seq<char>,
    n: nat,
) -> int {
    match command {
        Cmd::GoTo(name) => p.symbols[name],
        Cmd::IfGoTo(name) => if m.top() != 0 {
            p.symbols[name]
        } else {
            p.address(at + command_code(command, module, n).len())
        },
        _ => p.address(at + command_code(command, module, n).len()),
    }
}

/// The stack effect of the code of a command. A machine that is ready
/// for a command, and stands at the first instruction of its code, gets
/// through the code in a number of steps, and has then moved the stack
/// pointer as far as the command says. Calls and returns have a law of
/// their own.
pub proof fn lemma_stack_effect(
    p: Program,
    m: Machine,
    at: int,
    command: Cmd,
    module: Seq<char>,
    n: nat,
)
    requires
        !(command is Call),
        !(command is Return),
        p.well_formed(),
        p.holds(at, command_code(command, module, n)),
        m.pc == p.address(at),
        m.well_formed(),
        ready(p, m, command, module),
    ensures
        exists|steps: nat|
            {
                let after = #[trigger] run(p, m, steps);
                &&& after.well_formed()
                &&& after.pc == leaves_at(p, m, at, command, module, n)
                &&& after.sp() == m.sp() + stack_effect(command)
            },
{
    let body = command_body(command, module, n);
    let code = command_code(command, module, n);
    assert(code =~= body + seq![Instr::Blank]);
    lemma_holds_parts(p, at, body, seq![Instr::Blank]);
    let end = at + body.len();
    assert(p.code[end + 0] == seq![Instr::Blank][0]);
    // The empty line behind the code takes no room.
    lemma_no_room(p, end);
    match command {
        Cmd::Push(segment, index) => {
            lemma_push(p, m, at, addressing(segment, index, module), index);
            assert(run(p, m, body.len()).sp() == m.sp() + 1);
        },
        Cmd::Pop(segment, index) => {
            lemma_pop(p, m, at, addressing(segment, index, module), index);
            assert(run(p, m, body.len()).sp() == m.sp() - 1);
        },
        Cmd::Arithmetic(op) => {
            if op.is_unary() {
                lemma_unary(p, m, at, op, n);
                assert(run(p, m, 3).sp() == m.sp());
            } else if op.is_comparison() {
                lemma_comparison(p, m, at, op, n);
                let steps = choose|steps: nat|
                    {
                        let after = #[trigger] run(p, m, steps);
                        &&& after.well_formed()
                        &&& after.pc == p.address(at + 18)
                        &&& after.ram == m.ram.insert(0, m.sp() - 1).insert(
                            m.sp() - 2,
                            truth(comparison_holds(op, m.ram[m.sp() - 2], m.top())),
                        )
                    };
                assert(run(p, m, steps).sp() == m.sp() - 1);
            } else {
                lemma_binary(p, m, at, op, n);
                assert(run(p, m, 6).sp() == m.sp() - 1);
            }
        },
        Cmd::Label(name) => {
            assert(p.code[at + 0] == body[0]);
            lemma_no_room(p, at);
            assert(run(p, m, 0) == m);
        },
        Cmd::GoTo(name) => {
            lemma_goto(p, m, at, name);
            assert(run(p, m, 2).sp() == m.sp());
        },
        Cmd::IfGoTo(name) => {
            assert(body =~= if_goto_code(name));
            lemma_if_goto(p, m, at, name);
            assert(run(p, m, 5).sp() == m.sp() - 1);
        },
        Cmd::Function(name, locals) => {
            lemma_function(p, m, at, name, locals);
            lemma_repeated_len(locals);
            assert(run(p, m, 7 * locals).sp() == m.sp() + locals);
        },
        _ => {},
    }
}

/// Whether an address is one of a cell that lies below the cell `top`
/// of the stack and is none of the cells that a call and a return use
/// besides the stack: the stack pointer, the four segment bases, `R13`
/// and `R14`. Such are the `temp` cells, the static variables and the
/// caller's stack below `top`.
pub open spec fn below_stack(address: int, top: int) -> bool {
    5 <= address < top && address != 13 && address != 14
}

/// Whether the machine `later` still has the frame that a call laid
/// down in `entered`: `LCL` and `ARG` are as the call set them, and the
/// five cells of the frame are as the call wrote them.
pub open spec fn frame_kept(entered: Machine, later: Machine) -> bool {
    &&& later.ram[1] == entered.ram[1]
    &&& later.ram[2] == entered.ram[2]
    &&& forall|k: int|
        1 <= k <= 5 ==> later.ram[entered.ram[1] - k] == #[trigger] entered.ram[entered.ram[1]
            - k]
}

/// Call and return. Where a call laid a frame down, and the machine
/// comes to a return with that frame kept and a value on the stack above
/// it, the return leads to the instruction behind the call; the stack
/// pointer has then moved, since before the call, as far as the call
/// says: down by the arguments and up by one. The value lies on top of
/// the stack, and `LCL`, `ARG`, `THIS` and `THAT` are what they were before
/// the call, whatever the function made of them. Neither the call nor
/// the return touches the caller's stack below the arguments: the call
/// writes at the stack pointer and above, and the return at the first
/// argument.
pub proof fn lemma_call_return(
    p: Program,
    m: Machine,
    at: int,
    later: Machine,
    back_at: int,
    name: Seq<char>,
    args: nat,
    n: nat,
)
    requires
        p.well_formed(),
        p.holds(at, call_code(name, args, n)),
        m.pc == p.address(at),
        m.well_formed(),
        m.stack_ok(args as int, 5),
        args + 5 < 0x8000,
        p.holds(back_at, return_code()),
        later.pc == p.address(back_at),
        later.well_formed(),
        frame_kept(run(p, m, 47), later),
        later.ram[1] < later.sp() < 0x8000,
    ensures
        ({
            let back = run(p, later, 42);
            &&& back.well_formed()
            &&& back.pc == p.address(at + call_code(name, args, n).len())
            &&& back.sp() == m.sp() + stack_effect(Cmd::Call(name, args))
            &&& back.top() == later.top()
            &&& back.ram[1] == m.ram[1]
            &&& back.ram[2] == m.ram[2]
            &&& back.ram[3] == m.ram[3]
            &&& back.ram[4] == m.ram[4]
            &&& forall|address: int|
                below_stack(address, m.sp()) ==> #[trigger] run(p, m, 47).ram[address]
                    == m.ram[address]
            &&& forall|address: int|
                below_stack(address, m.sp() - args) ==> #[trigger] back.ram[address]
                    == later.ram[address]
        }),
{
    lemma_call(p, m, at, name, args, n);
    let inside = run(p, m, 47);
    let frame = inside.ram[1];
    assert(frame == m.sp() + 5);
    assert(inside.ram[frame - 1] == m.ram[4]);
    assert(inside.ram[frame - 2] == m.ram[3]);
    assert(inside.ram[frame - 3] == m.ram[2]);
    assert(inside.ram[frame - 4] == m.ram[1]);
    assert(inside.ram[frame - 5] == m.pc + 47);
    lemma_return(p, later, back_at);
    assert(call_code(name, args, n).len() == 48);
}

/// A function without arguments that pushes a number and returns. The
/// code that the generator writes for it, called by the code that the
/// generator writes for a call of it, from anywhere with room
/// on the stack, comes back to the instruction behind the call with
/// exactly that number pushed on the caller's stack and with the
/// caller's `LCL`, `ARG`, `THIS` and `THAT` as they were. The caller's
/// stack below the number is as it was.
pub proof fn lemma_constant_function(
    p: Program,
    m: Machine,
    at: int,
    name: Seq<char>,
    value: nat,
    n: nat,
    function_at: int,
    module: Seq<char>,
    k: nat,
    scope: nat,
)
    requires
        p.well_formed(),
        p.holds(at, call_code(function_symbol(name), 0, n)),
        m.pc == p.address(at),
        p.holds(
            function_at,
            listing(
                seq![
                    Cmd::Function(name, 0),
                    Cmd::Push(MemorySegment::Constant, value),
                    Cmd::Return,
                ],
                module,
                k,
                scope,
            ),
        ),
        m.well_formed(),
        m.stack_ok(0, 6),
        value < 0x8000,
    ensures
        ({
            let back = run(p, m, 96);
            &&& back.well_formed()
            &&& back.pc == p.address(at + call_code(function_symbol(name), 0, n).len())
            &&& back.sp() == m.sp() + 1
            &&& back.top() == value
            &&& back.ram[1] == m.ram[1]
            &&& back.ram[2] == m.ram[2]
            &&& back.ram[3] == m.ram[3]
            &&& back.ram[4] == m.ram[4]
            &&& forall|address: int|
                below_stack(address, m.sp()) ==> #[trigger] back.ram[address] == m.ram[address]
        }),
{
    let function = Cmd::Function(name, 0);
    let push = Cmd::Push(MemorySegment::Constant, value);
    let commands = seq![function, push, Cmd::Return];
    let code = listing(commands, module, k, scope);
    let symbol = function_symbol(name);
    let lines1 = seq![Instr::Comment(function.describe())] + command_code(
        Cmd::Function(symbol, 0),
        module,
        k,
    );
    let lines2 = seq![Instr::Comment(push.describe())] + command_code(push, module, k);
    let lines3 = seq![Instr::Comment(Cmd::Return.describe())] + command_code(
        Cmd::Return,
        module,
        k,
    );
    assert(code =~= lines1 + lines2 + lines3) by {
        reveal_with_fuel(crate::driver::run_commands, 4);
        assert(commands.drop_last() =~= seq![function, push]);
        assert(commands.drop_last().drop_last() =~= seq![function]);
        assert(commands.drop_last().drop_last().drop_last() =~= Seq::<Cmd>::empty());
    }
    assert(repeated(push_zero_code(), 0) =~= Seq::<Instr>::empty());
    assert(lines1 =~= seq![
        Instr::Comment(function.describe()),
        Instr::Label(symbol),
        Instr::Blank,
    ]);
    let from = function_at;
    lemma_holds_parts(p, from, lines1 + lines2, lines3);
    lemma_holds_parts(p, from, lines1, lines2);
    assert(p.code[from + 1] == lines1[1]);
    assert(p.code[from + 2] == lines1[2]);
    assert(p.symbols[symbol] == p.address(from + 1));
    let push_body = command_body(push, module, k);
    assert(lines2 =~= seq![Instr::Comment(push.describe())] + push_body + seq![Instr::Blank]);
    lemma_holds_parts(
        p,
        from + 3,
        seq![Instr::Comment(push.describe())] + push_body,
        seq![Instr::Blank],
    );
    lemma_holds_parts(p, from + 3, seq![Instr::Comment(push.describe())], push_body);
    assert(lines3 =~= seq![Instr::Comment(Cmd::Return.describe())] + return_code() + seq![
        Instr::Blank,
    ]);
    lemma_holds_parts(
        p,
        from + 12,
        seq![Instr::Comment(Cmd::Return.describe())] + return_code(),
        seq![Instr::Blank],
    );
    lemma_holds_parts(p, from + 12, seq![Instr::Comment(Cmd::Return.describe())], return_code());
    assert(p.code[from + 3] == lines2[0]);
    assert(p.code[from + 11] == lines2[8]);
    assert(p.code[from + 12] == lines3[0]);
    // The label and the empty line of the function's entry and the
    // comments take no room: the push stands where the call jumps to,
    // and the return behind the push.
    lemma_no_room(p, from + 1);
    lemma_no_room(p, from + 2);
    lemma_no_room(p, from + 3);
    lemma_no_room(p, from + 11);
    lemma_no_room(p, from + 12);
    lemma_call(p, m, at, symbol, 0, n);
    let m1 = run(p, m, 47);
    lemma_push(p, m1, from + 4, Addressing::Immediate(value), value);
    let m2 = run(p, m1, 7);
    assert(frame_kept(m1, m2));
    lemma_call_return(p, m, at, m2, from + 13, symbol, 0, n);
    lemma_run_split(p, m, 47, 7);
    lemma_run_split(p, m, 54, 42);
}

/// Whether a pop into a cell leaves alone what a push needs to find
/// the cell again: the cell is not the base register through which it is
/// found.
pub open spec fn found_again(p: Program, m: Machine, mode: Addressing, index: nat) -> bool {
    match mode {
        Addressing::FixedBase(base) => effective_address(p, m, mode, index) != register_address(
            base,
        ),
        _ => true,
    }
}

/// Round trip. A pop into a cell and a push from the same cell right
/// after it leave the stack as it was: the stack pointer is where it
/// was, and the value that was on top is on top again, and in the cell.
pub proof fn lemma_pop_push(
    p: Program,
    m: Machine,
    at: int,
    segment: MemorySegment,
    index: nat,
    module: Seq<char>,
    n: nat,
    scope: nat,
)
    requires
        p.well_formed(),
        p.holds(
            at,
            listing(seq![Cmd::Pop(segment, index), Cmd::Push(segment, index)], module, n, scope),
        ),
        m.pc == p.address(at),
        m.well_formed(),
        ready(p, m, Cmd::Pop(segment, index), module),
        found_again(p, m, addressing(segment, index, module), index),
    ensures
        ({
            let lines = listing(
                seq![Cmd::Pop(segment, index), Cmd::Push(segment, index)],
                module,
                n,
                scope,
            );
            let mode = addressing(segment, index, module);
            let after = run(p, m, pop_code(mode, index).len() + push_code(mode, index).len());
            &&& after.well_formed()
            &&& after.pc == p.address(at + lines.len())
            &&& after.sp() == m.sp()
            &&& after.top() == m.top()
            &&& after.ram[effective_address(p, m, mode, index)] == m.top()
        }),
{
    let pop = Cmd::Pop(segment, index);
    let push = Cmd::Push(segment, index);
    let mode = addressing(segment, index, module);
    let commands = seq![pop, push];
    let lines = listing(commands, module, n, scope);
    let a = seq![Instr::Comment(pop.describe())];
    let b = pop_code(mode, index);
    let c = seq![Instr::Blank, Instr::Comment(push.describe())];
    let d = push_code(mode, index);
    let e = seq![Instr::Blank];
    assert(lines =~= a + b + c + d + e) by {
        reveal_with_fuel(crate::driver::run_commands, 3);
        assert(commands.drop_last() =~= seq![pop]);
        assert(commands.drop_last().drop_last() =~= Seq::<Cmd>::empty());
    }
    lemma_holds_parts(p, at, a + b + c + d, e);
    lemma_holds_parts(p, at, a + b + c, d);
    lemma_holds_parts(p, at, a + b, c);
    lemma_holds_parts(p, at, a, b);
    assert(p.code[at + 0] == a[0]);
    lemma_no_room(p, at);
    lemma_pop(p, m, at + 1, mode, index);
    let m1 = run(p, m, b.len());
    let behind = at + 1 + b.len();
    assert(p.code[behind + 0] == c[0]);
    assert(p.code[behind + 1] == c[1]);
    lemma_no_room(p, behind);
    lemma_no_room(p, behind + 1);
    assert(effective_address(p, m1, mode, index) == effective_address(p, m, mode, index));
    lemma_push(p, m1, behind + 2, mode, index);
    let end = behind + 2 + d.len();
    assert(p.code[end + 0] == e[0]);
    lemma_no_room(p, end);
    lemma_run_split(p, m, b.len(), d.len());
}

/// Static scoping. A pop into a static variable of one module leaves
/// the static variables of other modules, and the other static
/// variables of the same module, as they were, wherever the program
/// gives different symbols different cells, as an assembler does with
/// the symbols of variables. The symbols of two static variables are
/// the same only if the modules and the indices are.
pub proof fn lemma_static_scoping(
    p: Program,
    m: Machine,
    at: int,
    module: Seq<char>,
    index: nat,
    other_module: Seq<char>,
    other_index: nat,
)
    requires
        p.well_formed(),
        p.holds(at, pop_code(Addressing::Symbolic(static_symbol(module, index)), index)),
        m.pc == p.address(at),
        m.well_formed(),
        m.stack_ok(1, 0),
        module != other_module || index != other_index,
        p.symbols[static_symbol(other_module, other_index)] != 0,
        static_symbol(module, index) != static_symbol(other_module, other_index)
            ==> p.symbols[static_symbol(module, index)] != p.symbols[static_symbol(
            other_module,
            other_index,
        )],
    ensures
        static_symbol(module, index) != static_symbol(other_module, other_index),
        ({
            let after = run(p, m, 5);
            &&& after.ram[p.symbols[static_symbol(module, index)]] == m.top()
            &&& after.ram[p.symbols[static_symbol(other_module, other_index)]]
                == m.ram[p.symbols[static_symbol(other_module, other_index)]]
        }),
{
    if static_symbol(module, index) == static_symbol(other_module, other_index) {
        lemma_static_symbol_injective(module, index, other_module, other_index);
    }
    lemma_pop(p, m, at, Addressing::Symbolic(static_symbol(module, index)), index);
}

} // verus!
