//! A model of the target machine: what running an assembly program does
//! to its registers and its memory.
//!
//! The machine has two registers, `A` and `D`, a memory of 32768 words
//! of 16 bits, and a program counter. The lines of a program that are
//! instructions are numbered from 0 on, in their order; the program
//! counter holds the number of the instruction that runs next, and a
//! label stands for the number of the instruction that follows it.
//! Comments, empty lines and labels take no room and no time.
use crate::assembly::{register_name, Comp, Dest, Instr, Jump, Register};
use vstd::prelude::*;

verus! {

/// A number as a word: wrapped around to 16 bits.
pub open spec fn wrap(value: int) -> int {
    value % 0x10000
}

/// The memory cell that a word addresses: the memory has 32768 cells,
/// and the highest bit of the word is passed over.
pub open spec fn cell(word: int) -> int {
    word % 0x8000
}

/// A word read as a signed number.
pub open spec fn signed(word: int) -> int {
    if word >= 0x8000 {
        word - 0x10000
    } else {
        word
    }
}

/// The address of a named cell.
pub open spec fn register_address(register: Register) -> int {
    match register {
        Register::Sp => 0,
        Register::Lcl => 1,
        Register::Arg => 2,
        Register::This => 3,
        Register::That => 4,
        Register::R13 => 13,
        Register::R14 => 14,
    }
}

/// The address of a symbol that the assembly language defines: the
/// named cells, the cells `R0` to `R15`, and the screen and the keyboard.
pub open spec fn predefined(name: Seq<char>) -> Option<int> {
    if name == seq!['S', 'P'] || name == seq!['R', '0'] {
        Some(0)
    } else if name == seq!['L', 'C', 'L'] || name == seq!['R', '1'] {
        Some(1)
    } else if name == seq!['A', 'R', 'G'] || name == seq!['R', '2'] {
        Some(2)
    } else if name == seq!['T', 'H', 'I', 'S'] || name == seq!['R', '3'] {
        Some(3)
    } else if name == seq!['T', 'H', 'A', 'T'] || name == seq!['R', '4'] {
        Some(4)
    } else if name == seq!['R', '5'] {
        Some(5)
    } else if name == seq!['R', '6'] {
        Some(6)
    } else if name == seq!['R', '7'] {
        Some(7)
    } else if name == seq!['R', '8'] {
        Some(8)
    } else if name == seq!['R', '9'] {
        Some(9)
    } else if name == seq!['R', '1', '0'] {
        Some(10)
    } else if name == seq!['R', '1', '1'] {
        Some(11)
    } else if name == seq!['R', '1', '2'] {
        Some(12)
    } else if name == seq!['R', '1', '3'] {
        Some(13)
    } else if name == seq!['R', '1', '4'] {
        Some(14)
    } else if name == seq!['R', '1', '5'] {
        Some(15)
    } else if name == seq!['S', 'C', 'R', 'E', 'E', 'N'] {
        Some(0x4000)
    } else if name == seq!['K', 'B', 'D'] {
        Some(0x6000)
    } else {
        None
    }
}

/// What the names of the defined symbols are made of, and that the
/// named cells are where the language defines them.
pub proof fn lemma_predefined_names()
    ensures
        forall|name: Seq<char>|
            #![trigger predefined(name)]
            predefined(name) is Some ==> name.len() >= 2 && (name[0] == 'S' || name[0] == 'L'
                || name[0] == 'A' || name[0] == 'T' || name[0] == 'K' || name[0] == 'R'),
        forall|register: Register|
            #![trigger register_name(register)]
            predefined(register_name(register)) == Some(register_address(register)),
{
    assert forall|register: Register| #![trigger register_name(register)]
        predefined(register_name(register)) == Some(register_address(register)) by {
        let name = register_name(register);
        match register {
            Register::Sp => {},
            Register::Lcl => {
                assert(name.len() == 3 && name[0] == 'L');
            },
            Register::Arg => {
                assert(name.len() == 3 && name[0] == 'A');
            },
            Register::This => {
                assert(name.len() == 4 && name[2] == 'I');
            },
            Register::That => {
                assert(name.len() == 4 && name[2] == 'A');
            },
            Register::R13 => {
                assert(name.len() == 3 && name[0] == 'R' && name[1] == '1' && name[2] == '3');
            },
            Register::R14 => {
                assert(name.len() == 3 && name[0] == 'R' && name[1] == '1' && name[2] == '4');
            },
        }
    }
}

/// The names of the defined symbols hold no dot and no dollar sign.
pub proof fn lemma_predefined_plain(name: Seq<char>, k: int)
    requires
        predefined(name) is Some,
        0 <= k < name.len(),
    ensures
        name[k] != '.',
        name[k] != '$',
{
    assert(name.len() <= 6);
    if k == 0 {
    } else if k == 1 {
    } else if k == 2 {
    } else if k == 3 {
    } else if k == 4 {
    } else {
    }
}

/// The state of the machine.
pub struct Machine {
    pub a: int,
    pub d: int,
    /// The number of the instruction that runs next.
    pub pc: int,
    pub ram: Map<int, int>,
}

/// A program as the machine holds it: its lines and the address that
/// each symbol stands for.
pub struct Program {
    pub code: Seq<Instr>,
    pub symbols: Map<Seq<char>, int>,
}

impl Program {
    /// Whether every symbol stands for an address of 15 bits, every
    /// symbol that the assembly language defines for its address, and
    /// every label for the address of the line that defines it. No
    /// program that defines a label twice, or a label that the language
    /// defines, is like that.
    pub open spec fn well_formed(self) -> bool {
        &&& forall|name: Seq<char>| #[trigger] self.symbols.dom().contains(name)
        &&& forall|name: Seq<char>| 0 <= #[trigger] self.symbols[name] < 0x8000
        &&& forall|name: Seq<char>|
            predefined(name) is Some ==> #[trigger] self.symbols[name] == predefined(
                name,
            )->Some_0
        &&& forall|i: int|
            0 <= i < self.code.len() && (#[trigger] self.code[i]) is Label
                ==> self.symbols[self.code[i]->Label_0] == self.address(i)
    }

    /// Whether the lines `block` stand in the program from line `at` on.
    pub open spec fn holds(self, at: int, block: Seq<Instr>) -> bool {
        stands_at(self.code, at, block)
    }

    /// The number of the first instruction at or behind line `line`: the
    /// address that a label on that line stands for.
    pub open spec fn address(self, line: int) -> int {
        instructions_between(self.code, 0, line)
    }
}

/// Whether a line is an instruction: a load or a compute instruction.
pub open spec fn is_instruction(line: Instr) -> bool {
    line is Const || line is Reg || line is Symbol || line is Compute
}

/// How many of the lines from index `from` up to, but not including,
/// index `to` are instructions.
pub open spec fn instructions_between(code: Seq<Instr>, from: int, to: int) -> int
    decreases to - from,
{
    if from < 0 || from >= to || to > code.len() {
        0
    } else if is_instruction(code[from]) {
        1 + instructions_between(code, from + 1, to)
    } else {
        instructions_between(code, from + 1, to)
    }
}

/// Whether line `line` holds the instruction with the number `address`.
pub open spec fn is_line_of(code: Seq<Instr>, address: int, line: int) -> bool {
    0 <= line < code.len() && is_instruction(code[line]) && instructions_between(code, 0, line)
        == address
}

/// The line that holds the instruction with the number `address`.
pub open spec fn line_of(code: Seq<Instr>, address: int) -> int {
    choose|line: int| is_line_of(code, address, line)
}

/// The instruction with the number `address`, if there is one.
pub open spec fn fetch(code: Seq<Instr>, address: int) -> Option<Instr> {
    if exists|line: int| is_line_of(code, address, line) {
        Some(code[line_of(code, address)])
    } else {
        None
    }
}

/// Whether the lines `block` stand among the lines `code` from index
/// `at` on.
pub open spec fn stands_at(code: Seq<Instr>, at: int, block: Seq<Instr>) -> bool {
    &&& 0 <= at
    &&& at + block.len() <= code.len()
    &&& forall|i: int| 0 <= i < block.len() ==> code[at + i] == #[trigger] block[i]
}

impl Machine {
    /// The stack pointer: the address of the first free cell of the
    /// stack.
    pub open spec fn sp(self) -> int {
        self.ram[0]
    }

    /// The value of a named cell.
    pub open spec fn register(self, register: Register) -> int {
        self.ram[register_address(register)]
    }

    /// The cell on top of the stack.
    pub open spec fn top(self) -> int {
        self.ram[self.sp() - 1]
    }

    /// Whether the registers hold words and the memory holds a word at
    /// every address.
    pub open spec fn well_formed(self) -> bool {
        &&& 0 <= self.a < 0x10000
        &&& 0 <= self.d < 0x10000
        &&& forall|address: int| #[trigger] self.ram.dom().contains(address)
        &&& forall|address: int| 0 <= #[trigger] self.ram[address] < 0x10000
    }

    /// Whether the stack, which starts at address 256, holds at least
    /// `operands` cells and has room for `growth` more below address
    /// 32768.
    pub open spec fn stack_ok(self, operands: int, growth: int) -> bool {
        256 + operands <= self.sp() && self.sp() + growth < 0x8000
    }
}

/// The bits that two words share.
pub open spec fn word_and(x: int, y: int) -> int {
    ((wrap(x) as u16) & (wrap(y) as u16)) as int
}

/// The bits that one of two words has.
pub open spec fn word_or(x: int, y: int) -> int {
    ((wrap(x) as u16) | (wrap(y) as u16)) as int
}

/// The word that a computation gives, from the registers and the cell
/// `m` that `A` addresses.
pub open spec fn comp_value(comp: Comp, a: int, d: int, m: int) -> int {
    match comp {
        Comp::Zero => 0,
        Comp::One => 1,
        Comp::MinusOne => 0xFFFF,
        Comp::D => d,
        Comp::A => a,
        Comp::M => m,
        Comp::NotD => wrap(-d - 1),
        Comp::NotA => wrap(-a - 1),
        Comp::NotM => wrap(-m - 1),
        Comp::NegD => wrap(-d),
        Comp::NegA => wrap(-a),
        Comp::NegM => wrap(-m),
        Comp::DPlusOne => wrap(d + 1),
        Comp::APlusOne => wrap(a + 1),
        Comp::MPlusOne => wrap(m + 1),
        Comp::DMinusOne => wrap(d - 1),
        Comp::AMinusOne => wrap(a - 1),
        Comp::MMinusOne => wrap(m - 1),
        Comp::DPlusA => wrap(d + a),
        Comp::DPlusM => wrap(d + m),
        Comp::DMinusA => wrap(d - a),
        Comp::DMinusM => wrap(d - m),
        Comp::AMinusD => wrap(a - d),
        Comp::MMinusD => wrap(m - d),
        Comp::DAndA => word_and(d, a),
        Comp::DAndM => word_and(d, m),
        Comp::DOrA => word_or(d, a),
        Comp::DOrM => word_or(d, m),
    }
}

/// Whether a jump is taken on a computed word.
pub open spec fn jump_taken(jump: Jump, value: int) -> bool {
    match jump {
        Jump::Never => false,
        Jump::Jgt => signed(value) > 0,
        Jump::Jeq => value == 0,
        Jump::Jge => signed(value) >= 0,
        Jump::Jlt => signed(value) < 0,
        Jump::Jne => value != 0,
        Jump::Jle => signed(value) <= 0,
        Jump::Jmp => true,
    }
}

pub open spec fn writes_a(dest: Dest) -> bool {
    dest == Dest::A || dest == Dest::AM || dest == Dest::AD || dest == Dest::AMD
}

pub open spec fn writes_d(dest: Dest) -> bool {
    dest == Dest::D || dest == Dest::MD || dest == Dest::AD || dest == Dest::AMD
}

pub open spec fn writes_m(dest: Dest) -> bool {
    dest == Dest::M || dest == Dest::MD || dest == Dest::AM || dest == Dest::AMD
}

/// What a compute instruction does: it computes a word, stores it where
/// the destination says, the cell being the one that `A` addressed
/// before, and jumps to the instruction whose number `A` held before if
/// the jump is taken.
pub open spec fn compute(m: Machine, dest: Dest, comp: Comp, jump: Jump) -> Machine {
    let value = comp_value(comp, m.a, m.d, m.ram[cell(m.a)]);
    Machine {
        a: if writes_a(dest) {
            value
        } else {
            m.a
        },
        d: if writes_d(dest) {
            value
        } else {
            m.d
        },
        pc: if jump_taken(jump, value) {
            m.a
        } else {
            m.pc + 1
        },
        ram: if writes_m(dest) {
            m.ram.insert(cell(m.a), value)
        } else {
            m.ram
        },
    }
}

/// What running one line does. A line that is no instruction does
/// nothing.
pub open spec fn execute(p: Program, m: Machine, line: Instr) -> Machine {
    match line {
        Instr::Const(value) => Machine { a: value as int, pc: m.pc + 1, ..m },
        Instr::Reg(register) => Machine { a: register_address(register), pc: m.pc + 1, ..m },
        Instr::Symbol(name) => Machine { a: p.symbols[name], pc: m.pc + 1, ..m },
        Instr::Compute(dest, comp, jump) => compute(m, dest, comp, jump),
        _ => m,
    }
}

/// The machine after the instruction at the program counter has run.
/// Off the program the machine stands still.
pub open spec fn step(p: Program, m: Machine) -> Machine {
    match fetch(p.code, m.pc) {
        Some(line) => execute(p, m, line),
        None => m,
    }
}

/// The machine after `steps` instructions have run.
pub open spec fn run(p: Program, m: Machine, steps: nat) -> Machine
    decreases steps,
{
    if steps == 0 {
        m
    } else {
        run(p, step(p, m), (steps - 1) as nat)
    }
}

/// Running `first + then` instructions is running `first` instructions
/// and `then` instructions after them.
pub proof fn lemma_run_split(p: Program, m: Machine, first: nat, then: nat)
    ensures
        run(p, m, first + then) == run(p, run(p, m, first), then),
    decreases first,
{
    if first > 0 {
        lemma_run_split(p, step(p, m), (first - 1) as nat, then);
    }
}

/// A program that holds a block holds each of its two parts.
pub proof fn lemma_holds_parts(p: Program, at: int, first: Seq<Instr>, then: Seq<Instr>)
    requires
        p.holds(at, first + then),
    ensures
        p.holds(at, first),
        p.holds(at + first.len(), then),
{
    let block = first + then;
    assert forall|i: int| 0 <= i < first.len() implies p.code[at + i] == #[trigger] first[i] by {
        assert(block[i] == first[i]);
    }
    assert forall|i: int| 0 <= i < then.len() implies p.code[at + first.len() + i]
        == #[trigger] then[i] by {
        assert(block[first.len() + i] == then[i]);
    }
}

/// Counting instructions in two stretches of lines, one behind the
/// other, is counting them in the whole.
pub proof fn lemma_instructions_between_split(code: Seq<Instr>, from: int, mid: int, to: int)
    requires
        0 <= from <= mid <= to <= code.len(),
    ensures
        instructions_between(code, from, to) == instructions_between(code, from, mid)
            + instructions_between(code, mid, to),
        0 <= instructions_between(code, from, to) <= to - from,
    decreases to - from,
{
    if from < mid {
        lemma_instructions_between_split(code, from + 1, mid, to);
        lemma_instructions_between_split(code, from + 1, mid, mid);
    } else if from < to {
        lemma_instructions_between_split(code, from + 1, from + 1, to);
    }
}

/// One line holds one instruction or none.
pub proof fn lemma_one_line(code: Seq<Instr>, line: int)
    requires
        0 <= line < code.len(),
    ensures
        instructions_between(code, line, line + 1) == if is_instruction(code[line]) {
            1int
        } else {
            0int
        },
{
    reveal_with_fuel(instructions_between, 2);
}

/// Lines that stand in a program hold as many instructions there as by
/// themselves.
pub proof fn lemma_instructions_of_block(
    code: Seq<Instr>,
    at: int,
    block: Seq<Instr>,
    from: int,
    to: int,
)
    requires
        stands_at(code, at, block),
        0 <= from <= to <= block.len(),
    ensures
        instructions_between(code, at + from, at + to) == instructions_between(block, from, to),
    decreases to - from,
{
    if from < to {
        assert(code[at + from] == block[from]);
        lemma_instructions_of_block(code, at, block, from + 1, to);
    }
}

/// Lines that are all instructions hold as many instructions as lines.
pub proof fn lemma_all_instructions(block: Seq<Instr>, from: int, to: int)
    requires
        0 <= from <= to <= block.len(),
        forall|i: int| from <= i < to ==> is_instruction(#[trigger] block[i]),
    ensures
        instructions_between(block, from, to) == to - from,
    decreases to - from,
{
    if from < to {
        lemma_all_instructions(block, from + 1, to);
    }
}

/// The instruction on a line is the one that the machine fetches at the
/// address of the line.
pub proof fn lemma_fetch(code: Seq<Instr>, line: int)
    requires
        0 <= line < code.len(),
        is_instruction(code[line]),
    ensures
        fetch(code, instructions_between(code, 0, line)) == Some(code[line]),
{
    let address = instructions_between(code, 0, line);
    assert(is_line_of(code, address, line));
    let found = line_of(code, address);
    // Two instructions on different lines have different numbers.
    if found < line {
        lemma_instructions_between_split(code, 0, found, line);
        lemma_instructions_between_split(code, found, found + 1, line);
        lemma_instructions_between_split(code, found + 1, line, line);
        assert(instructions_between(code, found, found + 1) == 1);
    } else if line < found {
        lemma_instructions_between_split(code, 0, line, found);
        lemma_instructions_between_split(code, line, line + 1, found);
        lemma_instructions_between_split(code, line + 1, found, found);
        assert(instructions_between(code, line, line + 1) == 1);
    }
}

/// Whether no two lines define the same label.
pub open spec fn labels_unique(code: Seq<Instr>) -> bool {
    forall|i: int, j: int|
        0 <= i < j < code.len() && (#[trigger] code[i]) is Label ==> code[i] != #[trigger] code[j]
}

/// Whether a line of the code defines the label `name`.
pub open spec fn is_defined(code: Seq<Instr>, name: Seq<char>) -> bool {
    exists|i: int| 0 <= i < code.len() && #[trigger] code[i] == Instr::Label(name)
}

/// Whether a symbol is a variable of the program: neither a symbol that
/// the language defines nor a label that the program defines.
pub open spec fn is_variable(code: Seq<Instr>, name: Seq<char>) -> bool {
    predefined(name) is None && !is_defined(code, name)
}

/// The index of the first line at or after `from` that loads the
/// address of `name`, or the number of lines if there is none.
pub open spec fn first_use(code: Seq<Instr>, name: Seq<char>, from: int) -> int
    decreases code.len() - from,
{
    if from < 0 || from >= code.len() {
        code.len() as int
    } else if code[from] == Instr::Symbol(name) {
        from
    } else {
        first_use(code, name, from + 1)
    }
}

/// Whether line `line` is the first to use a variable.
pub open spec fn introduces(code: Seq<Instr>, line: int) -> bool {
    &&& 0 <= line < code.len()
    &&& code[line] is Symbol
    &&& is_variable(code, code[line]->Symbol_0)
    &&& first_use(code, code[line]->Symbol_0, 0) == line
}

/// How many variables the lines before line `line` use for the first
/// time.
pub open spec fn variables_before(code: Seq<Instr>, line: int) -> int
    decreases line,
{
    if line <= 0 || line > code.len() {
        0
    } else if introduces(code, line - 1) {
        variables_before(code, line - 1) + 1
    } else {
        variables_before(code, line - 1)
    }
}

/// The cell of a variable: the variables get the cells from 16 on, in
/// the order in which the program uses them for the first time.
pub open spec fn variable_cell(code: Seq<Instr>, name: Seq<char>) -> int {
    16 + variables_before(code, first_use(code, name, 0))
}

/// The symbol table of a program, as an assembler makes it: each symbol
/// that the language defines stands for its address, each label for the
/// address of the line that defines it, and each other symbol for the
/// cell of a variable.
pub open spec fn symbol_table(code: Seq<Instr>) -> Map<Seq<char>, int> {
    Map::total(
        |name: Seq<char>|
            if predefined(name) is Some {
                predefined(name)->Some_0
            } else if is_defined(code, name) {
                instructions_between(
                    code,
                    0,
                    choose|i: int| 0 <= i < code.len() && #[trigger] code[i] == Instr::Label(name),
                )
            } else {
                variable_cell(code, name)
            },
    )
}

/// Where a symbol is used for the first time.
pub proof fn lemma_first_use(code: Seq<Instr>, name: Seq<char>, from: int)
    requires
        0 <= from <= code.len(),
    ensures
        from <= first_use(code, name, from) <= code.len(),
        first_use(code, name, from) < code.len() ==> code[first_use(code, name, from)]
            == Instr::Symbol(name),
        forall|k: int|
            from <= k < first_use(code, name, from) ==> #[trigger] code[k] != Instr::Symbol(name),
    decreases code.len() - from,
{
    if from < code.len() && code[from] != Instr::Symbol(name) {
        lemma_first_use(code, name, from + 1);
    }
}

/// The count of variables grows with the lines, by one at most for each
/// line.
pub proof fn lemma_variables_before(code: Seq<Instr>, from: int, to: int)
    requires
        0 <= from <= to <= code.len(),
    ensures
        variables_before(code, from) <= variables_before(code, to) <= variables_before(
            code,
            from,
        ) + (to - from),
        0 <= variables_before(code, from) <= from,
    decreases to,
{
    if from < to {
        lemma_variables_before(code, from, to - 1);
    } else if from > 0 {
        lemma_variables_before(code, 0, from - 1);
        lemma_variables_before(code, from - 1, from - 1);
    }
}

/// Variables have cells of their own. Two different variables that a
/// program uses have different cells, both from 16 on.
pub proof fn lemma_variable_cells_apart(code: Seq<Instr>, x: Seq<char>, y: Seq<char>)
    requires
        x != y,
        is_variable(code, x),
        is_variable(code, y),
        first_use(code, x, 0) < code.len(),
        first_use(code, y, 0) < code.len(),
    ensures
        variable_cell(code, x) != variable_cell(code, y),
        symbol_table(code)[x] == variable_cell(code, x),
        symbol_table(code)[y] == variable_cell(code, y),
        symbol_table(code)[x] != symbol_table(code)[y],
        symbol_table(code)[x] >= 16,
        symbol_table(code)[y] >= 16,
{
    let fx = first_use(code, x, 0);
    let fy = first_use(code, y, 0);
    lemma_first_use(code, x, 0);
    lemma_first_use(code, y, 0);
    lemma_variables_before(code, 0, fx);
    lemma_variables_before(code, 0, fy);
    if fx < fy {
        assert(introduces(code, fx));
        assert(variables_before(code, fx + 1) == variables_before(code, fx) + 1);
        lemma_variables_before(code, fx + 1, fy);
    } else {
        assert(fy < fx);
        assert(introduces(code, fy));
        assert(variables_before(code, fy + 1) == variables_before(code, fy) + 1);
        lemma_variables_before(code, fy + 1, fx);
    }
}

/// A program of which no two lines define the same label, and none a
/// symbol that the language defines, and which is short enough for its
/// instructions and its variables to have addresses of 15 bits, is well
/// formed with its symbol table.
pub proof fn lemma_symbol_table(code: Seq<Instr>)
    requires
        labels_unique(code),
        forall|i: int|
            0 <= i < code.len() && (#[trigger] code[i]) is Label ==> predefined(
                code[i]->Label_0,
            ) is None,
        code.len() + 16 < 0x8000,
    ensures
        (Program { code, symbols: symbol_table(code) }).well_formed(),
{
    let p = Program { code, symbols: symbol_table(code) };
    assert forall|name: Seq<char>| 0 <= #[trigger] p.symbols[name] < 0x8000 by {
        if predefined(name) is None && is_defined(code, name) {
            let k = choose|k: int| 0 <= k < code.len() && #[trigger] code[k] == Instr::Label(name);
            lemma_instructions_between_split(code, 0, k, k);
        } else if predefined(name) is None {
            lemma_first_use(code, name, 0);
            lemma_variables_before(code, 0, first_use(code, name, 0));
        }
    }
    assert forall|i: int|
        0 <= i < code.len() && (#[trigger] code[i]) is Label implies p.symbols[code[i]->Label_0]
        == p.address(i) by {
        let name = code[i]->Label_0;
        assert(code[i] == Instr::Label(name));
        assert(is_defined(code, name));
        let k = choose|k: int| 0 <= k < code.len() && #[trigger] code[k] == Instr::Label(name);
        if k < i {
            assert(code[k] is Label);
        }
    }
}

/// Whether each number that a line of the program loads into `A` is a
/// number of 15 bits.
pub open spec fn encodable(code: Seq<Instr>) -> bool {
    forall|i: int|
        0 <= i < code.len() && (#[trigger] code[i]) is Const ==> code[i]->Const_0 < 0x8000
}

/// The machine stays well formed: a step of a well-formed program whose
/// numbers are of 15 bits leaves words in the registers and in memory.
pub proof fn lemma_step_well_formed(p: Program, m: Machine)
    requires
        p.well_formed(),
        encodable(p.code),
        m.well_formed(),
    ensures
        step(p, m).well_formed(),
{
    match fetch(p.code, m.pc) {
        Some(Instr::Compute(dest, comp, jump)) => {
            let value = comp_value(comp, m.a, m.d, m.ram[cell(m.a)]);
            assert(0 <= m.ram[cell(m.a)] < 0x10000);
            assert(0 <= value < 0x10000);
        },
        _ => {},
    }
}

/// The machine stays well formed however long it runs.
pub proof fn lemma_run_well_formed(p: Program, m: Machine, steps: nat)
    requires
        p.well_formed(),
        encodable(p.code),
        m.well_formed(),
    ensures
        run(p, m, steps).well_formed(),
    decreases steps,
{
    if steps > 0 {
        lemma_step_well_formed(p, m);
        lemma_run_well_formed(p, step(p, m), (steps - 1) as nat);
    }
}

} // verus!
