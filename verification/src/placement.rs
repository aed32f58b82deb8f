//! Where the lines of each command stand in a translated program, and
//! what they do there.
use crate::assembly::Instr;
use crate::driver::{
    commands_of, defines_entry, lemma_first_untranslated_bounds, lemma_first_untranslated_none,
    ordered, run_commands, run_units, start_state, translation, units_of, Source, Unit,
};
use crate::effect::{leaves_at, lemma_stack_effect, lemma_static_scoping, ready, stack_effect};
use crate::labels::static_symbol;
use crate::machine::{
    first_use, lemma_first_use, lemma_holds_parts, run, stands_at, symbol_table, Machine,
    Program,
};
use crate::resolver::Addressing;
use crate::translation::{command_code, final_loop_code, marked, pop_code, translatable};
use crate::uniqueness::{lemma_program_loadable, lemma_run_commands_labels, lemma_statics_apart};
use crate::utils::Cmd;
use crate::writer::WriterState;
use vstd::prelude::*;

verus! {

/// The lines that the generator writes for a command in a given state:
/// the comment that restates the command, then the code of the command
/// with its marks on.
pub open spec fn command_lines(state: WriterState, command: Cmd) -> Seq<Instr> {
    seq![Instr::Comment(command.describe())] + command_code(
        marked(command, state.module, state.scope),
        state.module,
        state.counter,
    )
}

/// The state of the generator just before it translates command `j` of
/// module `m`, having started the modules in `state`.
pub open spec fn state_before(state: WriterState, units: Seq<Unit>, m: int, j: int) -> WriterState {
    let entered = run_units(state, units.take(m)).enter_module(units[m].name);
    run_commands(entered, commands_of(units[m].commands).take(j))
}

/// Lines that stand among lines stand among them still when more lines
/// follow.
pub proof fn lemma_stands_at_longer(code: Seq<Instr>, more: Seq<Instr>, at: int, block: Seq<Instr>)
    requires
        stands_at(code, at, block),
    ensures
        stands_at(code + more, at, block),
{
    assert forall|i: int| 0 <= i < block.len() implies (code + more)[at + i]
        == #[trigger] block[i] by {
        assert(code[at + i] == block[i]);
    }
}

/// What the generator has written stays as it is while commands are
/// translated: the lines after are the lines before, and more.
pub proof fn lemma_run_commands_extends(state: WriterState, commands: Seq<Cmd>)
    ensures
        state.code.len() <= run_commands(state, commands).code.len(),
        run_commands(state, commands).code.take(state.code.len() as int) == state.code,
    decreases commands.len(),
{
    if commands.len() == 0 {
        assert(state.code.take(state.code.len() as int) =~= state.code);
    } else {
        lemma_run_commands_extends(state, commands.drop_last());
        let mid = run_commands(state, commands.drop_last());
        let after = run_commands(state, commands);
        assert(after.code.take(state.code.len() as int) =~= mid.code.take(
            state.code.len() as int,
        ));
    }
}

/// What the generator has written stays as it is while modules are
/// translated.
pub proof fn lemma_run_units_extends(state: WriterState, units: Seq<Unit>)
    ensures
        state.code.len() <= run_units(state, units).code.len(),
        run_units(state, units).code.take(state.code.len() as int) == state.code,
    decreases units.len(),
{
    if units.len() == 0 {
        assert(state.code.take(state.code.len() as int) =~= state.code);
    } else {
        lemma_run_units_extends(state, units.drop_last());
        let mid = run_units(state, units.drop_last());
        let entered = mid.enter_module(units.last().name);
        lemma_run_commands_extends(entered, commands_of(units.last().commands));
        let after = run_units(state, units);
        assert(after.code.take(state.code.len() as int) =~= mid.code.take(
            state.code.len() as int,
        ));
    }
}

/// Lines that stand among the first lines of a program stand in the
/// program.
proof fn lemma_stands_at_prefix(code: Seq<Instr>, shorter: Seq<Instr>, at: int, block: Seq<Instr>)
    requires
        shorter.len() <= code.len(),
        code.take(shorter.len() as int) == shorter,
        stands_at(shorter, at, block),
    ensures
        stands_at(code, at, block),
{
    assert forall|i: int| 0 <= i < block.len() implies code[at + i] == #[trigger] block[i] by {
        assert(shorter[at + i] == block[i]);
        assert(code.take(shorter.len() as int)[at + i] == code[at + i]);
    }
}

/// The lines of each command stand in what the generator writes for a
/// list of commands: behind the lines of the commands before it, and as
/// the state of the generator at that point makes them.
pub proof fn lemma_command_placed(state: WriterState, commands: Seq<Cmd>, j: int)
    requires
        0 <= j < commands.len(),
    ensures
        ({
            let before = run_commands(state, commands.take(j));
            stands_at(
                run_commands(state, commands).code,
                before.code.len() as int,
                command_lines(before, commands[j]),
            )
        }),
    decreases commands.len(),
{
    let front = commands.drop_last();
    let mid = run_commands(state, front);
    let after = run_commands(state, commands);
    if j == commands.len() - 1 {
        assert(commands.take(j) =~= front);
        let lines = command_lines(mid, commands[j]);
        assert(after.code =~= mid.code + lines);
        assert forall|i: int| 0 <= i < lines.len() implies after.code[mid.code.len() + i]
            == #[trigger] lines[i] by {}
    } else {
        lemma_command_placed(state, front, j);
        assert(front.take(j) =~= commands.take(j));
        assert(front[j] == commands[j]);
        let before = run_commands(state, commands.take(j));
        let more = command_lines(mid, commands.last());
        assert(after.code =~= mid.code + more);
        lemma_stands_at_longer(
            mid.code,
            more,
            before.code.len() as int,
            command_lines(before, commands[j]),
        );
    }
}

/// The lines of each command of each module stand in what the
/// generator writes for the modules.
pub proof fn lemma_command_placed_in_units(state: WriterState, units: Seq<Unit>, m: int, j: int)
    requires
        0 <= m < units.len(),
        0 <= j < units[m].commands.len(),
    ensures
        ({
            let before = state_before(state, units, m, j);
            stands_at(
                run_units(state, units).code,
                before.code.len() as int,
                command_lines(before, commands_of(units[m].commands)[j]),
            )
        }),
    decreases units.len(),
{
    let front = units.drop_last();
    let mid = run_units(state, front);
    let last = units.last();
    let entered = mid.enter_module(last.name);
    let commands = commands_of(last.commands);
    if m == units.len() - 1 {
        assert(units.take(m) =~= front);
        lemma_command_placed(entered, commands, j);
    } else {
        lemma_command_placed_in_units(state, front, m, j);
        assert(front.take(m) =~= units.take(m));
        assert(front[m] == units[m]);
        let before = state_before(state, units, m, j);
        lemma_run_commands_extends(entered, commands);
        assert(run_units(state, units).code.take(mid.code.len() as int) =~= entered.code.take(
            mid.code.len() as int,
        ));
        assert(entered.code.take(mid.code.len() as int) =~= mid.code);
        lemma_stands_at_prefix(
            run_units(state, units).code,
            mid.code,
            before.code.len() as int,
            command_lines(before, commands_of(units[m].commands)[j]),
        );
    }
}

/// The lines of each command stand in the translated program. Of a
/// program that is translated, each command of each module, the modules
/// taken in the order of their names, has its comment and its code
/// standing in the program, made with the module's name and the label
/// number that the generator has reached by then.
pub proof fn lemma_command_placed_in_program(modules: Seq<Source>, m: int, j: int)
    requires
        translation(modules) is Ok,
        0 <= m < modules.len(),
        0 <= j < units_of(ordered(modules))[m].commands.len(),
    ensures
        ({
            let units = units_of(ordered(modules));
            let before = state_before(start_state(defines_entry(units)), units, m, j);
            &&& before.module == units[m].name
            &&& translatable(commands_of(units[m].commands)[j])
            &&& stands_at(
                translation(modules)->Ok_0,
                before.code.len() as int,
                command_lines(before, commands_of(units[m].commands)[j]),
            )
        }),
{
    let units = units_of(ordered(modules));
    let start = start_state(defines_entry(units));
    let before = state_before(start, units, m, j);
    let commands = commands_of(units[m].commands);
    lemma_first_untranslated_bounds(units, 0);
    lemma_first_untranslated_none(units, 0);
    assert(translatable(commands_of(units[m].commands)[j]));
    lemma_command_placed_in_units(start, units, m, j);
    lemma_stands_at_longer(
        run_units(start, units).code,
        final_loop_code(),
        before.code.len() as int,
        command_lines(before, commands[j]),
    );
    let entered = run_units(start, units.take(m)).enter_module(units[m].name);
    assert forall|i: int| 0 <= i < commands.take(j).len() implies translatable(
        #[trigger] commands.take(j)[i],
    ) by {
        assert(commands.take(j)[i] == commands[i]);
        assert(translatable(commands_of(units[m].commands)[i]));
    }
    lemma_run_commands_labels(entered, commands.take(j));
}

/// Command `j` of module `m` of a program as it is written into the
/// program: with its marks on, in the scope that the generator is in.
pub open spec fn written_command(modules: Seq<Source>, m: int, j: int) -> Cmd {
    let units = units_of(ordered(modules));
    let before = state_before(start_state(defines_entry(units)), units, m, j);
    marked(commands_of(units[m].commands)[j], units[m].name, before.scope)
}

/// The line at which the code of command `j` of module `m` starts in the
/// translated program: the line behind the comment that restates the
/// command.
pub open spec fn code_line(modules: Seq<Source>, m: int, j: int) -> int {
    let units = units_of(ordered(modules));
    state_before(start_state(defines_entry(units)), units, m, j).code.len() as int + 1
}

/// The stack effect in a translated program. A translated program,
/// loaded with its symbol table, is well formed, whatever names it
/// declares. The code of each of its commands that is neither a call nor
/// a return stands behind its comment, and a machine that is ready for
/// the command and stands at that code gets through it and has then
/// moved the stack pointer as far as the command says.
pub proof fn lemma_translated_stack_effect(
    modules: Seq<Source>,
    machine: Machine,
    m: int,
    j: int,
)
    requires
        translation(modules) is Ok,
        translation(modules)->Ok_0.len() + 16 < 0x8000,
        0 <= m < modules.len(),
        0 <= j < units_of(ordered(modules))[m].commands.len(),
        !(commands_of(units_of(ordered(modules))[m].commands)[j] is Call),
        !(commands_of(units_of(ordered(modules))[m].commands)[j] is Return),
        machine.well_formed(),
        ({
            let p = Program {
                code: translation(modules)->Ok_0,
                symbols: symbol_table(translation(modules)->Ok_0),
            };
            &&& machine.pc == p.address(code_line(modules, m, j))
            &&& ready(p, machine, written_command(modules, m, j), ordered(modules)[m].name)
        }),
    ensures
        ({
            let p = Program {
                code: translation(modules)->Ok_0,
                symbols: symbol_table(translation(modules)->Ok_0),
            };
            let units = units_of(ordered(modules));
            let command = commands_of(units[m].commands)[j];
            let written = written_command(modules, m, j);
            let before = state_before(start_state(defines_entry(units)), units, m, j);
            let line = code_line(modules, m, j);
            &&& p.well_formed()
            &&& p.holds(line, command_code(written, units[m].name, before.counter))
            &&& exists|steps: nat|
                {
                    let after = #[trigger] run(p, machine, steps);
                    &&& after.well_formed()
                    &&& after.pc == leaves_at(
                        p,
                        machine,
                        line,
                        written,
                        units[m].name,
                        before.counter,
                    )
                    &&& after.sp() == machine.sp() + stack_effect(command)
                }
        }),
{
    let p = Program {
        code: translation(modules)->Ok_0,
        symbols: symbol_table(translation(modules)->Ok_0),
    };
    let units = units_of(ordered(modules));
    let command = commands_of(units[m].commands)[j];
    let written = written_command(modules, m, j);
    let before = state_before(start_state(defines_entry(units)), units, m, j);
    lemma_program_loadable(modules);
    lemma_command_placed_in_program(modules, m, j);
    let comment = seq![Instr::Comment(command.describe())];
    assert(command_lines(before, command) == comment + command_code(
        written,
        before.module,
        before.counter,
    ));
    lemma_holds_parts(
        p,
        before.code.len() as int,
        comment,
        command_code(written, before.module, before.counter),
    );
    assert(stack_effect(written) == stack_effect(command));
    lemma_stack_effect(
        p,
        machine,
        code_line(modules, m, j),
        written,
        units[m].name,
        before.counter,
    );
}

/// Static scoping on the machine. In a translated program, loaded with
/// its symbol table, a pop into a static variable of one module stores
/// the top of the stack in the cell of that variable, and leaves every
/// other static variable that the program uses as it was: those of
/// other modules, and the others of the same module.
pub proof fn lemma_translated_static_scoping(
    modules: Seq<Source>,
    machine: Machine,
    at: int,
    module: Seq<char>,
    index: nat,
    other_module: Seq<char>,
    other_index: nat,
)
    requires
        translation(modules) is Ok,
        translation(modules)->Ok_0.len() + 16 < 0x8000,
        (Program {
            code: translation(modules)->Ok_0,
            symbols: symbol_table(translation(modules)->Ok_0),
        }).holds(at, pop_code(Addressing::Symbolic(static_symbol(module, index)), index)),
        machine.pc == (Program {
            code: translation(modules)->Ok_0,
            symbols: symbol_table(translation(modules)->Ok_0),
        }).address(at),
        machine.well_formed(),
        machine.stack_ok(1, 0),
        module != other_module || index != other_index,
        first_use(translation(modules)->Ok_0, static_symbol(other_module, other_index), 0)
            < translation(modules)->Ok_0.len(),
    ensures
        ({
            let code = translation(modules)->Ok_0;
            let p = Program { code, symbols: symbol_table(code) };
            let cell = p.symbols[static_symbol(module, index)];
            let other = p.symbols[static_symbol(other_module, other_index)];
            let after = run(p, machine, 5);
            &&& p.well_formed()
            &&& cell != other
            &&& after.ram[cell] == machine.top()
            &&& after.ram[other] == machine.ram[other]
        }),
{
    let code = translation(modules)->Ok_0;
    let p = Program { code, symbols: symbol_table(code) };
    let symbol = static_symbol(module, index);
    let block = pop_code(Addressing::Symbolic(symbol), index);
    lemma_program_loadable(modules);
    assert(p.code[at + 3] == block[3]);
    lemma_first_use(code, symbol, 0);
    lemma_statics_apart(modules, module, index, other_module, other_index);
    lemma_static_scoping(p, machine, at, module, index, other_module, other_index);
}

} // verus!
