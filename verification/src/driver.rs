//! The program driver: parses the modules of a program, translates them
//! in the order of their names, and frames the result with the lines
//! that start and end a program.
use crate::assembly::{code_view, Instr, Instruction};
use crate::error::{
    CodeGenError, CodeGenFailure, ParseError, ParseFailure, TranslateError, TranslateFailure,
};
use crate::labels::entry_name;
use crate::machine::labels_unique;
use crate::order::{lemma_insert_index_at, lemma_sorted_order, lex_le, name_le, sorted_order};
use crate::parser::{
    lemma_parsed_command_well_formed, next_command_line, parse_line, ParsedLine, Parser,
};
use crate::text::{lemma_strings_view_push, same_text, strings_view};
use crate::translation::{bootstrap_code, final_loop_code, rejection, translatable};
use crate::uniqueness::lemma_labels_unique;
use crate::utils::{Cmd, Command};
use crate::writer::{check, Writer, WriterState};
use vstd::prelude::*;
use vstd::string::*;

verus! {

/// One module of a program: its name and its source lines.
#[derive(Debug, PartialEq, Eq)]
pub struct Module {
    pub name: String,
    pub lines: Vec<String>,
}

/// The mathematical model of a [`Module`].
pub struct Source {
    pub name: Seq<char>,
    pub lines: Seq<Seq<char>>,
}

impl View for Module {
    type V = Source;

    open spec fn view(&self) -> Source {
        Source { name: self.name@, lines: strings_view(self.lines@) }
    }
}

/// The models of a list of modules.
pub open spec fn sources(modules: Seq<Module>) -> Seq<Source> {
    modules.map_values(|m: Module| m@)
}

/// A command with the number of the line it was read from.
#[derive(Debug, PartialEq, Eq)]
pub struct SourceCommand {
    /// The number of the line in its module, counted from 1.
    pub line_number: usize,
    pub command: Command,
}

/// The mathematical model of a [`SourceCommand`].
pub struct Located {
    pub line_number: nat,
    pub command: Cmd,
}

impl View for SourceCommand {
    type V = Located;

    open spec fn view(&self) -> Located {
        Located { line_number: self.line_number as nat, command: self.command@ }
    }
}

/// The models of a list of commands with their lines.
pub open spec fn located_view(commands: Seq<SourceCommand>) -> Seq<Located> {
    commands.map_values(|c: SourceCommand| c@)
}

/// The commands of a list of commands with their lines.
pub open spec fn commands_of(located: Seq<Located>) -> Seq<Cmd> {
    located.map_values(|l: Located| l.command)
}

/// The commands that the lines hold, each with the number of its line.
/// Lines that hold no command are passed over.
pub open spec fn located_commands(lines: Seq<Seq<char>>) -> Seq<Located>
    decreases lines.len(),
{
    if lines.len() == 0 {
        Seq::empty()
    } else {
        let before = located_commands(lines.drop_last());
        match parse_line(lines.last()) {
            ParsedLine::Command(command) => before.push(
                Located { line_number: lines.len(), command },
            ),
            _ => before,
        }
    }
}

/// The index of the first line at or after `from` that is neither blank
/// nor a command, or the number of lines if there is none.
pub open spec fn first_bad_line(lines: Seq<Seq<char>>, from: int) -> int
    decreases lines.len() - from,
{
    if from < 0 || from >= lines.len() {
        lines.len() as int
    } else if parse_line(lines[from]) is Error {
        from
    } else {
        first_bad_line(lines, from + 1)
    }
}

/// What parsing a module gives: its commands, or its first line that is
/// not one.
pub open spec fn parsed(source: Source) -> Result<Seq<Located>, ParseFailure> {
    let bad = first_bad_line(source.lines, 0);
    if bad == source.lines.len() {
        Ok(located_commands(source.lines))
    } else {
        Err(
            ParseFailure {
                kind: parse_line(source.lines[bad])->Error_0,
                module: source.name,
                line_number: (bad + 1) as nat,
                line: source.lines[bad],
            },
        )
    }
}

/// The commands that lines hold are well formed: their names are
/// tokens.
pub proof fn lemma_located_commands_well_formed(lines: Seq<Seq<char>>)
    ensures
        forall|i: int|
            0 <= i < located_commands(lines).len() ==> (#[trigger] located_commands(
                lines,
            )[i]).command.well_formed(),
    decreases lines.len(),
{
    if lines.len() > 0 {
        lemma_located_commands_well_formed(lines.drop_last());
        lemma_parsed_command_well_formed(lines.last());
    }
}

/// Blank lines between `from` and `to` add no command and no error.
proof fn lemma_blank_lines(lines: Seq<Seq<char>>, from: int, to: int)
    requires
        0 <= from <= to <= lines.len(),
        next_command_line(lines, from) == next_command_line(lines, to),
        to == lines.len() || !(parse_line(lines[to]) is Blank),
    ensures
        located_commands(lines.take(to)) == located_commands(lines.take(from)),
        first_bad_line(lines, from) == first_bad_line(lines, to),
    decreases to - from,
{
    if from < to {
        // next_command_line(lines, to) >= to > from, so line `from` is blank.
        lemma_next_command_line_bounds(lines, to);
        assert(parse_line(lines[from]) is Blank);
        lemma_blank_lines(lines, from + 1, to);
        assert(lines.take(from + 1).drop_last() =~= lines.take(from));
    }
}

proof fn lemma_next_command_line_bounds(lines: Seq<Seq<char>>, from: int)
    requires
        0 <= from <= lines.len(),
    ensures
        from <= next_command_line(lines, from) <= lines.len(),
        next_command_line(lines, from) == lines.len() || !(parse_line(
            lines[next_command_line(lines, from)],
        ) is Blank),
    decreases lines.len() - from,
{
    if from < lines.len() && parse_line(lines[from]) is Blank {
        lemma_next_command_line_bounds(lines, from + 1);
    }
}

/// Parses a module: reads its lines as commands, up to the first line
/// that is not one.
pub fn parse_module(module: &Module) -> (r: Result<Vec<SourceCommand>, ParseError>)
    ensures
        match parsed(module@) {
            Ok(commands) => {
                &&& r is Ok && located_view(r->Ok_0@) == commands
                &&& forall|i: int|
                    0 <= i < commands.len() ==> (#[trigger] commands[i]).command.well_formed()
            },
            Err(failure) => r is Err && r->Err_0@ == failure,
        },
{
    proof {
        lemma_located_commands_well_formed(module@.lines);
    }
    let ghost lines = module@.lines;
    let mut lines_copy: Vec<String> = Vec::new();
    let mut k: usize = 0;
    while k < module.lines.len()
        invariant
            k <= module.lines@.len(),
            strings_view(lines_copy@) == strings_view(module.lines@).take(k as int),
        decreases module.lines@.len() - k,
    {
        let line = module.lines[k].clone();
        proof {
            lemma_strings_view_push(lines_copy@, line);
            assert(strings_view(module.lines@).take(k + 1) =~= strings_view(
                module.lines@,
            ).take(k as int).push(line@));
        }
        lines_copy.push(line);
        k = k + 1;
    }
    assert(strings_view(module.lines@).take(k as int) =~= lines);
    let mut parser = Parser::new(module.name.as_str(), lines_copy);
    let mut commands: Vec<SourceCommand> = Vec::new();
    proof {
        assert(lines.take(0) =~= Seq::<Seq<char>>::empty());
        assert(located_view(commands@) =~= located_commands(lines.take(0)));
    }
    loop
        invariant
            parser.well_formed(),
            parser@.module == module@.name,
            parser@.lines == lines,
            lines == module@.lines,
            parser@.position <= lines.len(),
            located_view(commands@) == located_commands(lines.take(parser@.position as int)),
            first_bad_line(lines, 0) == first_bad_line(lines, parser@.position as int),
        ensures
            parser@.position == lines.len(),
            located_view(commands@) == located_commands(lines.take(parser@.position as int)),
            first_bad_line(lines, 0) == lines.len(),
        decreases lines.len() - parser@.position,
    {
        let ghost from = parser@.position as int;
        let ghost found = next_command_line(lines, from);
        proof {
            lemma_next_command_line_bounds(lines, from);
            lemma_blank_lines(lines, from, found);
        }
        match parser.next() {
            None => {
                break ;
            },
            Some(Ok(command)) => {
                let entry = SourceCommand { line_number: parser.line_number(), command };
                proof {
                    assert(lines.take(found + 1).drop_last() =~= lines.take(found));
                    assert(located_view(commands@.push(entry)) =~= located_view(commands@).push(
                        entry@,
                    ));
                }
                commands.push(entry);
            },
            Some(Err(error)) => {
                return Err(error);
            },
        }
    }
    assert(lines.take(lines.len() as int) =~= lines);
    Ok(commands)
}

/// The index at which the function that holds command `j` starts: just
/// behind the last `function` command before `j`, or 0.
pub open spec fn scope_start(commands: Seq<Cmd>, j: int) -> int
    decreases j,
{
    if j <= 0 || j > commands.len() {
        0
    } else if commands[j - 1] is Function {
        j
    } else {
        scope_start(commands, j - 1)
    }
}

/// The name that a command declares as a label of the program: the
/// name of a `label` command, and the name of a function.
pub open spec fn declared_labels(command: Cmd) -> Seq<Seq<char>> {
    match command {
        Cmd::Label(name) => seq![name],
        Cmd::Function(name, _) => seq![name],
        _ => Seq::empty(),
    }
}

/// The names that the commands declare as labels of the program, in the
/// order of the commands.
pub open spec fn user_labels(commands: Seq<Cmd>) -> Seq<Seq<char>>
    decreases commands.len(),
{
    if commands.len() == 0 {
        Seq::empty()
    } else {
        user_labels(commands.drop_last()) + declared_labels(commands.last())
    }
}

/// The names of the labels that the scope at hand has declared before
/// command `j`: the names of the `label` commands from the start of the
/// function that holds command `j`, or from the start of the module.
pub open spec fn labels_in_scope(commands: Seq<Cmd>, j: int) -> Seq<Seq<char>>
    decreases j,
{
    if j <= 0 || j > commands.len() {
        Seq::empty()
    } else if commands[j - 1] is Function {
        Seq::empty()
    } else if commands[j - 1] is Label {
        labels_in_scope(commands, j - 1).push(commands[j - 1]->Label_0)
    } else {
        labels_in_scope(commands, j - 1)
    }
}

/// The names of the functions that the commands declare, in their
/// order.
pub open spec fn function_names(commands: Seq<Cmd>) -> Seq<Seq<char>>
    decreases commands.len(),
{
    if commands.len() == 0 {
        Seq::empty()
    } else if commands.last() is Function {
        function_names(commands.drop_last()).push(commands.last()->Function_0)
    } else {
        function_names(commands.drop_last())
    }
}

/// Whether command `j` declares a name for the second time: a label
/// that its function, or the module before its first function, has
/// declared before; or a function that the program has declared before,
/// in this module or among the functions `earlier` of the modules before
/// it. Labels of different functions may have the same name.
pub open spec fn declared_before(commands: Seq<Cmd>, j: int, earlier: Seq<Seq<char>>) -> bool {
    match commands[j] {
        Cmd::Label(name) => labels_in_scope(commands, j).contains(name),
        Cmd::Function(name, _) => (earlier + function_names(commands.take(j))).contains(name),
        _ => false,
    }
}

/// Whether command `j` is a return before the first function of the
/// module.
pub open spec fn returns_outside(commands: Seq<Cmd>, j: int) -> bool {
    commands[j] is Return && scope_start(commands, j) == 0
}

/// Why command `j` of a module cannot be translated, if it cannot: it
/// declares a label for the second time in its function or a function
/// for the second time in the program, it is a return that stands in no
/// function, or the generator refuses it.
pub open spec fn failure_at(commands: Seq<Cmd>, j: int, earlier: Seq<Seq<char>>) -> Option<
    CodeGenFailure,
> {
    if declared_before(commands, j, earlier) {
        Some(CodeGenFailure::DuplicateLabel(declared_labels(commands[j])[0]))
    } else if returns_outside(commands, j) {
        Some(CodeGenFailure::ReturnOutsideFunction)
    } else {
        rejection(commands[j])
    }
}

/// The index of the first command at or after `from` that cannot be
/// translated, or the number of commands if all can.
pub open spec fn first_failure(commands: Seq<Cmd>, from: int, earlier: Seq<Seq<char>>) -> int
    decreases commands.len() - from,
{
    if from < 0 || from >= commands.len() {
        commands.len() as int
    } else if failure_at(commands, from, earlier) is Some {
        from
    } else {
        first_failure(commands, from + 1, earlier)
    }
}

pub proof fn lemma_first_failure_bounds(commands: Seq<Cmd>, from: int, earlier: Seq<Seq<char>>)
    requires
        0 <= from <= commands.len(),
    ensures
        from <= first_failure(commands, from, earlier) <= commands.len(),
    decreases commands.len() - from,
{
    if from < commands.len() && failure_at(commands, from, earlier) is None {
        lemma_first_failure_bounds(commands, from + 1, earlier);
    }
}

/// The names of one more command are the names before it and the name
/// that it declares.
pub proof fn lemma_user_labels_step(commands: Seq<Cmd>, i: int)
    requires
        0 <= i < commands.len(),
    ensures
        user_labels(commands.take(i + 1)) == user_labels(commands.take(i)) + declared_labels(
            commands[i],
        ),
        function_names(commands.take(i + 1)) == if commands[i] is Function {
            function_names(commands.take(i)).push(commands[i]->Function_0)
        } else {
            function_names(commands.take(i))
        },
{
    assert(commands.take(i + 1).drop_last() =~= commands.take(i));
}

/// The state of the generator after it has translated `commands`, each
/// behind a comment that restates it.
pub open spec fn run_commands(state: WriterState, commands: Seq<Cmd>) -> WriterState
    decreases commands.len(),
{
    if commands.len() == 0 {
        state
    } else {
        run_commands(state, commands.drop_last()).emit(
            seq![Instr::Comment(commands.last().describe())],
        ).translate(commands.last())
    }
}

/// The lines that `commands` are translated to in `module` when `n` is
/// the number of the next fresh label and `scope` the number of the
/// scope.
pub open spec fn listing(commands: Seq<Cmd>, module: Seq<char>, n: nat, scope: nat) -> Seq<
    Instr,
> {
    run_commands(WriterState { code: Seq::empty(), counter: n, module, scope }, commands).code
}

/// The state of the generator after it has entered and translated a
/// module.
pub open spec fn run_module(
    state: WriterState,
    name: Seq<char>,
    commands: Seq<Cmd>,
) -> WriterState {
    run_commands(state.enter_module(name), commands)
}

/// Whether a name is among the names declared.
fn is_declared(declared: &Vec<String>, name: &String) -> (found: bool)
    ensures
        found == strings_view(declared@).contains(name@),
{
    let ghost names = strings_view(declared@);
    let mut i: usize = 0;
    while i < declared.len()
        invariant
            i <= declared@.len(),
            names == strings_view(declared@),
            forall|k: int| 0 <= k < i ==> #[trigger] names[k] != name@,
        decreases declared@.len() - i,
    {
        assert(names[i as int] == declared@[i as int]@);
        if declared[i] == *name {
            return true;
        }
        i = i + 1;
    }
    false
}

/// Translates the commands of one module, each behind a comment that
/// restates it. `functions` holds the names of the functions that the
/// program has declared so far; those that the module declares are
/// added. Stops at the first command that cannot be translated: a label
/// that its function has declared before, a function that the program
/// has declared before, a return before the first function, or a command
/// that the generator refuses. Nothing is written for that command.
pub fn translate_module(
    writer: &mut Writer,
    name: &str,
    commands: &Vec<SourceCommand>,
    functions: &mut Vec<String>,
) -> (r: Result<(), TranslateError>)
    requires
        old(writer).well_formed(),
    ensures
        final(writer).well_formed(),
        ({
            let all = commands_of(located_view(commands@));
            let earlier = strings_view(old(functions)@);
            let bad = first_failure(all, 0, earlier);
            if bad == all.len() {
                &&& r is Ok
                &&& final(writer)@ == run_module(old(writer)@, name@, all)
                &&& strings_view(final(functions)@) == earlier + function_names(all)
            } else {
                &&& r is Err && r->Err_0@ == (TranslateFailure::CodeGen {
                    module: name@,
                    line_number: commands@[bad].line_number as nat,
                    error: failure_at(all, bad, earlier)->Some_0,
                })
                &&& final(writer)@ == run_module(old(writer)@, name@, all.take(bad))
                &&& strings_view(final(functions)@) == earlier + function_names(all.take(bad))
            }
        }),
{
    let ghost all = commands_of(located_view(commands@));
    let ghost earlier = strings_view(functions@);
    writer.set_module(name);
    let ghost start = writer@;
    let mut labels: Vec<String> = Vec::new();
    let mut scope: usize = 0;
    let mut i: usize = 0;
    proof {
        assert(all.take(0) =~= Seq::<Cmd>::empty());
        assert(earlier + function_names(all.take(0)) =~= earlier);
        assert(strings_view(labels@) =~= labels_in_scope(all, 0));
    }
    while i < commands.len()
        invariant
            i <= commands@.len(),
            all == commands_of(located_view(commands@)),
            earlier == strings_view(old(functions)@),
            writer.well_formed(),
            start == old(writer)@.enter_module(name@),
            writer@ == run_commands(start, all.take(i as int)),
            strings_view(functions@) == earlier + function_names(all.take(i as int)),
            strings_view(labels@) == labels_in_scope(all, i as int),
            first_failure(all, 0, earlier) == first_failure(all, i as int, earlier),
            scope == scope_start(all, i as int),
            scope <= i,
        decreases commands@.len() - i,
    {
        let entry = &commands[i];
        assert(all[i as int] == entry.command@);
        let repeated = match &entry.command {
            Command::Label(label) => if is_declared(&labels, label) {
                Some(label)
            } else {
                None
            },
            Command::Function(function, _) => if is_declared(functions, function) {
                Some(function)
            } else {
                None
            },
            _ => None,
        };
        match repeated {
            Some(name_again) => {
                return Err(
                    TranslateError::CodeGen {
                        module: String::from_str(name),
                        line_number: entry.line_number,
                        error: CodeGenError::DuplicateLabel(name_again.clone()),
                    },
                );
            },
            None => {},
        }
        match &entry.command {
            Command::Return => {
                if scope == 0 {
                    return Err(
                        TranslateError::CodeGen {
                            module: String::from_str(name),
                            line_number: entry.line_number,
                            error: CodeGenError::ReturnOutsideFunction,
                        },
                    );
                }
            },
            _ => {},
        }
        match check(&entry.command) {
            Ok(()) => {},
            Err(error) => {
                return Err(
                    TranslateError::CodeGen {
                        module: String::from_str(name),
                        line_number: entry.line_number,
                        error,
                    },
                );
            },
        }
        let text = entry.command.to_string();
        writer.write_comment(text.as_str());
        writer.write_code(&entry.command);
        proof {
            assert(all.take(i + 1).drop_last() =~= all.take(i as int));
            assert(all.take(i + 1).last() == all[i as int]);
            lemma_user_labels_step(all, i as int);
        }
        match &entry.command {
            Command::Label(label) => {
                let copy = label.clone();
                proof {
                    lemma_strings_view_push(labels@, copy);
                }
                labels.push(copy);
            },
            Command::Function(function, _) => {
                let copy = function.clone();
                proof {
                    lemma_strings_view_push(functions@, copy);
                    assert((earlier + function_names(all.take(i as int))).push(copy@) =~= earlier
                        + function_names(all.take(i as int)).push(copy@));
                }
                functions.push(copy);
                labels.clear();
                assert(strings_view(labels@) =~= Seq::<Seq<char>>::empty());
                scope = i + 1;
            },
            _ => {},
        }
        i = i + 1;
    }
    assert(all.take(i as int) =~= all);
    Ok(())
}

/// A parsed module: its name and its commands.
#[derive(Debug, PartialEq, Eq)]
pub struct ParsedModule {
    pub name: String,
    pub commands: Vec<SourceCommand>,
}

/// The mathematical model of a [`ParsedModule`].
pub struct Unit {
    pub name: Seq<char>,
    pub commands: Seq<Located>,
}

impl View for ParsedModule {
    type V = Unit;

    open spec fn view(&self) -> Unit {
        Unit { name: self.name@, commands: located_view(self.commands@) }
    }
}

/// The models of a list of parsed modules.
pub open spec fn units_view(modules: Seq<ParsedModule>) -> Seq<Unit> {
    modules.map_values(|m: ParsedModule| m@)
}

/// The names of a list of modules.
pub open spec fn names_of(modules: Seq<Source>) -> Seq<Seq<char>> {
    modules.map_values(|m: Source| m.name)
}

/// The modules in the order in which they are translated: sorted by
/// name, modules of one name in the order in which they were given.
pub open spec fn ordered(modules: Seq<Source>) -> Seq<Source> {
    let order = sorted_order(names_of(modules), modules.len());
    Seq::new(modules.len(), |i: int| modules[order[i]])
}

/// The index of the first module at or after `from` that does not
/// parse, or the number of modules if all do.
pub open spec fn first_unparsed(modules: Seq<Source>, from: int) -> int
    decreases modules.len() - from,
{
    if from < 0 || from >= modules.len() {
        modules.len() as int
    } else if parsed(modules[from]) is Err {
        from
    } else {
        first_unparsed(modules, from + 1)
    }
}

/// The modules parsed, where all of them parse.
pub open spec fn units_of(modules: Seq<Source>) -> Seq<Unit> {
    Seq::new(
        modules.len(),
        |i: int| Unit { name: modules[i].name, commands: parsed(modules[i])->Ok_0 },
    )
}

/// Whether a command defines the function that a program is entered
/// through.
pub open spec fn is_entry(command: Cmd) -> bool {
    command is Function && command->Function_0 == entry_name()
}

/// Whether one of the modules defines the function that a program is
/// entered through.
pub open spec fn defines_entry(units: Seq<Unit>) -> bool {
    exists|m: int, j: int|
        0 <= m < units.len() && 0 <= j < units[m].commands.len() && is_entry(
            #[trigger] units[m].commands[j].command,
        )
}

/// The command that enters a program: a call of the entry function
/// without arguments.
pub open spec fn entry_call() -> Cmd {
    Cmd::Call(entry_name(), 0)
}

/// The state of the generator behind the lines that start a program:
/// the stack pointer is set and, where the program defines the entry
/// function, that function is called.
pub open spec fn start_state(entry: bool) -> WriterState {
    let state = WriterState {
        code: bootstrap_code(),
        counter: 0,
        module: Seq::empty(),
        scope: 0,
    };
    if entry {
        run_commands(state, seq![entry_call()])
    } else {
        state
    }
}

/// The names of the functions that the first `m` modules declare, in
/// their order.
pub open spec fn declared_through(units: Seq<Unit>, m: int) -> Seq<Seq<char>>
    decreases m,
{
    if m <= 0 || m > units.len() {
        Seq::empty()
    } else {
        declared_through(units, m - 1) + function_names(commands_of(units[m - 1].commands))
    }
}

/// The index of the first command of module `m` that cannot be
/// translated, or the number of its commands if all can.
pub open spec fn failure_in(units: Seq<Unit>, m: int) -> int {
    first_failure(commands_of(units[m].commands), 0, declared_through(units, m))
}

/// The index of the first module at or after `from` with a command that
/// cannot be translated, or the number of modules if there is none.
pub open spec fn first_untranslated(units: Seq<Unit>, from: int) -> int
    decreases units.len() - from,
{
    if from < 0 || from >= units.len() {
        units.len() as int
    } else if failure_in(units, from) < units[from].commands.len() {
        from
    } else {
        first_untranslated(units, from + 1)
    }
}

pub proof fn lemma_first_untranslated_bounds(units: Seq<Unit>, from: int)
    requires
        0 <= from <= units.len(),
    ensures
        from <= first_untranslated(units, from) <= units.len(),
    decreases units.len() - from,
{
    if from < units.len() && !(failure_in(units, from) < units[from].commands.len()) {
        lemma_first_untranslated_bounds(units, from + 1);
    }
}

/// Where no command fails, every command can be translated, and none
/// declares a name that was declared before.
pub proof fn lemma_first_failure_none(commands: Seq<Cmd>, from: int, earlier: Seq<Seq<char>>)
    requires
        0 <= from <= commands.len(),
        first_failure(commands, from, earlier) == commands.len(),
    ensures
        forall|j: int| from <= j < commands.len() ==> translatable(#[trigger] commands[j]),
        forall|j: int|
            from <= j < commands.len() ==> !declared_before(commands, j, earlier),
    decreases commands.len() - from,
{
    if from < commands.len() {
        lemma_first_failure_none(commands, from + 1, earlier);
    }
}

/// Where no module fails, every command of every module can be
/// translated, and none declares a name that was declared before.
pub proof fn lemma_first_untranslated_none(units: Seq<Unit>, from: int)
    requires
        0 <= from <= units.len(),
        first_untranslated(units, from) == units.len(),
    ensures
        forall|m: int, j: int|
            from <= m < units.len() && 0 <= j < units[m].commands.len() ==> translatable(
                #[trigger] commands_of(units[m].commands)[j],
            ),
        forall|m: int|
            from <= m < units.len() ==> #[trigger] failure_in(units, m)
                == units[m].commands.len(),
    decreases units.len() - from,
{
    if from < units.len() {
        lemma_first_untranslated_bounds(units, from + 1);
        lemma_first_untranslated_none(units, from + 1);
        lemma_first_failure_bounds(
            commands_of(units[from].commands),
            0,
            declared_through(units, from),
        );
        lemma_first_failure_none(
            commands_of(units[from].commands),
            0,
            declared_through(units, from),
        );
    }
}

/// The state of the generator after it has translated the modules, one
/// after the other.
pub open spec fn run_units(state: WriterState, units: Seq<Unit>) -> WriterState
    decreases units.len(),
{
    if units.len() == 0 {
        state
    } else {
        run_module(
            run_units(state, units.drop_last()),
            units.last().name,
            commands_of(units.last().commands),
        )
    }
}

/// What translating a program gives: its lines, or the first failure.
/// The modules are taken in the order of their names. All are parsed
/// before any is translated, so a line that is not a command is found
/// before a command that cannot be translated.
pub open spec fn translation(modules: Seq<Source>) -> Result<Seq<Instr>, TranslateFailure> {
    let sorted = ordered(modules);
    let unparsed = first_unparsed(sorted, 0);
    if unparsed < sorted.len() {
        Err(TranslateFailure::Parse(parsed(sorted[unparsed])->Err_0))
    } else {
        let units = units_of(sorted);
        let failed = first_untranslated(units, 0);
        if failed < units.len() {
            let commands = commands_of(units[failed].commands);
            let bad = failure_in(units, failed);
            Err(
                TranslateFailure::CodeGen {
                    module: units[failed].name,
                    line_number: units[failed].commands[bad].line_number,
                    error: failure_at(commands, bad, declared_through(units, failed))->Some_0,
                },
            )
        } else {
            Ok(run_units(start_state(defines_entry(units)), units).emit(final_loop_code()).code)
        }
    }
}

/// Finds the order in which the modules are translated: their indices,
/// sorted by name.
pub fn sort_by_name(modules: &Vec<Module>) -> (order: Vec<usize>)
    ensures
        order@.map_values(|k: usize| k as int) == sorted_order(
            names_of(sources(modules@)),
            modules@.len(),
        ),
        order@.len() == modules@.len(),
        forall|i: int| 0 <= i < order@.len() ==> #[trigger] order@[i] < modules@.len(),
{
    let ghost names = names_of(sources(modules@));
    let mut order: Vec<usize> = Vec::new();
    let mut k: usize = 0;
    proof {
        assert(order@.map_values(|k: usize| k as int) =~= sorted_order(names, 0));
    }
    while k < modules.len()
        invariant
            k <= modules@.len(),
            names == names_of(sources(modules@)),
            order@.len() == k,
            order@.map_values(|k: usize| k as int) == sorted_order(names, k as nat),
            forall|i: int| 0 <= i < order@.len() ==> #[trigger] order@[i] < k,
        decreases modules@.len() - k,
    {
        let ghost before = order@.map_values(|k: usize| k as int);
        let mut p: usize = order.len();
        while p > 0 && !name_le(modules[order[p - 1]].name.as_str(), modules[k].name.as_str())
            invariant
                p <= order@.len(),
                k < modules@.len(),
                names == names_of(sources(modules@)),
                before == order@.map_values(|k: usize| k as int),
                forall|i: int| 0 <= i < order@.len() ==> #[trigger] order@[i] < k,
                forall|j: int|
                    p <= j < before.len() ==> !lex_le(names[#[trigger] before[j]], names[k as int]),
            decreases p,
        {
            assert(before[p - 1] == order@[p - 1] as int);
            p = p - 1;
        }
        proof {
            if p > 0 {
                assert(before[p - 1] == order@[p - 1] as int);
            }
            lemma_insert_index_at(before, names, k as int, p as int);
            assert(order@.insert(p as int, k).map_values(|k: usize| k as int) =~= before.insert(
                p as int,
                k as int,
            ));
        }
        order.insert(p, k);
        k = k + 1;
    }
    order
}

/// Whether one of the parsed modules defines the function that a
/// program is entered through.
pub fn has_entry(units: &Vec<ParsedModule>) -> (found: bool)
    ensures
        found == defines_entry(units_view(units@)),
{
    let ghost all = units_view(units@);
    let mut m: usize = 0;
    while m < units.len()
        invariant
            m <= units@.len(),
            all == units_view(units@),
            forall|a: int, j: int|
                0 <= a < m && 0 <= j < all[a].commands.len() ==> !is_entry(
                    #[trigger] all[a].commands[j].command,
                ),
        decreases units@.len() - m,
    {
        let commands = &units[m].commands;
        assert(all[m as int].commands == located_view(commands@));
        let mut j: usize = 0;
        while j < commands.len()
            invariant
                j <= commands@.len(),
                m < units@.len(),
                all == units_view(units@),
                all[m as int].commands == located_view(commands@),
                forall|b: int|
                    0 <= b < j ==> !is_entry(#[trigger] all[m as int].commands[b].command),
            decreases commands@.len() - j,
        {
            assert(all[m as int].commands[j as int].command == commands@[j as int].command@);
            match &commands[j].command {
                Command::Function(name, _) => {
                    if same_text(name.as_str(), "Sys.init") {
                        assert(is_entry(all[m as int].commands[j as int].command));
                        return true;
                    }
                },
                _ => {},
            }
            j = j + 1;
        }
        m = m + 1;
    }
    false
}

/// Translates a program. The modules are parsed and translated in the
/// order of their names. The lines start by setting the stack pointer,
/// call the entry function `Sys.init` where a module defines it, and end
/// in a loop that never ends. The first line that is not a command, or
/// else the first command that cannot be translated, fails the whole
/// translation. A program that is translated defines no label twice,
/// whatever names it uses: every label carries the mark of its family,
/// and the labels that the program declares carry their scope.
pub fn translate_program(modules: &Vec<Module>) -> (r: Result<Vec<Instruction>, TranslateError>)
    ensures
        match translation(sources(modules@)) {
            Ok(code) => r is Ok && code_view(r->Ok_0@) == code,
            Err(failure) => r is Err && r->Err_0@ == failure,
        },
        r is Ok ==> labels_unique(code_view(r->Ok_0@)),
{
    let ghost given = sources(modules@);
    let ghost sorted = ordered(given);
    let order = sort_by_name(modules);
    proof {
        lemma_sorted_order(names_of(given), given.len());
    }
    let mut units: Vec<ParsedModule> = Vec::new();
    let mut i: usize = 0;
    proof {
        assert(units_view(units@) =~= units_of(sorted).take(0));
    }
    while i < order.len()
        invariant
            i <= order@.len(),
            order@.len() == modules@.len(),
            given == sources(modules@),
            sorted == ordered(given),
            sorted.len() == modules@.len(),
            order@.map_values(|k: usize| k as int) == sorted_order(names_of(given), given.len()),
            forall|k: int| 0 <= k < order@.len() ==> #[trigger] order@[k] < modules@.len(),
            first_unparsed(sorted, 0) == first_unparsed(sorted, i as int),
            units_view(units@) == units_of(sorted).take(i as int),
        decreases order@.len() - i,
    {
        let module = &modules[order[i]];
        proof {
            assert(order@.map_values(|k: usize| k as int)[i as int] == order@[i as int] as int);
            assert(sorted[i as int] == given[order@[i as int] as int]);
            assert(given[order@[i as int] as int] == module@);
        }
        match parse_module(module) {
            Ok(commands) => {
                let unit = ParsedModule { name: module.name.clone(), commands };
                proof {
                    assert(units_view(units@.push(unit)) =~= units_view(units@).push(unit@));
                    assert(units_of(sorted).take(i + 1) =~= units_of(sorted).take(i as int).push(
                        unit@,
                    ));
                }
                units.push(unit);
            },
            Err(error) => {
                return Err(TranslateError::Parse(error));
            },
        }
        i = i + 1;
    }
    proof {
        assert(units_of(sorted).take(i as int) =~= units_of(sorted));
    }
    let ghost all = units_of(sorted);
    let entry = has_entry(&units);
    let mut writer = Writer::new();
    writer.initialize_stack_pointer();
    assert(writer@.code =~= bootstrap_code());
    if entry {
        let call = Command::Call(String::from_str("Sys.init"), 0);
        let text = call.to_string();
        writer.write_comment(text.as_str());
        let done = writer.write(&call);
        proof {
            let state = WriterState {
                code: bootstrap_code(),
                counter: 0,
                module: Seq::empty(),
                scope: 0,
            };
            let only = seq![entry_call()];
            assert(only.drop_last() =~= Seq::<Cmd>::empty());
            assert(only.last() == entry_call());
            assert(run_commands(state, only.drop_last()) == state);
        }
    }
    assert(writer@ == start_state(entry));
    let mut declared: Vec<String> = Vec::new();
    let mut m: usize = 0;
    proof {
        assert(all.take(0) =~= Seq::<Unit>::empty());
        assert(strings_view(declared@) =~= declared_through(all, 0));
    }
    while m < units.len()
        invariant
            m <= units@.len(),
            all == units_view(units@),
            writer.well_formed(),
            writer@ == run_units(start_state(entry), all.take(m as int)),
            strings_view(declared@) == declared_through(all, m as int),
            first_untranslated(all, 0) == first_untranslated(all, m as int),
            given == sources(modules@),
            sorted == ordered(given),
            all == units_of(sorted),
            first_unparsed(sorted, 0) == sorted.len(),
        decreases units@.len() - m,
    {
        let unit = &units[m];
        assert(all[m as int] == unit@);
        match translate_module(&mut writer, unit.name.as_str(), &unit.commands, &mut declared) {
            Ok(()) => {},
            Err(error) => {
                proof {
                    let commands = commands_of(all[m as int].commands);
                    let bad = failure_in(all, m as int);
                    lemma_first_failure_bounds(commands, 0, declared_through(all, m as int));
                    assert(first_untranslated(all, m as int) == m);
                    assert(all[m as int].commands[bad].line_number
                        == unit.commands@[bad].line_number as nat);
                }
                return Err(error);
            },
        }
        proof {
            assert(all.take(m + 1).drop_last() =~= all.take(m as int));
            assert(all.take(m + 1).last() == all[m as int]);
        }
        m = m + 1;
    }
    assert(all.take(m as int) =~= all);
    writer.add_final_loop();
    proof {
        lemma_first_untranslated_bounds(all, 0);
        assert(translation(given) is Ok);
        lemma_labels_unique(given);
    }
    Ok(writer.into_instructions())
}

} // verus!
