//! The labels of a translated program: which ones its lines define, and
//! that no two lines define the same label, whatever names the program
//! uses.
use crate::assembly::{Instr, Jump};
use crate::driver::{
    commands_of, declared_before, declared_labels, declared_through, defines_entry, entry_call,
    failure_in, first_failure, first_untranslated, function_names, labels_in_scope,
    lemma_first_failure_none, lemma_first_untranslated_bounds, lemma_first_untranslated_none,
    lemma_user_labels_step, ordered, run_commands, run_units, start_state, translation,
    units_of, user_labels, Source, Unit,
};
use crate::labels::{
    end_label, function_symbol, halt_label, has_number, is_declared_label, is_generated_label,
    label_symbol, lemma_declared_is_not_made_up, lemma_declared_labels_apart,
    lemma_label_forms_differ, lemma_labels_injective, lemma_made_up_is_marked,
    lemma_static_symbol_injective, return_label, static_symbol, true_label,
};
use crate::machine::{
    first_use, is_defined, is_variable, labels_unique, lemma_predefined_names,
    lemma_predefined_plain, lemma_symbol_table, lemma_variable_cells_apart, predefined,
    symbol_table, Program,
};
use crate::resolver::Addressing;
use crate::translation::{
    bootstrap_code, call_code, command_body, command_code, compare_code, comparison_jump,
    enter_code, final_loop_code, frame_code, load_last_two_code, marked, move_result_code,
    push_code, push_label_code, repeated, reposition_code, restore_frame_code, resume_code,
    return_code, save_frame_code, translatable,
};
use crate::utils::Cmd;
use crate::writer::{module_heading, WriterState};
use vstd::prelude::*;

verus! {

/// The names of the labels that the lines define, in the order of the
/// lines.
pub open spec fn defined_labels(code: Seq<Instr>) -> Seq<Seq<char>>
    decreases code.len(),
{
    if code.len() == 0 {
        Seq::empty()
    } else {
        let before = defined_labels(code.drop_last());
        match code.last() {
            Instr::Label(name) => before.push(name),
            _ => before,
        }
    }
}

/// The labels that the translator makes up for a command when `n` is
/// the number of the next fresh label: two for a comparison, one for a
/// call.
pub open spec fn fresh_labels(command: Cmd, n: nat) -> Seq<Seq<char>> {
    match command {
        Cmd::Arithmetic(op) => if op.is_comparison() {
            seq![true_label(n), end_label(n)]
        } else {
            Seq::empty()
        },
        Cmd::Call(_, _) => seq![return_label(n)],
        _ => Seq::empty(),
    }
}

/// How many label numbers the commands use up.
pub open spec fn numbers_used_by(commands: Seq<Cmd>) -> nat
    decreases commands.len(),
{
    if commands.len() == 0 {
        0
    } else {
        numbers_used_by(commands.drop_last()) + commands.last().numbers_used()
    }
}

/// How many of the commands are comparisons.
pub open spec fn comparisons(commands: Seq<Cmd>) -> nat
    decreases commands.len(),
{
    if commands.len() == 0 {
        0
    } else {
        comparisons(commands.drop_last()) + if commands.last() is Arithmetic
            && commands.last()->Arithmetic_0.is_comparison() {
            1nat
        } else {
            0nat
        }
    }
}

/// How many of the commands are calls.
pub open spec fn calls(commands: Seq<Cmd>) -> nat
    decreases commands.len(),
{
    if commands.len() == 0 {
        0
    } else {
        calls(commands.drop_last()) + if commands.last() is Call {
            1nat
        } else {
            0nat
        }
    }
}

/// The labels that the translator makes up for the commands when `n` is
/// the number of the next fresh label.
pub open spec fn generated_labels(commands: Seq<Cmd>, n: nat) -> Seq<Seq<char>>
    decreases commands.len(),
{
    if commands.len() == 0 {
        Seq::empty()
    } else {
        generated_labels(commands.drop_last(), n) + fresh_labels(
            commands.last(),
            n + numbers_used_by(commands.drop_last()),
        )
    }
}

/// All labels of the commands, declared and made up, in the order of
/// the commands.
pub open spec fn all_labels(commands: Seq<Cmd>, n: nat) -> Seq<Seq<char>>
    decreases commands.len(),
{
    if commands.len() == 0 {
        Seq::empty()
    } else {
        all_labels(commands.drop_last(), n) + declared_labels(commands.last()) + fresh_labels(
            commands.last(),
            n + numbers_used_by(commands.drop_last()),
        )
    }
}

/// The labels of two blocks of lines are those of the first, then those
/// of the second.
pub proof fn lemma_defined_labels_concat(a: Seq<Instr>, b: Seq<Instr>)
    ensures
        defined_labels(a + b) == defined_labels(a) + defined_labels(b),
    decreases b.len(),
{
    if b.len() == 0 {
        assert(a + b =~= a);
        assert(defined_labels(a) + defined_labels(b) =~= defined_labels(a));
    } else {
        lemma_defined_labels_concat(a, b.drop_last());
        assert((a + b).drop_last() =~= a + b.drop_last());
        assert((a + b).last() == b.last());
        match b.last() {
            Instr::Label(name) => {
                assert((defined_labels(a) + defined_labels(b.drop_last())).push(name)
                    =~= defined_labels(a) + defined_labels(b.drop_last()).push(name));
            },
            _ => {},
        }
    }
}

/// Lines of which none is a label define no label.
pub proof fn lemma_no_labels(code: Seq<Instr>)
    requires
        forall|i: int| 0 <= i < code.len() ==> !((#[trigger] code[i]) is Label),
    ensures
        defined_labels(code) == Seq::<Seq<char>>::empty(),
    decreases code.len(),
{
    if code.len() > 0 {
        assert(!(code[code.len() - 1] is Label));
        assert forall|i: int| 0 <= i < code.drop_last().len() implies !((
        #[trigger] code.drop_last()[i]) is Label) by {
            assert(code.drop_last()[i] == code[i]);
        }
        lemma_no_labels(code.drop_last());
    }
}

/// One label line defines its label.
pub proof fn lemma_one_label(name: Seq<char>)
    ensures
        defined_labels(seq![Instr::Label(name)]) == seq![name],
{
    let code = seq![Instr::Label(name)];
    assert(code.drop_last() =~= Seq::<Instr>::empty());
    assert(defined_labels(code.drop_last()) =~= Seq::<Seq<char>>::empty());
    assert(Seq::<Seq<char>>::empty().push(name) =~= seq![name]);
}

proof fn lemma_repeated_no_labels(block: Seq<Instr>, count: nat)
    requires
        defined_labels(block) == Seq::<Seq<char>>::empty(),
    ensures
        defined_labels(repeated(block, count)) == Seq::<Seq<char>>::empty(),
    decreases count,
{
    if count > 0 {
        lemma_repeated_no_labels(block, (count - 1) as nat);
        lemma_defined_labels_concat(repeated(block, (count - 1) as nat), block);
    }
}

proof fn lemma_compare_labels(jump: Jump, n: nat)
    ensures
        defined_labels(compare_code(jump, n)) == seq![true_label(n), end_label(n)],
{
    let code = compare_code(jump, n);
    let a = code.subrange(0, 8);
    let b = seq![Instr::Label(true_label(n))];
    let c = code.subrange(9, 12);
    let d = seq![Instr::Label(end_label(n))];
    assert(code =~= a + b + c + d);
    lemma_defined_labels_concat(a + b + c, d);
    lemma_defined_labels_concat(a + b, c);
    lemma_defined_labels_concat(a, b);
    lemma_no_labels(a);
    lemma_no_labels(c);
    lemma_one_label(true_label(n));
    lemma_one_label(end_label(n));
    assert(Seq::<Seq<char>>::empty() + seq![true_label(n)] + Seq::<Seq<char>>::empty() + seq![
        end_label(n),
    ] =~= seq![true_label(n), end_label(n)]);
}

proof fn lemma_call_labels(name: Seq<char>, args: nat, n: nat)
    ensures
        defined_labels(call_code(name, args, n)) == seq![return_label(n)],
{
    let a = push_label_code(return_label(n));
    let b = save_frame_code();
    let c = reposition_code(args);
    let d = enter_code(name, return_label(n));
    let d1 = d.subrange(0, 2);
    let d2 = seq![Instr::Label(return_label(n))];
    assert(d =~= d1 + d2);
    lemma_defined_labels_concat(a + b + c, d);
    lemma_defined_labels_concat(a + b, c);
    lemma_defined_labels_concat(a, b);
    lemma_defined_labels_concat(d1, d2);
    lemma_no_labels(a);
    lemma_no_labels(b);
    lemma_no_labels(c);
    lemma_no_labels(d1);
    lemma_one_label(return_label(n));
    assert(Seq::<Seq<char>>::empty() + Seq::<Seq<char>>::empty() + Seq::<Seq<char>>::empty() + (
    Seq::<Seq<char>>::empty() + seq![return_label(n)]) =~= seq![return_label(n)]);
}

proof fn lemma_return_labels()
    ensures
        defined_labels(return_code()) == Seq::<Seq<char>>::empty(),
{
    let a = frame_code();
    let b = move_result_code();
    let c = restore_frame_code();
    let d = resume_code();
    lemma_defined_labels_concat(a + b + c, d);
    lemma_defined_labels_concat(a + b, c);
    lemma_defined_labels_concat(a, b);
    lemma_no_labels(a);
    lemma_no_labels(b);
    lemma_no_labels(c);
    lemma_no_labels(d);
    assert(Seq::<Seq<char>>::empty() + Seq::<Seq<char>>::empty() + Seq::<Seq<char>>::empty()
        + Seq::<Seq<char>>::empty() =~= Seq::<Seq<char>>::empty());
}

/// The lines of a command define the label that the command declares
/// and the labels that are made up for it, and no other.
pub proof fn lemma_command_labels(command: Cmd, module: Seq<char>, n: nat)
    requires
        translatable(command),
    ensures
        defined_labels(command_code(command, module, n)) == declared_labels(command)
            + fresh_labels(command, n),
{
    let body = command_body(command, module, n);
    let code = command_code(command, module, n);
    let none = Seq::<Seq<char>>::empty();
    assert(code =~= body + seq![Instr::Blank]);
    lemma_defined_labels_concat(body, seq![Instr::Blank]);
    lemma_no_labels(seq![Instr::Blank]);
    assert(defined_labels(body) + none =~= defined_labels(body));
    assert(none + none =~= none);
    match command {
        Cmd::Push(segment, index) => {
            lemma_no_labels(body);
        },
        Cmd::Pop(segment, index) => {
            lemma_no_labels(body);
        },
        Cmd::Arithmetic(op) => {
            if op.is_comparison() {
                lemma_defined_labels_concat(
                    load_last_two_code(),
                    compare_code(comparison_jump(op), n),
                );
                lemma_no_labels(load_last_two_code());
                lemma_compare_labels(comparison_jump(op), n);
                assert(none + seq![true_label(n), end_label(n)] =~= seq![
                    true_label(n),
                    end_label(n),
                ]);
            } else {
                lemma_no_labels(body);
            }
        },
        Cmd::Label(name) => {
            lemma_one_label(name);
            assert(seq![name] + none =~= seq![name]);
        },
        Cmd::GoTo(name) => {
            lemma_no_labels(body);
        },
        Cmd::IfGoTo(name) => {
            lemma_no_labels(body);
        },
        Cmd::Function(name, locals) => {
            let zero = push_code(Addressing::Immediate(0), 0);
            lemma_no_labels(zero);
            lemma_repeated_no_labels(zero, locals);
            lemma_defined_labels_concat(seq![Instr::Label(name)], repeated(zero, locals));
            lemma_one_label(name);
            assert(seq![name] + none =~= seq![name]);
        },
        Cmd::Call(name, args) => {
            lemma_call_labels(name, args, n);
            assert(none + seq![return_label(n)] =~= seq![return_label(n)]);
        },
        Cmd::Return => {
            lemma_return_labels();
        },
    }
}

/// How often a name occurs among labels.
pub open spec fn occurrences(labels: Seq<Seq<char>>, name: Seq<char>) -> nat
    decreases labels.len(),
{
    if labels.len() == 0 {
        0
    } else {
        occurrences(labels.drop_last(), name) + if labels.last() == name {
            1nat
        } else {
            0nat
        }
    }
}

/// Whether `label` is one of the labels with a number from `low` up to,
/// but not including, `high`.
pub open spec fn numbered_within(label: Seq<char>, low: nat, high: nat) -> bool {
    exists|k: nat| low <= k < high && #[trigger] has_number(label, k)
}

/// The commands as they are written into the program, each with its
/// marks on: `scope` is the number of the scope at the first command,
/// and each function starts the next scope.
pub open spec fn emitted(commands: Seq<Cmd>, module: Seq<char>, scope: nat) -> Seq<Cmd>
    decreases commands.len(),
{
    if commands.len() == 0 {
        Seq::empty()
    } else {
        emitted(commands.drop_last(), module, scope).push(
            marked(
                commands.last(),
                module,
                scope + function_names(commands.drop_last()).len(),
            ),
        )
    }
}

/// The number of the scope behind the modules, when `scope` was the
/// number before them: each module and each function starts a scope.
pub open spec fn scope_after(units: Seq<Unit>, scope: nat) -> nat
    decreases units.len(),
{
    if units.len() == 0 {
        scope
    } else {
        scope_after(units.drop_last(), scope) + 1 + function_names(
            commands_of(units.last().commands),
        ).len()
    }
}

/// All commands of the modules as they are written into the program,
/// in the order of the modules.
pub open spec fn program_commands(units: Seq<Unit>, scope: nat) -> Seq<Cmd>
    decreases units.len(),
{
    if units.len() == 0 {
        Seq::empty()
    } else {
        program_commands(units.drop_last(), scope) + emitted(
            commands_of(units.last().commands),
            units.last().name,
            scope_after(units.drop_last(), scope) + 1,
        )
    }
}

/// The call of the entry function as it is written into the program,
/// where a program has one.
pub open spec fn entry_commands(entry: bool) -> Seq<Cmd> {
    if entry {
        emitted(seq![entry_call()], Seq::empty(), 0)
    } else {
        Seq::empty()
    }
}

/// All commands that are translated for a program whose modules parse,
/// as they are written into the program and in the order in which they
/// are translated: the call of the entry function, where a module
/// defines it, and the commands of the modules in the order of their
/// names.
pub open spec fn translated_commands(modules: Seq<Source>) -> Seq<Cmd> {
    let units = units_of(ordered(modules));
    entry_commands(defines_entry(units)) + program_commands(units, 0)
}

pub proof fn lemma_occurrences_concat(a: Seq<Seq<char>>, b: Seq<Seq<char>>, name: Seq<char>)
    ensures
        occurrences(a + b, name) == occurrences(a, name) + occurrences(b, name),
    decreases b.len(),
{
    if b.len() == 0 {
        assert(a + b =~= a);
    } else {
        lemma_occurrences_concat(a, b.drop_last(), name);
        assert((a + b).drop_last() =~= a + b.drop_last());
    }
}

/// A name that is none of the labels occurs among them no times.
pub proof fn lemma_occurrences_absent(labels: Seq<Seq<char>>, name: Seq<char>)
    requires
        forall|i: int| 0 <= i < labels.len() ==> #[trigger] labels[i] != name,
    ensures
        occurrences(labels, name) == 0,
    decreases labels.len(),
{
    if labels.len() > 0 {
        assert(labels[labels.len() - 1] != name);
        assert forall|i: int|
            0 <= i < labels.drop_last().len() implies #[trigger] labels.drop_last()[i]
            != name by {
            assert(labels.drop_last()[i] == labels[i]);
        }
        lemma_occurrences_absent(labels.drop_last(), name);
    }
}

/// Among labels that are all different, each occurs once.
pub proof fn lemma_occurrences_distinct(labels: Seq<Seq<char>>, at: int)
    requires
        labels.no_duplicates(),
        0 <= at < labels.len(),
    ensures
        occurrences(labels, labels[at]) == 1,
    decreases labels.len(),
{
    let front = labels.drop_last();
    assert forall|i: int, j: int|
        0 <= i < front.len() && 0 <= j < front.len() && i != j implies front[i]
        != front[j] by {
        assert(front[i] == labels[i] && front[j] == labels[j]);
    }
    if at == labels.len() - 1 {
        assert forall|i: int| 0 <= i < front.len() implies #[trigger] front[i] != labels[at] by {
            assert(front[i] == labels[i]);
        }
        lemma_occurrences_absent(front, labels[at]);
    } else {
        assert(front[at] == labels[at]);
        lemma_occurrences_distinct(front, at);
    }
}

/// Labels with different numbers differ.
pub proof fn lemma_numbered_labels_differ(a: Seq<char>, j: nat, b: Seq<char>, k: nat)
    requires
        has_number(a, j),
        has_number(b, k),
        j != k,
    ensures
        a != b,
{
    lemma_labels_injective(j, k);
    lemma_label_forms_differ(j, k);
    lemma_label_forms_differ(k, j);
}

proof fn lemma_counts_concat(a: Seq<Cmd>, b: Seq<Cmd>, n: nat)
    ensures
        numbers_used_by(a + b) == numbers_used_by(a) + numbers_used_by(b),
        comparisons(a + b) == comparisons(a) + comparisons(b),
        calls(a + b) == calls(a) + calls(b),
        user_labels(a + b) == user_labels(a) + user_labels(b),
        generated_labels(a + b, n) == generated_labels(a, n) + generated_labels(
            b,
            n + numbers_used_by(a),
        ),
        all_labels(a + b, n) == all_labels(a, n) + all_labels(b, n + numbers_used_by(a)),
    decreases b.len(),
{
    if b.len() == 0 {
        assert(a + b =~= a);
        assert(user_labels(a) + user_labels(b) =~= user_labels(a));
        assert(generated_labels(a, n) + generated_labels(b, n + numbers_used_by(a))
            =~= generated_labels(a, n));
        assert(all_labels(a, n) + all_labels(b, n + numbers_used_by(a)) =~= all_labels(a, n));
    } else {
        let front = b.drop_last();
        let used = n + numbers_used_by(a);
        lemma_counts_concat(a, front, n);
        assert((a + b).drop_last() =~= a + front);
        assert((a + b).last() == b.last());
        let declared = declared_labels(b.last());
        let fresh = fresh_labels(b.last(), used + numbers_used_by(front));
        assert(user_labels(a + b) == user_labels(a) + user_labels(b)) by {
            lemma_concat_associative(user_labels(a), user_labels(front), declared);
        }
        assert(generated_labels(a + b, n) == generated_labels(a, n) + generated_labels(b, used))
            by {
            lemma_concat_associative(generated_labels(a, n), generated_labels(front, used), fresh);
        }
        assert(all_labels(a + b, n) == all_labels(a, n) + all_labels(b, used)) by {
            lemma_concat_associative(all_labels(a, n), all_labels(front, used), declared);
            lemma_concat_associative(
                all_labels(a, n),
                all_labels(front, used) + declared,
                fresh,
            );
        }
    }
}

proof fn lemma_concat_associative(a: Seq<Seq<char>>, b: Seq<Seq<char>>, c: Seq<Seq<char>>)
    ensures
        (a + b) + c == a + (b + c),
{
    assert((a + b) + c =~= a + (b + c));
}

/// What the translator makes up for commands: two labels for each
/// comparison and one for each call, all of them different, each with a
/// number from `n` on that the commands use up.
pub proof fn lemma_generated_labels(commands: Seq<Cmd>, n: nat)
    ensures
        numbers_used_by(commands) == comparisons(commands) + calls(commands),
        generated_labels(commands, n).len() == 2 * comparisons(commands) + calls(commands),
        forall|i: int|
            0 <= i < generated_labels(commands, n).len() ==> numbered_within(
                #[trigger] generated_labels(commands, n)[i],
                n,
                n + numbers_used_by(commands),
            ),
        generated_labels(commands, n).no_duplicates(),
        forall|i: int|
            0 <= i < generated_labels(commands, n).len() ==> #[trigger] generated_labels(
                commands,
                n,
            )[i] != halt_label(),
    decreases commands.len(),
{
    if commands.len() > 0 {
        let front = commands.drop_last();
        let last = commands.last();
        let k = n + numbers_used_by(front);
        lemma_generated_labels(front, n);
        let before = generated_labels(front, n);
        let fresh = fresh_labels(last, k);
        let all = generated_labels(commands, n);
        let high = n + numbers_used_by(commands);
        lemma_label_forms_differ(k, k);
        assert forall|i: int| 0 <= i < all.len() implies numbered_within(
            #[trigger] all[i],
            n,
            high,
        ) && all[i] != halt_label() by {
            if i < before.len() {
                assert(all[i] == before[i]);
                assert(numbered_within(before[i], n, k));
                let w = choose|w: nat| n <= w < k && #[trigger] has_number(before[i], w);
                assert(has_number(all[i], w));
            } else {
                assert(all[i] == fresh[i - before.len()]);
                assert(has_number(all[i], k));
            }
        }
        assert forall|i: int, j: int|
            0 <= i < all.len() && 0 <= j < all.len() && i != j implies all[i]
            != all[j] by {
            if i < before.len() && j < before.len() {
                assert(all[i] == before[i] && all[j] == before[j]);
            } else if i >= before.len() && j >= before.len() {
                assert(all[i] == fresh[i - before.len()]);
                assert(all[j] == fresh[j - before.len()]);
            } else {
                let old = if i < before.len() {
                    i
                } else {
                    j
                };
                let new = if i < before.len() {
                    j
                } else {
                    i
                };
                assert(all[old] == before[old]);
                assert(all[new] == fresh[new - before.len()]);
                assert(numbered_within(before[old], n, k));
                let w = choose|w: nat| n <= w < k && #[trigger] has_number(before[old], w);
                assert(has_number(all[new], k));
                lemma_numbered_labels_differ(all[old], w, all[new], k);
            }
        }
    }
}

/// Each label of the commands is one that a command declares or one
/// that is made up: a name occurs among all labels as often as among
/// the two kinds together.
pub proof fn lemma_all_labels_split(commands: Seq<Cmd>, n: nat, name: Seq<char>)
    ensures
        occurrences(all_labels(commands, n), name) == occurrences(user_labels(commands), name)
            + occurrences(generated_labels(commands, n), name),
    decreases commands.len(),
{
    if commands.len() > 0 {
        let front = commands.drop_last();
        let k = n + numbers_used_by(front);
        let declared = declared_labels(commands.last());
        let fresh = fresh_labels(commands.last(), k);
        lemma_all_labels_split(front, n, name);
        lemma_occurrences_concat(all_labels(front, n) + declared, fresh, name);
        lemma_occurrences_concat(all_labels(front, n), declared, name);
        lemma_occurrences_concat(user_labels(front), declared, name);
        lemma_occurrences_concat(generated_labels(front, n), fresh, name);
    }
}

/// The marks leave a command what it is: as many commands are written
/// as there are, and they use up as many label numbers.
pub proof fn lemma_emitted(commands: Seq<Cmd>, module: Seq<char>, scope: nat)
    ensures
        emitted(commands, module, scope).len() == commands.len(),
        numbers_used_by(emitted(commands, module, scope)) == numbers_used_by(commands),
        forall|j: int|
            0 <= j < commands.len() && translatable(commands[j]) ==> translatable(
                #[trigger] emitted(commands, module, scope)[j],
            ),
    decreases commands.len(),
{
    if commands.len() > 0 {
        let front = commands.drop_last();
        lemma_emitted(front, module, scope);
        let written = emitted(commands, module, scope);
        assert(written.drop_last() =~= emitted(front, module, scope));
        assert forall|j: int| 0 <= j < commands.len() && translatable(
            commands[j],
        ) implies translatable(#[trigger] written[j]) by {
            if j < front.len() {
                assert(written[j] == emitted(front, module, scope)[j]);
                assert(front[j] == commands[j]);
            }
        }
    }
}

/// The lines that the generator writes for commands define the labels
/// of the commands as they are written, in their order, use up their
/// label numbers and start a scope with each function.
pub proof fn lemma_run_commands_labels(state: WriterState, commands: Seq<Cmd>)
    requires
        forall|j: int| 0 <= j < commands.len() ==> translatable(#[trigger] commands[j]),
    ensures
        run_commands(state, commands).module == state.module,
        run_commands(state, commands).counter == state.counter + numbers_used_by(commands),
        run_commands(state, commands).scope == state.scope + function_names(commands).len(),
        defined_labels(run_commands(state, commands).code) == defined_labels(state.code)
            + all_labels(emitted(commands, state.module, state.scope), state.counter),
    decreases commands.len(),
{
    let written = emitted(commands, state.module, state.scope);
    if commands.len() == 0 {
        assert(defined_labels(state.code) + all_labels(written, state.counter)
            =~= defined_labels(state.code));
    } else {
        let front = commands.drop_last();
        let last = commands.last();
        assert forall|j: int| 0 <= j < front.len() implies translatable(#[trigger] front[j]) by {
            assert(front[j] == commands[j]);
        }
        assert(translatable(commands[commands.len() - 1]));
        lemma_run_commands_labels(state, front);
        lemma_emitted(front, state.module, state.scope);
        let mid = run_commands(state, front);
        let before = emitted(front, state.module, state.scope);
        let marked_last = marked(last, mid.module, mid.scope);
        assert(written.drop_last() =~= before);
        assert(written.last() == marked_last);
        let comment = seq![Instr::Comment(last.describe())];
        let code = command_code(marked_last, mid.module, mid.counter);
        lemma_defined_labels_concat(mid.code + comment, code);
        lemma_defined_labels_concat(mid.code, comment);
        lemma_no_labels(comment);
        lemma_command_labels(marked_last, mid.module, mid.counter);
        let base = defined_labels(state.code);
        let declared = declared_labels(marked_last);
        let fresh = fresh_labels(marked_last, mid.counter);
        assert(base + all_labels(before, state.counter) + Seq::<Seq<char>>::empty() + (declared
            + fresh) =~= base + (all_labels(before, state.counter) + declared + fresh));
    }
}

proof fn lemma_run_units_labels(state: WriterState, units: Seq<Unit>)
    requires
        forall|m: int, j: int|
            0 <= m < units.len() && 0 <= j < units[m].commands.len() ==> translatable(
                #[trigger] commands_of(units[m].commands)[j],
            ),
    ensures
        run_units(state, units).counter == state.counter + numbers_used_by(
            program_commands(units, state.scope),
        ),
        run_units(state, units).scope == scope_after(units, state.scope),
        defined_labels(run_units(state, units).code) == defined_labels(state.code) + all_labels(
            program_commands(units, state.scope),
            state.counter,
        ),
    decreases units.len(),
{
    if units.len() == 0 {
        assert(defined_labels(state.code) + all_labels(
            program_commands(units, state.scope),
            state.counter,
        ) =~= defined_labels(state.code));
    } else {
        let front = units.drop_last();
        let last = units.last();
        let commands = commands_of(last.commands);
        assert forall|m: int, j: int|
            0 <= m < front.len() && 0 <= j < front[m].commands.len() implies translatable(
            #[trigger] commands_of(front[m].commands)[j],
        ) by {
            assert(front[m] == units[m]);
        }
        lemma_run_units_labels(state, front);
        let mid = run_units(state, front);
        let named = mid.enter_module(last.name);
        assert forall|j: int| 0 <= j < commands.len() implies translatable(
            #[trigger] commands[j],
        ) by {
            assert(units[units.len() - 1] == last);
            assert(translatable(commands_of(units[units.len() - 1].commands)[j]));
        }
        let heading = seq![Instr::Comment(module_heading(last.name))];
        lemma_defined_labels_concat(mid.code, heading);
        lemma_no_labels(heading);
        lemma_run_commands_labels(named, commands);
        lemma_emitted(commands, last.name, named.scope);
        let written = emitted(commands, last.name, named.scope);
        lemma_counts_concat(program_commands(front, state.scope), written, state.counter);
        let base = defined_labels(state.code);
        assert(base + all_labels(program_commands(front, state.scope), state.counter)
            + Seq::<Seq<char>>::empty() + all_labels(written, mid.counter) =~= base + (all_labels(
            program_commands(front, state.scope),
            state.counter,
        ) + all_labels(written, mid.counter)));
    }
}

/// The lines that end a program define the label of the final loop.
proof fn lemma_final_labels()
    ensures
        defined_labels(final_loop_code()) == seq![halt_label()],
{
    let none = Seq::<Seq<char>>::empty();
    let last = final_loop_code();
    let l0 = last.subrange(0, 1);
    let l1 = seq![Instr::Label(halt_label())];
    let l2 = last.subrange(2, 4);
    assert(last =~= l0 + l1 + l2);
    lemma_defined_labels_concat(l0 + l1, l2);
    lemma_defined_labels_concat(l0, l1);
    lemma_no_labels(l0);
    lemma_no_labels(l2);
    lemma_one_label(halt_label());
    assert(none + seq![halt_label()] + none =~= seq![halt_label()]);
}

/// The call of the entry function as it is written.
proof fn lemma_entry_commands(entry: bool)
    ensures
        entry ==> entry_commands(entry) == seq![
            Cmd::Call(function_symbol(crate::labels::entry_name()), 0),
        ],
        !entry ==> entry_commands(entry) == Seq::<Cmd>::empty(),
{
    if entry {
        let entering = seq![entry_call()];
        assert(entering.drop_last() =~= Seq::<Cmd>::empty());
        assert(function_names(entering.drop_last()).len() == 0);
        assert(emitted(entering.drop_last(), Seq::empty(), 0) =~= Seq::<Cmd>::empty());
        assert(entry_commands(entry) =~= seq![
            Cmd::Call(function_symbol(crate::labels::entry_name()), 0),
        ]);
    }
}

/// The lines that start a program define the labels of the call of the
/// entry function, where there is one, and start no scope.
proof fn lemma_start_labels(entry: bool)
    ensures
        start_state(entry).counter == numbers_used_by(entry_commands(entry)),
        start_state(entry).scope == 0,
        defined_labels(start_state(entry).code) == all_labels(entry_commands(entry), 0),
{
    let state = WriterState {
        code: bootstrap_code(),
        counter: 0,
        module: Seq::empty(),
        scope: 0,
    };
    lemma_no_labels(bootstrap_code());
    let entering = if entry {
        seq![entry_call()]
    } else {
        Seq::<Cmd>::empty()
    };
    assert(start_state(entry) == run_commands(state, entering));
    assert(function_names(entering).len() == 0) by {
        if entry {
            assert(entering.drop_last() =~= Seq::<Cmd>::empty());
            assert(function_names(entering.drop_last()).len() == 0);
            assert(entering.last() is Call);
        }
    }
    assert(entry_commands(entry) == emitted(entering, state.module, state.scope)) by {
        if !entry {
            assert(emitted(entering, state.module, state.scope) =~= Seq::<Cmd>::empty());
        }
    }
    assert forall|j: int| 0 <= j < entering.len() implies translatable(
        #[trigger] entering[j],
    ) by {}
    lemma_run_commands_labels(state, entering);
    lemma_emitted(entering, state.module, state.scope);
    assert(Seq::<Seq<char>>::empty() + all_labels(entry_commands(entry), 0) =~= all_labels(
        entry_commands(entry),
        0,
    ));
}

/// The labels of a translated program. Its lines define the labels of
/// the commands that were translated, in their order, and the label of
/// the final loop. The labels that the translator made up are two for
/// each comparison and one for each call; they are all different, and
/// none of them is the label of the final loop.
pub proof fn lemma_program_labels(modules: Seq<Source>)
    requires
        translation(modules) is Ok,
    ensures
        ({
            let commands = translated_commands(modules);
            let code = translation(modules)->Ok_0;
            let made_up = generated_labels(commands, 0);
            &&& defined_labels(code) == all_labels(commands, 0).push(halt_label())
            &&& made_up.len() == 2 * comparisons(commands) + calls(commands)
            &&& made_up.no_duplicates()
            &&& !made_up.contains(halt_label())
        }),
{
    let units = units_of(ordered(modules));
    let entry = defines_entry(units);
    let first = entry_commands(entry);
    let rest = program_commands(units, 0);
    let commands = translated_commands(modules);
    let none = Seq::<Seq<char>>::empty();
    lemma_first_untranslated_bounds(units, 0);
    lemma_first_untranslated_none(units, 0);
    // The lines that start the program.
    let start = start_state(entry);
    lemma_start_labels(entry);
    // The modules.
    lemma_run_units_labels(start, units);
    lemma_counts_concat(first, rest, 0);
    // The lines that end the program.
    let done = run_units(start, units);
    lemma_defined_labels_concat(done.code, final_loop_code());
    lemma_final_labels();
    let labels = all_labels(first, 0) + all_labels(rest, numbers_used_by(first));
    assert(labels + seq![halt_label()] =~= labels.push(halt_label()));
    lemma_generated_labels(commands, 0);
}

proof fn lemma_made_up_once(modules: Seq<Source>, at: int)
    requires
        translation(modules) is Ok,
        forall|i: int, j: int|
            0 <= i < user_labels(translated_commands(modules)).len() && 0 <= j
                < generated_labels(translated_commands(modules), 0).len() ==> user_labels(
                translated_commands(modules),
            )[i] != generated_labels(translated_commands(modules), 0)[j],
        0 <= at < generated_labels(translated_commands(modules), 0).len(),
    ensures
        occurrences(
            defined_labels(translation(modules)->Ok_0),
            generated_labels(translated_commands(modules), 0)[at],
        ) == 1,
{
    let commands = translated_commands(modules);
    let code = translation(modules)->Ok_0;
    let made_up = generated_labels(commands, 0);
    let label = made_up[at];
    lemma_program_labels(modules);
    lemma_all_labels_split(commands, 0, label);
    lemma_occurrences_absent(user_labels(commands), label);
    lemma_occurrences_distinct(made_up, at);
    assert(made_up.contains(label));
    let all = all_labels(commands, 0);
    assert(all.push(halt_label()).drop_last() =~= all);
}

/// Among labels that are all different, none occurs twice.
pub proof fn lemma_occurrences_at_most_once(labels: Seq<Seq<char>>, name: Seq<char>)
    requires
        labels.no_duplicates(),
    ensures
        occurrences(labels, name) <= 1,
{
    if exists|i: int| 0 <= i < labels.len() && labels[i] == name {
        let i = choose|i: int| 0 <= i < labels.len() && labels[i] == name;
        lemma_occurrences_distinct(labels, i);
    } else {
        lemma_occurrences_absent(labels, name);
    }
}

/// Two lines that define one label make its name occur twice among the
/// labels that the lines define.
proof fn lemma_defined_twice(code: Seq<Instr>, i: int, j: int, name: Seq<char>)
    requires
        0 <= i < code.len(),
        code[i] == Instr::Label(name),
        i < j < code.len() ==> code[j] == Instr::Label(name),
    ensures
        occurrences(defined_labels(code), name) >= 1,
        i < j < code.len() ==> occurrences(defined_labels(code), name) >= 2,
    decreases code.len(),
{
    let front = code.drop_last();
    let before = defined_labels(front);
    match code.last() {
        Instr::Label(last) => {
            assert(before.push(last).drop_last() =~= before);
        },
        _ => {},
    }
    if i < code.len() - 1 {
        assert(front[i] == code[i]);
        if i < j < code.len() - 1 {
            assert(front[j] == code[j]);
            lemma_defined_twice(front, i, j, name);
        } else {
            lemma_defined_twice(front, i, i, name);
        }
    }
}

proof fn lemma_labels_unique_where_apart(modules: Seq<Source>)
    requires
        translation(modules) is Ok,
        user_labels(translated_commands(modules)).no_duplicates(),
        forall|i: int|
            0 <= i < user_labels(translated_commands(modules)).len() ==> predefined(
                #[trigger] user_labels(translated_commands(modules))[i],
            ) is None,
        forall|i: int|
            0 <= i < user_labels(translated_commands(modules)).len() ==> #[trigger] user_labels(
                translated_commands(modules),
            )[i] != halt_label(),
        forall|i: int, j: int|
            0 <= i < user_labels(translated_commands(modules)).len() && 0 <= j
                < generated_labels(translated_commands(modules), 0).len() ==> user_labels(
                translated_commands(modules),
            )[i] != generated_labels(translated_commands(modules), 0)[j],
    ensures
        labels_unique(translation(modules)->Ok_0),
        forall|i: int|
            0 <= i < translation(modules)->Ok_0.len() && (#[trigger] translation(
                modules,
            )->Ok_0[i]) is Label ==> {
                let name = translation(modules)->Ok_0[i]->Label_0;
                ||| user_labels(translated_commands(modules)).contains(name)
                ||| is_generated_label(name)
                ||| name == halt_label()
            },
{
    let commands = translated_commands(modules);
    let code = translation(modules)->Ok_0;
    let user = user_labels(commands);
    let made_up = generated_labels(commands, 0);
    let all = all_labels(commands, 0);
    lemma_program_labels(modules);
    lemma_generated_labels(commands, 0);
    assert(all.push(halt_label()).drop_last() =~= all);
    assert forall|i: int, j: int|
        0 <= i < j < code.len() && (#[trigger] code[i]) is Label implies code[i]
        != #[trigger] code[j] by {
        if code[i] == code[j] {
            let name = code[i]->Label_0;
            lemma_defined_twice(code, i, j, name);
            lemma_all_labels_split(commands, 0, name);
            lemma_occurrences_at_most_once(user, name);
            lemma_occurrences_at_most_once(made_up, name);
            if name == halt_label() {
                lemma_occurrences_absent(user, name);
                lemma_occurrences_absent(made_up, name);
            } else if occurrences(user, name) > 0 && occurrences(made_up, name) > 0 {
                if forall|k: int| 0 <= k < user.len() ==> #[trigger] user[k] != name {
                    lemma_occurrences_absent(user, name);
                }
                if forall|k: int| 0 <= k < made_up.len() ==> #[trigger] made_up[k] != name {
                    lemma_occurrences_absent(made_up, name);
                }
            }
        }
    }
    assert forall|i: int| 0 <= i < code.len() && (#[trigger] code[i]) is Label implies {
        let name = code[i]->Label_0;
        ||| user.contains(name)
        ||| is_generated_label(name)
        ||| name == halt_label()
    } by {
        let name = code[i]->Label_0;
        lemma_defined_twice(code, i, i, name);
        lemma_all_labels_split(commands, 0, name);
        if name != halt_label() {
            if forall|k: int| 0 <= k < user.len() ==> #[trigger] user[k] != name {
                lemma_occurrences_absent(user, name);
                if forall|k: int| 0 <= k < made_up.len() ==> #[trigger] made_up[k] != name {
                    lemma_occurrences_absent(made_up, name);
                }
                let k = choose|k: int| 0 <= k < made_up.len() && #[trigger] made_up[k] == name;
                assert(numbered_within(made_up[k], 0, numbers_used_by(commands)));
                let w = choose|w: nat|
                    0 <= w < numbers_used_by(commands) && #[trigger] has_number(made_up[k], w);
                assert(is_generated_label(name));
            } else {
                let k = choose|k: int| 0 <= k < user.len() && #[trigger] user[k] == name;
                assert(user.contains(name));
            }
        }
    }
}

/// Whether the labels that a program has declared so far keep apart:
/// they are all different; each is the label of a function or a label in
/// a scope; the functions among them are those of `functions`; and none
/// lies in a scope behind scope `scope`.
pub open spec fn kept_apart(labels: Seq<Seq<char>>, functions: Seq<Seq<char>>, scope: nat) -> bool {
    &&& labels.no_duplicates()
    &&& forall|i: int| 0 <= i < labels.len() ==> is_declared_label(#[trigger] labels[i])
    &&& forall|f: Seq<char>|
        labels.contains(#[trigger] function_symbol(f)) ==> functions.contains(f)
    &&& forall|m: Seq<char>, l: Seq<char>, q: nat|
        labels.contains(#[trigger] label_symbol(m, l, q)) ==> q <= scope
}

/// Whether the labels that a program has declared so far keep apart,
/// and those in the scope at hand, scope `scope` of `module`, are the
/// labels with the names `in_scope`.
pub open spec fn scoped(
    labels: Seq<Seq<char>>,
    functions: Seq<Seq<char>>,
    in_scope: Seq<Seq<char>>,
    module: Seq<char>,
    scope: nat,
) -> bool {
    &&& kept_apart(labels, functions, scope)
    &&& forall|l: Seq<char>|
        labels.contains(#[trigger] label_symbol(module, l, scope)) ==> in_scope.contains(l)
}

/// A label with a name that is new in its scope keeps apart from the
/// labels declared before.
proof fn lemma_scoped_label(
    labels: Seq<Seq<char>>,
    functions: Seq<Seq<char>>,
    in_scope: Seq<Seq<char>>,
    module: Seq<char>,
    scope: nat,
    name: Seq<char>,
)
    requires
        scoped(labels, functions, in_scope, module, scope),
        !in_scope.contains(name),
    ensures
        scoped(
            labels.push(label_symbol(module, name, scope)),
            functions,
            in_scope.push(name),
            module,
            scope,
        ),
{
    let e = label_symbol(module, name, scope);
    let now = labels.push(e);
    let none = Seq::<char>::empty();
    assert(!labels.contains(e));
    assert(is_declared_label(e));
    assert forall|x: Seq<char>| now.contains(x) implies labels.contains(x) || x == e by {
        vstd::seq_lib::lemma_seq_contains_after_push(labels, e, x);
    }
    assert forall|i: int, j: int| 0 <= i < now.len() && 0 <= j < now.len() && i != j implies now[i]
        != now[j] by {
        if i < labels.len() && j < labels.len() {
            assert(labels[i] != labels[j]);
        } else if i < labels.len() {
            assert(labels.contains(labels[i]));
        } else {
            assert(labels.contains(labels[j]));
        }
    }
    assert forall|f: Seq<char>|
        now.contains(#[trigger] function_symbol(f)) implies functions.contains(f) by {
        lemma_declared_labels_apart(f, f, module, name, scope, module, name, scope);
    }
    assert forall|m: Seq<char>, l: Seq<char>, q: nat| now.contains(
        #[trigger] label_symbol(m, l, q),
    ) implies q <= scope by {
        lemma_declared_labels_apart(none, none, m, l, q, module, name, scope);
    }
    assert forall|l: Seq<char>| now.contains(
        #[trigger] label_symbol(module, l, scope),
    ) implies in_scope.push(name).contains(l) by {
        vstd::seq_lib::lemma_seq_contains_after_push(in_scope, name, l);
        lemma_declared_labels_apart(none, none, module, l, scope, module, name, scope);
    }
}

/// A function with a name that is new in the program keeps apart from
/// the labels declared before, and starts a scope without labels.
proof fn lemma_scoped_function(
    labels: Seq<Seq<char>>,
    functions: Seq<Seq<char>>,
    module: Seq<char>,
    scope: nat,
    name: Seq<char>,
)
    requires
        kept_apart(labels, functions, scope),
        !functions.contains(name),
    ensures
        scoped(
            labels.push(function_symbol(name)),
            functions.push(name),
            Seq::empty(),
            module,
            scope + 1,
        ),
{
    let e = function_symbol(name);
    let now = labels.push(e);
    let none = Seq::<char>::empty();
    assert(!labels.contains(e));
    assert(is_declared_label(e));
    assert forall|x: Seq<char>| now.contains(x) implies labels.contains(x) || x == e by {
        vstd::seq_lib::lemma_seq_contains_after_push(labels, e, x);
    }
    assert forall|i: int, j: int| 0 <= i < now.len() && 0 <= j < now.len() && i != j implies now[i]
        != now[j] by {
        if i < labels.len() && j < labels.len() {
            assert(labels[i] != labels[j]);
        } else if i < labels.len() {
            assert(labels.contains(labels[i]));
        } else {
            assert(labels.contains(labels[j]));
        }
    }
    assert forall|f: Seq<char>| now.contains(#[trigger] function_symbol(f)) implies functions.push(
        name,
    ).contains(f) by {
        vstd::seq_lib::lemma_seq_contains_after_push(functions, name, f);
        lemma_declared_labels_apart(f, name, none, none, 0, none, none, 0);
    }
    assert forall|m: Seq<char>, l: Seq<char>, q: nat| now.contains(
        #[trigger] label_symbol(m, l, q),
    ) implies q <= scope by {
        lemma_declared_labels_apart(name, name, m, l, q, m, l, q);
    }
}

/// The labels that the commands of a module declare without a failure
/// keep apart from each other and from those declared before.
proof fn lemma_commands_scoped(
    commands: Seq<Cmd>,
    module: Seq<char>,
    scope: nat,
    labels: Seq<Seq<char>>,
    earlier: Seq<Seq<char>>,
    k: int,
)
    requires
        0 <= k <= commands.len(),
        first_failure(commands, 0, earlier) == commands.len(),
        scoped(labels, earlier, Seq::empty(), module, scope),
    ensures
        scoped(
            labels + user_labels(emitted(commands.take(k), module, scope)),
            earlier + function_names(commands.take(k)),
            labels_in_scope(commands, k),
            module,
            scope + function_names(commands.take(k)).len(),
        ),
    decreases k,
{
    if k == 0 {
        assert(commands.take(0) =~= Seq::<Cmd>::empty());
        assert(labels + user_labels(emitted(commands.take(0), module, scope)) =~= labels);
        assert(earlier + function_names(commands.take(0)) =~= earlier);
    } else {
        lemma_commands_scoped(commands, module, scope, labels, earlier, k - 1);
        lemma_first_failure_none(commands, 0, earlier);
        lemma_user_labels_step(commands, k - 1);
        let front = commands.take(k - 1);
        let command = commands[k - 1];
        let before = labels + user_labels(emitted(front, module, scope));
        let functions = earlier + function_names(front);
        let at = scope + function_names(front).len();
        let written = emitted(commands.take(k), module, scope);
        assert(commands.take(k).drop_last() =~= front);
        assert(written.drop_last() =~= emitted(front, module, scope));
        assert(written.last() == marked(command, module, at));
        let now = labels + user_labels(written);
        assert(!declared_before(commands, k - 1, earlier));
        match command {
            Cmd::Label(name) => {
                assert(now =~= before.push(label_symbol(module, name, at)));
                lemma_scoped_label(
                    before,
                    functions,
                    labels_in_scope(commands, k - 1),
                    module,
                    at,
                    name,
                );
            },
            Cmd::Function(name, _) => {
                assert(now =~= before.push(function_symbol(name)));
                assert(earlier + function_names(front).push(name) =~= functions.push(name));
                lemma_scoped_function(before, functions, module, at, name);
            },
            _ => {
                assert(now =~= before);
            },
        }
    }
}

/// The labels that the modules of a translated program declare keep
/// apart.
proof fn lemma_units_scoped(units: Seq<Unit>, m: int)
    requires
        0 <= m <= units.len(),
        first_untranslated(units, 0) == units.len(),
    ensures
        kept_apart(
            user_labels(program_commands(units.take(m), 0)),
            declared_through(units, m),
            scope_after(units.take(m), 0),
        ),
    decreases m,
{
    if m == 0 {
        assert(units.take(0) =~= Seq::<Unit>::empty());
    } else {
        lemma_units_scoped(units, m - 1);
        lemma_first_untranslated_none(units, 0);
        let unit = units[m - 1];
        let commands = commands_of(unit.commands);
        let earlier = declared_through(units, m - 1);
        let before = user_labels(program_commands(units.take(m - 1), 0));
        let scope = scope_after(units.take(m - 1), 0) + 1;
        assert(failure_in(units, m - 1) == units[m - 1].commands.len());
        assert(units.take(m).drop_last() =~= units.take(m - 1));
        assert(units.take(m).last() == unit);
        // No label lies in the scope that the module starts.
        assert(scoped(before, earlier, Seq::empty(), unit.name, scope));
        lemma_commands_scoped(commands, unit.name, scope, before, earlier, commands.len() as int);
        assert(commands.take(commands.len() as int) =~= commands);
        lemma_counts_concat(
            program_commands(units.take(m - 1), 0),
            emitted(commands, unit.name, scope),
            0,
        );
    }
}

/// What a translated program declares. The labels that the commands of
/// a translated program declare, for their labels and their functions,
/// are all different, whatever the names are: each carries the mark of
/// its family and none is a label that the translator makes up, the
/// label of the final loop, or a symbol that the assembly language
/// defines.
pub proof fn lemma_user_labels(modules: Seq<Source>)
    requires
        translation(modules) is Ok,
    ensures
        user_labels(translated_commands(modules)).no_duplicates(),
        forall|i: int|
            0 <= i < user_labels(translated_commands(modules)).len() ==> {
                let name = #[trigger] user_labels(translated_commands(modules))[i];
                &&& is_declared_label(name)
                &&& !is_generated_label(name)
                &&& name != halt_label()
                &&& predefined(name) is None
            },
{
    let units = units_of(ordered(modules));
    let first = entry_commands(defines_entry(units));
    let rest = program_commands(units, 0);
    lemma_first_untranslated_bounds(units, 0);
    lemma_units_scoped(units, units.len() as int);
    assert(units.take(units.len() as int) =~= units);
    lemma_counts_concat(first, rest, 0);
    assert(user_labels(first) =~= Seq::<Seq<char>>::empty()) by {
        lemma_entry_commands(defines_entry(units));
        if first.len() > 0 {
            assert(first.drop_last() =~= Seq::<Cmd>::empty());
            assert(user_labels(first.drop_last()) =~= Seq::<Seq<char>>::empty());
            assert(declared_labels(first.last()) =~= Seq::<Seq<char>>::empty());
        }
    }
    assert(user_labels(first) + user_labels(rest) =~= user_labels(rest));
    let user = user_labels(translated_commands(modules));
    assert forall|i: int| 0 <= i < user.len() implies {
        let name = #[trigger] user[i];
        &&& is_declared_label(name)
        &&& !is_generated_label(name)
        &&& name != halt_label()
        &&& predefined(name) is None
    } by {
        lemma_declared_not_predefined(user[i]);
    }
}

/// A label that a program declares is none of the others, whatever the
/// names are.
pub proof fn lemma_declared_not_predefined(name: Seq<char>)
    requires
        is_declared_label(name),
    ensures
        !is_generated_label(name),
        name != halt_label(),
        predefined(name) is None,
{
    lemma_declared_is_not_made_up(name);
    let at = choose|at: int| 0 <= at < name.len() && name[at] == '$';
    if predefined(name) is Some {
        lemma_predefined_plain(name, at);
    }
}

/// Label uniqueness. In a translated program each label that the
/// translator made up is defined by exactly one line: the labels made up
/// are all different, and they differ from every label that the program
/// declares and from the label of the final loop.
pub proof fn lemma_label_uniqueness(modules: Seq<Source>, at: int)
    requires
        translation(modules) is Ok,
        0 <= at < generated_labels(translated_commands(modules), 0).len(),
    ensures
        occurrences(
            defined_labels(translation(modules)->Ok_0),
            generated_labels(translated_commands(modules), 0)[at],
        ) == 1,
        forall|i: int|
            0 <= i < user_labels(translated_commands(modules)).len() ==> #[trigger] user_labels(
                translated_commands(modules),
            )[i] != generated_labels(translated_commands(modules), 0)[at],
{
    lemma_user_labels(modules);
    lemma_made_up_are_generated(translated_commands(modules), 0);
    lemma_made_up_once(modules, at);
}

/// Every label that is made up for commands has the form of one.
proof fn lemma_made_up_are_generated(commands: Seq<Cmd>, n: nat)
    ensures
        forall|j: int|
            0 <= j < generated_labels(commands, n).len() ==> is_generated_label(
                #[trigger] generated_labels(commands, n)[j],
            ),
{
    lemma_generated_labels(commands, n);
    let high = n + numbers_used_by(commands);
    assert forall|j: int| 0 <= j < generated_labels(commands, n).len() implies is_generated_label(
        #[trigger] generated_labels(commands, n)[j],
    ) by {
        let made_up = generated_labels(commands, n)[j];
        assert(numbered_within(made_up, n, high));
        let k = choose|k: nat| n <= k < high && #[trigger] has_number(made_up, k);
    }
}

/// A name that a translated program declares has the form of a declared
/// label.
proof fn lemma_declared_form(modules: Seq<Source>, name: Seq<char>)
    requires
        translation(modules) is Ok,
        user_labels(translated_commands(modules)).contains(name),
    ensures
        is_declared_label(name),
        predefined(name) is None,
{
    lemma_user_labels(modules);
    let user = user_labels(translated_commands(modules));
    let k = choose|k: int| 0 <= k < user.len() && user[k] == name;
    assert(is_declared_label(user[k]));
}

/// No label is defined twice. In a translated program no two lines
/// define the same label, whatever names the program uses; and every
/// label that a line defines is the label of a function or a label in a
/// scope, or a label that the translator made up, or the label of the
/// final loop.
pub proof fn lemma_labels_unique(modules: Seq<Source>)
    requires
        translation(modules) is Ok,
    ensures
        labels_unique(translation(modules)->Ok_0),
        forall|i: int|
            0 <= i < translation(modules)->Ok_0.len() && (#[trigger] translation(
                modules,
            )->Ok_0[i]) is Label ==> {
                let name = translation(modules)->Ok_0[i]->Label_0;
                &&& is_declared_label(name) || is_generated_label(name) || name == halt_label()
                &&& predefined(name) is None
            },
{
    assert(labels_unique(translation(modules)->Ok_0)) by {
        lemma_user_labels(modules);
        lemma_made_up_are_generated(translated_commands(modules), 0);
        lemma_labels_unique_where_apart(modules);
    }
    let code = translation(modules)->Ok_0;
    assert forall|i: int| 0 <= i < code.len() && (#[trigger] code[i]) is Label implies {
        let name = code[i]->Label_0;
        &&& is_declared_label(name) || is_generated_label(name) || name == halt_label()
        &&& predefined(name) is None
    } by {
        let name = code[i]->Label_0;
        lemma_label_line(modules, i);
        if is_generated_label(name) || name == halt_label() {
            lemma_made_up_not_predefined(name);
        } else {
            lemma_declared_form(modules, name);
        }
    }
}

/// Every label that a line of a translated program defines is a label
/// that the program declared, a label that the translator made up, or
/// the label of the final loop.
proof fn lemma_label_line(modules: Seq<Source>, i: int)
    requires
        translation(modules) is Ok,
        0 <= i < translation(modules)->Ok_0.len(),
        translation(modules)->Ok_0[i] is Label,
    ensures
        ({
            let name = translation(modules)->Ok_0[i]->Label_0;
            ||| user_labels(translated_commands(modules)).contains(name)
            ||| is_generated_label(name)
            ||| name == halt_label()
        }),
{
    lemma_user_labels(modules);
    lemma_made_up_are_generated(translated_commands(modules), 0);
    lemma_labels_unique_where_apart(modules);
}

/// A translated program can be loaded. A translated program is well
/// formed with its symbol table if it is short enough for its
/// instructions and its variables to have addresses of 15 bits.
pub proof fn lemma_program_loadable(modules: Seq<Source>)
    requires
        translation(modules) is Ok,
        translation(modules)->Ok_0.len() + 16 < 0x8000,
    ensures
        (Program {
            code: translation(modules)->Ok_0,
            symbols: symbol_table(translation(modules)->Ok_0),
        }).well_formed(),
{
    lemma_labels_unique(modules);
    lemma_symbol_table(translation(modules)->Ok_0);
}

/// The labels that the translator makes up, and the label of the final
/// loop, are no symbols that the assembly language defines.
pub proof fn lemma_made_up_not_predefined(name: Seq<char>)
    requires
        is_generated_label(name) || name == halt_label(),
    ensures
        predefined(name) is None,
{
    lemma_predefined_names();
    lemma_made_up_is_marked(name);
}

/// The symbols of static variables are variables. In a translated
/// program the symbol of a static variable is no label, whatever names
/// the program uses, and no symbol that the language defines.
pub proof fn lemma_static_is_variable(modules: Seq<Source>, module: Seq<char>, index: nat)
    requires
        translation(modules) is Ok,
    ensures
        is_variable(translation(modules)->Ok_0, static_symbol(module, index)),
{
    let code = translation(modules)->Ok_0;
    let symbol = static_symbol(module, index);
    let dot = module.len() as int;
    reveal_strlit(".");
    crate::decimal::lemma_decimal_value(index);
    assert(symbol[dot] == '.');
    if predefined(symbol) is Some {
        lemma_predefined_plain(symbol, dot);
    }
    if is_defined(code, symbol) {
        let i = choose|i: int| 0 <= i < code.len() && #[trigger] code[i] == Instr::Label(symbol);
        lemma_labels_unique(modules);
        assert(code[i] is Label);
        if is_declared_label(symbol) {
            lemma_declared_is_not_made_up(symbol);
        } else {
            lemma_made_up_is_marked(symbol);
        }
    }
}

/// Static scoping in a translated program. The static variables that a
/// translated program uses have cells of their own in the symbol table
/// of the program: two of them share a cell only if they are the same
/// variable of the same module. Their cells lie from 16 on.
pub proof fn lemma_statics_apart(
    modules: Seq<Source>,
    module: Seq<char>,
    index: nat,
    other_module: Seq<char>,
    other_index: nat,
)
    requires
        translation(modules) is Ok,
        module != other_module || index != other_index,
        first_use(translation(modules)->Ok_0, static_symbol(module, index), 0) < translation(
            modules,
        )->Ok_0.len(),
        first_use(translation(modules)->Ok_0, static_symbol(other_module, other_index), 0)
            < translation(modules)->Ok_0.len(),
    ensures
        ({
            let table = symbol_table(translation(modules)->Ok_0);
            let cell = table[static_symbol(module, index)];
            let other = table[static_symbol(other_module, other_index)];
            cell != other && cell >= 16 && other >= 16
        }),
{
    let code = translation(modules)->Ok_0;
    let x = static_symbol(module, index);
    let y = static_symbol(other_module, other_index);
    if x == y {
        lemma_static_symbol_injective(module, index, other_module, other_index);
    }
    lemma_static_is_variable(modules, module, index);
    lemma_static_is_variable(modules, other_module, other_index);
    lemma_variable_cells_apart(code, x, y);
}

} // verus!
