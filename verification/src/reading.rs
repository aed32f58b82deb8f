//! What the text of a line says: two lines with the same text do the
//! same on the machine.
use crate::assembly::{
    comp_text, dest_text, jump_text, register_name, render, Comp, Dest, Instr, Jump, Register,
};
use crate::decimal::{is_digit, lemma_decimal_injective, lemma_decimal_value};
use crate::machine::{execute, lemma_predefined_names, Machine, Program};
use vstd::prelude::*;

verus! {

/// Whether a name can stand as a symbol in the text of a line: it is
/// not empty and does not start with a digit, so that it cannot be read
/// as a number.
pub open spec fn is_symbol(name: Seq<char>) -> bool {
    name.len() > 0 && !is_digit(name[0])
}

/// Whether the text of a line can be read back: the name behind its `@`,
/// if it has one, can stand as a symbol.
pub open spec fn legible(line: Instr) -> bool {
    match line {
        Instr::Symbol(name) => is_symbol(name),
        _ => true,
    }
}

/// What the texts of destinations are made of: nothing, or letters and
/// an equals sign at the end.
proof fn lemma_dest_text(dest: Dest)
    ensures
        dest_text(dest).len() <= 4,
        forall|k: int|
            0 <= k < dest_text(dest).len() - 1 ==> #[trigger] dest_text(dest)[k] != '='
                && dest_text(dest)[k] != ';',
        dest_text(dest).len() > 0 ==> dest_text(dest).last() == '=',
{
}

proof fn lemma_dest_text_injective(a: Dest, b: Dest)
    requires
        dest_text(a) == dest_text(b),
    ensures
        a == b,
{
    let x = dest_text(a);
    let y = dest_text(b);
    assert(x.len() == y.len());
    if x.len() > 0 {
        assert(x[0] == y[0]);
    }
    if x.len() > 1 {
        assert(x[1] == y[1]);
    }
    if x.len() > 2 {
        assert(x[2] == y[2]);
    }
    if x.len() > 3 {
        assert(x[3] == y[3]);
    }
}

proof fn reveal_comp_texts()
    ensures
        forall|comp: Comp|
            #![trigger comp_text(comp)]
            1 <= comp_text(comp).len() <= 3 && (forall|k: int|
                0 <= k < comp_text(comp).len() ==> #[trigger] comp_text(comp)[k] != '='
                    && comp_text(comp)[k] != ';') && (comp_text(comp)[0] == '0' || comp_text(
                comp,
            )[0] == '1' || comp_text(comp)[0] == '-' || comp_text(comp)[0] == '!' || comp_text(
                comp,
            )[0] == 'D' || comp_text(comp)[0] == 'A' || comp_text(comp)[0] == 'M'),
{
}

proof fn lemma_comp_text_injective(a: Comp, b: Comp)
    requires
        comp_text(a) == comp_text(b),
    ensures
        a == b,
{
    let x = comp_text(a);
    let y = comp_text(b);
    assert(x.len() == y.len());
    if x.len() > 0 {
        assert(x[0] == y[0]);
    }
    if x.len() > 1 {
        assert(x[1] == y[1]);
    }
    if x.len() > 2 {
        assert(x[2] == y[2]);
    }
    // One case for each computation, each of them plain.
    match a {
        Comp::Zero => {},
        Comp::One => {},
        Comp::MinusOne => {},
        Comp::D => {},
        Comp::A => {},
        Comp::M => {},
        Comp::NotD => {},
        Comp::NotA => {},
        Comp::NotM => {},
        Comp::NegD => {},
        Comp::NegA => {},
        Comp::NegM => {},
        Comp::DPlusOne => {},
        Comp::APlusOne => {},
        Comp::MPlusOne => {},
        Comp::DMinusOne => {},
        Comp::AMinusOne => {},
        Comp::MMinusOne => {},
        Comp::DPlusA => {},
        Comp::DPlusM => {},
        Comp::DMinusA => {},
        Comp::DMinusM => {},
        Comp::AMinusD => {},
        Comp::MMinusD => {},
        Comp::DAndA => {},
        Comp::DAndM => {},
        Comp::DOrA => {},
        Comp::DOrM => {},
    }
}

/// What the texts of jumps are made of: nothing, or a semicolon and
/// three letters.
proof fn lemma_jump_text(jump: Jump)
    ensures
        jump_text(jump).len() == 0 || jump_text(jump).len() == 4,
        jump_text(jump).len() > 0 ==> jump_text(jump)[0] == ';',
        forall|k: int|
            0 <= k < jump_text(jump).len() ==> #[trigger] jump_text(jump)[k] != '=',
{
}

proof fn lemma_jump_text_injective(a: Jump, b: Jump)
    requires
        jump_text(a) == jump_text(b),
    ensures
        a == b,
{
    let x = jump_text(a);
    let y = jump_text(b);
    assert(x.len() == y.len());
    if x.len() > 0 {
        assert(x[0] == y[0]);
    }
    if x.len() > 1 {
        assert(x[1] == y[1]);
    }
    if x.len() > 2 {
        assert(x[2] == y[2]);
    }
    if x.len() > 3 {
        assert(x[3] == y[3]);
    }
}

/// The text of a compute instruction has one reading.
proof fn lemma_compute_text(d1: Dest, c1: Comp, j1: Jump, d2: Dest, c2: Comp, j2: Jump)
    requires
        dest_text(d1) + comp_text(c1) + jump_text(j1) == dest_text(d2) + comp_text(c2)
            + jump_text(j2),
    ensures
        d1 == d2,
        c1 == c2,
        j1 == j2,
{
    let text = dest_text(d1) + comp_text(c1) + jump_text(j1);
    let other = dest_text(d2) + comp_text(c2) + jump_text(j2);
    let (a1, b1, e1) = (dest_text(d1), comp_text(c1), jump_text(j1));
    let (a2, b2, e2) = (dest_text(d2), comp_text(c2), jump_text(j2));
    lemma_dest_text(d1);
    lemma_dest_text(d2);
    reveal_comp_texts();
    lemma_jump_text(j1);
    lemma_jump_text(j2);
    assert(text.len() == a1.len() + b1.len() + e1.len());
    assert(other.len() == a2.len() + b2.len() + e2.len());
    // The equals sign, where there is one, ends the destination.
    if a1.len() != a2.len() {
        let (short, long) = if a1.len() < a2.len() {
            (a1.len() as int, a2.len() as int)
        } else {
            (a2.len() as int, a1.len() as int)
        };
        assert(text[long - 1] == other[long - 1]);
        if a1.len() < a2.len() {
            assert(other[long - 1] == a2[long - 1]);
            if long - 1 < a1.len() {
                assert(text[long - 1] == a1[long - 1]);
            } else if long - 1 < a1.len() + b1.len() {
                assert(text[long - 1] == b1[long - 1 - a1.len()]);
            } else {
                assert(text[long - 1] == e1[long - 1 - a1.len() - b1.len()]);
            }
        } else {
            assert(text[long - 1] == a1[long - 1]);
            if long - 1 < a2.len() {
                assert(other[long - 1] == a2[long - 1]);
            } else if long - 1 < a2.len() + b2.len() {
                assert(other[long - 1] == b2[long - 1 - a2.len()]);
            } else {
                assert(other[long - 1] == e2[long - 1 - a2.len() - b2.len()]);
            }
        }
    }
    assert(a1 =~= text.subrange(0, a1.len() as int));
    assert(a2 =~= other.subrange(0, a2.len() as int));
    lemma_dest_text_injective(d1, d2);
    // The semicolon, where there is one, starts the jump.
    let n = a1.len() as int;
    if b1.len() != b2.len() {
        if b1.len() < b2.len() {
            let at = n + b1.len();
            assert(other[at] == b2[at - n]);
            assert(text[at] == e1[at - n - b1.len()]);
        } else {
            let at = n + b2.len();
            assert(text[at] == b1[at - n]);
            assert(other[at] == e2[at - n - b2.len()]);
        }
    }
    assert(b1 =~= text.subrange(n, n + b1.len()));
    assert(b2 =~= other.subrange(n, n + b2.len()));
    lemma_comp_text_injective(c1, c2);
    assert(e1 =~= text.subrange(n + b1.len(), text.len() as int));
    assert(e2 =~= other.subrange(n + b2.len(), other.len() as int));
    lemma_jump_text_injective(j1, j2);
}

proof fn lemma_register_name_injective(a: Register, b: Register)
    requires
        register_name(a) == register_name(b),
    ensures
        a == b,
{
    let x = register_name(a);
    let y = register_name(b);
    assert(x.len() == y.len());
    if x.len() > 0 {
        assert(x[0] == y[0]);
    }
    if x.len() > 1 {
        assert(x[1] == y[1]);
    }
    if x.len() > 2 {
        assert(x[2] == y[2]);
    }
    if x.len() > 3 {
        assert(x[3] == y[3]);
    }
}

/// The five kinds of text: a comment, an empty line, a label, a load
/// and a compute instruction.
pub open spec fn kind(line: Instr) -> int {
    match line {
        Instr::Comment(_) => 0,
        Instr::Blank => 1,
        Instr::Label(_) => 2,
        Instr::Compute(_, _, _) => 4,
        _ => 3,
    }
}

/// What stands behind the `@` of a load.
pub open spec fn operand_text(line: Instr) -> Seq<char> {
    match line {
        Instr::Const(value) => crate::decimal::decimal(value),
        Instr::Reg(register) => register_name(register),
        Instr::Symbol(name) => name,
        _ => Seq::empty(),
    }
}

proof fn lemma_first_character(line: Instr)
    requires
        legible(line),
    ensures
        kind(line) == 0 ==> render(line).len() >= 3 && render(line)[0] == '/',
        kind(line) == 1 ==> render(line).len() == 0,
        kind(line) == 2 ==> render(line).len() >= 2 && render(line)[0] == '(',
        kind(line) == 3 ==> render(line).len() >= 2 && render(line)[0] == '@' && render(line)
            == seq!['@'] + operand_text(line),
        kind(line) == 4 ==> render(line).len() >= 1 && render(line)[0] != '/' && render(line)[0]
            != '(' && render(line)[0] != '@',
{
    match line {
        Instr::Const(value) => {
            lemma_decimal_value(value);
            assert(render(line) =~= seq!['@'] + operand_text(line));
        },
        Instr::Reg(register) => {
            assert(render(line) =~= seq!['@'] + operand_text(line));
        },
        Instr::Symbol(name) => {
            assert(render(line) =~= seq!['@'] + operand_text(line));
        },
        Instr::Compute(dest, comp, jump) => {
            lemma_dest_text(dest);
            reveal_comp_texts();
            lemma_jump_text(jump);
            let text = render(line);
            if dest_text(dest).len() > 0 {
                assert(text[0] == dest_text(dest)[0]);
            } else {
                assert(text[0] == comp_text(comp)[0]);
            }
        },
        _ => {},
    }
}

/// Lines with the same text do the same. Two lines whose texts are the
/// same, and can be read back, are of one kind; if they are labels, they
/// define the same label; and in a well-formed program the machine does
/// the same on both.
pub proof fn lemma_same_text(p: Program, m: Machine, a: Instr, b: Instr)
    requires
        p.well_formed(),
        legible(a),
        legible(b),
        render(a) == render(b),
    ensures
        kind(a) == kind(b),
        a is Label ==> a == b,
        a is Compute ==> a == b,
        execute(p, m, a) == execute(p, m, b),
{
    lemma_first_character(a);
    lemma_first_character(b);
    lemma_predefined_names();
    let text = render(a);
    match (a, b) {
        (Instr::Label(x), Instr::Label(y)) => {
            assert(x =~= render(a).subrange(1, render(a).len() - 1));
            assert(y =~= render(b).subrange(1, render(b).len() - 1));
        },
        (Instr::Compute(d1, c1, j1), Instr::Compute(d2, c2, j2)) => {
            lemma_compute_text(d1, c1, j1, d2, c2, j2);
        },
        _ => {
            if kind(a) == 3 {
                let x = operand_text(a);
                let y = operand_text(b);
                assert(x =~= render(a).subrange(1, render(a).len() as int));
                assert(y =~= render(b).subrange(1, render(b).len() as int));
                match (a, b) {
                    (Instr::Const(v), Instr::Const(w)) => {
                        lemma_decimal_injective(v, w);
                    },
                    (Instr::Reg(r), Instr::Reg(s)) => {
                        lemma_register_name_injective(r, s);
                    },
                    (Instr::Const(v), _) => {
                        lemma_decimal_value(v);
                        assert(is_digit(x[0]));
                    },
                    (_, Instr::Const(w)) => {
                        lemma_decimal_value(w);
                        assert(is_digit(y[0]));
                    },
                    _ => {},
                }
            }
        },
    }
}

} // verus!
