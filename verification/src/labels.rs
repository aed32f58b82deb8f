//! The symbols that the translator writes into a program: the labels of
//! functions, the labels that a program declares, the labels that the
//! translator makes up, and the symbols of static variables.
//!
//! Every label ends in a mark that tells its family: a dollar sign, a
//! letter, and for some families a number. A program may use any name
//! whatever: the marks keep the labels of different families apart, and
//! the numbers keep apart the labels of one family.
use crate::decimal::{
    all_digits, decimal, is_digit, lemma_decimal_injective, lemma_decimal_value, to_decimal,
};
use vstd::prelude::*;
use vstd::string::*;

verus! {

/// A text with a mark at its end: a dollar sign, the letter of a family,
/// and digits.
pub open spec fn tagged(body: Seq<char>, letter: char, digits: Seq<char>) -> Seq<char> {
    body + seq!['$', letter] + digits
}

/// The label of a function: its name and the mark `$F`.
pub open spec fn function_symbol(name: Seq<char>) -> Seq<char> {
    tagged(name, 'F', Seq::empty())
}

/// The label that a `label` command declares, and that `goto` and
/// `if-goto` jump to: the module and the name with a dot between them, and
/// the mark `$L` with the number of the scope. Each function is a scope
/// of its own, and so are the commands of a module before its first
/// function.
pub open spec fn label_symbol(module: Seq<char>, name: Seq<char>, scope: nat) -> Seq<char> {
    tagged(module + seq!['.'] + name, 'L', decimal(scope))
}

/// The label that comparison number `n` jumps to when it holds.
pub open spec fn true_label(n: nat) -> Seq<char> {
    tagged(Seq::empty(), 'T', decimal(n))
}

/// The label at the end of comparison number `n`.
pub open spec fn end_label(n: nat) -> Seq<char> {
    tagged(Seq::empty(), 'E', decimal(n))
}

/// The label at which the call with number `n` is resumed.
pub open spec fn return_label(n: nat) -> Seq<char> {
    tagged(Seq::empty(), 'R', decimal(n))
}

/// The label of the loop that ends a program.
pub open spec fn halt_label() -> Seq<char> {
    tagged(Seq::empty(), 'H', Seq::empty())
}

/// The name of the function that a program is entered through.
pub open spec fn entry_name() -> Seq<char> {
    "Sys.init"@
}

/// The symbol of the static variable `index` of a module.
pub open spec fn static_symbol(module: Seq<char>, index: nat) -> Seq<char> {
    module + "."@ + decimal(index)
}

/// Whether `label` is one of the three labels with number `k` that the
/// translator makes up.
pub open spec fn has_number(label: Seq<char>, k: nat) -> bool {
    label == true_label(k) || label == end_label(k) || label == return_label(k)
}

/// Whether `label` is a label that the translator makes up for a
/// comparison or a call.
pub open spec fn is_generated_label(label: Seq<char>) -> bool {
    exists|k: nat| #[trigger] has_number(label, k)
}

/// Whether `label` has the form of a label that a program declares: the
/// label of a function, or a label in a scope.
pub open spec fn is_declared_label(label: Seq<char>) -> bool {
    ||| exists|name: Seq<char>| label == #[trigger] function_symbol(name)
    ||| exists|module: Seq<char>, name: Seq<char>, scope: nat|
        label == #[trigger] label_symbol(module, name, scope)
}

/// A marked text has one reading: the digits at its end, the letter
/// before them and the text before the mark are given by the text.
pub proof fn lemma_tagged_injective(
    b1: Seq<char>,
    c1: char,
    d1: Seq<char>,
    b2: Seq<char>,
    c2: char,
    d2: Seq<char>,
)
    requires
        all_digits(d1),
        all_digits(d2),
        !is_digit(c1),
        !is_digit(c2),
        tagged(b1, c1, d1) == tagged(b2, c2, d2),
    ensures
        b1 == b2,
        c1 == c2,
        d1 == d2,
{
    let t1 = tagged(b1, c1, d1);
    let t2 = tagged(b2, c2, d2);
    let n = t1.len() as int;
    assert(t1.len() == b1.len() + 2 + d1.len());
    assert(t2.len() == b2.len() + 2 + d2.len());
    assert(t1[n - d1.len() - 1] == c1);
    assert(t2[n - d2.len() - 1] == c2);
    // The letter of one reading cannot fall among the digits of the other.
    if d1.len() < d2.len() {
        assert(t2[n - d1.len() - 1] == d2[d2.len() - d1.len() - 1]);
        assert(is_digit(d2[d2.len() - d1.len() - 1]));
    }
    if d2.len() < d1.len() {
        assert(t1[n - d2.len() - 1] == d1[d1.len() - d2.len() - 1]);
        assert(is_digit(d1[d1.len() - d2.len() - 1]));
    }
    assert(d1 =~= t1.subrange(n - d1.len(), n));
    assert(d2 =~= t2.subrange(n - d2.len(), n));
    assert(b1 =~= t1.subrange(0, b1.len() as int));
    assert(b2 =~= t2.subrange(0, b2.len() as int));
}

/// A marked text is no symbol of a static variable: before the digits at
/// its end stands a letter, not a dot.
pub proof fn lemma_tagged_not_static(
    body: Seq<char>,
    letter: char,
    digits: Seq<char>,
    module: Seq<char>,
    index: nat,
)
    requires
        all_digits(digits),
        !is_digit(letter),
        letter != '.',
    ensures
        tagged(body, letter, digits) != static_symbol(module, index),
{
    reveal_strlit(".");
    lemma_decimal_value(index);
    let t = tagged(body, letter, digits);
    let s = static_symbol(module, index);
    let number = decimal(index);
    if t == s {
        let n = t.len() as int;
        assert(t.len() == body.len() + 2 + digits.len());
        assert(s.len() == module.len() + 1 + number.len());
        assert(t[n - digits.len() - 1] == letter);
        assert(s[n - number.len() - 1] == '.');
        if digits.len() < number.len() {
            assert(s[n - digits.len() - 1] == number[number.len() - digits.len() - 1]);
            assert(is_digit(number[number.len() - digits.len() - 1]));
        }
        if number.len() < digits.len() {
            assert(t[n - number.len() - 1] == digits[digits.len() - number.len() - 1]);
            assert(is_digit(digits[digits.len() - number.len() - 1]));
        }
    }
}

/// Every marked text holds a dollar sign.
pub proof fn lemma_tagged_dollar(body: Seq<char>, letter: char, digits: Seq<char>)
    ensures
        tagged(body, letter, digits).len() >= 2,
        tagged(body, letter, digits)[body.len() as int] == '$',
{
}

/// Labels of one made-up form with different numbers differ.
pub proof fn lemma_labels_injective(a: nat, b: nat)
    ensures
        true_label(a) == true_label(b) ==> a == b,
        end_label(a) == end_label(b) ==> a == b,
        return_label(a) == return_label(b) ==> a == b,
{
    let none = Seq::<char>::empty();
    lemma_decimal_value(a);
    lemma_decimal_value(b);
    if true_label(a) == true_label(b) {
        lemma_tagged_injective(none, 'T', decimal(a), none, 'T', decimal(b));
        lemma_decimal_injective(a, b);
    }
    if end_label(a) == end_label(b) {
        lemma_tagged_injective(none, 'E', decimal(a), none, 'E', decimal(b));
        lemma_decimal_injective(a, b);
    }
    if return_label(a) == return_label(b) {
        lemma_tagged_injective(none, 'R', decimal(a), none, 'R', decimal(b));
        lemma_decimal_injective(a, b);
    }
}

/// Labels of different made-up forms differ, whatever their numbers, and
/// none is the label of the final loop.
pub proof fn lemma_label_forms_differ(a: nat, b: nat)
    ensures
        true_label(a) != end_label(b),
        true_label(a) != return_label(b),
        end_label(a) != return_label(b),
        true_label(a) != halt_label(),
        end_label(a) != halt_label(),
        return_label(a) != halt_label(),
{
    let none = Seq::<char>::empty();
    lemma_decimal_value(a);
    lemma_decimal_value(b);
    if true_label(a) == end_label(b) {
        lemma_tagged_injective(none, 'T', decimal(a), none, 'E', decimal(b));
    }
    if true_label(a) == return_label(b) {
        lemma_tagged_injective(none, 'T', decimal(a), none, 'R', decimal(b));
    }
    if end_label(a) == return_label(b) {
        lemma_tagged_injective(none, 'E', decimal(a), none, 'R', decimal(b));
    }
    if true_label(a) == halt_label() {
        lemma_tagged_injective(none, 'T', decimal(a), none, 'H', none);
    }
    if end_label(a) == halt_label() {
        lemma_tagged_injective(none, 'E', decimal(a), none, 'H', none);
    }
    if return_label(a) == halt_label() {
        lemma_tagged_injective(none, 'R', decimal(a), none, 'H', none);
    }
}

/// The labels that a program declares keep apart. The labels of two
/// functions are the same only if the names are; the label of a function
/// is no label in a scope; labels in different scopes differ; and two
/// labels of one module in one scope are the same only if the names are.
pub proof fn lemma_declared_labels_apart(
    f: Seq<char>,
    g: Seq<char>,
    m1: Seq<char>,
    l1: Seq<char>,
    q1: nat,
    m2: Seq<char>,
    l2: Seq<char>,
    q2: nat,
)
    ensures
        function_symbol(f) == function_symbol(g) ==> f == g,
        function_symbol(f) != label_symbol(m1, l1, q1),
        label_symbol(m1, l1, q1) == label_symbol(m2, l2, q2) ==> q1 == q2,
        label_symbol(m1, l1, q1) == label_symbol(m1, l2, q1) ==> l1 == l2,
{
    let none = Seq::<char>::empty();
    lemma_decimal_value(q1);
    lemma_decimal_value(q2);
    let b1 = m1 + seq!['.'] + l1;
    let b2 = m2 + seq!['.'] + l2;
    let b3 = m1 + seq!['.'] + l2;
    if function_symbol(f) == function_symbol(g) {
        lemma_tagged_injective(f, 'F', none, g, 'F', none);
    }
    if function_symbol(f) == label_symbol(m1, l1, q1) {
        lemma_tagged_injective(f, 'F', none, b1, 'L', decimal(q1));
    }
    if label_symbol(m1, l1, q1) == label_symbol(m2, l2, q2) {
        lemma_tagged_injective(b1, 'L', decimal(q1), b2, 'L', decimal(q2));
        lemma_decimal_injective(q1, q2);
    }
    if label_symbol(m1, l1, q1) == label_symbol(m1, l2, q1) {
        lemma_tagged_injective(b1, 'L', decimal(q1), b3, 'L', decimal(q1));
        assert(l1 =~= b1.subrange(m1.len() as int + 1, b1.len() as int));
        assert(l2 =~= b3.subrange(m1.len() as int + 1, b3.len() as int));
    }
}

/// A label that a program declares is none that the translator makes
/// up, not the label of the final loop, and no symbol of a static
/// variable, whatever the names are.
pub proof fn lemma_declared_is_not_made_up(label: Seq<char>)
    requires
        is_declared_label(label),
    ensures
        !is_generated_label(label),
        label != halt_label(),
        forall|module: Seq<char>, index: nat| label != #[trigger] static_symbol(module, index),
        exists|at: int| 0 <= at < label.len() && label[at] == '$',
{
    let none = Seq::<char>::empty();
    if exists|name: Seq<char>| label == #[trigger] function_symbol(name) {
        let name = choose|name: Seq<char>| label == #[trigger] function_symbol(name);
        lemma_tagged_dollar(name, 'F', none);
        assert(label[name.len() as int] == '$');
        if label == halt_label() {
            lemma_tagged_injective(name, 'F', none, none, 'H', none);
        }
        assert forall|k: nat| !#[trigger] has_number(label, k) by {
            lemma_decimal_value(k);
            if label == true_label(k) {
                lemma_tagged_injective(name, 'F', none, none, 'T', decimal(k));
            }
            if label == end_label(k) {
                lemma_tagged_injective(name, 'F', none, none, 'E', decimal(k));
            }
            if label == return_label(k) {
                lemma_tagged_injective(name, 'F', none, none, 'R', decimal(k));
            }
        }
        assert forall|module: Seq<char>, index: nat| label != #[trigger] static_symbol(
            module,
            index,
        ) by {
            lemma_tagged_not_static(name, 'F', none, module, index);
        }
    } else {
        let (m, l, q) = choose|m: Seq<char>, l: Seq<char>, q: nat|
            label == #[trigger] label_symbol(m, l, q);
        let body = m + seq!['.'] + l;
        lemma_decimal_value(q);
        lemma_tagged_dollar(body, 'L', decimal(q));
        assert(label[body.len() as int] == '$');
        if label == halt_label() {
            lemma_tagged_injective(body, 'L', decimal(q), none, 'H', none);
        }
        assert forall|k: nat| !#[trigger] has_number(label, k) by {
            lemma_decimal_value(k);
            if label == true_label(k) {
                lemma_tagged_injective(body, 'L', decimal(q), none, 'T', decimal(k));
            }
            if label == end_label(k) {
                lemma_tagged_injective(body, 'L', decimal(q), none, 'E', decimal(k));
            }
            if label == return_label(k) {
                lemma_tagged_injective(body, 'L', decimal(q), none, 'R', decimal(k));
            }
        }
        assert forall|module: Seq<char>, index: nat| label != #[trigger] static_symbol(
            module,
            index,
        ) by {
            lemma_tagged_not_static(body, 'L', decimal(q), module, index);
        }
    }
}

/// A label that the translator makes up, and the label of the final
/// loop, hold a dollar sign and are no symbols of static variables.
pub proof fn lemma_made_up_is_marked(label: Seq<char>)
    requires
        is_generated_label(label) || label == halt_label(),
    ensures
        label.len() >= 2,
        label[0] == '$',
        forall|module: Seq<char>, index: nat| label != #[trigger] static_symbol(module, index),
{
    let none = Seq::<char>::empty();
    if is_generated_label(label) {
        let k = choose|k: nat| #[trigger] has_number(label, k);
        lemma_decimal_value(k);
        assert forall|module: Seq<char>, index: nat| label != #[trigger] static_symbol(
            module,
            index,
        ) by {
            lemma_tagged_not_static(none, 'T', decimal(k), module, index);
            lemma_tagged_not_static(none, 'E', decimal(k), module, index);
            lemma_tagged_not_static(none, 'R', decimal(k), module, index);
        }
    } else {
        assert forall|module: Seq<char>, index: nat| label != #[trigger] static_symbol(
            module,
            index,
        ) by {
            lemma_tagged_not_static(none, 'H', none, module, index);
        }
    }
}

/// Static symbols are the same only for the same module and index.
pub proof fn lemma_static_symbol_injective(m1: Seq<char>, i1: nat, m2: Seq<char>, i2: nat)
    requires
        static_symbol(m1, i1) == static_symbol(m2, i2),
    ensures
        m1 == m2,
        i1 == i2,
{
    reveal_strlit(".");
    lemma_decimal_value(i1);
    lemma_decimal_value(i2);
    let s1 = static_symbol(m1, i1);
    let s2 = static_symbol(m2, i2);
    let d1 = decimal(i1);
    let d2 = decimal(i2);
    assert(s1.len() == m1.len() + 1 + d1.len());
    assert(s2.len() == m2.len() + 1 + d2.len());
    assert(s1[m1.len() as int] == '.');
    assert(s2[m2.len() as int] == '.');
    // The dot of one numeral cannot fall among the digits of the other.
    if m1.len() < m2.len() {
        assert(s1[m2.len() as int] == d1[m2.len() - m1.len() - 1]);
        assert(is_digit(d1[m2.len() - m1.len() - 1]));
    }
    if m2.len() < m1.len() {
        assert(s2[m1.len() as int] == d2[m1.len() - m2.len() - 1]);
        assert(is_digit(d2[m1.len() - m2.len() - 1]));
    }
    assert(m1 =~= s1.subrange(0, m1.len() as int));
    assert(m2 =~= s2.subrange(0, m2.len() as int));
    assert(d1 =~= s1.subrange(m1.len() as int + 1, s1.len() as int));
    assert(d2 =~= s2.subrange(m2.len() as int + 1, s2.len() as int));
    lemma_decimal_injective(i1, i2);
}

/// Puts a mark with a number behind a text.
fn make_tagged(body: &str, mark: &str, letter: Ghost<char>, n: usize) -> (label: String)
    requires
        mark@ == seq!['$', letter@],
    ensures
        label@ == tagged(body@, letter@, decimal(n as nat)),
{
    let mut label = String::from_str(body);
    label.append(mark);
    let number = to_decimal(n as u64);
    label.append(number.as_str());
    label
}

/// Makes the label of a function.
pub fn make_function_symbol(name: &str) -> (label: String)
    ensures
        label@ == function_symbol(name@),
{
    proof {
        reveal_strlit("$F");
        assert("$F"@ =~= seq!['$', 'F']);
    }
    let mut label = String::from_str(name);
    label.append("$F");
    assert(label@ =~= function_symbol(name@));
    label
}

/// Makes the label that a `label` command declares in a scope.
pub fn make_label_symbol(module: &str, name: &str, scope: usize) -> (label: String)
    ensures
        label@ == label_symbol(module@, name@, scope as nat),
{
    proof {
        reveal_strlit(".");
        reveal_strlit("$L");
        assert("."@ =~= seq!['.']);
        assert("$L"@ =~= seq!['$', 'L']);
    }
    let mut body = String::from_str(module);
    body.append(".");
    body.append(name);
    make_tagged(body.as_str(), "$L", Ghost('L'), scope)
}

/// Makes the label that comparison `n` jumps to when it holds.
pub fn make_true_label(n: usize) -> (label: String)
    ensures
        label@ == true_label(n as nat),
{
    proof {
        reveal_strlit("");
        reveal_strlit("$T");
        assert(""@ =~= Seq::<char>::empty());
        assert("$T"@ =~= seq!['$', 'T']);
    }
    make_tagged("", "$T", Ghost('T'), n)
}

/// Makes the label at the end of comparison `n`.
pub fn make_end_label(n: usize) -> (label: String)
    ensures
        label@ == end_label(n as nat),
{
    proof {
        reveal_strlit("");
        reveal_strlit("$E");
        assert(""@ =~= Seq::<char>::empty());
        assert("$E"@ =~= seq!['$', 'E']);
    }
    make_tagged("", "$E", Ghost('E'), n)
}

/// Makes the label at which call `n` is resumed.
pub fn make_return_label(n: usize) -> (label: String)
    ensures
        label@ == return_label(n as nat),
{
    proof {
        reveal_strlit("");
        reveal_strlit("$R");
        assert(""@ =~= Seq::<char>::empty());
        assert("$R"@ =~= seq!['$', 'R']);
    }
    make_tagged("", "$R", Ghost('R'), n)
}

/// Makes the label of the loop that ends a program.
pub fn make_halt_label() -> (label: String)
    ensures
        label@ == halt_label(),
{
    proof {
        reveal_strlit("$H");
        assert("$H"@ =~= seq!['$', 'H']);
    }
    let label = String::from_str("$H");
    assert(label@ =~= halt_label());
    label
}

/// Makes the symbol of a module's static variable.
pub fn make_static_symbol(module: &str, index: u32) -> (symbol: String)
    ensures
        symbol@ == static_symbol(module@, index as nat),
{
    let mut symbol = String::from_str(module);
    symbol.append(".");
    let number = to_decimal(index as u64);
    symbol.append(number.as_str());
    symbol
}

} // verus!
