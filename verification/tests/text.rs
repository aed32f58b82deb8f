use vmtranslator::decimal::{parse_u32, to_decimal};
use vmtranslator::labels::{
    make_end_label, make_function_symbol, make_halt_label, make_label_symbol,
    make_return_label, make_static_symbol, make_true_label,
};
use vmtranslator::order::name_le;
use vmtranslator::text::{
    is_whitespace, same_text, split_whitespace, strip_comment, to_chars, trim,
};

fn chars(text: &str) -> Vec<char> {
    text.chars().collect()
}

#[test]
fn numerals_have_no_sign_and_no_leading_zeros() {
    assert_eq!(to_decimal(0), "0");
    assert_eq!(to_decimal(7), "7");
    assert_eq!(to_decimal(10), "10");
    assert_eq!(to_decimal(256), "256");
    assert_eq!(to_decimal(4294967295), "4294967295");
    assert_eq!(to_decimal(u64::MAX), "18446744073709551615");
}

#[test]
fn numerals_read_back_as_their_number() {
    for n in [0u32, 1, 9, 10, 99, 100, 32767, 65535, 1_000_000, u32::MAX] {
        let numeral = to_decimal(n as u64);
        assert_eq!(parse_u32(&chars(&numeral)), Some(n));
        assert_eq!(numeral, n.to_string());
    }
}

#[test]
fn numbers_are_read_as_rust_reads_them() {
    for text in ["0", "00", "+0", "12", "+12", "4294967295", "4294967296", "", "+", "-1", "1 ", " 1", "1_0", "++1", "٣"] {
        assert_eq!(parse_u32(&chars(text)), text.parse::<u32>().ok(), "{text:?}");
    }
}

#[test]
fn white_space_is_what_unicode_says() {
    for code in 0..0x11_0000u32 {
        if let Some(c) = char::from_u32(code) {
            assert_eq!(is_whitespace(c), c.is_whitespace(), "U+{code:04X}");
        }
    }
}

#[test]
fn comments_start_at_the_first_marker() {
    assert_eq!(strip_comment("push // a // b"), "push ");
    assert_eq!(strip_comment("// all"), "");
    assert_eq!(strip_comment("no comment"), "no comment");
    assert_eq!(strip_comment("a / b /"), "a / b /");
    assert_eq!(strip_comment("a ///"), "a ");
    assert_eq!(strip_comment("/"), "/");
    assert_eq!(strip_comment(""), "");
    assert_eq!(strip_comment("é//è"), "é");
}

#[test]
fn trim_cuts_both_ends() {
    for text in ["", " ", "a", " a", "a ", "  a b  ", "\t\n a \r\n", "\u{2003}x\u{2003}", " é "] {
        assert_eq!(trim(text), text.trim(), "{text:?}");
    }
}

#[test]
fn tokens_are_the_runs_between_white_space() {
    for text in ["", "   ", "a", " a  b\tc ", "push constant 7", "a\u{3000}b", "x  ", "é è"] {
        let expected: Vec<String> = text.split_whitespace().map(|t| t.to_string()).collect();
        assert_eq!(split_whitespace(text), expected, "{text:?}");
    }
}

#[test]
fn characters_and_texts_compare() {
    assert_eq!(to_chars("añb"), vec!['a', 'ñ', 'b']);
    assert_eq!(to_chars(""), Vec::<char>::new());
    assert!(same_text("add", "add"));
    assert!(!same_text("add", "ad"));
    assert!(!same_text("add", "adD"));
    assert!(same_text("", ""));
}

#[test]
fn names_are_ordered_as_in_a_dictionary() {
    let names = ["", "A", "Ab", "B", "Main", "Main2", "Sys", "a", "b", "é", "日本"];
    for a in names {
        for b in names {
            assert_eq!(name_le(a, b), a <= b, "{a:?} {b:?}");
        }
    }
}

#[test]
fn labels_are_made_from_their_number() {
    assert_eq!(make_true_label(0), "$T0");
    assert_eq!(make_end_label(0), "$E0");
    assert_eq!(make_return_label(0), "$R0");
    assert_eq!(make_true_label(12), "$T12");
    assert_eq!(make_end_label(12), "$E12");
    assert_eq!(make_return_label(305), "$R305");
    assert_eq!(make_halt_label(), "$H");
    assert_eq!(make_function_symbol("Main.f"), "Main.f$F");
    assert_eq!(make_function_symbol(""), "$F");
    assert_eq!(make_label_symbol("Main", "LOOP", 3), "Main.LOOP$L3");
    assert_eq!(make_label_symbol("", "end", 0), ".end$L0");
    assert_eq!(make_static_symbol("Main", 3), "Main.3");
    assert_eq!(make_static_symbol("a.b", 10), "a.b.10");
}

#[test]
fn static_symbols_tell_modules_and_indices_apart() {
    let modules = ["A", "B", "A.1", "A.", "", "1"];
    let mut seen = Vec::new();
    for module in modules {
        for index in [0u32, 1, 10, 11] {
            let symbol = make_static_symbol(module, index);
            assert!(!seen.contains(&symbol), "{symbol} twice");
            assert_eq!(symbol, make_static_symbol(module, index));
            seen.push(symbol);
        }
    }
}

#[test]
fn labels_of_different_families_differ_whatever_the_names() {
    // Names that look like the labels of other families.
    let names = ["", "x", "$T0", "$H", "a$F", "a$L1", "$L1", "$F", "SP", "a.1", "1", ".x$L"];
    let mut labels = vec![make_halt_label()];
    for n in [0usize, 1, 10, 11] {
        labels.push(make_true_label(n));
        labels.push(make_end_label(n));
        labels.push(make_return_label(n));
    }
    for name in names {
        labels.push(make_function_symbol(name));
        for scope in [0usize, 1, 11] {
            labels.push(make_label_symbol("M", name, scope));
        }
    }
    for module in ["M", "M$L1", "x$F"] {
        for index in [0u32, 1] {
            labels.push(make_static_symbol(module, index));
        }
    }
    for (i, label) in labels.iter().enumerate() {
        assert!(!labels[i + 1..].contains(label), "{label} twice");
        assert!(!["SP", "LCL", "ARG", "THIS", "THAT", "R13", "R14"].contains(&label.as_str()));
    }
}
