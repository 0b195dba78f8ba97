use cs110l::debugger_command::{
    parse_address, parse_line, DebuggerCommand, DwarfData, FunctionEntry, LineEntry, SourceFile,
};
use cs110l::text::{parse_usize, str_equals};

fn sample_dwarf() -> DwarfData {
    DwarfData {
        files: vec![
            SourceFile {
                name: String::from("main.c"),
                lines: vec![
                    LineEntry { number: 3, address: 0x1000 },
                    LineEntry { number: 5, address: 0x1010 },
                    LineEntry { number: 9, address: 0x1020 },
                ],
                functions: vec![FunctionEntry {
                    name: String::from("main"),
                    address: 0x1000,
                    text_length: 0x30,
                }],
            },
            SourceFile {
                name: String::from("helper.c"),
                lines: vec![LineEntry { number: 1, address: 0x2000 }],
                functions: vec![
                    FunctionEntry { name: String::from("helper"), address: 0x2000, text_length: 0x100 },
                    FunctionEntry { name: String::from("main"), address: 0x2100, text_length: 0x10 },
                ],
            },
        ],
    }
}

fn parse(words: &[&str]) -> Option<DebuggerCommand> {
    let tokens: Vec<&str> = words.to_vec();
    DebuggerCommand::from_tokens(&tokens, &sample_dwarf())
}

#[test]
fn str_equals_compares_characters() {
    assert!(str_equals("abc", "abc"));
    assert!(!str_equals("abc", "abd"));
    assert!(!str_equals("ab", "abc"));
    assert!(str_equals("", ""));
}

#[test]
fn parse_usize_follows_from_str_radix() {
    assert_eq!(parse_usize("ff", 16), Some(255));
    assert_eq!(parse_usize("FF", 16), Some(255));
    assert_eq!(parse_usize("+12", 10), Some(12));
    assert_eq!(parse_usize("+", 10), None);
    assert_eq!(parse_usize("", 10), None);
    assert_eq!(parse_usize("-1", 10), None);
    assert_eq!(parse_usize("12a", 10), None);
    assert_eq!(parse_usize("18446744073709551615", 10), usize::from_str_radix("18446744073709551615", 10).ok());
    assert_eq!(parse_usize("18446744073709551616", 10), None);
    for s in ["0", "007", "+7", "z", "1z", "", "+", "++1", "99999999999999999999999"] {
        assert_eq!(parse_usize(s, 10), usize::from_str_radix(s, 10).ok(), "{}", s);
        assert_eq!(parse_usize(s, 16), usize::from_str_radix(s, 16).ok(), "{}", s);
    }
}

#[test]
fn parse_address_accepts_an_optional_hex_prefix() {
    assert_eq!(parse_address("0x1f"), Some(31));
    assert_eq!(parse_address("0X1F"), Some(31));
    assert_eq!(parse_address("1f"), Some(31));
    assert_eq!(parse_address("0x"), None);
    assert_eq!(parse_address("0xg"), None);
    assert_eq!(parse_address("*0x10"), None);
}

#[test]
fn parse_line_is_decimal() {
    assert_eq!(parse_line("42"), Some(42));
    assert_eq!(parse_line("0x2a"), None);
    assert_eq!(parse_line("main"), None);
}

#[test]
fn simple_commands_and_their_short_forms() {
    for w in ["q", "quit"] {
        assert!(matches!(parse(&[w]), Some(DebuggerCommand::Quit)));
    }
    for w in ["c", "cont", "continue"] {
        assert!(matches!(parse(&[w]), Some(DebuggerCommand::Continue)));
    }
    for w in ["bt", "backtrace"] {
        assert!(matches!(parse(&[w]), Some(DebuggerCommand::BackTrace)));
    }
    assert!(parse(&["frobnicate"]).is_none());
    assert!(parse(&["Q"]).is_none());
}

#[test]
fn run_keeps_the_remaining_words_as_arguments() {
    match parse(&["run", "a", "b c"]) {
        Some(DebuggerCommand::Run(args)) => assert_eq!(args, vec!["a", "b c"]),
        _ => panic!("expected run"),
    }
    match parse(&["r"]) {
        Some(DebuggerCommand::Run(args)) => assert!(args.is_empty()),
        _ => panic!("expected run"),
    }
}

#[test]
fn break_resolves_lines_and_functions() {
    assert!(matches!(parse(&["b", "4"]), Some(DebuggerCommand::Break(0x1010))));
    assert!(matches!(parse(&["break", "3"]), Some(DebuggerCommand::Break(0x1000))));
    assert!(parse(&["b", "10"]).is_none());
    assert!(matches!(parse(&["b", "helper"]), Some(DebuggerCommand::Break(0x2000))));
    assert!(matches!(parse(&["b", "main"]), Some(DebuggerCommand::Break(0x1000))));
    assert!(parse(&["b", "missing"]).is_none());
}

#[test]
fn break_needs_exactly_one_argument() {
    assert!(parse(&["b"]).is_none());
    assert!(parse(&["b", "main", "extra"]).is_none());
}

#[test]
fn break_with_a_star_keeps_the_star_and_sets_nothing() {
    assert!(parse(&["b", "*0x401000"]).is_none());
    assert!(parse(&["break", "*1"]).is_none());
    assert!(parse(&["b", "*"]).is_none());
    assert!(parse(&["b", "*main"]).is_none());
}

#[test]
fn lookups_on_empty_debug_information_find_nothing() {
    let empty = DwarfData { files: Vec::new() };
    assert_eq!(empty.get_addr_for_line(1), None);
    assert_eq!(empty.get_addr_for_function("main"), None);
    let data = sample_dwarf();
    assert_eq!(data.get_addr_for_line(0), Some(0x1000));
    assert_eq!(data.get_addr_for_line(9), Some(0x1020));
    assert_eq!(data.get_addr_for_function("main"), Some(0x1000));
    assert_eq!(empty.get_function_from_addr(0x1000), None);
    assert!(empty.get_line_from_addr(0x1000).is_none());
}

#[test]
fn an_address_resolves_to_its_function() {
    let data = sample_dwarf();
    assert_eq!(data.get_function_from_addr(0x1000), Some(String::from("main")));
    assert_eq!(data.get_function_from_addr(0x102f), Some(String::from("main")));
    assert_eq!(data.get_function_from_addr(0x1030), None);
    assert_eq!(data.get_function_from_addr(0x20ff), Some(String::from("helper")));
    assert_eq!(data.get_function_from_addr(0x2105), Some(String::from("main")));
    assert_eq!(data.get_function_from_addr(0xfff), None);
    assert_eq!(data.get_function_from_addr(usize::MAX), None);
}

#[test]
fn an_address_resolves_to_the_line_it_falls_in() {
    let data = sample_dwarf();
    let line = data.get_line_from_addr(0x1015).unwrap();
    assert_eq!((line.file.as_str(), line.number, line.address), ("main.c", 5, 0x1010));
    let line = data.get_line_from_addr(0x1020).unwrap();
    assert_eq!((line.file.as_str(), line.number, line.address), ("main.c", 9, 0x1020));
    let line = data.get_line_from_addr(0x2050).unwrap();
    assert_eq!((line.file.as_str(), line.number, line.address), ("helper.c", 1, 0x2000));
    assert!(data.get_line_from_addr(0xfff).is_none());
}
