use virtual_gc::command::{parse_command, parse_param_to_usize, parse_usize, trim_bytes, Command};

#[test]
fn parses_each_keyword() {
    assert_eq!(parse_command("--help", 19), Command::Help);
    assert_eq!(parse_command("--unroot\n", 19), Command::Unroot);
    assert_eq!(parse_command("--state\n", 19), Command::State);
    assert_eq!(parse_command("--populate\n", 19), Command::Populate);
    assert_eq!(parse_command("--gc\n", 19), Command::Gc);
    assert_eq!(parse_command("--exit\n", 19), Command::Exit);
    assert_eq!(parse_command("--arb_ref 4\n", 19), Command::ArbRef(4));
    assert_eq!(parse_command("--alloc_at 7\n", 19), Command::AllocAt(7));
}

#[test]
fn parses_two_parameters() {
    assert_eq!(parse_command("--root 3 5\n", 19), Command::Root(3, 5));
    assert_eq!(parse_command("--link_ref 0 2\r\n", 19), Command::LinkRef(0, 2));
}

#[test]
fn missing_parameters_take_defaults() {
    assert_eq!(parse_command("--root\n", 19), Command::Root(0, 19));
    assert_eq!(parse_command("--root 4\n", 19), Command::Root(4, 19));
    assert_eq!(parse_command("--link_ref x 2\n", 9), Command::LinkRef(0, 2));
    assert_eq!(parse_command("--link_ref 1 -2\n", 9), Command::LinkRef(1, 9));
}

#[test]
fn unknown_words_are_unknown() {
    assert_eq!(parse_command("help\n", 19), Command::Unknown);
    assert_eq!(parse_command("", 19), Command::Unknown);
    assert_eq!(parse_command(" --gc\n", 19), Command::Unknown);
    assert_eq!(parse_command("--GC\n", 19), Command::Unknown);
}

#[test]
fn reads_numbers_like_from_str() {
    assert_eq!(parse_usize(b"42"), Some(42));
    assert_eq!(parse_usize(b"+7"), Some(7));
    assert_eq!(parse_usize(b"007"), Some(7));
    assert_eq!(parse_usize(b"+"), None);
    assert_eq!(parse_usize(b""), None);
    assert_eq!(parse_usize(b"-1"), None);
    assert_eq!(parse_usize(b"4a"), None);
    let max = usize::MAX.to_string();
    assert_eq!(parse_usize(max.as_bytes()), Some(usize::MAX));
    assert_eq!(parse_usize(format!("{}0", max).as_bytes()), None);
    assert_eq!(parse_usize(b"99999999999999999999999999"), None);
}

#[test]
fn trims_ascii_whitespace() {
    assert_eq!(trim_bytes(b" \t12 \r\n"), b"12".to_vec());
    assert_eq!(trim_bytes(b"   "), Vec::<u8>::new());
    assert_eq!(trim_bytes(b"a b"), b"a b".to_vec());
}

#[test]
fn parameters_fall_back_to_default() {
    assert_eq!(parse_param_to_usize(Some(" 12\n"), 3), 12);
    assert_eq!(parse_param_to_usize(Some("twelve"), 3), 3);
    assert_eq!(parse_param_to_usize(None, 5), 5);
}

#[test]
fn trims_unicode_whitespace() {
    assert_eq!(parse_param_to_usize(Some("\u{3000}7"), 3), 7);
    assert_eq!(parse_param_to_usize(Some("\u{a0}8\u{85}"), 3), 8);
    assert_eq!(parse_param_to_usize(Some("\u{2009}9\u{202f}\u{205f}\u{1680}"), 3), 9);
    assert_eq!(parse_param_to_usize(Some("\u{2028}\u{2029}\u{2000}\u{200a}4"), 3), 4);
    assert_eq!(parse_param_to_usize(Some("\u{3001}7"), 3), 3);
    assert_eq!(parse_param_to_usize(Some("\u{200b}7"), 3), 3);
    assert_eq!(parse_command("--gc\u{a0}", 19), Command::Gc);
    assert_eq!(parse_command("--root\u{3000}\u{3000} 5\u{3000} 6", 19), Command::Root(5, 6));
}

#[test]
fn trimming_agrees_with_str_trim() {
    let samples = [
        "\u{3000}7", "\u{a0}\u{85} x \u{2003}", "\u{3000}", "", " a\u{3001}", "\u{e9}\u{a0}",
        "\u{feff}1", "\t\n\u{b}\u{c}\r 2 \u{1680}", "\u{2029}\u{202f}",
    ];
    for s in samples {
        assert_eq!(trim_bytes(s.as_bytes()), s.trim().as_bytes().to_vec(), "{:?}", s);
    }
}
