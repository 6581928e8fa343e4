use vt100::ascii;
use vt100::parser::style::Color;
use vt100::parser::style::Style;
use vt100::parser::Code;
use vt100::parser::VtParser;

fn do_test(stream: &str) -> Vec<Code> {
    let mut parser = VtParser::new(stream);
    let mut codes = Vec::new();
    while let Some(code) = parser.next() {
        codes.push(code);
    }
    codes
}

fn do_test_esc(seq: &str) -> Vec<Code> {
    let mut s = String::new();
    s.push(ascii::ESC);
    s.push_str(seq);
    do_test(&s)
}

#[test]
fn test_bell() {
    let mut s = "Hello world!".to_string();
    s.push(ascii::BEL);
    assert_eq!(do_test(&s), [Code::Chars("Hello world!".to_string()), Code::Bell]);
}

#[test]
fn test_insert_blank_characters() {
    assert_eq!(do_test_esc("[31;@"), [Code::InsertBlankCharacters(31)]);
}

#[test]
fn test_system_commands() {
    assert_eq!(
        do_test(&format!("{}]2;Rust{}", ascii::ESC, ascii::ST)),
        [Code::WindowTitle("Rust".to_string())]
    );
}

#[test]
fn test_style() {
    assert_eq!(
        do_test_esc("[4;22;38;2;0;0;0;47;m"),
        [
            Code::StyleOption(Style::Underlined, true),
            Code::StyleOption(Style::Bold, false),
            Code::StyleOption(Style::Dim, false),
            Code::Foreground(Color::Rgb { r: 0, g: 0, b: 0 }),
            Code::Background(Color::Indexed(7))
        ]
    );
}

fn chars(s: &str) -> Code {
    Code::Chars(s.to_string())
}

fn error(s: &str) -> Code {
    Code::Error(s.to_string())
}

#[test]
fn empty_input_gives_nothing() {
    assert_eq!(do_test(""), Vec::<Code>::new());
}

#[test]
fn next_keeps_returning_none_at_the_end() {
    let mut parser = VtParser::new("a");
    assert_eq!(parser.next(), Some(chars("a")));
    assert_eq!(parser.next(), None);
    assert_eq!(parser.next(), None);
}

#[test]
fn single_control_characters() {
    let s: String = [ascii::BS, ascii::CR, ascii::ENQ, ascii::SI, ascii::SO, ascii::HT, ascii::BEL]
        .iter()
        .collect();
    assert_eq!(
        do_test(&s),
        [
            Code::Backspace,
            Code::CarriageReturn,
            Code::ReturnTerminalStatus,
            Code::MapCharsetToGL(0),
            Code::MapCharsetToGL(1),
            Code::HorizontalTab,
            Code::Bell
        ]
    );
}

#[test]
fn line_breaks_are_alike() {
    let s: String = [ascii::FF, ascii::LF, ascii::VT].iter().collect();
    assert_eq!(do_test(&s), [Code::NewLine, Code::NewLine, Code::NewLine]);
}

#[test]
fn plain_text_is_one_code() {
    assert_eq!(do_test("Hello, world ~!"), [chars("Hello, world ~!")]);
}

#[test]
fn text_run_ends_at_a_control_character() {
    let s = format!("ab{}cd", ascii::CR);
    assert_eq!(do_test(&s), [chars("ab"), Code::CarriageReturn, chars("cd")]);
}

#[test]
fn escape_ends_text() {
    let s = format!("ab{}[31;@", ascii::ESC);
    assert_eq!(do_test(&s), [chars("ab"), Code::InsertBlankCharacters(31)]);
    let s = format!("ab{}[1;m", ascii::ESC);
    assert_eq!(do_test(&s), [chars("ab"), Code::StyleOption(Style::Bold, true)]);
}

#[test]
fn low_control_characters_end_text() {
    let s = "ab\u{1f}cd";
    assert_eq!(do_test(s), [chars("ab"), chars("\u{1f}cd")]);
}

#[test]
fn text_may_start_with_a_low_character() {
    let s = "\u{1}xy";
    assert_eq!(do_test(s), [chars(s)]);
}

#[test]
fn escape_codes() {
    let cases: Vec<(&str, Code)> = vec![
        ("D", Code::Index),
        ("E", Code::NextLine),
        ("H", Code::HorizontalTabSet),
        ("M", Code::ReverseIndex),
        ("N", Code::SingleShiftSelect(2)),
        ("O", Code::SingleShiftSelect(3)),
        ("6", Code::BackIndex),
        ("7", Code::SaveCursor),
        ("8", Code::RestoreCursor),
        ("9", Code::ForwardIndex),
        ("=", Code::ApplicationKeypad),
        (">", Code::NormalKeypad),
        ("F", Code::CursorToLowerLeft),
        ("c", Code::FullReset),
        ("n", Code::MapCharsetToGL(2)),
        ("o", Code::MapCharsetToGL(3)),
        ("|", Code::MapCharsetToGR(3)),
        ("}", Code::MapCharsetToGR(2)),
        ("~", Code::MapCharsetToGL(1)),
    ];
    for (seq, code) in cases {
        assert_eq!(do_test_esc(seq), [code]);
    }
}

#[test]
fn unknown_escape_is_dropped() {
    assert_eq!(do_test_esc("Zab"), [chars("ab")]);
}

#[test]
fn escape_at_the_end_gives_nothing() {
    assert_eq!(do_test_esc(""), Vec::<Code>::new());
}

#[test]
fn two_char_sequences() {
    assert_eq!(do_test_esc(" F"), [Code::Charset7Bit]);
    assert_eq!(do_test_esc(" G"), [Code::Charset8Bit]);
    assert_eq!(do_test_esc(" L"), [Code::AnsiConformanceLevel(1)]);
    assert_eq!(do_test_esc(" M"), [Code::AnsiConformanceLevel(2)]);
    assert_eq!(do_test_esc(" N"), [Code::AnsiConformanceLevel(3)]);
    assert_eq!(do_test_esc("#8"), [Code::FillScreenE]);
    assert_eq!(do_test_esc("%@"), [Code::SelectDefaultCharset]);
    assert_eq!(do_test_esc("%G"), [Code::SelectUtf8Charset]);
    assert_eq!(do_test_esc("(B"), [Code::DesignateCharset(0, 'B')]);
    assert_eq!(do_test_esc(")0"), [Code::DesignateCharset(1, '0')]);
    assert_eq!(do_test_esc("-A"), [Code::DesignateCharset(1, 'A')]);
    assert_eq!(do_test_esc("*A"), [Code::DesignateCharset(2, 'A')]);
    assert_eq!(do_test_esc("+<"), [Code::DesignateCharset(3, '<')]);
    assert_eq!(do_test_esc(".A"), [Code::DesignateCharset(2, 'A')]);
    assert_eq!(do_test_esc("/A"), [Code::DesignateCharset(3, 'A')]);
}

#[test]
fn two_char_errors() {
    assert_eq!(do_test_esc(" X"), [error(" X")]);
    assert_eq!(do_test_esc("#1"), [error("#1")]);
    assert_eq!(do_test_esc("%x"), [error("%x")]);
    assert_eq!(do_test_esc("$x"), [error("$x")]);
    assert_eq!(do_test_esc("@x"), [error("@x")]);
    assert_eq!(do_test_esc("("), [error("(")]);
}

#[test]
fn two_char_sequence_then_text() {
    assert_eq!(do_test_esc("(Bok"), [Code::DesignateCharset(0, 'B'), chars("ok")]);
}

#[test]
fn cursor_moves_default_to_one() {
    assert_eq!(do_test_esc("[A"), [Code::CursorUp(1)]);
    assert_eq!(do_test_esc("[0;B"), [Code::CursorDown(1)]);
    assert_eq!(do_test_esc("[3;C"), [Code::CursorForward(3)]);
    assert_eq!(do_test_esc("[4;D"), [Code::CursorBackward(4)]);
    assert_eq!(do_test_esc("[2;E"), [Code::CursorNextLine(2)]);
    assert_eq!(do_test_esc("[2;F"), [Code::CursorPrecedingLine(2)]);
}

#[test]
fn number_without_semicolon_is_not_a_parameter() {
    assert_eq!(do_test_esc("[31@"), [Code::InsertBlankCharacters(1)]);
}

#[test]
fn control_sequence_reads_to_the_end_of_the_input() {
    assert_eq!(do_test_esc("[2;Ahello"), [error("Unknown CSI code o")]);
}

#[test]
fn control_sequence_codes() {
    assert_eq!(do_test_esc("[5;G"), [Code::CursorHorizontalAbsolute(5)]);
    assert_eq!(do_test_esc("[5;`"), [Code::CursorHorizontalAbsolute(5)]);
    assert_eq!(do_test_esc("[5;7;H"), [Code::CursorPosition { x: 5, y: 7 }]);
    assert_eq!(do_test_esc("[f"), [Code::CursorPosition { x: 1, y: 1 }]);
    assert_eq!(do_test_esc("[2;J"), [Code::EraseInDisplay(2)]);
    assert_eq!(do_test_esc("[?2;J"), [Code::SelectiveEraseInDisplay(2)]);
    assert_eq!(do_test_esc("[K"), [Code::EraseInLine(1)]);
    assert_eq!(do_test_esc("[?K"), [Code::SelectiveEraseInLine(1)]);
    assert_eq!(do_test_esc("[2;L"), [Code::InsertLines(2)]);
    assert_eq!(do_test_esc("[2;M"), [Code::DeleteLines(2)]);
    assert_eq!(do_test_esc("[2;X"), [Code::EraseCharacters(2)]);
    assert_eq!(do_test_esc("[2;P"), [Code::DeleteCharacters(2)]);
    assert_eq!(do_test_esc("[2;S"), [Code::ScrollUp(2)]);
    assert_eq!(do_test_esc("[2;T"), [Code::ScrollDown(2)]);
    assert_eq!(do_test_esc("[c"), [Code::SendPrimaryDeviceAttributes]);
    assert_eq!(do_test_esc("[>0;c"), [Code::SendSecondaryDeviceAttributes]);
    assert_eq!(do_test_esc("[>c"), [Code::SendPrimaryDeviceAttributes]);
    assert_eq!(do_test_esc("[0;c"), [Code::SendPrimaryDeviceAttributes]);
    assert_eq!(do_test_esc("[3;d"), [Code::LinePositionAbsolute(3)]);
    assert_eq!(do_test_esc("[3;g"), [Code::TabClear(3)]);
    assert_eq!(do_test_esc("[4;h"), [Code::SetMode(4)]);
    assert_eq!(do_test_esc("[4;l"), [Code::SetMode(4)]);
    assert_eq!(do_test_esc("[6;n"), [Code::DeviceStatusReport(6)]);
    assert_eq!(do_test_esc("[?6;n"), [Code::DecDeviceStatusReport]);
    assert_eq!(do_test_esc("[2;20;r"), [Code::SetScrollingRegion { top: 2, bottom: 20 }]);
    assert_eq!(do_test_esc("[r"), [Code::SetScrollingRegion { top: 1, bottom: 0 }]);
    assert_eq!(do_test_esc("[?r"), [Code::RestoreDecPrivateMode]);
    assert_eq!(do_test_esc("[8;24;80;t"), [Code::Resize { width: 24, height: 80 }]);
}

#[test]
fn question_mark_counts_only_first() {
    assert_eq!(do_test_esc("[2;?J"), [Code::EraseInDisplay(2)]);
}

#[test]
fn control_sequence_errors() {
    assert_eq!(do_test_esc("[9;t"), [error("Unkown window manipulation command 9")]);
    assert_eq!(do_test_esc("[t"), [error("Unkown window manipulation command 0")]);
    assert_eq!(do_test_esc("[1;z"), [error("Unknown CSI code z")]);
    assert_eq!(do_test_esc("["), [error("Unknown CSI code \0")]);
}

#[test]
fn style_codes() {
    assert_eq!(do_test_esc("[0;m"), [Code::DefaultStyle]);
    assert_eq!(
        do_test_esc("[1;2;3;4;5;7;8;m"),
        [
            Code::StyleOption(Style::Bold, true),
            Code::StyleOption(Style::Dim, true),
            Code::StyleOption(Style::Italic, true),
            Code::StyleOption(Style::Underlined, true),
            Code::StyleOption(Style::Blink, true),
            Code::StyleOption(Style::Inverse, true),
            Code::StyleOption(Style::Hidden, true)
        ]
    );
    assert_eq!(
        do_test_esc("[23;24;25;28;m"),
        [
            Code::StyleOption(Style::Italic, false),
            Code::StyleOption(Style::Underlined, false),
            Code::StyleOption(Style::Inverse, false),
            Code::StyleOption(Style::Hidden, false)
        ]
    );
    assert_eq!(
        do_test_esc("[31;39;42;49;91;101;m"),
        [
            Code::Foreground(Color::Indexed(1)),
            Code::Foreground(Color::Default),
            Code::Background(Color::Indexed(2)),
            Code::Background(Color::Default),
            Code::Foreground(Color::Indexed(9)),
            Code::Background(Color::Indexed(9))
        ]
    );
    assert_eq!(do_test_esc("[6;m"), Vec::<Code>::new());
    assert_eq!(do_test_esc("[m"), Vec::<Code>::new());
}

#[test]
fn extended_colors() {
    assert_eq!(do_test_esc("[38;5;200;m"), [Code::Foreground(Color::Indexed(200))]);
    assert_eq!(do_test_esc("[48;5;m"), [Code::Background(Color::Indexed(0))]);
    assert_eq!(
        do_test_esc("[48;2;1;2;3;m"),
        [Code::Background(Color::Rgb { r: 1, g: 2, b: 3 })]
    );
    assert_eq!(
        do_test_esc("[38;2;1;256;3;1;m"),
        [error("Bogus color setting"), Code::StyleOption(Style::Bold, true)]
    );
    assert_eq!(
        do_test_esc("[38;9;1;m"),
        [error("Bogus color setting"), Code::StyleOption(Style::Bold, true)]
    );
    assert_eq!(do_test_esc("[48;m"), [error("Bogus color setting")]);
}

#[test]
fn system_command_path_and_bel() {
    let s = format!("{}]7;/home{}", ascii::ESC, ascii::BEL);
    assert_eq!(do_test(&s), [Code::CurrentPath("/home".to_string())]);
    let s = format!("{}]0;a b{}x", ascii::ESC, ascii::BEL);
    assert_eq!(do_test(&s), [Code::WindowTitle("a b".to_string()), chars("x")]);
    let s = format!("{}]+2;t", ascii::ESC);
    assert_eq!(do_test(&s), [Code::WindowTitle("t".to_string())]);
    let s = format!("{}]2;t;u{}", ascii::ESC, ascii::ST);
    assert_eq!(do_test(&s), [Code::WindowTitle("t".to_string())]);
}

#[test]
fn system_command_errors() {
    let s = format!("{}]5;x{}", ascii::ESC, ascii::BEL);
    assert_eq!(do_test(&s), [error("Unrecognized system command ")]);
    let s = format!("{}]x;y{}", ascii::ESC, ascii::BEL);
    assert_eq!(do_test(&s), [error("Cant parse system command")]);
    let s = format!("{}]99999999999;y{}", ascii::ESC, ascii::BEL);
    assert_eq!(do_test(&s), [error("Cant parse system command")]);
    let s = format!("{}]2{}", ascii::ESC, ascii::BEL);
    assert_eq!(do_test(&s), Vec::<Code>::new());
}

#[test]
fn emit_and_get_are_first_in_first_out() {
    let mut parser = VtParser::new("");
    assert_eq!(parser.get(), None);
    parser.emit(Code::Bell);
    parser.emit(Code::NewLine);
    assert_eq!(parser.get(), Some(Code::Bell));
    assert_eq!(parser.next(), Some(Code::NewLine));
    assert_eq!(parser.get(), None);
}

#[test]
fn error_codes() {
    let mut parser = VtParser::new("");
    parser.error_msg("oops".to_string());
    parser.error(&['#', '1']);
    assert_eq!(parser.get(), Some(error("oops")));
    assert_eq!(parser.get(), Some(error("#1")));
}

#[test]
fn queued_codes_come_before_input() {
    let mut parser = VtParser::new("x");
    parser.emit(Code::Bell);
    assert_eq!(parser.next(), Some(Code::Bell));
    assert_eq!(parser.next(), Some(chars("x")));
    assert_eq!(parser.next(), None);
}

#[test]
fn style_with_marks() {
    assert_eq!(
        do_test_esc("[?1;31;m"),
        [Code::StyleOption(Style::Bold, true), Code::Foreground(Color::Indexed(1))]
    );
    assert_eq!(do_test_esc("[>7;m"), [Code::StyleOption(Style::Inverse, true)]);
}

#[test]
fn safe_inputs() {
    assert!(VtParser::input_is_safe("plain"));
    assert!(VtParser::input_is_safe(&format!("{}[4294967247;@", ascii::ESC)));
    assert!(!VtParser::input_is_safe(&format!("{}[4294967295;@", ascii::ESC)));
    assert!(!VtParser::input_is_safe(&format!("{}[99999999999;m", ascii::ESC)));
    // Digits inside an operating system command are text, not a number.
    assert!(VtParser::input_is_safe(&format!("{}]2;99999999999{}", ascii::ESC, ascii::BEL)));
    assert_eq!(do_test_esc("[4294967247;@"), [Code::InsertBlankCharacters(4294967247)]);
}

#[test]
fn codes_before_an_overflow_are_handed_out() {
    let s = format!("{}{}[99999999999;m", ascii::BEL, ascii::ESC);
    assert!(!VtParser::input_is_safe(&s));
    let mut parser = VtParser::new(&s);
    assert!(parser.next_is_safe());
    assert_eq!(parser.next(), Some(Code::Bell));
    assert!(!parser.next_is_safe());
}

#[test]
fn queued_code_needs_no_reading() {
    let s = format!("{}[99999999999;m", ascii::ESC);
    let mut parser = VtParser::new(&s);
    assert!(!parser.next_is_safe());
    parser.emit(Code::Bell);
    assert!(parser.next_is_safe());
    assert_eq!(parser.next(), Some(Code::Bell));
    assert!(!parser.next_is_safe());
}

#[test]
fn style_parameters_with_leading_zeros() {
    assert_eq!(
        do_test_esc("[001;0031;m"),
        [Code::StyleOption(Style::Bold, true), Code::Foreground(Color::Indexed(1))]
    );
}
