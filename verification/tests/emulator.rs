use vt100::ascii;
use vt100::emulator::VtEmulator;
use vt100::parser::Code;
use vt100::parser::VtParser;
use vt100::terminal::Term;

fn emulate(stream: &str) -> Vec<Code> {
    let mut emulator = VtEmulator::new(stream);
    let mut codes = Vec::new();
    while let Some(code) = emulator.next() {
        codes.push(code);
    }
    codes
}

fn parse(stream: &str) -> Vec<Code> {
    let mut parser = VtParser::new(stream);
    let mut codes = Vec::new();
    while let Some(code) = parser.next() {
        codes.push(code);
    }
    codes
}

#[test]
fn emulator_text_bell_backspace() {
    let s = format!("Hi{}{}there", ascii::BEL, ascii::BS);
    assert_eq!(
        emulate(&s),
        [Code::Chars("Hi".to_string()), Code::Bell, Code::Backspace, Code::Chars("there".to_string())]
    );
}

#[test]
fn emulator_agrees_with_parser_on_plain_text() {
    let s = "plain text, no controls";
    assert_eq!(emulate(s), parse(s));
    assert_eq!(emulate(s), [Code::Chars(s.to_string())]);
}

#[test]
fn emulator_insert_blank_characters() {
    let s = format!("{}[5;@", ascii::ESC);
    assert_eq!(emulate(&s), [Code::InsertBlankCharacters(5)]);
    let s = format!("{}[@", ascii::ESC);
    assert_eq!(emulate(&s), [Code::InsertBlankCharacters(1)]);
}

#[test]
fn emulator_zero_parameter_is_skipped() {
    let s = format!("{}[0;7;@", ascii::ESC);
    assert_eq!(emulate(&s), [Code::InsertBlankCharacters(7)]);
}

#[test]
fn emulator_ignores_other_sequences() {
    let s = format!("{}[2;A", ascii::ESC);
    assert_eq!(emulate(&s), Vec::<Code>::new());
    let s = format!("{}Dok", ascii::ESC);
    assert_eq!(emulate(&s), [Code::Chars("ok".to_string())]);
    let s = format!("{}", ascii::ESC);
    assert_eq!(emulate(&s), Vec::<Code>::new());
}

#[test]
fn emulator_carriage_return_is_text() {
    let s = format!("{}ab", ascii::CR);
    assert_eq!(emulate(&s), [Code::Chars(s.clone())]);
}

#[test]
fn emulator_queue() {
    let mut emulator = VtEmulator::new("z");
    emulator.emit(Code::Bell);
    assert_eq!(emulator.get(), Some(Code::Bell));
    assert_eq!(emulator.get(), None);
    assert_eq!(emulator.next(), Some(Code::Chars("z".to_string())));
    assert_eq!(emulator.next(), None);
}

#[test]
fn terminal_actions() {
    let t = Term::Chars("x".to_string());
    assert_eq!(t.clone(), Term::Chars("x".to_string()));
    assert_ne!(Term::Beep, Term::Backspace);
}

#[test]
fn emulator_safe_inputs() {
    assert!(VtEmulator::input_is_safe("text"));
    assert!(VtEmulator::input_is_safe(&format!("{}[12;@", ascii::ESC)));
    assert!(!VtEmulator::input_is_safe(&format!("{}[99999999999;@", ascii::ESC)));
}

#[test]
fn emulator_escape_ends_text() {
    let s = format!("ab{}[3;@", ascii::ESC);
    assert_eq!(emulate(&s), [Code::Chars("ab".to_string()), Code::InsertBlankCharacters(3)]);
}

#[test]
fn emulator_codes_before_an_overflow_are_handed_out() {
    let s = format!("{}{}[99999999999;@", ascii::BEL, ascii::ESC);
    assert!(!VtEmulator::input_is_safe(&s));
    let mut emulator = VtEmulator::new(&s);
    assert!(emulator.next_is_safe());
    assert_eq!(emulator.next(), Some(Code::Bell));
    assert!(!emulator.next_is_safe());
}
