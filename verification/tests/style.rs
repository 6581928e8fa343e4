use vt100::parser::style::black;
use vt100::parser::style::color256;
use vt100::parser::style::emit_style_codes;
use vt100::parser::style::white;
use vt100::parser::style::Color;
use vt100::parser::style::Style;
use vt100::parser::Code;
use vt100::parser::VtParser;

#[test]
fn color256_rgb() {
    let argv = vec![38, 2, 10, 20, 30];
    assert_eq!(color256(&argv, 0), (Some(Color::Rgb { r: 10, g: 20, b: 30 }), 5));
}

#[test]
fn color256_rgb_out_of_range() {
    let argv = vec![38, 2, 10, 256, 30];
    assert_eq!(color256(&argv, 0), (None, 5));
    let argv = vec![38, 2, 10, 20];
    assert_eq!(color256(&argv, 0), (None, 5));
}

#[test]
fn color256_indexed() {
    let argv = vec![1, 48, 5, 123];
    assert_eq!(color256(&argv, 1), (Some(Color::Indexed(123)), 3));
    let argv = vec![48, 5];
    assert_eq!(color256(&argv, 0), (Some(Color::Indexed(0)), 3));
}

#[test]
fn color256_other() {
    assert_eq!(color256(&vec![38], 0), (None, 1));
    assert_eq!(color256(&vec![38, 7], 0), (None, 1));
    assert_eq!(color256(&vec![38, 5], 5), (None, 1));
}

#[test]
fn palette_colors() {
    assert_eq!(black(), Color::Indexed(0));
    assert_eq!(white(), Color::Indexed(15));
}

#[test]
fn style_codes_through_the_queue() {
    let mut parser = VtParser::new("");
    emit_style_codes(&mut parser, &vec![22, 97, 107, 38, 5, 3]);
    assert_eq!(parser.get(), Some(Code::StyleOption(Style::Bold, false)));
    assert_eq!(parser.get(), Some(Code::StyleOption(Style::Dim, false)));
    assert_eq!(parser.get(), Some(Code::Foreground(Color::Indexed(15))));
    assert_eq!(parser.get(), Some(Code::Background(Color::Indexed(15))));
    assert_eq!(parser.get(), Some(Code::Foreground(Color::Indexed(3))));
    assert_eq!(parser.get(), None);
}

fn codes_of(argv: &Vec<u32>) -> Vec<Code> {
    let mut parser = VtParser::new("");
    emit_style_codes(&mut parser, argv);
    let mut codes = Vec::new();
    while let Some(code) = parser.get() {
        codes.push(code);
    }
    codes
}

#[test]
fn joined_lists_give_joined_codes() {
    let a = vec![1, 31, 44];
    let b = vec![38, 5, 9, 0];
    let mut ab = a.clone();
    ab.extend(b.iter());
    let mut expected = codes_of(&a);
    expected.extend(codes_of(&b));
    assert_eq!(codes_of(&ab), expected);
}

#[test]
fn rest_after_extended_color_is_its_own_list() {
    let argv = vec![48, 2, 1, 2, 3, 4, 24];
    let mut expected = vec![Code::Background(Color::Rgb { r: 1, g: 2, b: 3 })];
    expected.extend(codes_of(&vec![4, 24]));
    assert_eq!(codes_of(&argv), expected);
}
