//! Character attributes (SGR): colors, styles, and the codes that a list of
//! SGR parameters stands for.
use vstd::prelude::*;
use super::codes::Code;
use super::codes::CodeV;
use super::VtParser;

verus! {

/// A terminal color.
#[derive(Clone, Copy, Debug, PartialEq, Eq)]
pub enum Color {
    Default,
    Indexed(u32),
    Rgb { r: u32, g: u32, b: u32 },
}

/// Black: color 0 of the palette.
pub fn black() -> (c: Color)
    ensures
        c == Color::Indexed(0),
{
    Color::Indexed(0)
}

/// White: color 15 of the palette.
pub fn white() -> (c: Color)
    ensures
        c == Color::Indexed(15),
{
    Color::Indexed(15)
}

/// A character attribute that can be turned on or off.
#[derive(Clone, Copy, Debug, PartialEq, Eq)]
pub enum Style {
    Bold,
    Italic,
    Blink,
    Dim,
    Inverse,
    Underlined,
    Hidden,
}

/// An RGB component at index `k` of `argv`: present and below 256.
pub open spec fn rgb_component_ok(argv: Seq<u32>, k: int) -> bool {
    0 <= k < argv.len() && argv[k] < 256
}

/// The color that an extended color setting (38 or 48) at index `i` of `argv`
/// selects, with the number of parameters that the setting takes:
/// `38;2;r;g;b` (five parameters, each component below 256), `38;5;n` (three
/// parameters; a missing `n` reads as 0), anything else (one parameter, no color).
pub open spec fn spec_color256(argv: Seq<u32>, i: int) -> (Option<Color>, u32) {
    if i + 1 < argv.len() && argv[i + 1] == 2 {
        if rgb_component_ok(argv, i + 2) && rgb_component_ok(argv, i + 3) && rgb_component_ok(
            argv,
            i + 4,
        ) {
            (Some(Color::Rgb { r: argv[i + 2], g: argv[i + 3], b: argv[i + 4] }), 5)
        } else {
            (None, 5)
        }
    } else if i + 1 < argv.len() && argv[i + 1] == 5 {
        (Some(Color::Indexed(if i + 2 < argv.len() { argv[i + 2] } else { 0 })), 3)
    } else {
        (None, 1)
    }
}

/// The parameter at index `i`, or `default` where `argv` has none.
fn arg_or(argv: &Vec<u32>, i: usize, k: usize, default: u32) -> (r: u32)
    ensures
        r == (if i + k < argv@.len() { argv@[i + k] } else { default }),
{
    if k < argv.len() && i < argv.len() - k {
        argv[i + k]
    } else {
        default
    }
}

/// Whether the parameter at index `i + k` is present and below 256.
fn component_ok(argv: &Vec<u32>, i: usize, k: usize) -> (b: bool)
    ensures
        b == rgb_component_ok(argv@, i + k),
{
    k < argv.len() && i < argv.len() - k && argv[i + k] < 256
}

/// Reads an extended color setting (`38;...` or `48;...`) whose first
/// parameter stands at index `i` of `argv`; returns the color, if the setting
/// gives a valid one, and how many parameters it takes.
pub fn color256(argv: &Vec<u32>, i: usize) -> (r: (Option<Color>, u32))
    requires
        i < usize::MAX,
    ensures
        r == spec_color256(argv@, i as int),
{
    let kind = arg_or(argv, i, 1, 0);
    if kind == 2 {
        let ok2 = component_ok(argv, i, 2);
        let ok3 = component_ok(argv, i, 3);
        let ok4 = component_ok(argv, i, 4);
        if ok2 && ok3 && ok4 {
            assert(i + 4 < argv.len());
            let red = argv[i + 2];
            let green = argv[i + 3];
            let blue = argv[i + 4];
            (Some(Color::Rgb { r: red, g: green, b: blue }), 5)
        } else {
            (None, 5)
        }
    } else if kind == 5 {
        (Some(Color::Indexed(arg_or(argv, i, 2, 0))), 3)
    } else {
        (None, 1)
    }
}

/// The description of an extended color setting that gives no color.
pub open spec fn bogus_color_msg() -> Seq<char> {
    "Bogus color setting"@
}

/// The codes that a single SGR parameter `v` stands for, apart from the
/// extended color settings 38 and 48.
pub open spec fn sgr_codes(v: u32) -> Seq<CodeV> {
    if v == 0 {
        seq![Code::DefaultStyle]
    } else if v == 1 {
        seq![Code::StyleOption(Style::Bold, true)]
    } else if v == 2 {
        seq![Code::StyleOption(Style::Dim, true)]
    } else if v == 3 {
        seq![Code::StyleOption(Style::Italic, true)]
    } else if v == 4 {
        seq![Code::StyleOption(Style::Underlined, true)]
    } else if v == 5 {
        seq![Code::StyleOption(Style::Blink, true)]
    } else if v == 7 {
        seq![Code::StyleOption(Style::Inverse, true)]
    } else if v == 8 {
        seq![Code::StyleOption(Style::Hidden, true)]
    } else if v == 22 {
        seq![Code::StyleOption(Style::Bold, false), Code::StyleOption(Style::Dim, false)]
    } else if v == 23 {
        seq![Code::StyleOption(Style::Italic, false)]
    } else if v == 24 {
        seq![Code::StyleOption(Style::Underlined, false)]
    } else if v == 25 {
        seq![Code::StyleOption(Style::Inverse, false)]
    } else if v == 28 {
        seq![Code::StyleOption(Style::Hidden, false)]
    } else if 30 <= v <= 37 {
        seq![Code::Foreground(Color::Indexed((v - 30) as u32))]
    } else if v == 39 {
        seq![Code::Foreground(Color::Default)]
    } else if 40 <= v <= 47 {
        seq![Code::Background(Color::Indexed((v - 40) as u32))]
    } else if v == 49 {
        seq![Code::Background(Color::Default)]
    } else if 90 <= v <= 97 {
        seq![Code::Foreground(Color::Indexed((v - 82) as u32))]
    } else if 100 <= v <= 107 {
        seq![Code::Background(Color::Indexed((v - 92) as u32))]
    } else {
        seq![]
    }
}

/// The codes for the SGR parameter at index `i` of `argv`, with the number of
/// parameters it takes.
pub open spec fn sgr_step(argv: Seq<u32>, i: int) -> (Seq<CodeV>, nat) {
    let v = argv[i];
    if v == 38 || v == 48 {
        let (color, n) = spec_color256(argv, i);
        let codes = match color {
            Some(c) => if v == 38 {
                seq![Code::Foreground(c)]
            } else {
                seq![Code::Background(c)]
            },
            None => seq![Code::Error(bogus_color_msg())],
        };
        (codes, n as nat)
    } else {
        (sgr_codes(v), 1)
    }
}

/// The codes for the SGR parameters of `argv` from index `i` on.
pub open spec fn style_codes_from(argv: Seq<u32>, i: nat) -> Seq<CodeV>
    decreases argv.len() - i,
{
    if i < argv.len() {
        let (codes, n) = sgr_step(argv, i as int);
        if n > 0 && i + n < argv.len() {
            codes + style_codes_from(argv, i + n)
        } else {
            codes
        }
    } else {
        seq![]
    }
}

/// The codes for a whole list of SGR parameters.
pub open spec fn style_codes(argv: Seq<u32>) -> Seq<CodeV> {
    style_codes_from(argv, 0)
}

/// The codes of a list from index `i + j` on are those of the list that
/// starts at index `i`, from its index `j` on.
pub proof fn lemma_style_codes_shift(argv: Seq<u32>, i: nat, j: nat)
    requires
        i <= argv.len(),
    ensures
        style_codes_from(argv.skip(i as int), j) == style_codes_from(argv, i + j),
    decreases argv.len() - (i + j),
{
    let t = argv.skip(i as int);
    let ii = i as int;
    let jj = j as int;
    if jj < t.len() {
        assert(t[jj] == argv[ii + jj]);
        if jj + 1 < t.len() {
            assert(t[jj + 1] == argv[ii + jj + 1]);
        }
        if jj + 2 < t.len() {
            assert(t[jj + 2] == argv[ii + jj + 2]);
        }
        if jj + 3 < t.len() {
            assert(t[jj + 3] == argv[ii + jj + 3]);
        }
        if jj + 4 < t.len() {
            assert(t[jj + 4] == argv[ii + jj + 4]);
        }
        assert(sgr_step(t, j as int) == sgr_step(argv, (i + j) as int));
        let n = sgr_step(t, j as int).1;
        if n > 0 && j + n < t.len() {
            lemma_style_codes_shift(argv, i, j + n);
        }
    }
}

/// After an extended color setting (38 or 48) at the front of a list of SGR
/// parameters, the color code (or the error for a setting that gives no
/// color) comes first, and the rest of the list, from the parameter after the
/// setting on, is read as a list of its own.
pub proof fn law_style_after_extended_color(argv: Seq<u32>)
    requires
        argv.len() > 0,
        argv[0] == 38 || argv[0] == 48,
    ensures
        ({
            let (color, n) = spec_color256(argv, 0);
            let first: Seq<CodeV> = match color {
                Some(c) => if argv[0] == 38 {
                    seq![Code::Foreground(c)]
                } else {
                    seq![Code::Background(c)]
                },
                None => seq![Code::Error(bogus_color_msg())],
            };
            style_codes(argv) == first + if n < argv.len() {
                style_codes(argv.skip(n as int))
            } else {
                Seq::<CodeV>::empty()
            }
        }),
{
    let (color, n) = spec_color256(argv, 0);
    if n < argv.len() {
        lemma_style_codes_shift(argv, n as nat, 0);
    } else {
        let first = sgr_step(argv, 0).0;
        assert(style_codes(argv) == first);
        assert(first + Seq::<CodeV>::empty() == first);
    }
}

/// The codes of `a + b` from index `i` of `a` on, where `a` holds no
/// extended color setting.
proof fn lemma_style_codes_concat_from(a: Seq<u32>, b: Seq<u32>, i: nat)
    requires
        i <= a.len(),
        forall|k: int| 0 <= k < a.len() ==> #[trigger] a[k] != 38 && a[k] != 48,
    ensures
        style_codes_from(a + b, i) == style_codes_from(a, i) + style_codes(b),
    decreases a.len() - i,
{
    let ab = a + b;
    if i == a.len() {
        lemma_style_codes_shift(ab, i, 0);
        assert(ab.skip(i as int) =~= b);
        assert(style_codes_from(a, i) == Seq::<CodeV>::empty());
        assert(Seq::<CodeV>::empty() + style_codes(b) == style_codes(b));
    } else {
        assert(ab[i as int] == a[i as int]);
        assert(a[i as int] != 38 && a[i as int] != 48);
        let codes = sgr_codes(a[i as int]);
        assert(sgr_step(ab, i as int) == (codes, 1nat));
        assert(sgr_step(a, i as int) == (codes, 1nat));
        lemma_style_codes_concat_from(a, b, i + 1);
        if i + 1 < a.len() {
            assert(codes + (style_codes_from(a, i + 1) + style_codes(b)) == (codes
                + style_codes_from(a, i + 1)) + style_codes(b));
        } else {
            assert(style_codes_from(a, i + 1) == Seq::<CodeV>::empty());
            if i + 1 < ab.len() {
                assert(codes + (Seq::<CodeV>::empty() + style_codes(b)) == (codes
                    + Seq::<CodeV>::empty()) + style_codes(b));
            } else {
                assert(b.len() == 0);
                assert(style_codes(b) == Seq::<CodeV>::empty());
                assert(style_codes_from(ab, i) == codes);
                assert(codes + Seq::<CodeV>::empty() == codes);
                assert(style_codes_from(a, i) == codes);
            }
        }
    }
}

/// The codes of a joined list are those of its parts, where the first part
/// holds no extended color setting (38 or 48).
pub proof fn law_style_codes_concat(a: Seq<u32>, b: Seq<u32>)
    requires
        forall|k: int| 0 <= k < a.len() ==> #[trigger] a[k] != 38 && a[k] != 48,
    ensures
        style_codes(a + b) == style_codes(a) + style_codes(b),
{
    lemma_style_codes_concat_from(a, b, 0);
}

/// What a single SGR parameter `v` stands for: the attributes it turns on
/// or off, the standard, default and bright colors it selects, an error for
/// an extended color setting with nothing after it, and nothing for the
/// parameters without a meaning here.
pub proof fn law_sgr_single(v: u32)
    ensures
        v == 0 ==> style_codes(seq![v]) == seq![Code::<Seq<char>>::DefaultStyle],
        v == 1 ==> style_codes(seq![v]) == seq![Code::<Seq<char>>::StyleOption(Style::Bold, true)],
        v == 2 ==> style_codes(seq![v]) == seq![Code::<Seq<char>>::StyleOption(Style::Dim, true)],
        v == 3 ==> style_codes(seq![v]) == seq![
            Code::<Seq<char>>::StyleOption(Style::Italic, true),
        ],
        v == 4 ==> style_codes(seq![v]) == seq![
            Code::<Seq<char>>::StyleOption(Style::Underlined, true),
        ],
        v == 5 ==> style_codes(seq![v]) == seq![Code::<Seq<char>>::StyleOption(Style::Blink, true)],
        v == 7 ==> style_codes(seq![v]) == seq![
            Code::<Seq<char>>::StyleOption(Style::Inverse, true),
        ],
        v == 8 ==> style_codes(seq![v]) == seq![
            Code::<Seq<char>>::StyleOption(Style::Hidden, true),
        ],
        v == 22 ==> style_codes(seq![v]) == seq![
            Code::<Seq<char>>::StyleOption(Style::Bold, false),
            Code::<Seq<char>>::StyleOption(Style::Dim, false),
        ],
        v == 23 ==> style_codes(seq![v]) == seq![
            Code::<Seq<char>>::StyleOption(Style::Italic, false),
        ],
        v == 24 ==> style_codes(seq![v]) == seq![
            Code::<Seq<char>>::StyleOption(Style::Underlined, false),
        ],
        v == 25 ==> style_codes(seq![v]) == seq![
            Code::<Seq<char>>::StyleOption(Style::Inverse, false),
        ],
        v == 28 ==> style_codes(seq![v]) == seq![
            Code::<Seq<char>>::StyleOption(Style::Hidden, false),
        ],
        30 <= v <= 37 ==> style_codes(seq![v]) == seq![
            Code::<Seq<char>>::Foreground(Color::Indexed((v - 30) as u32)),
        ],
        v == 39 ==> style_codes(seq![v]) == seq![Code::<Seq<char>>::Foreground(Color::Default)],
        40 <= v <= 47 ==> style_codes(seq![v]) == seq![
            Code::<Seq<char>>::Background(Color::Indexed((v - 40) as u32)),
        ],
        v == 49 ==> style_codes(seq![v]) == seq![Code::<Seq<char>>::Background(Color::Default)],
        90 <= v <= 97 ==> style_codes(seq![v]) == seq![
            Code::<Seq<char>>::Foreground(Color::Indexed((v - 82) as u32)),
        ],
        100 <= v <= 107 ==> style_codes(seq![v]) == seq![
            Code::<Seq<char>>::Background(Color::Indexed((v - 92) as u32)),
        ],
        v == 38 || v == 48 ==> style_codes(seq![v]) == seq![
            Code::<Seq<char>>::Error("Bogus color setting"@),
        ],
        v == 6 || 9 <= v <= 21 || v == 26 || v == 27 || v == 29 || 50 <= v <= 89 || v == 98 || v
            == 99 || v >= 108 ==> style_codes(seq![v]) == Seq::<CodeV>::empty(),
        style_codes(seq![v]).len() <= 2,
{
    let argv = seq![v];
    assert(argv[0] == v);
    let (codes, n) = sgr_step(argv, 0);
    assert(style_codes(argv) == codes);
}

/// The extended color settings `38` (foreground) and `48` (background):
/// `k;2;r;g;b` is the RGB color when each component is below 256 and an
/// error otherwise, and `k;5;n` is color `n` of the palette.
pub proof fn law_sgr_extended(k: u32, r: u32, g: u32, b: u32)
    requires
        k == 38 || k == 48,
    ensures
        r < 256 && g < 256 && b < 256 ==> spec_color256(seq![k, 2, r, g, b], 0) == (
        Some(Color::Rgb { r, g, b }), 5u32),
        r < 256 && g < 256 && b < 256 ==> style_codes(seq![k, 2, r, g, b]) == seq![
            if k == 38 {
                Code::<Seq<char>>::Foreground(Color::Rgb { r, g, b })
            } else {
                Code::<Seq<char>>::Background(Color::Rgb { r, g, b })
            },
        ],
        !(r < 256 && g < 256 && b < 256) ==> spec_color256(seq![k, 2, r, g, b], 0) == (
        None::<Color>, 5u32),
        !(r < 256 && g < 256 && b < 256) ==> style_codes(seq![k, 2, r, g, b]) == seq![
            Code::<Seq<char>>::Error("Bogus color setting"@),
        ],
        spec_color256(seq![k, 5, r], 0) == (Some(Color::Indexed(r)), 3u32),
        style_codes(seq![k, 5, r]) == seq![
            if k == 38 {
                Code::<Seq<char>>::Foreground(Color::Indexed(r))
            } else {
                Code::<Seq<char>>::Background(Color::Indexed(r))
            },
        ],
{
    let rgb = seq![k, 2, r, g, b];
    assert(rgb[0] == k && rgb[1] == 2 && rgb[2] == r && rgb[3] == g && rgb[4] == b);
    let (c1, n1) = sgr_step(rgb, 0);
    assert(style_codes(rgb) == c1);
    let idx = seq![k, 5, r];
    assert(idx[0] == k && idx[1] == 5 && idx[2] == r);
    let (c2, n2) = sgr_step(idx, 0);
    assert(style_codes(idx) == c2);
}

/// Emits the codes that the SGR parameters `argv` stand for.
pub fn emit_style_codes(emu: &mut VtParser, argv: &Vec<u32>)
    requires
        old(emu).wf(),
    ensures
        final(emu).wf(),
        final(emu).queue() == old(emu).queue() + style_codes(argv@),
        final(emu).input() == old(emu).input(),
        final(emu).position() == old(emu).position(),
        final(emu).state() == old(emu).state(),
{
    let mut i: usize = 0;
    while i < argv.len()
        invariant
            emu.wf(),
            emu.input() == old(emu).input(),
            emu.position() == old(emu).position(),
            emu.state() == old(emu).state(),
            i <= argv@.len(),
            old(emu).queue() + style_codes(argv@) == emu.queue() + style_codes_from(argv@, i as nat),
        decreases argv@.len() - i,
    {
        let ghost before = emu.queue();
        let v = argv[i];
        let mut step: usize = 1;
        if v == 38 || v == 48 {
            let (color, n) = color256(argv, i);
            step = n as usize;
            match color {
                Some(c) => {
                    if v == 38 {
                        emu.emit(Code::Foreground(c));
                    } else {
                        emu.emit(Code::Background(c));
                    }
                },
                None => {
                    emu.error_msg(String::from_str("Bogus color setting"));
                },
            }
        } else {
            match v {
                0 => emu.emit(Code::DefaultStyle),
                1 => emu.emit(Code::StyleOption(Style::Bold, true)),
                2 => emu.emit(Code::StyleOption(Style::Dim, true)),
                3 => emu.emit(Code::StyleOption(Style::Italic, true)),
                4 => emu.emit(Code::StyleOption(Style::Underlined, true)),
                5 => emu.emit(Code::StyleOption(Style::Blink, true)),
                7 => emu.emit(Code::StyleOption(Style::Inverse, true)),
                8 => emu.emit(Code::StyleOption(Style::Hidden, true)),
                22 => {
                    emu.emit(Code::StyleOption(Style::Bold, false));
                    emu.emit(Code::StyleOption(Style::Dim, false));
                },
                23 => emu.emit(Code::StyleOption(Style::Italic, false)),
                24 => emu.emit(Code::StyleOption(Style::Underlined, false)),
                25 => emu.emit(Code::StyleOption(Style::Inverse, false)),
                28 => emu.emit(Code::StyleOption(Style::Hidden, false)),
                30..=37 => emu.emit(Code::Foreground(Color::Indexed(v - 30))),
                39 => emu.emit(Code::Foreground(Color::Default)),
                40..=47 => emu.emit(Code::Background(Color::Indexed(v - 40))),
                49 => emu.emit(Code::Background(Color::Default)),
                90..=97 => emu.emit(Code::Foreground(Color::Indexed(v - 82))),
                100..=107 => emu.emit(Code::Background(Color::Indexed(v - 92))),
                _ => {},
            }
        }
        let ghost (codes, n) = sgr_step(argv@, i as int);
        assert(emu.queue() == before + codes);
        assert(step == n);
        if step >= argv.len() - i {
            assert(style_codes_from(argv@, i as nat) == codes);
            i = argv.len();
            assert(style_codes_from(argv@, i as nat) == Seq::<CodeV>::empty());
            assert(codes + Seq::<CodeV>::empty() == codes);
        } else {
            assert(style_codes_from(argv@, i as nat) == codes + style_codes_from(argv@, (i + step) as nat));
            i = i + step;
        }
        assert(before + (codes + style_codes_from(argv@, i as nat)) == emu.queue() + style_codes_from(argv@, i as nat));
    }
}

} // verus!
