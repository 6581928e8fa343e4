//! The states of the parser and what each does with the input that follows:
//! the codes it emits, how much input it reads and which state comes next.
use vstd::prelude::*;
use crate::ascii;
use crate::text::text_run_len;
use crate::text::decimal;
use crate::text::spec_parse_u32;
use super::codes::Code;
use super::codes::CodeV;
use super::style::style_codes;
use super::style::emit_style_codes;
use super::State;
use crate::text::push_decimal;
use crate::text::parse_u32;
use crate::text::string_from_chars;
use super::VtParser;

verus! {

/// Plain text and single control characters.
#[derive(Clone, Copy, Debug, PartialEq, Eq)]
pub struct Ground;

/// After an ESC.
#[derive(Clone, Copy, Debug, PartialEq, Eq)]
pub struct EscapeSeq;

/// After ESC `[`: a control sequence (CSI).
#[derive(Clone, Copy, Debug, PartialEq, Eq)]
pub struct ControlSequence;

/// After ESC `]`: an operating system command (OSC).
#[derive(Clone, Copy, Debug, PartialEq, Eq)]
pub struct SystemCommandSequence;

/// After ESC and the first character of a two-character sequence.
#[derive(Clone, Copy, Debug, PartialEq, Eq)]
pub struct TwoCharSequence {
    pub first: char,
}

/// The state the parser is in.
#[derive(Clone, Copy, Debug, PartialEq, Eq)]
pub enum ParserState {
    Ground(Ground),
    EscapeSeq(EscapeSeq),
    ControlSequence(ControlSequence),
    SystemCommandSequence(SystemCommandSequence),
    TwoCharSequence(TwoCharSequence),
}

/// What one state does: the codes it emits, the state that follows (`None`
/// at the end of the input) and the read position after it.
pub struct Step {
    pub codes: Seq<CodeV>,
    pub next: Option<ParserState>,
    pub pos: nat,
}

/// The code that a single control character stands for in the ground state.
pub open spec fn ground_control(x: char) -> Option<CodeV> {
    if x == ascii::BEL {
        Some(Code::Bell)
    } else if x == ascii::BS {
        Some(Code::Backspace)
    } else if x == ascii::CR {
        Some(Code::CarriageReturn)
    } else if x == ascii::ENQ {
        Some(Code::ReturnTerminalStatus)
    } else if x == ascii::FF || x == ascii::LF || x == ascii::VT {
        Some(Code::NewLine)
    } else if x == ascii::SI {
        Some(Code::MapCharsetToGL(0))
    } else if x == ascii::SO {
        Some(Code::MapCharsetToGL(1))
    } else if x == ascii::HT {
        Some(Code::HorizontalTab)
    } else {
        None
    }
}

/// The ground state at `pos`: a control character gives its code, ESC starts
/// an escape sequence, and any other character starts a run of plain text that
/// goes on while the characters are text characters.
pub open spec fn ground_step(input: Seq<char>, pos: nat) -> Step {
    if pos >= input.len() {
        Step { codes: seq![], next: None, pos }
    } else {
        let x = input[pos as int];
        if x == ascii::ESC {
            Step { codes: seq![], next: Some(ParserState::EscapeSeq(EscapeSeq)), pos: pos + 1 }
        } else if let Some(c) = ground_control(x) {
            Step { codes: seq![c], next: Some(ParserState::Ground(Ground)), pos: pos + 1 }
        } else {
            let n = text_run_len(input.skip(pos + 1 as int));
            Step {
                codes: seq![Code::Chars(input.subrange(pos as int, (pos + 1 + n) as int))],
                next: Some(ParserState::Ground(Ground)),
                pos: pos + 1 + n,
            }
        }
    }
}

/// The code that ESC followed by `x` stands for, where `x` does not start a
/// longer sequence; unknown characters give none.
pub open spec fn escape_codes(x: char) -> Seq<CodeV> {
    if x == 'D' {
        seq![Code::Index]
    } else if x == 'E' {
        seq![Code::NextLine]
    } else if x == 'H' {
        seq![Code::HorizontalTabSet]
    } else if x == 'M' {
        seq![Code::ReverseIndex]
    } else if x == 'N' {
        seq![Code::SingleShiftSelect(2)]
    } else if x == 'O' {
        seq![Code::SingleShiftSelect(3)]
    } else if x == '6' {
        seq![Code::BackIndex]
    } else if x == '7' {
        seq![Code::SaveCursor]
    } else if x == '8' {
        seq![Code::RestoreCursor]
    } else if x == '9' {
        seq![Code::ForwardIndex]
    } else if x == '=' {
        seq![Code::ApplicationKeypad]
    } else if x == '>' {
        seq![Code::NormalKeypad]
    } else if x == 'F' {
        seq![Code::CursorToLowerLeft]
    } else if x == 'c' {
        seq![Code::FullReset]
    } else if x == 'n' {
        seq![Code::MapCharsetToGL(2)]
    } else if x == 'o' {
        seq![Code::MapCharsetToGL(3)]
    } else if x == '|' {
        seq![Code::MapCharsetToGR(3)]
    } else if x == '}' {
        seq![Code::MapCharsetToGR(2)]
    } else if x == '~' {
        seq![Code::MapCharsetToGL(1)]
    } else {
        seq![]
    }
}

/// Characters that, after ESC, start a two-character sequence.
pub open spec fn is_two_char_intro(x: char) -> bool {
    x == '#' || x == '(' || x == ')' || x == '*' || x == '+' || x == '$' || x == '@' || x == '%'
        || x == '-' || x == '.' || x == '/' || x == ' '
}

/// The escape state at `pos`.
pub open spec fn escape_step(input: Seq<char>, pos: nat) -> Step {
    if pos >= input.len() {
        Step { codes: seq![], next: None, pos }
    } else {
        let x = input[pos as int];
        if x == '[' {
            Step {
                codes: seq![],
                next: Some(ParserState::ControlSequence(ControlSequence)),
                pos: pos + 1,
            }
        } else if x == ']' {
            Step {
                codes: seq![],
                next: Some(ParserState::SystemCommandSequence(SystemCommandSequence)),
                pos: pos + 1,
            }
        } else if is_two_char_intro(x) {
            Step {
                codes: seq![],
                next: Some(ParserState::TwoCharSequence(TwoCharSequence { first: x })),
                pos: pos + 1,
            }
        } else {
            Step { codes: escape_codes(x), next: Some(ParserState::Ground(Ground)), pos: pos + 1 }
        }
    }
}

/// What ESC `a` `b` stands for.
pub open spec fn two_char_codes(a: char, b: char) -> CodeV {
    if a == ' ' {
        if b == 'F' {
            Code::Charset7Bit
        } else if b == 'G' {
            Code::Charset8Bit
        } else if b == 'L' {
            Code::AnsiConformanceLevel(1)
        } else if b == 'M' {
            Code::AnsiConformanceLevel(2)
        } else if b == 'N' {
            Code::AnsiConformanceLevel(3)
        } else {
            Code::Error(seq![a, b])
        }
    } else if a == '#' {
        if b == '8' {
            Code::FillScreenE
        } else {
            Code::Error(seq![a, b])
        }
    } else if a == '%' {
        if b == '@' {
            Code::SelectDefaultCharset
        } else if b == 'G' {
            Code::SelectUtf8Charset
        } else {
            Code::Error(seq![a, b])
        }
    } else if a == '(' {
        Code::DesignateCharset(0, b)
    } else if a == ')' || a == '-' {
        Code::DesignateCharset(1, b)
    } else if a == '*' || a == '.' {
        Code::DesignateCharset(2, b)
    } else if a == '+' || a == '/' {
        Code::DesignateCharset(3, b)
    } else {
        Code::Error(seq![a, b])
    }
}

/// The two-character state with first character `a` at `pos`: the input ending
/// there is an error too.
pub open spec fn two_char_step(a: char, input: Seq<char>, pos: nat) -> Step {
    if pos >= input.len() {
        Step { codes: seq![Code::Error(seq![a])], next: Some(ParserState::Ground(Ground)), pos }
    } else {
        Step {
            codes: seq![two_char_codes(a, input[pos as int])],
            next: Some(ParserState::Ground(Ground)),
            pos: pos + 1,
        }
    }
}

/// What a control sequence has gathered after some of its characters.
pub struct CsiScan {
    /// Characters read.
    pub count: nat,
    /// The first character was `?`.
    pub question_mark: bool,
    /// The first character was `>`.
    pub more_mark: bool,
    /// The last character in `@`..`~` read (NUL if none).
    pub final_char: char,
    /// The parameters ended by `;`.
    pub argv: Seq<u32>,
    /// The parameter being read.
    pub cur: int,
    /// A digit was read since the last `;` that ended a parameter.
    pub digit: bool,
    /// No counter left its 32-bit range.
    pub fits: bool,
}

/// A control sequence before any character.
pub open spec fn csi_start() -> CsiScan {
    CsiScan {
        count: 0,
        question_mark: false,
        more_mark: false,
        final_char: '\0',
        argv: seq![],
        cur: 0,
        digit: false,
        fits: true,
    }
}

/// A control sequence after one more character `x`.
pub open spec fn csi_feed(s: CsiScan, x: char) -> CsiScan {
    let pos = s.count;
    let s1 = CsiScan { count: s.count + 1, fits: s.fits && pos <= i32::MAX, ..s };
    if x == '?' {
        CsiScan { question_mark: s1.question_mark || pos == 0, ..s1 }
    } else if x == '>' {
        CsiScan { more_mark: s1.more_mark || pos == 0, ..s1 }
    } else if x == ';' {
        if s1.digit {
            CsiScan { argv: s1.argv.push(s1.cur as u32), cur: 0, digit: false, ..s1 }
        } else {
            s1
        }
    } else if '0' <= x <= '9' {
        let v = 10 * s1.cur + (x as u32);
        CsiScan { cur: v - ('0' as u32), digit: true, fits: s1.fits && v <= u32::MAX, ..s1 }
    } else if '\x40' <= x <= '\x7E' {
        CsiScan { final_char: x, ..s1 }
    } else {
        s1
    }
}

/// A control sequence after the characters of `body`.
pub open spec fn csi_scan(body: Seq<char>) -> CsiScan
    decreases body.len(),
{
    if body.len() == 0 {
        csi_start()
    } else {
        csi_feed(csi_scan(body.drop_last()), body.last())
    }
}

/// Parameter `i`, or `default` where there is none.
pub open spec fn csi_arg(argv: Seq<u32>, i: int, default: u32) -> u32 {
    if 0 <= i < argv.len() {
        argv[i]
    } else {
        default
    }
}

/// Parameter `i`, or `default` where there is none or it is 0.
pub open spec fn csi_arg1(argv: Seq<u32>, i: int, default: u32) -> u32 {
    if 0 <= i < argv.len() && argv[i] != 0 {
        argv[i]
    } else {
        default
    }
}

/// The description of an unknown window manipulation command `e`.
pub open spec fn window_error_msg(e: u32) -> Seq<char> {
    "Unkown window manipulation command "@ + decimal(e as nat)
}

/// The description of an unknown final character `c`.
pub open spec fn csi_error_msg(c: char) -> Seq<char> {
    "Unknown CSI code "@.push(c)
}

/// The codes that a control sequence with final character `f`, marks `q`
/// (`?`) and `m` (`>`) and parameters `argv` stands for.
pub open spec fn csi_codes(f: char, q: bool, m: bool, argv: Seq<u32>) -> Seq<CodeV> {
    if f == '@' {
        seq![Code::InsertBlankCharacters(csi_arg(argv, 0, 1))]
    } else if f == 'A' {
        seq![Code::CursorUp(csi_arg1(argv, 0, 1))]
    } else if f == 'B' {
        seq![Code::CursorDown(csi_arg1(argv, 0, 1))]
    } else if f == 'C' {
        seq![Code::CursorForward(csi_arg1(argv, 0, 1))]
    } else if f == 'D' {
        seq![Code::CursorBackward(csi_arg1(argv, 0, 1))]
    } else if f == 'E' {
        seq![Code::CursorNextLine(csi_arg1(argv, 0, 1))]
    } else if f == 'F' {
        seq![Code::CursorPrecedingLine(csi_arg1(argv, 0, 1))]
    } else if f == 'G' || f == '`' {
        seq![Code::CursorHorizontalAbsolute(csi_arg(argv, 0, 1))]
    } else if f == 'f' || f == 'H' {
        seq![Code::CursorPosition { x: csi_arg(argv, 0, 1), y: csi_arg(argv, 1, 1) }]
    } else if f == 'J' {
        if q {
            seq![Code::SelectiveEraseInDisplay(csi_arg(argv, 0, 1))]
        } else {
            seq![Code::EraseInDisplay(csi_arg(argv, 0, 1))]
        }
    } else if f == 'K' {
        if q {
            seq![Code::SelectiveEraseInLine(csi_arg(argv, 0, 1))]
        } else {
            seq![Code::EraseInLine(csi_arg(argv, 0, 1))]
        }
    } else if f == 'L' {
        seq![Code::InsertLines(csi_arg(argv, 0, 1))]
    } else if f == 'M' {
        seq![Code::DeleteLines(csi_arg(argv, 0, 1))]
    } else if f == 'X' {
        seq![Code::EraseCharacters(csi_arg(argv, 0, 1))]
    } else if f == 'P' {
        seq![Code::DeleteCharacters(csi_arg(argv, 0, 1))]
    } else if f == 'S' {
        seq![Code::ScrollUp(csi_arg(argv, 0, 1))]
    } else if f == 'T' {
        seq![Code::ScrollDown(csi_arg(argv, 0, 1))]
    } else if f == 'c' {
        if m && csi_arg(argv, 0, 1) == 0 {
            seq![Code::SendSecondaryDeviceAttributes]
        } else {
            seq![Code::SendPrimaryDeviceAttributes]
        }
    } else if f == 'd' {
        seq![Code::LinePositionAbsolute(csi_arg(argv, 0, 1))]
    } else if f == 'g' {
        seq![Code::TabClear(csi_arg(argv, 0, 1))]
    } else if f == 'h' || f == 'l' {
        seq![Code::SetMode(csi_arg(argv, 0, 1))]
    } else if f == 'm' {
        style_codes(argv)
    } else if f == 'n' {
        if q {
            seq![Code::DecDeviceStatusReport]
        } else {
            seq![Code::DeviceStatusReport(csi_arg(argv, 0, 1))]
        }
    } else if f == 'r' {
        if q {
            seq![Code::RestoreDecPrivateMode]
        } else {
            seq![Code::SetScrollingRegion { top: csi_arg(argv, 0, 1), bottom: csi_arg(argv, 1, 0) }]
        }
    } else if f == 't' {
        if csi_arg(argv, 0, 0) == 8 {
            seq![Code::Resize { width: csi_arg(argv, 1, 0), height: csi_arg(argv, 2, 0) }]
        } else {
            seq![Code::Error(window_error_msg(csi_arg(argv, 0, 0)))]
        }
    } else {
        seq![Code::Error(csi_error_msg(f))]
    }
}

/// The input from `pos` to its end.
pub open spec fn rest_of(input: Seq<char>, pos: nat) -> Seq<char> {
    if pos < input.len() {
        input.subrange(pos as int, input.len() as int)
    } else {
        seq![]
    }
}

/// The control-sequence state at `pos`: it reads the whole rest of the input
/// and then acts on what it gathered.
pub open spec fn csi_step(input: Seq<char>, pos: nat) -> Step {
    let s = csi_scan(rest_of(input, pos));
    Step {
        codes: csi_codes(s.final_char, s.question_mark, s.more_mark, s.argv),
        next: Some(ParserState::Ground(Ground)),
        pos: if pos < input.len() { input.len() } else { pos },
    }
}

/// Characters that end an operating system command.
pub open spec fn is_osc_end(c: char) -> bool {
    c == ascii::ST || c == ascii::BEL
}

/// Index of the first character at or after `i` that ends an operating
/// system command, or the end of the input.
pub open spec fn osc_end(input: Seq<char>, i: nat) -> nat
    decreases input.len() - i,
{
    if i >= input.len() {
        i
    } else if is_osc_end(input[i as int]) {
        i
    } else {
        osc_end(input, i + 1)
    }
}

/// The fields of `s` separated by `;` (always at least one, possibly empty).
pub open spec fn split_fields(s: Seq<char>) -> Seq<Seq<char>>
    decreases s.len(),
{
    if s.len() == 0 {
        seq![seq![]]
    } else {
        let prev = split_fields(s.drop_last());
        if s.last() == ';' {
            prev.push(seq![])
        } else {
            prev.update(prev.len() - 1, prev.last().push(s.last()))
        }
    }
}

/// Description of a command whose number is not known.
pub open spec fn unrecognized_command_msg() -> Seq<char> {
    "Unrecognized system command "@
}

/// Description of a command whose number cannot be read.
pub open spec fn bad_command_msg() -> Seq<char> {
    "Cant parse system command"@
}

/// The codes that an operating system command with fields `argv` stands for:
/// with at least two fields, the first is the command's number (0 and 2 set the
/// window title, 7 the current path) and the second its text.
pub open spec fn osc_codes(argv: Seq<Seq<char>>) -> Seq<CodeV> {
    if argv.len() > 1 {
        match spec_parse_u32(argv[0]) {
            Some(v) => if v == 0 || v == 2 {
                seq![Code::WindowTitle(argv[1])]
            } else if v == 7 {
                seq![Code::CurrentPath(argv[1])]
            } else {
                seq![Code::Error(unrecognized_command_msg())]
            },
            None => seq![Code::Error(bad_command_msg())],
        }
    } else {
        seq![]
    }
}

/// The operating-system-command state at `pos`: it reads up to and including
/// the first ST or BEL, or to the end of the input.
pub open spec fn osc_step(input: Seq<char>, pos: nat) -> Step {
    let end = osc_end(input, pos);
    Step {
        codes: osc_codes(split_fields(input.subrange(pos as int, end as int))),
        next: Some(ParserState::Ground(Ground)),
        pos: if end < input.len() { end + 1 } else { end },
    }
}

/// What state `st` does with `input` at `pos`.
pub open spec fn step(st: ParserState, input: Seq<char>, pos: nat) -> Step {
    match st {
        ParserState::Ground(_) => ground_step(input, pos),
        ParserState::EscapeSeq(_) => escape_step(input, pos),
        ParserState::ControlSequence(_) => csi_step(input, pos),
        ParserState::SystemCommandSequence(_) => osc_step(input, pos),
        ParserState::TwoCharSequence(t) => two_char_step(t.first, input, pos),
    }
}

/// State `st` at `pos` does not overflow a counter (which the parser does
/// only in a control sequence, on a number or a length beyond 32 bits).
pub open spec fn step_safe(st: ParserState, input: Seq<char>, pos: nat) -> bool {
    match st {
        ParserState::ControlSequence(_) => csi_scan(rest_of(input, pos)).fits,
        _ => true,
    }
}

/// Ground is the only state that may stay for good at the end of the input.
pub open spec fn rank(st: ParserState) -> nat {
    match st {
        ParserState::Ground(_) => 0,
        _ => 1,
    }
}

/// What is left to do: twice the unread input, plus one outside the ground state.
pub open spec fn measure(st: ParserState, input: Seq<char>, pos: nat) -> nat {
    (if pos < input.len() { 2 * (input.len() - pos) } else { 0 }) as nat + rank(st)
}

/// The end of an operating system command lies at or after its start.
pub proof fn lemma_osc_end_bounds(input: Seq<char>, i: nat)
    ensures
        osc_end(input, i) >= i,
        i <= input.len() ==> osc_end(input, i) <= input.len(),
        osc_end(input, i) < input.len() ==> is_osc_end(input[osc_end(input, i) as int]),
        forall|k: int| i <= k < osc_end(input, i) ==> !is_osc_end(#[trigger] input[k]),
    decreases input.len() - i,
{
    if i < input.len() && !is_osc_end(input[i as int]) {
        lemma_osc_end_bounds(input, i + 1);
    }
}

/// Each step reads forward, and a state that goes on leaves less to do.
pub proof fn lemma_step_progress(st: ParserState, input: Seq<char>, pos: nat)
    ensures
        step(st, input, pos).pos >= pos,
        pos <= input.len() ==> step(st, input, pos).pos <= input.len(),
        step(st, input, pos).next matches Some(n) ==> measure(n, input, step(st, input, pos).pos)
            < measure(st, input, pos),
{
    lemma_osc_end_bounds(input, pos);
    if let ParserState::Ground(_) = st {
        if pos < input.len() {
            crate::text::lemma_text_run_bounds(input.skip(pos + 1 as int));
        }
    }
}

/// Only the ground and escape states end the run, at the end of the input and
/// without emitting anything; the run from there is empty.
pub proof fn lemma_step_end(st: ParserState, input: Seq<char>, pos: nat)
    requires
        step(st, input, pos).next is None,
    ensures
        step(st, input, pos).codes.len() == 0,
        step(st, input, pos).pos == pos,
        pos >= input.len(),
        run(st, input, pos).len() == 0,
{
}

/// The codes that state `st` and the states after it emit for `input` from `pos`.
pub open spec fn run(st: ParserState, input: Seq<char>, pos: nat) -> Seq<CodeV>
    decreases measure(st, input, pos),
    via run_decreases
{
    let s = step(st, input, pos);
    match s.next {
        Some(n) => s.codes + run(n, input, s.pos),
        None => s.codes,
    }
}

#[via_fn]
proof fn run_decreases(st: ParserState, input: Seq<char>, pos: nat) {
    lemma_step_progress(st, input, pos);
}

/// No step of the run from `st` at `pos` overflows a counter.
pub open spec fn run_safe(st: ParserState, input: Seq<char>, pos: nat) -> bool
    decreases measure(st, input, pos),
    via run_safe_decreases
{
    let s = step(st, input, pos);
    step_safe(st, input, pos) && match s.next {
        Some(n) => run_safe(n, input, s.pos),
        None => true,
    }
}

#[via_fn]
proof fn run_safe_decreases(st: ParserState, input: Seq<char>, pos: nat) {
    lemma_step_progress(st, input, pos);
}

/// No step overflows a counter from state `st` at `pos` up to the first step
/// that emits a code, or to the end of the input: the steps that one call of
/// `VtParser::next` on an empty queue runs.
pub open spec fn safe_until_output(st: ParserState, input: Seq<char>, pos: nat) -> bool
    decreases measure(st, input, pos),
    via safe_until_output_decreases
{
    let s = step(st, input, pos);
    step_safe(st, input, pos) && match s.next {
        Some(n) => s.codes.len() == 0 ==> safe_until_output(n, input, s.pos),
        None => true,
    }
}

#[via_fn]
proof fn safe_until_output_decreases(st: ParserState, input: Seq<char>, pos: nat) {
    lemma_step_progress(st, input, pos);
}

/// A run that overflows nothing overflows nothing up to its first code.
pub proof fn lemma_run_safe_until_output(st: ParserState, input: Seq<char>, pos: nat)
    requires
        run_safe(st, input, pos),
    ensures
        safe_until_output(st, input, pos),
    decreases measure(st, input, pos),
{
    lemma_step_progress(st, input, pos);
    let s = step(st, input, pos);
    if let Some(n) = s.next {
        lemma_run_safe_until_output(n, input, s.pos);
    }
}

/// The codes for a whole input, read from the ground state.
pub open spec fn parse(input: Seq<char>) -> Seq<CodeV> {
    run(ParserState::Ground(Ground), input, 0)
}

/// Input on which the parser overflows no counter.
pub open spec fn parse_safe(input: Seq<char>) -> bool {
    run_safe(ParserState::Ground(Ground), input, 0)
}

impl State for Ground {
    open spec fn spec_state(&self) -> ParserState {
        ParserState::Ground(*self)
    }

    fn next(&self, emu: &mut VtParser) -> (r: Option<ParserState>) {
        let ghost input = emu.input();
        let ghost pos = emu.position();
        let ch = emu.next_char();
        match ch {
            Some(x) => {
                if x == ascii::BEL {
                    emu.emit(Code::Bell);
                } else if x == ascii::BS {
                    emu.emit(Code::Backspace);
                } else if x == ascii::CR {
                    emu.emit(Code::CarriageReturn);
                } else if x == ascii::ENQ {
                    emu.emit(Code::ReturnTerminalStatus);
                } else if x == ascii::FF || x == ascii::LF || x == ascii::VT {
                    emu.emit(Code::NewLine);
                } else if x == ascii::SI {
                    emu.emit(Code::MapCharsetToGL(0));
                } else if x == ascii::SO {
                    emu.emit(Code::MapCharsetToGL(1));
                } else if x == ascii::HT {
                    emu.emit(Code::HorizontalTab);
                } else if x == ascii::ESC {
                    return Some(ParserState::EscapeSeq(EscapeSeq));
                } else {
                    let chars = emu.take_text();
                    let mut s = String::new();
                    s.push(x);
                    s.append(chars.as_str());
                    assert(s@ =~= input.subrange(pos as int, emu.position() as int));
                    emu.emit(Code::Chars(s));
                }
            },
            None => {
                return None;
            },
        }
        Some(ParserState::Ground(Ground))
    }
}

impl State for EscapeSeq {
    open spec fn spec_state(&self) -> ParserState {
        ParserState::EscapeSeq(*self)
    }

    fn next(&self, emu: &mut VtParser) -> (r: Option<ParserState>) {
        let ch = emu.next_char();
        match ch {
            Some(x) => {
                if x == '[' {
                    return Some(ParserState::ControlSequence(ControlSequence));
                } else if x == ']' {
                    return Some(ParserState::SystemCommandSequence(SystemCommandSequence));
                } else if x == '#' || x == '(' || x == ')' || x == '*' || x == '+' || x == '$' || x
                    == '@' || x == '%' || x == '-' || x == '.' || x == '/' || x == ' ' {
                    return Some(ParserState::TwoCharSequence(TwoCharSequence { first: x }));
                }
                match x {
                    'D' => emu.emit(Code::Index),
                    'E' => emu.emit(Code::NextLine),
                    'H' => emu.emit(Code::HorizontalTabSet),
                    'M' => emu.emit(Code::ReverseIndex),
                    'N' => emu.emit(Code::SingleShiftSelect(2)),
                    'O' => emu.emit(Code::SingleShiftSelect(3)),
                    '6' => emu.emit(Code::BackIndex),
                    '7' => emu.emit(Code::SaveCursor),
                    '8' => emu.emit(Code::RestoreCursor),
                    '9' => emu.emit(Code::ForwardIndex),
                    '=' => emu.emit(Code::ApplicationKeypad),
                    '>' => emu.emit(Code::NormalKeypad),
                    'F' => emu.emit(Code::CursorToLowerLeft),
                    'c' => emu.emit(Code::FullReset),
                    'n' => emu.emit(Code::MapCharsetToGL(2)),
                    'o' => emu.emit(Code::MapCharsetToGL(3)),
                    '|' => emu.emit(Code::MapCharsetToGR(3)),
                    '}' => emu.emit(Code::MapCharsetToGR(2)),
                    '~' => emu.emit(Code::MapCharsetToGL(1)),
                    _ => {},
                }
            },
            None => {
                return None;
            },
        }
        Some(ParserState::Ground(Ground))
    }
}

/// Emits the error for the sequence `a` `b`.
fn error_pair(emu: &mut VtParser, a: char, b: char)
    requires
        old(emu).wf(),
    ensures
        final(emu).wf(),
        final(emu).queue() == old(emu).queue().push(Code::Error(seq![a, b])),
        final(emu).input() == old(emu).input(),
        final(emu).position() == old(emu).position(),
        final(emu).state() == old(emu).state(),
{
    let pair = [a, b];
    assert(pair@ =~= seq![a, b]);
    emu.error(&pair);
}

impl State for TwoCharSequence {
    open spec fn spec_state(&self) -> ParserState {
        ParserState::TwoCharSequence(*self)
    }

    fn next(&self, emu: &mut VtParser) -> (r: Option<ParserState>) {
        let ch = emu.next_char();
        let a = self.first;
        match ch {
            Some(b) => {
                if a == ' ' {
                    match b {
                        'F' => emu.emit(Code::Charset7Bit),
                        'G' => emu.emit(Code::Charset8Bit),
                        'L' => emu.emit(Code::AnsiConformanceLevel(1)),
                        'M' => emu.emit(Code::AnsiConformanceLevel(2)),
                        'N' => emu.emit(Code::AnsiConformanceLevel(3)),
                        _ => error_pair(emu, a, b),
                    }
                } else if a == '#' {
                    match b {
                        '8' => emu.emit(Code::FillScreenE),
                        _ => error_pair(emu, a, b),
                    }
                } else if a == '%' {
                    match b {
                        '@' => emu.emit(Code::SelectDefaultCharset),
                        'G' => emu.emit(Code::SelectUtf8Charset),
                        _ => error_pair(emu, a, b),
                    }
                } else if a == '(' {
                    // Designate G0 character set (VT100)
                    emu.emit(Code::DesignateCharset(0, b));
                } else if a == ')' || a == '-' {
                    // Designate G1 character set (VT100, VT300)
                    emu.emit(Code::DesignateCharset(1, b));
                } else if a == '*' || a == '.' {
                    // Designate G2 character set (VT220, VT300)
                    emu.emit(Code::DesignateCharset(2, b));
                } else if a == '+' || a == '/' {
                    // Designate G3 character set (VT220, VT300)
                    emu.emit(Code::DesignateCharset(3, b));
                } else {
                    error_pair(emu, a, b);
                }
            },
            None => {
                let one = [a];
                assert(one@ =~= seq![a]);
                emu.error(&one);
            },
        }
        Some(ParserState::Ground(Ground))
    }
}

/// A control sequence whose counters stay in range has them in range after
/// each of its prefixes too.
pub proof fn lemma_csi_fits_prefix(body: Seq<char>, k: int)
    requires
        0 <= k <= body.len(),
        csi_scan(body).fits,
    ensures
        csi_scan(body.take(k)).fits,
    decreases body.len(),
{
    if k == body.len() {
        assert(body.take(k) == body);
    } else {
        assert(body.drop_last().take(k) == body.take(k));
        lemma_csi_fits_prefix(body.drop_last(), k);
    }
}

/// Whether the control sequence that starts at `start` keeps its counters
/// (characters read, the number being read) within their ranges.
pub fn csi_fits(input: &Vec<char>, start: usize) -> (b: bool)
    requires
        start <= input@.len(),
    ensures
        b == csi_scan(rest_of(input@, start as nat)).fits,
{
    let ghost body = rest_of(input@, start as nat);
    let mut i = start;
    let mut cur: u32 = 0;
    let mut digit = false;
    assert(input@.subrange(start as int, start as int) =~= Seq::<char>::empty());
    while i < input.len()
        invariant
            start <= i <= input@.len(),
            body == rest_of(input@, start as nat),
            csi_scan(input@.subrange(start as int, i as int)).fits,
            csi_scan(input@.subrange(start as int, i as int)).cur == cur,
            csi_scan(input@.subrange(start as int, i as int)).digit == digit,
            csi_scan(input@.subrange(start as int, i as int)).count == i - start,
        decreases input@.len() - i,
    {
        let x = input[i];
        let ghost next = input@.subrange(start as int, i + 1int);
        proof {
            assert(next.drop_last() =~= input@.subrange(start as int, i as int));
            assert(next.last() == x);
            assert(body.take(i + 1 - start) =~= next);
        }
        if i - start > 2147483647usize {
            proof {
                if csi_scan(body).fits {
                    lemma_csi_fits_prefix(body, i + 1 - start);
                }
            }
            return false;
        }
        if x == ';' {
            if digit {
                cur = 0;
                digit = false;
            }
        } else if '0' <= x && x <= '9' {
            let d = x as u32;
            if cur > (u32::MAX - d) / 10 {
                proof {
                    assert(10 * cur + d > u32::MAX) by (nonlinear_arith)
                        requires cur > (u32::MAX - d) / 10, d <= u32::MAX;
                    if csi_scan(body).fits {
                        lemma_csi_fits_prefix(body, i + 1 - start);
                    }
                }
                return false;
            }
            assert(10 * cur + d <= u32::MAX) by (nonlinear_arith)
                requires cur <= (u32::MAX - d) / 10, d <= u32::MAX;
            cur = 10 * cur + d - 48;
            digit = true;
        }
        i = i + 1;
    }
    assert(input@.subrange(start as int, input@.len() as int) =~= body);
    true
}

/// Parameter `i`, or `default` where there is none.
fn arg(argv: &Vec<u32>, i: usize, default: u32) -> (r: u32)
    ensures
        r == csi_arg(argv@, i as int, default),
{
    if i < argv.len() {
        argv[i]
    } else {
        default
    }
}

/// Parameter `i`, or `default` where there is none or it is 0.
fn arg1(argv: &Vec<u32>, i: usize, default: u32) -> (r: u32)
    ensures
        r == csi_arg1(argv@, i as int, default),
{
    if i < argv.len() && argv[i] != 0 {
        argv[i]
    } else {
        default
    }
}

/// Emits the codes of a control sequence with final character `f`, marks `q`
/// (`?`) and `m` (`>`) and parameters `argv`.
fn csi_dispatch(emu: &mut VtParser, f: char, q: bool, m: bool, argv: &Vec<u32>)
    requires
        old(emu).wf(),
    ensures
        final(emu).wf(),
        final(emu).queue() == old(emu).queue() + csi_codes(f, q, m, argv@),
        final(emu).input() == old(emu).input(),
        final(emu).position() == old(emu).position(),
        final(emu).state() == old(emu).state(),
{
    match f {
        '@' => emu.emit(Code::InsertBlankCharacters(arg(argv, 0, 1))),
        'A' => emu.emit(Code::CursorUp(arg1(argv, 0, 1))),
        'B' => emu.emit(Code::CursorDown(arg1(argv, 0, 1))),
        'C' => emu.emit(Code::CursorForward(arg1(argv, 0, 1))),
        'D' => emu.emit(Code::CursorBackward(arg1(argv, 0, 1))),
        'E' => emu.emit(Code::CursorNextLine(arg1(argv, 0, 1))),
        'F' => emu.emit(Code::CursorPrecedingLine(arg1(argv, 0, 1))),
        'G' | '`' => emu.emit(Code::CursorHorizontalAbsolute(arg(argv, 0, 1))),
        'f' | 'H' => emu.emit(Code::CursorPosition { x: arg(argv, 0, 1), y: arg(argv, 1, 1) }),
        'J' => emu.emit(
            if q {
                Code::SelectiveEraseInDisplay(arg(argv, 0, 1))
            } else {
                Code::EraseInDisplay(arg(argv, 0, 1))
            },
        ),
        'K' => emu.emit(
            if q {
                Code::SelectiveEraseInLine(arg(argv, 0, 1))
            } else {
                Code::EraseInLine(arg(argv, 0, 1))
            },
        ),
        'L' => emu.emit(Code::InsertLines(arg(argv, 0, 1))),
        'M' => emu.emit(Code::DeleteLines(arg(argv, 0, 1))),
        'X' => emu.emit(Code::EraseCharacters(arg(argv, 0, 1))),
        'P' => emu.emit(Code::DeleteCharacters(arg(argv, 0, 1))),
        'S' => emu.emit(Code::ScrollUp(arg(argv, 0, 1))),
        'T' => emu.emit(Code::ScrollDown(arg(argv, 0, 1))),
        'c' => emu.emit(
            if m && arg(argv, 0, 1) == 0 {
                Code::SendSecondaryDeviceAttributes
            } else {
                Code::SendPrimaryDeviceAttributes
            },
        ),
        'd' => emu.emit(Code::LinePositionAbsolute(arg(argv, 0, 1))),
        'g' => emu.emit(Code::TabClear(arg(argv, 0, 1))),
        'h' => emu.emit(Code::SetMode(arg(argv, 0, 1))),
        'l' => emu.emit(Code::SetMode(arg(argv, 0, 1))),
        'm' => emit_style_codes(emu, argv),
        'n' => emu.emit(
            if q {
                Code::DecDeviceStatusReport
            } else {
                Code::DeviceStatusReport(arg(argv, 0, 1))
            },
        ),
        'r' => emu.emit(
            if q {
                Code::RestoreDecPrivateMode
            } else {
                Code::SetScrollingRegion { top: arg(argv, 0, 1), bottom: arg(argv, 1, 0) }
            },
        ),
        't' => {
            let e = arg(argv, 0, 0);
            if e == 8 {
                emu.emit(Code::Resize { width: arg(argv, 1, 0), height: arg(argv, 2, 0) });
            } else {
                let mut msg = String::from_str("Unkown window manipulation command ");
                push_decimal(&mut msg, e);
                emu.error_msg(msg);
            }
        },
        _ => {
            let mut msg = String::from_str("Unknown CSI code ");
            msg.push(f);
            emu.error_msg(msg);
        },
    }
}

impl State for ControlSequence {
    open spec fn spec_state(&self) -> ParserState {
        ParserState::ControlSequence(*self)
    }

    fn next(&self, emu: &mut VtParser) -> (r: Option<ParserState>) {
        let ghost input = emu.input();
        let ghost start = emu.position();
        let mut pos: i32 = -1;
        let mut question_mark = false;
        let mut more_mark = false;
        let mut final_char: char = '\0';
        let mut argv: Vec<u32> = Vec::new();
        let mut cur: u32 = 0;
        let mut digit = false;
        assert(input.subrange(start as int, start as int) =~= Seq::<char>::empty());
        loop
            invariant
                emu.wf(),
                emu.input() == input,
                emu.queue() == old(emu).queue(),
                emu.state() == old(emu).state(),
                start == old(emu).position(),
                start <= emu.position() <= input.len(),
                pos + 1 == emu.position() - start,
                csi_scan(rest_of(input, start)).fits,
                csi_scan(input.subrange(start as int, emu.position() as int)) == (CsiScan {
                    count: (pos + 1) as nat,
                    question_mark,
                    more_mark,
                    final_char,
                    argv: argv@,
                    cur: cur as int,
                    digit,
                    fits: true,
                }),
            ensures
                emu.position() == input.len(),
            decreases input.len() - emu.position(),
        {
            let ghost p = emu.position();
            match emu.next_char() {
                Some(x) => {
                    proof {
                        let rest = rest_of(input, start);
                        assert(rest.take(p + 1 - start) =~= input.subrange(start as int, p + 1int));
                        lemma_csi_fits_prefix(rest, p + 1 - start);
                        assert(input.subrange(start as int, p + 1int).drop_last() =~= input.subrange(
                            start as int,
                            p as int,
                        ));
                    }
                    pos += 1;
                    match x {
                        '?' => {
                            if pos == 0 {
                                question_mark = true;
                            }
                        },
                        '>' => {
                            if pos == 0 {
                                more_mark = true;
                            }
                        },
                        ';' => {
                            if digit {
                                argv.push(cur);
                                cur = 0;
                                digit = false;
                            }
                        },
                        '0'..='9' => {
                            cur = 10 * cur + (x as u32) - ('0' as u32);
                            digit = true;
                        },
                        '\x40'..='\x7E' => {
                            final_char = x;
                        },
                        _ => {},
                    }
                },
                None => {
                    break ;
                },
            }
        }
        assert(input.subrange(start as int, input.len() as int) =~= rest_of(input, start));
        csi_dispatch(emu, final_char, question_mark, more_mark, &argv);
        Some(ParserState::Ground(Ground))
    }
}

/// The fields gathered so far, as sequences.
pub open spec fn field_views(argv: Seq<Vec<char>>) -> Seq<Seq<char>> {
    argv.map_values(|v: Vec<char>| v@)
}

/// Emits the codes of an operating system command with fields `argv`.
fn osc_dispatch(emu: &mut VtParser, argv: &Vec<Vec<char>>)
    requires
        old(emu).wf(),
    ensures
        final(emu).wf(),
        final(emu).queue() == old(emu).queue() + osc_codes(field_views(argv@)),
        final(emu).input() == old(emu).input(),
        final(emu).position() == old(emu).position(),
        final(emu).state() == old(emu).state(),
{
    let ghost fields = field_views(argv@);
    if argv.len() > 1 {
        assert(fields[0] == argv@[0]@ && fields[1] == argv@[1]@);
        match parse_u32(argv[0].as_slice()) {
            Some(x) => {
                if x == 0 || x == 2 {
                    emu.emit(Code::WindowTitle(string_from_chars(argv[1].as_slice())));
                } else if x == 7 {
                    emu.emit(Code::CurrentPath(string_from_chars(argv[1].as_slice())));
                } else {
                    emu.error_msg(String::from_str("Unrecognized system command "));
                }
            },
            None => {
                emu.error_msg(String::from_str("Cant parse system command"));
            },
        }
    } else {
        assert(osc_codes(fields) =~= Seq::<CodeV>::empty());
        assert(emu.queue() =~= old(emu).queue() + Seq::<CodeV>::empty());
    }
}

impl State for SystemCommandSequence {
    open spec fn spec_state(&self) -> ParserState {
        ParserState::SystemCommandSequence(*self)
    }

    fn next(&self, emu: &mut VtParser) -> (r: Option<ParserState>) {
        let ghost input = emu.input();
        let ghost start = emu.position();
        let ghost end = osc_end(input, start);
        let mut argv: Vec<Vec<char>> = Vec::new();
        let mut s: Vec<char> = Vec::new();
        proof {
            lemma_osc_end_bounds(input, start);
            assert(input.subrange(start as int, start as int) =~= Seq::<char>::empty());
            assert(field_views(argv@).push(s@) =~= split_fields(Seq::<char>::empty()));
        }
        loop
            invariant_except_break
                field_views(argv@).push(s@) == split_fields(
                    input.subrange(start as int, emu.position() as int),
                ),
                emu.position() <= end,
                osc_end(input, emu.position()) == end,
            invariant
                emu.wf(),
                emu.input() == input,
                emu.queue() == old(emu).queue(),
                emu.state() == old(emu).state(),
                start == old(emu).position(),
                end == osc_end(input, start),
                end <= input.len(),
                start <= emu.position(),
            ensures
                field_views(argv@) == split_fields(input.subrange(start as int, end as int)),
                emu.position() == (if end < input.len() { end + 1 } else { end }),
            decreases input.len() - emu.position(),
        {
            let ghost p = emu.position();
            let ghost prev = input.subrange(start as int, p as int);
            proof {
                lemma_osc_end_bounds(input, p + 1);
            }
            match emu.next_char() {
                Some(x) => {
                    proof {
                        assert(input.subrange(start as int, p + 1int).drop_last() =~= prev);
                        assert(input.subrange(start as int, p + 1int).last() == x);
                    }
                    if x == ';' || x == ascii::ST || x == ascii::BEL {
                        proof {
                            if x != ';' {
                                assert(end == p);
                            } else {
                                assert(osc_end(input, p + 1) == end);
                            }
                        }
                        argv.push(s);
                        if x == ';' {
                            s = Vec::new();
                            assert(field_views(argv@).push(s@) =~= split_fields(
                                input.subrange(start as int, p + 1int),
                            ));
                        } else {
                            assert(field_views(argv@) =~= split_fields(prev));
                            break ;
                        }
                    } else {
                        let ghost before = field_views(argv@);
                        s.push(x);
                        assert(osc_end(input, p + 1) == end);
                        assert(field_views(argv@).push(s@) =~= split_fields(
                            input.subrange(start as int, p + 1int),
                        ));
                    }
                },
                None => {
                    argv.push(s);
                    assert(field_views(argv@) =~= split_fields(prev));
                    break ;
                },
            }
        }
        osc_dispatch(emu, &argv);
        Some(ParserState::Ground(Ground))
    }
}

} // verus!
