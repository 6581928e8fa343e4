//! A small terminal emulator front end: it knows plain text, the
//! bell, backspace, and the control sequence that inserts blank characters.
use vstd::prelude::*;
use std::collections::VecDeque;
use crate::ascii;
use crate::parser::codes::Code;
use crate::parser::codes::CodeV;
use crate::text::take_text_run;
use crate::text::text_run_len;
use crate::text::is_text_char;
use crate::text::lemma_text_run_unique;
use crate::text::chars_of;
use crate::parser::states::rest_of;
use crate::text::decimal;
use crate::text::digits_value;
use crate::text::is_digit;
use crate::text::lemma_decimal_digits;

verus! {

/// The states of the emulator.
#[derive(Clone, Copy, Debug, PartialEq, Eq)]
pub enum EmulatorState {
    /// Plain text and single control characters.
    State0,
    /// After an ESC.
    EscapeSeq,
    /// After ESC `[`.
    ControlSequence,
}

/// What one state of the emulator does: the codes it emits, the state that
/// follows (`None` at the end of the input) and the read position after it.
pub struct EmulatorStep {
    pub codes: Seq<CodeV>,
    pub next: Option<EmulatorState>,
    pub pos: nat,
}

/// What a control sequence of the emulator has gathered.
pub struct EmulatorCsi {
    /// Characters read.
    pub count: nat,
    /// The last character in `@`..`~` read (NUL if none).
    pub final_char: char,
    /// The nonzero parameters ended by `;`.
    pub argv: Seq<u32>,
    /// The parameter being read.
    pub cur: int,
    /// No counter left its 32-bit range.
    pub fits: bool,
}

/// A control sequence of the emulator after one more character `x`: a `;`
/// ends the parameter being read only if it is not 0.
pub open spec fn emulator_csi_feed(s: EmulatorCsi, x: char) -> EmulatorCsi {
    let s1 = EmulatorCsi { count: s.count + 1, fits: s.fits && s.count <= i32::MAX, ..s };
    if x == '?' || x == '>' {
        s1
    } else if x == ';' {
        if s1.cur > 0 {
            EmulatorCsi { argv: s1.argv.push(s1.cur as u32), cur: 0, ..s1 }
        } else {
            s1
        }
    } else if '0' <= x <= '9' {
        let v = 10 * s1.cur + (x as u32);
        EmulatorCsi { cur: v - ('0' as u32), fits: s1.fits && v <= u32::MAX, ..s1 }
    } else if '\x40' <= x <= '\x7E' {
        EmulatorCsi { final_char: x, ..s1 }
    } else {
        s1
    }
}

/// A control sequence of the emulator after the characters of `body`.
pub open spec fn emulator_csi_scan(body: Seq<char>) -> EmulatorCsi
    decreases body.len(),
{
    if body.len() == 0 {
        EmulatorCsi { count: 0, final_char: '\0', argv: seq![], cur: 0, fits: true }
    } else {
        emulator_csi_feed(emulator_csi_scan(body.drop_last()), body.last())
    }
}

/// What state `st` of the emulator does with `input` at `pos`.
pub open spec fn emulator_step(st: EmulatorState, input: Seq<char>, pos: nat) -> EmulatorStep {
    match st {
        EmulatorState::State0 => if pos >= input.len() {
            EmulatorStep { codes: seq![], next: None, pos }
        } else {
            let x = input[pos as int];
            if x == ascii::BEL {
                EmulatorStep { codes: seq![Code::Bell], next: Some(EmulatorState::State0), pos: pos + 1 }
            } else if x == ascii::BS {
                EmulatorStep {
                    codes: seq![Code::Backspace],
                    next: Some(EmulatorState::State0),
                    pos: pos + 1,
                }
            } else if x == ascii::ESC {
                EmulatorStep { codes: seq![], next: Some(EmulatorState::EscapeSeq), pos: pos + 1 }
            } else {
                let n = text_run_len(input.skip(pos + 1 as int));
                EmulatorStep {
                    codes: seq![Code::Chars(input.subrange(pos as int, (pos + 1 + n) as int))],
                    next: Some(EmulatorState::State0),
                    pos: pos + 1 + n,
                }
            }
        },
        EmulatorState::EscapeSeq => if pos >= input.len() {
            EmulatorStep { codes: seq![], next: None, pos }
        } else if input[pos as int] == '[' {
            EmulatorStep { codes: seq![], next: Some(EmulatorState::ControlSequence), pos: pos + 1 }
        } else {
            EmulatorStep { codes: seq![], next: Some(EmulatorState::State0), pos: pos + 1 }
        },
        EmulatorState::ControlSequence => {
            let s = emulator_csi_scan(rest_of(input, pos));
            EmulatorStep {
                codes: if s.final_char == '@' {
                    seq![
                        Code::InsertBlankCharacters(
                            if s.argv.len() > 0 { s.argv[0] } else { 1 },
                        ),
                    ]
                } else {
                    seq![]
                },
                next: Some(EmulatorState::State0),
                pos: if pos < input.len() { input.len() } else { pos },
            }
        },
    }
}

/// What is left to do: twice the unread input, plus one outside state 0.
pub open spec fn emulator_measure(st: EmulatorState, input: Seq<char>, pos: nat) -> nat {
    (if pos < input.len() { 2 * (input.len() - pos) } else { 0 }) as nat + (if st
        == EmulatorState::State0 {
        0nat
    } else {
        1nat
    })
}

/// Each step reads forward, and a state that goes on leaves less to do.
pub proof fn lemma_emulator_step_progress(st: EmulatorState, input: Seq<char>, pos: nat)
    ensures
        emulator_step(st, input, pos).pos >= pos,
        emulator_step(st, input, pos).next matches Some(n) ==> emulator_measure(
            n,
            input,
            emulator_step(st, input, pos).pos,
        ) < emulator_measure(st, input, pos),
{
}

/// The codes that state `st` of the emulator and the states after it emit.
pub open spec fn emulator_run(st: EmulatorState, input: Seq<char>, pos: nat) -> Seq<CodeV>
    decreases emulator_measure(st, input, pos),
    via emulator_run_decreases
{
    let s = emulator_step(st, input, pos);
    match s.next {
        Some(n) => s.codes + emulator_run(n, input, s.pos),
        None => s.codes,
    }
}

#[via_fn]
proof fn emulator_run_decreases(st: EmulatorState, input: Seq<char>, pos: nat) {
    lemma_emulator_step_progress(st, input, pos);
}

/// The emulator's step from `st` at `pos` overflows no counter.
pub open spec fn emulator_step_safe(st: EmulatorState, input: Seq<char>, pos: nat) -> bool {
    st == EmulatorState::ControlSequence ==> emulator_csi_scan(rest_of(input, pos)).fits
}

/// No step of the emulator's run overflows a counter.
pub open spec fn emulator_run_safe(st: EmulatorState, input: Seq<char>, pos: nat) -> bool
    decreases emulator_measure(st, input, pos),
    via emulator_run_safe_decreases
{
    let s = emulator_step(st, input, pos);
    emulator_step_safe(st, input, pos) && match s.next {
        Some(n) => emulator_run_safe(n, input, s.pos),
        None => true,
    }
}

#[via_fn]
proof fn emulator_run_safe_decreases(st: EmulatorState, input: Seq<char>, pos: nat) {
    lemma_emulator_step_progress(st, input, pos);
}

/// No step of the emulator overflows a counter from `st` at `pos` up to the
/// first step that emits a code, or to the end of the input: the steps that
/// one call of `VtEmulator::next` on an empty queue runs.
pub open spec fn emulator_safe_until_output(st: EmulatorState, input: Seq<char>, pos: nat) -> bool
    decreases emulator_measure(st, input, pos),
    via emulator_safe_until_output_decreases
{
    let s = emulator_step(st, input, pos);
    emulator_step_safe(st, input, pos) && match s.next {
        Some(n) => s.codes.len() == 0 ==> emulator_safe_until_output(n, input, s.pos),
        None => true,
    }
}

#[via_fn]
proof fn emulator_safe_until_output_decreases(st: EmulatorState, input: Seq<char>, pos: nat) {
    lemma_emulator_step_progress(st, input, pos);
}

/// A run of the emulator that overflows nothing overflows nothing up to its
/// first code.
pub proof fn lemma_emulator_run_safe_until_output(st: EmulatorState, input: Seq<char>, pos: nat)
    requires
        emulator_run_safe(st, input, pos),
    ensures
        emulator_safe_until_output(st, input, pos),
    decreases emulator_measure(st, input, pos),
{
    lemma_emulator_step_progress(st, input, pos);
    let s = emulator_step(st, input, pos);
    if let Some(n) = s.next {
        lemma_emulator_run_safe_until_output(n, input, s.pos);
    }
}

/// The codes the emulator gives for a whole input.
pub open spec fn emulate(input: Seq<char>) -> Seq<CodeV> {
    emulator_run(EmulatorState::State0, input, 0)
}

/// Input on which the emulator overflows no counter.
pub open spec fn emulate_safe(input: Seq<char>) -> bool {
    emulator_run_safe(EmulatorState::State0, input, 0)
}

/// Whether the control sequence of the emulator that starts at `start` keeps
/// its counters (characters read, the number being read) within their ranges.
pub fn emulator_csi_fits(input: &Vec<char>, start: usize) -> (b: bool)
    requires
        start <= input@.len(),
    ensures
        b == emulator_csi_scan(rest_of(input@, start as nat)).fits,
{
    let ghost body = rest_of(input@, start as nat);
    let mut i = start;
    let mut cur: u32 = 0;
    assert(input@.subrange(start as int, start as int) =~= Seq::<char>::empty());
    while i < input.len()
        invariant
            start <= i <= input@.len(),
            body == rest_of(input@, start as nat),
            emulator_csi_scan(input@.subrange(start as int, i as int)).fits,
            emulator_csi_scan(input@.subrange(start as int, i as int)).cur == cur,
            emulator_csi_scan(input@.subrange(start as int, i as int)).count == i - start,
        decreases input@.len() - i,
    {
        let x = input[i];
        let ghost next = input@.subrange(start as int, i + 1int);
        proof {
            assert(next.drop_last() =~= input@.subrange(start as int, i as int));
            assert(next.last() == x);
            assert(body.take(i + 1 - start) =~= next);
        }
        if i - start > 2147483647usize {
            proof {
                if emulator_csi_scan(body).fits {
                    lemma_emulator_csi_fits_prefix(body, i + 1 - start);
                }
            }
            return false;
        }
        if x == ';' {
            cur = 0;
        } else if '0' <= x && x <= '9' {
            let d = x as u32;
            if cur > (u32::MAX - d) / 10 {
                proof {
                    assert(10 * cur + d > u32::MAX) by (nonlinear_arith)
                        requires cur > (u32::MAX - d) / 10, d <= u32::MAX;
                    if emulator_csi_scan(body).fits {
                        lemma_emulator_csi_fits_prefix(body, i + 1 - start);
                    }
                }
                return false;
            }
            assert(10 * cur + d <= u32::MAX) by (nonlinear_arith)
                requires cur <= (u32::MAX - d) / 10, d <= u32::MAX;
            cur = 10 * cur + d - 48;
        }
        i = i + 1;
    }
    assert(input@.subrange(start as int, input@.len() as int) =~= body);
    true
}

/// Reads a stream of characters and yields the codes it stands for.
pub struct VtEmulator {
    term_actions: VecDeque<Code>,
    stream: Vec<char>,
    pos: usize,
    state: EmulatorState,
}

impl VtEmulator {
    /// The whole input.
    pub closed spec fn input(&self) -> Seq<char> {
        self.stream@
    }

    /// How much of the input has been read.
    pub closed spec fn position(&self) -> nat {
        self.pos as nat
    }

    /// The state the emulator is in.
    pub closed spec fn state(&self) -> EmulatorState {
        self.state
    }

    /// The codes emitted and not yet handed out, oldest first.
    pub closed spec fn queue(&self) -> Seq<CodeV> {
        self.term_actions@.map_values(|c: Code| c@)
    }

    /// The read position stays within the input.
    pub open spec fn wf(&self) -> bool {
        self.position() <= self.input().len()
    }

    /// Every code the emulator will still hand out.
    pub open spec fn pending(&self) -> Seq<CodeV> {
        self.queue() + emulator_run(self.state(), self.input(), self.position())
    }

    /// The next call of [`VtEmulator::next`] overflows no counter: the queue
    /// holds a code, or the steps up to the first code emitted (or the end of
    /// the input) overflow nothing.
    pub open spec fn next_safe(&self) -> bool {
        self.queue().len() > 0 || emulator_safe_until_output(
            self.state(),
            self.input(),
            self.position(),
        )
    }

    /// An emulator whose whole rest of the input overflows nothing may be
    /// asked for its next code.
    pub proof fn lemma_runs_safely_next_safe(&self)
        requires
            self.runs_safely(),
        ensures
            self.next_safe(),
    {
        lemma_emulator_run_safe_until_output(self.state(), self.input(), self.position());
    }

    /// Reading the rest of the input overflows no counter.
    pub open spec fn runs_safely(&self) -> bool {
        emulator_run_safe(self.state(), self.input(), self.position())
    }

    /// An emulator at the start of `stream`, in state 0, with an empty queue.
    pub fn new(stream: &str) -> (e: VtEmulator)
        ensures
            e.wf(),
            e.input() == stream@,
            e.position() == 0,
            e.state() == EmulatorState::State0,
            e.queue() == Seq::<CodeV>::empty(),
            e.pending() == emulate(stream@),
            e.runs_safely() == emulate_safe(stream@),
    {
        let e = VtEmulator {
            term_actions: VecDeque::new(),
            stream: chars_of(stream),
            pos: 0,
            state: EmulatorState::State0,
        };
        assert(e.queue() =~= Seq::<CodeV>::empty());
        assert(e.pending() =~= emulate(stream@));
        e
    }

    /// Appends a code at the back of the queue.
    pub fn emit(&mut self, term: Code)
        requires
            old(self).wf(),
        ensures
            final(self).wf(),
            final(self).queue() == old(self).queue().push(term@),
            final(self).input() == old(self).input(),
            final(self).position() == old(self).position(),
            final(self).state() == old(self).state(),
    {
        self.term_actions.push_back(term);
        assert(self.term_actions@.map_values(|c: Code| c@) =~= old(self).term_actions@.map_values(
            |c: Code| c@,
        ).push(term@));
    }

    /// Takes the code at the front of the queue, if there is one.
    pub fn get(&mut self) -> (r: Option<Code>)
        requires
            old(self).wf(),
        ensures
            final(self).wf(),
            old(self).queue().len() == 0 ==> r is None && final(self).queue() == old(self).queue(),
            old(self).queue().len() > 0 ==> (r matches Some(c) && c@ == old(self).queue()[0]
                && final(self).queue() == old(self).queue().drop_first()),
            final(self).input() == old(self).input(),
            final(self).position() == old(self).position(),
            final(self).state() == old(self).state(),
    {
        let r = self.term_actions.pop_front();
        if r.is_some() {
            assert(self.term_actions@.map_values(|c: Code| c@) =~= old(self).term_actions@.map_values(
                |c: Code| c@,
            ).drop_first());
        }
        r
    }

    /// Reads the next character of the input, if any is left.
    fn next_char(&mut self) -> (r: Option<char>)
        requires
            old(self).wf(),
        ensures
            final(self).wf(),
            final(self).input() == old(self).input(),
            final(self).queue() == old(self).queue(),
            final(self).state() == old(self).state(),
            old(self).position() < old(self).input().len() ==> r == Some(
                old(self).input()[old(self).position() as int],
            ) && final(self).position() == old(self).position() + 1,
            old(self).position() >= old(self).input().len() ==> r is None && final(self).position()
                == old(self).position(),
    {
        if self.pos < self.stream.len() {
            let c = self.stream[self.pos];
            self.pos = self.pos + 1;
            Some(c)
        } else {
            None
        }
    }

    /// Reads the run of text characters that starts at the read position.
    fn take_text(&mut self) -> (run: String)
        requires
            old(self).wf(),
        ensures
            final(self).wf(),
            final(self).input() == old(self).input(),
            final(self).queue() == old(self).queue(),
            final(self).state() == old(self).state(),
            final(self).position() == old(self).position() + text_run_len(
                old(self).input().skip(old(self).position() as int),
            ),
            run@ == old(self).input().subrange(
                old(self).position() as int,
                final(self).position() as int,
            ),
    {
        let run = take_text_run(&self.stream, self.pos);
        let n = run.as_str().unicode_len();
        proof {
            let rest = self.stream@.skip(self.pos as int);
            assert forall|i: int| 0 <= i < n implies is_text_char(#[trigger] rest[i]) by {
                assert(rest[i] == run@[i]);
            }
            lemma_text_run_unique(rest, n as int);
        }
        assert(self.pos + n <= self.stream.len());
        self.pos = self.pos + n;
        run
    }

    /// State 0: plain text, bell, backspace, or the start of an escape sequence.
    fn state0_next(&mut self) -> (r: Option<EmulatorState>)
        requires
            old(self).wf(),
        ensures
            ({
                let s = emulator_step(EmulatorState::State0, old(self).input(), old(self).position());
                &&& final(self).wf()
                &&& final(self).input() == old(self).input()
                &&& final(self).state() == old(self).state()
                &&& final(self).queue() == old(self).queue() + s.codes
                &&& final(self).position() == s.pos
                &&& r == s.next
            }),
    {
        let ghost input = self.input();
        let ghost pos = self.position();
        match self.next_char() {
            Some(x) => {
                if x == ascii::BEL {
                    self.emit(Code::Bell);
                } else if x == ascii::BS {
                    self.emit(Code::Backspace);
                } else if x == ascii::ESC {
                    return Some(EmulatorState::EscapeSeq);
                } else {
                    let chars = self.take_text();
                    let mut s = String::new();
                    s.push(x);
                    s.append(chars.as_str());
                    assert(s@ =~= input.subrange(pos as int, self.position() as int));
                    self.emit(Code::Chars(s));
                }
            },
            None => {
                return None;
            },
        }
        Some(EmulatorState::State0)
    }

    /// After an ESC: `[` starts a control sequence; anything else is dropped.
    fn escape_next(&mut self) -> (r: Option<EmulatorState>)
        requires
            old(self).wf(),
        ensures
            ({
                let s = emulator_step(EmulatorState::EscapeSeq, old(self).input(), old(self).position());
                &&& final(self).wf()
                &&& final(self).input() == old(self).input()
                &&& final(self).state() == old(self).state()
                &&& final(self).queue() == old(self).queue() + s.codes
                &&& final(self).position() == s.pos
                &&& r == s.next
            }),
    {
        match self.next_char() {
            Some(x) => {
                if x == '[' {
                    return Some(EmulatorState::ControlSequence);
                }
            },
            None => {
                return None;
            },
        }
        assert(self.queue() =~= old(self).queue() + Seq::<CodeV>::empty());
        Some(EmulatorState::State0)
    }

    /// After ESC `[`: reads the rest of the input as a control sequence and
    /// acts on its last final character; only `@` (insert blank characters) is known.
    fn control_next(&mut self) -> (r: Option<EmulatorState>)
        requires
            old(self).wf(),
            emulator_csi_scan(rest_of(old(self).input(), old(self).position())).fits,
        ensures
            ({
                let s = emulator_step(
                    EmulatorState::ControlSequence,
                    old(self).input(),
                    old(self).position(),
                );
                &&& final(self).wf()
                &&& final(self).input() == old(self).input()
                &&& final(self).state() == old(self).state()
                &&& final(self).queue() == old(self).queue() + s.codes
                &&& final(self).position() == s.pos
                &&& r == s.next
            }),
    {
        let ghost input = self.input();
        let ghost start = self.position();
        let mut pos: i32 = -1;
        let mut final_char: char = '\0';
        let mut argv: Vec<u32> = Vec::new();
        let mut cur: u32 = 0;
        assert(input.subrange(start as int, start as int) =~= Seq::<char>::empty());
        loop
            invariant
                self.wf(),
                self.input() == input,
                self.queue() == old(self).queue(),
                self.state() == old(self).state(),
                start == old(self).position(),
                start <= self.position() <= input.len(),
                pos + 1 == self.position() - start,
                emulator_csi_scan(rest_of(input, start)).fits,
                emulator_csi_scan(input.subrange(start as int, self.position() as int)) == (
                EmulatorCsi { count: (pos + 1) as nat, final_char, argv: argv@, cur: cur as int, fits: true }),
            ensures
                self.position() == input.len(),
            decreases input.len() - self.position(),
        {
            let ghost p = self.position();
            match self.next_char() {
                Some(x) => {
                    proof {
                        let rest = rest_of(input, start);
                        assert(rest.take(p + 1 - start) =~= input.subrange(start as int, p + 1int));
                        lemma_emulator_csi_fits_prefix(rest, p + 1 - start);
                        assert(input.subrange(start as int, p + 1int).drop_last() =~= input.subrange(
                            start as int,
                            p as int,
                        ));
                    }
                    pos += 1;
                    match x {
                        ';' => {
                            if cur > 0 {
                                argv.push(cur);
                                cur = 0;
                            }
                        },
                        '0'..='9' => {
                            cur = 10 * cur + (x as u32) - ('0' as u32);
                        },
                        '\x40'..='\x7E' => {
                            final_char = x;
                        },
                        _ => {},
                    }
                },
                None => {
                    break ;
                },
            }
        }
        assert(input.subrange(start as int, input.len() as int) =~= rest_of(input, start));
        if final_char == '@' {
            let n = if argv.len() > 0 {
                argv[0]
            } else {
                1
            };
            self.emit(Code::InsertBlankCharacters(n));
        } else {
            assert(self.queue() =~= old(self).queue() + Seq::<CodeV>::empty());
        }
        Some(EmulatorState::State0)
    }

    /// Whether reading all of `stream` overflows no counter, that is, whether
    /// an emulator made by [`VtEmulator::new`] on it may be asked for every
    /// code it holds (see [`VtEmulator::lemma_runs_safely_next_safe`]).
    pub fn input_is_safe(stream: &str) -> (b: bool)
        ensures
            b == emulate_safe(stream@),
    {
        let mut e = VtEmulator::new(stream);
        loop
            invariant
                e.wf(),
                emulator_run_safe(e.state(), e.input(), e.position()) == emulate_safe(stream@),
            decreases emulator_measure(e.state(), e.input(), e.position()),
        {
            let ghost input = e.input();
            let ghost pos = e.position();
            proof {
                lemma_emulator_step_progress(e.state, input, pos);
            }
            let n = match e.state {
                EmulatorState::ControlSequence => {
                    let fits = emulator_csi_fits(&e.stream, e.pos);
                    proof {
                        let after = emulator_step(e.state, input, pos).pos;
                        assert(emulator_run_safe(EmulatorState::State0, input, after));
                    }
                    return fits;
                },
                EmulatorState::State0 => e.state0_next(),
                EmulatorState::EscapeSeq => e.escape_next(),
            };
            e.term_actions = VecDeque::new();
            match n {
                Some(next_state) => {
                    e.state = next_state;
                },
                None => {
                    return true;
                },
            }
        }
    }

    /// Whether the next call of [`VtEmulator::next`] overflows no counter.
    /// The emulator is left as it was.
    pub fn next_is_safe(&mut self) -> (b: bool)
        requires
            old(self).wf(),
        ensures
            b == old(self).next_safe(),
            final(self).wf(),
            final(self).input() == old(self).input(),
            final(self).position() == old(self).position(),
            final(self).state() == old(self).state(),
            final(self).queue() == old(self).queue(),
    {
        if self.term_actions.len() > 0 {
            return true;
        }
        assert(self.queue() =~= Seq::<CodeV>::empty());
        let pos0 = self.pos;
        let st0 = self.state;
        let ghost input = self.input();
        let mut result = true;
        loop
            invariant_except_break
                self.queue().len() == 0,
                emulator_safe_until_output(self.state(), input, self.position())
                    == emulator_safe_until_output(st0, input, pos0 as nat),
            invariant
                self.wf(),
                self.input() == input,
            ensures
                self.wf(),
                self.input() == input,
                result == emulator_safe_until_output(st0, input, pos0 as nat),
            decreases emulator_measure(self.state(), self.input(), self.position()),
        {
            let ghost pos = self.position();
            let ghost st = self.state;
            proof {
                lemma_emulator_step_progress(st, input, pos);
            }
            let n = match self.state {
                EmulatorState::ControlSequence => {
                    result = emulator_csi_fits(&self.stream, self.pos);
                    proof {
                        let after = emulator_step(st, input, pos).pos;
                        assert(emulator_safe_until_output(EmulatorState::State0, input, after));
                    }
                    break ;
                },
                EmulatorState::State0 => self.state0_next(),
                EmulatorState::EscapeSeq => self.escape_next(),
            };
            if self.term_actions.len() > 0 {
                assert(self.queue().len() > 0);
                assert(emulator_step(st, input, pos).codes.len() > 0);
                result = true;
                break ;
            }
            assert(self.queue().len() == 0);
            assert(emulator_step(st, input, pos).codes.len() == 0);
            match n {
                Some(next_state) => {
                    self.state = next_state;
                },
                None => {
                    result = true;
                    break ;
                },
            }
        }
        self.term_actions = VecDeque::new();
        self.pos = pos0;
        self.state = st0;
        assert(self.queue() =~= old(self).queue());
        result
    }

    /// Hands out the next code: the front of the queue, or else the first code
    /// that reading on gives; `None` once the input is used up.
    pub fn next(&mut self) -> (r: Option<Code>)
        requires
            old(self).wf(),
            old(self).next_safe(),
        ensures
            final(self).wf(),
            old(self).runs_safely() ==> final(self).runs_safely(),
            final(self).input() == old(self).input(),
            final(self).position() >= old(self).position(),
            old(self).pending().len() == 0 ==> r is None && final(self).pending().len() == 0,
            old(self).pending().len() > 0 ==> (r matches Some(c) && c@ == old(self).pending()[0]
                && final(self).pending() == old(self).pending().drop_first()),
            old(self).queue().len() > 0 ==> final(self).queue() == old(self).queue().drop_first()
                && final(self).position() == old(self).position() && final(self).state() == old(
                self,
            ).state(),
            r is None ==> final(self).position() == final(self).input().len(),
            r is None ==> final(self).next_safe(),
    {
        loop
            invariant
                self.wf(),
                self.queue().len() > 0 || emulator_safe_until_output(
                    self.state(),
                    self.input(),
                    self.position(),
                ),
                old(self).runs_safely() ==> self.runs_safely(),
                self.input() == old(self).input(),
                self.position() >= old(self).position(),
                self.pending() == old(self).pending(),
                old(self).queue().len() > 0 ==> self.queue() == old(self).queue() && self.position()
                    == old(self).position() && self.state() == old(self).state(),
            ensures
                self.wf(),
                old(self).runs_safely() ==> self.runs_safely(),
                self.next_safe(),
                self.input() == old(self).input(),
                self.position() >= old(self).position(),
                self.pending() == old(self).pending(),
                self.pending().len() == 0,
                self.position() == self.input().len(),
            decreases emulator_measure(self.state(), self.input(), self.position()),
        {
            let ghost q = self.queue();
            let ghost rest = emulator_run(self.state(), self.input(), self.position());
            match self.get() {
                Some(x) => {
                    assert((q + rest).drop_first() =~= q.drop_first() + rest);
                    return Some(x);
                },
                None => {
                    let ghost p0 = self.position();
                    let ghost s = emulator_step(self.state, self.input(), p0);
                    proof {
                        lemma_emulator_step_progress(self.state, self.input(), p0);
                    }
                    let n = match self.state {
                        EmulatorState::State0 => self.state0_next(),
                        EmulatorState::EscapeSeq => self.escape_next(),
                        EmulatorState::ControlSequence => self.control_next(),
                    };
                    match n {
                        Some(next_state) => {
                            self.state = next_state;
                            assert(self.queue() =~= s.codes);
                        },
                        None => {
                            assert(self.queue() =~= Seq::<CodeV>::empty());
                            break ;
                        },
                    }
                },
            }
        }
        None
    }
}

/// A control sequence of the emulator whose counters stay in range has them
/// in range after each of its prefixes too.
pub proof fn lemma_emulator_csi_fits_prefix(body: Seq<char>, k: int)
    requires
        0 <= k <= body.len(),
        emulator_csi_scan(body).fits,
    ensures
        emulator_csi_scan(body.take(k)).fits,
    decreases body.len(),
{
    if k == body.len() {
        assert(body.take(k) == body);
    } else {
        assert(body.drop_last().take(k) == body.take(k));
        lemma_emulator_csi_fits_prefix(body.drop_last(), k);
    }
}

/// The emulator and the parser agree on plain text: a nonempty run of text
/// characters is a single `Chars` code for both.
pub proof fn law_emulator_agrees_on_plain_text(s: Seq<char>)
    requires
        s.len() > 0,
        forall|i: int| 0 <= i < s.len() ==> is_text_char(#[trigger] s[i]),
    ensures
        emulate(s) == seq![Code::Chars(s)],
        emulate(s) == crate::parser::states::parse(s),
{
    crate::parser::laws::law_plain_text(s);
    let rest = s.skip(1);
    assert forall|i: int| 0 <= i < rest.len() implies is_text_char(#[trigger] rest[i]) by {
        assert(rest[i] == s[i + 1]);
    }
    lemma_text_run_unique(rest, rest.len() as int);
    assert(s.subrange(0, s.len() as int) == s);
    assert(emulator_run(EmulatorState::State0, s, s.len()) == Seq::<CodeV>::empty());
    assert(emulate(s) == seq![Code::Chars(s)] + Seq::<CodeV>::empty());
}


/// In state 0, BEL and BS are one code each and ESC hands the next character
/// to the escape state; any other character starts a run of text that goes
/// on to the first control character below the space (or the end), after
/// which the input is read again from state 0.
pub proof fn law_emulator_state0(input: Seq<char>, pos: nat, j: nat)
    requires
        pos < j <= input.len(),
        forall|i: int| pos < i < j ==> (#[trigger] input[i] as u32) >= 32,
        j < input.len() ==> (input[j as int] as u32) < 32,
    ensures
        input[pos as int] == ascii::BEL ==> emulator_run(EmulatorState::State0, input, pos) == seq![
            Code::<Seq<char>>::Bell,
        ] + emulator_run(EmulatorState::State0, input, pos + 1),
        input[pos as int] == ascii::BS ==> emulator_run(EmulatorState::State0, input, pos) == seq![
            Code::<Seq<char>>::Backspace,
        ] + emulator_run(EmulatorState::State0, input, pos + 1),
        input[pos as int] == ascii::ESC ==> emulator_run(EmulatorState::State0, input, pos)
            == emulator_run(EmulatorState::EscapeSeq, input, pos + 1),
        input[pos as int] != ascii::BEL && input[pos as int] != ascii::BS && input[pos as int]
            != ascii::ESC ==> emulator_run(EmulatorState::State0, input, pos) == seq![
            Code::Chars(input.subrange(pos as int, j as int)),
        ] + emulator_run(EmulatorState::State0, input, j),
{
    let rest = input.skip(pos + 1int);
    assert forall|i: int| 0 <= i < j - pos - 1 implies is_text_char(#[trigger] rest[i]) by {
        assert(rest[i] == input[pos + 1 + i]);
    }
    if j < input.len() {
        assert(rest[j - pos - 1] == input[j as int]);
    }
    lemma_text_run_unique(rest, j - pos - 1);
}

/// After an ESC, `[` starts a control sequence, and any other character is
/// dropped and the emulator is back in state 0.
pub proof fn law_emulator_escape(input: Seq<char>, pos: nat)
    requires
        pos < input.len(),
    ensures
        input[pos as int] == '[' ==> emulator_run(EmulatorState::EscapeSeq, input, pos)
            == emulator_run(EmulatorState::ControlSequence, input, pos + 1),
        input[pos as int] != '[' ==> emulator_run(EmulatorState::EscapeSeq, input, pos)
            == emulator_run(EmulatorState::State0, input, pos + 1),
{
    assert(Seq::<CodeV>::empty() + emulator_run(EmulatorState::State0, input, pos + 1)
        == emulator_run(EmulatorState::State0, input, pos + 1));
    assert(Seq::<CodeV>::empty() + emulator_run(EmulatorState::ControlSequence, input, pos + 1)
        == emulator_run(EmulatorState::ControlSequence, input, pos + 1));
}

/// A control sequence of the emulator at the start of the input is read to
/// the end and gives what its final character and first parameter say.
proof fn lemma_emulate_csi(body: Seq<char>)
    ensures
        emulate(seq![ascii::ESC, '['] + body) == (if emulator_csi_scan(body).final_char == '@' {
            seq![
                Code::<Seq<char>>::InsertBlankCharacters(
                    if emulator_csi_scan(body).argv.len() > 0 {
                        emulator_csi_scan(body).argv[0]
                    } else {
                        1
                    },
                ),
            ]
        } else {
            Seq::<CodeV>::empty()
        }),
{
    let input = seq![ascii::ESC, '['] + body;
    assert(input[0] == ascii::ESC && input[1] == '[');
    assert(rest_of(input, 2) =~= body);
    let csi = EmulatorState::ControlSequence;
    let codes = emulator_step(csi, input, 2).codes;
    assert(emulator_run(EmulatorState::State0, input, input.len()) == Seq::<CodeV>::empty());
    assert(emulator_run(csi, input, 2) == codes + Seq::<CodeV>::empty());
    assert(emulator_run(EmulatorState::EscapeSeq, input, 1) == Seq::<CodeV>::empty()
        + emulator_run(csi, input, 2));
    assert(emulate(input) == Seq::<CodeV>::empty() + emulator_run(
        EmulatorState::EscapeSeq,
        input,
        1,
    ));
    assert(codes + Seq::<CodeV>::empty() == codes);
    assert(Seq::<CodeV>::empty() + codes == codes);
}

/// Digits read when no number is being read make up a new number.
proof fn lemma_emulator_scan_digits(a: Seq<char>, ds: Seq<char>)
    requires
        forall|i: int| 0 <= i < ds.len() ==> is_digit(#[trigger] ds[i]),
        emulator_csi_scan(a).cur == 0,
    ensures
        emulator_csi_scan(a + ds).argv == emulator_csi_scan(a).argv,
        emulator_csi_scan(a + ds).final_char == emulator_csi_scan(a).final_char,
        emulator_csi_scan(a + ds).cur == digits_value(ds),
    decreases ds.len(),
{
    if ds.len() == 0 {
        assert(a + ds =~= a);
    } else {
        let dl = ds.drop_last();
        assert forall|i: int| 0 <= i < dl.len() implies is_digit(#[trigger] dl[i]) by {
            assert(dl[i] == ds[i]);
        }
        lemma_emulator_scan_digits(a, dl);
        assert((a + ds).drop_last() =~= a + dl);
        assert((a + ds).last() == ds.last());
        assert(is_digit(ds[ds.len() - 1]));
    }
}

/// The emulator's insert-blank-characters sequence `ESC [ n ; @` inserts `n`
/// blanks (a parameter of 0 is skipped, so the count is 1), `ESC [ @` inserts
/// one, a second parameter does not change the count, and every other final
/// character gives no code.
pub proof fn law_emulator_insert_blank(n: u32, m: u32, f: char)
    requires
        '\x40' <= f <= '\x7E',
        f != '@',
    ensures
        emulate(seq![ascii::ESC, '['] + decimal(n as nat) + seq![';', '@']) == seq![
            Code::<Seq<char>>::InsertBlankCharacters(if n == 0 { 1 } else { n }),
        ],
        n > 0 ==> emulate(seq![ascii::ESC, '['] + decimal(n as nat) + seq![';'] + decimal(
            m as nat,
        ) + seq![';', '@']) == seq![Code::<Seq<char>>::InsertBlankCharacters(n)],
        emulate(seq![ascii::ESC, '[', '@']) == seq![Code::<Seq<char>>::InsertBlankCharacters(1)],
        emulate(seq![ascii::ESC, '['] + decimal(n as nat) + seq![';', f]) == Seq::<CodeV>::empty(),
{
    let e = Seq::<char>::empty();
    let start = emulator_csi_scan(e);
    assert(start.cur == 0 && start.argv == Seq::<u32>::empty() && start.final_char == '\0');
    lemma_decimal_digits(n as nat);
    lemma_decimal_digits(m as nat);
    let dn = decimal(n as nat);
    lemma_emulator_scan_digits(e, dn);
    assert(e + dn =~= dn);
    let a = dn.push(';');
    assert(a.drop_last() =~= dn);
    assert(a.last() == ';');
    let sa = emulator_csi_scan(a);
    assert(sa.cur == 0);
    assert(n > 0 ==> sa.argv =~= seq![n]);
    assert(n == 0 ==> sa.argv =~= Seq::<u32>::empty());
    // `n ; @` and `n ; f`
    let b = a.push('@');
    assert(b.drop_last() =~= a && b.last() == '@');
    lemma_emulate_csi(b);
    assert(seq![ascii::ESC, '['] + decimal(n as nat) + seq![';', '@'] =~= seq![ascii::ESC, '['] + b);
    let c = a.push(f);
    assert(c.drop_last() =~= a && c.last() == f);
    lemma_emulate_csi(c);
    assert(seq![ascii::ESC, '['] + decimal(n as nat) + seq![';', f] =~= seq![ascii::ESC, '['] + c);
    // `n ; m ; @`
    let dm = decimal(m as nat);
    lemma_emulator_scan_digits(a, dm);
    let d = (a + dm).push(';');
    assert(d.drop_last() =~= a + dm && d.last() == ';');
    let g = d.push('@');
    assert(g.drop_last() =~= d && g.last() == '@');
    if n > 0 {
        assert(emulator_csi_scan(d).argv.len() > 0 && emulator_csi_scan(d).argv[0] == n);
    }
    lemma_emulate_csi(g);
    assert(seq![ascii::ESC, '['] + decimal(n as nat) + seq![';'] + decimal(m as nat) + seq![
        ';',
        '@',
    ] =~= seq![ascii::ESC, '['] + g);
    // `@`
    let h = seq!['@'];
    assert(h.drop_last() =~= e && h.last() == '@');
    lemma_emulate_csi(h);
    assert(seq![ascii::ESC, '[', '@'] =~= seq![ascii::ESC, '['] + h);
}

} // verus!
