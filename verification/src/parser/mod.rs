//! The VT parser: turns a stream of terminal input into a queue of codes.
use vstd::prelude::*;
use std::collections::VecDeque;

pub mod codes;
pub mod laws;
pub mod states;
pub mod style;

pub use self::codes::Code;
use self::codes::CodeV;
use self::states::ParserState;
use self::states::Ground;
use self::states::run;
use self::states::run_safe;
use self::states::step;
use self::states::step_safe;
use self::states::safe_until_output;
use self::states::measure;
use self::states::lemma_step_end;
use crate::text::take_text_run;
use crate::text::text_run_len;
use crate::text::chars_of;
use crate::text::string_from_chars;

verus! {

/// Reads a stream of characters and yields the codes it stands for.
pub struct VtParser {
    term_actions: VecDeque<Code>,
    stream: Vec<char>,
    pos: usize,
    state: ParserState,
}

/// A state of the parser: it reads from the parser's input, emits codes into
/// its queue and tells which state comes next (`None` at the end of the input).
pub trait State {
    /// The parser state that this value stands for.
    spec fn spec_state(&self) -> ParserState;

    /// Reads input and emits codes as [`step`] says for this state.
    fn next(&self, emu: &mut VtParser) -> (r: Option<ParserState>)
        requires
            old(emu).wf(),
            step_safe(self.spec_state(), old(emu).input(), old(emu).position()),
        ensures
            final(emu).wf(),
            final(emu).input() == old(emu).input(),
            final(emu).state() == old(emu).state(),
            final(emu).queue() == old(emu).queue() + step(
                self.spec_state(),
                old(emu).input(),
                old(emu).position(),
            ).codes,
            final(emu).position() == step(self.spec_state(), old(emu).input(), old(emu).position()).pos,
            r == step(self.spec_state(), old(emu).input(), old(emu).position()).next,
    ;
}

impl VtParser {
    /// The read position stays within the input.
    pub open spec fn wf(&self) -> bool {
        self.position() <= self.input().len()
    }

    /// The whole input.
    pub closed spec fn input(&self) -> Seq<char> {
        self.stream@
    }

    /// How much of the input has been read.
    pub closed spec fn position(&self) -> nat {
        self.pos as nat
    }

    /// The state the parser is in.
    pub closed spec fn state(&self) -> ParserState {
        self.state
    }

    /// The codes emitted and not yet handed out, oldest first.
    pub closed spec fn queue(&self) -> Seq<CodeV> {
        self.term_actions@.map_values(|c: Code| c@)
    }

    /// Every code the parser will still hand out: the queue, then what the
    /// rest of the input gives from the current state.
    pub open spec fn pending(&self) -> Seq<CodeV> {
        self.queue() + run(self.state(), self.input(), self.position())
    }

    /// The next call of [`VtParser::next`] overflows no counter: the queue
    /// holds a code, or the steps up to the first code emitted (or the end of
    /// the input) overflow nothing.
    pub open spec fn next_safe(&self) -> bool {
        self.queue().len() > 0 || safe_until_output(self.state(), self.input(), self.position())
    }

    /// A parser whose whole rest of the input overflows nothing may be asked
    /// for its next code.
    pub proof fn lemma_runs_safely_next_safe(&self)
        requires
            self.runs_safely(),
        ensures
            self.next_safe(),
    {
        states::lemma_run_safe_until_output(self.state(), self.input(), self.position());
    }

    /// Reading the rest of the input overflows no counter.
    pub open spec fn runs_safely(&self) -> bool {
        run_safe(self.state(), self.input(), self.position())
    }

    /// A parser at the start of `stream`, in the ground state, with an empty queue.
    pub fn new(stream: &str) -> (p: VtParser)
        ensures
            p.wf(),
            p.input() == stream@,
            p.position() == 0,
            p.state() == ParserState::Ground(Ground),
            p.queue() == Seq::<CodeV>::empty(),
            p.pending() == states::parse(stream@),
            p.runs_safely() == states::parse_safe(stream@),
    {
        let p = VtParser {
            term_actions: VecDeque::new(),
            stream: chars_of(stream),
            pos: 0,
            state: ParserState::Ground(Ground),
        };
        assert(p.queue() =~= Seq::<CodeV>::empty());
        assert(p.pending() =~= states::parse(stream@));
        p
    }

    /// Whether reading all of `stream` overflows no counter, that is, whether
    /// a parser made by [`VtParser::new`] on it may be asked for every code it
    /// holds (see [`VtParser::lemma_runs_safely_next_safe`]).
    pub fn input_is_safe(stream: &str) -> (b: bool)
        ensures
            b == states::parse_safe(stream@),
    {
        let mut p = VtParser::new(stream);
        loop
            invariant
                p.wf(),
                run_safe(p.state(), p.input(), p.position()) == states::parse_safe(stream@),
            decreases measure(p.state(), p.input(), p.position()),
        {
            let st = p.state;
            let ghost input = p.input();
            let ghost pos = p.position();
            proof {
                states::lemma_step_progress(st, input, pos);
            }
            let n = match st {
                ParserState::ControlSequence(_) => {
                    let fits = states::csi_fits(&p.stream, p.pos);
                    proof {
                        let after = step(st, input, pos).pos;
                        assert(step(ParserState::Ground(Ground), input, after).next is None);
                        assert(run_safe(ParserState::Ground(Ground), input, after));
                    }
                    return fits;
                },
                ParserState::Ground(g) => g.next(&mut p),
                ParserState::EscapeSeq(e) => e.next(&mut p),
                ParserState::SystemCommandSequence(o) => o.next(&mut p),
                ParserState::TwoCharSequence(t) => t.next(&mut p),
            };
            p.term_actions = VecDeque::new();
            match n {
                Some(next_state) => {
                    p.state = next_state;
                },
                None => {
                    return true;
                },
            }
        }
    }

    /// Whether the next call of [`VtParser::next`] overflows no counter. The
    /// parser is left as it was.
    pub fn next_is_safe(&mut self) -> (b: bool)
        requires
            old(self).wf(),
        ensures
            b == old(self).next_safe(),
            final(self).wf(),
            final(self).input() == old(self).input(),
            final(self).position() == old(self).position(),
            final(self).state() == old(self).state(),
            final(self).queue() == old(self).queue(),
    {
        if self.term_actions.len() > 0 {
            return true;
        }
        assert(self.queue() =~= Seq::<CodeV>::empty());
        let pos0 = self.pos;
        let st0 = self.state;
        let ghost input = self.input();
        let mut result = true;
        loop
            invariant_except_break
                self.queue().len() == 0,
                safe_until_output(self.state(), input, self.position()) == safe_until_output(
                    st0,
                    input,
                    pos0 as nat,
                ),
            invariant
                self.wf(),
                self.input() == input,
            ensures
                self.wf(),
                self.input() == input,
                result == safe_until_output(st0, input, pos0 as nat),
            decreases measure(self.state(), self.input(), self.position()),
        {
            let st = self.state;
            let ghost pos = self.position();
            proof {
                states::lemma_step_progress(st, input, pos);
            }
            let n = match st {
                ParserState::ControlSequence(_) => {
                    result = states::csi_fits(&self.stream, self.pos);
                    proof {
                        let after = step(st, input, pos).pos;
                        assert(step(ParserState::Ground(Ground), input, after).next is None);
                        assert(safe_until_output(ParserState::Ground(Ground), input, after));
                    }
                    break ;
                },
                ParserState::Ground(g) => g.next(self),
                ParserState::EscapeSeq(e) => e.next(self),
                ParserState::SystemCommandSequence(o) => o.next(self),
                ParserState::TwoCharSequence(t) => t.next(self),
            };
            if self.term_actions.len() > 0 {
                assert(self.queue().len() > 0);
                assert(step(st, input, pos).codes.len() > 0);
                result = true;
                break ;
            }
            assert(self.queue().len() == 0);
            assert(step(st, input, pos).codes.len() == 0);
            match n {
                Some(next_state) => {
                    self.state = next_state;
                },
                None => {
                    result = true;
                    break ;
                },
            }
        }
        self.term_actions = VecDeque::new();
        self.pos = pos0;
        self.state = st0;
        assert(self.queue() =~= old(self).queue());
        result
    }

    /// Hands out the next code: the front of the queue, or else the first code
    /// that reading on gives; `None` once the input is used up.
    pub fn next(&mut self) -> (r: Option<Code>)
        requires
            old(self).wf(),
            old(self).next_safe(),
        ensures
            final(self).wf(),
            old(self).runs_safely() ==> final(self).runs_safely(),
            final(self).input() == old(self).input(),
            final(self).position() >= old(self).position(),
            old(self).pending().len() == 0 ==> r is None && final(self).pending().len() == 0,
            old(self).pending().len() > 0 ==> (r matches Some(c) && c@ == old(self).pending()[0]
                && final(self).pending() == old(self).pending().drop_first()),
            old(self).queue().len() > 0 ==> final(self).queue() == old(self).queue().drop_first()
                && final(self).position() == old(self).position() && final(self).state() == old(
                self,
            ).state(),
            r is None ==> final(self).position() == final(self).input().len(),
            r is None ==> final(self).next_safe(),
    {
        loop
            invariant
                self.wf(),
                self.queue().len() > 0 || safe_until_output(self.state(), self.input(), self.position()),
                old(self).runs_safely() ==> self.runs_safely(),
                self.input() == old(self).input(),
                self.position() >= old(self).position(),
                self.pending() == old(self).pending(),
                old(self).queue().len() > 0 ==> self.queue() == old(self).queue() && self.position()
                    == old(self).position() && self.state() == old(self).state(),
            ensures
                self.wf(),
                old(self).runs_safely() ==> self.runs_safely(),
                self.next_safe(),
                self.input() == old(self).input(),
                self.position() >= old(self).position(),
                self.pending() == old(self).pending(),
                self.pending().len() == 0,
                self.position() == self.input().len(),
            decreases measure(self.state(), self.input(), self.position()),
        {
            let ghost q = self.queue();
            let ghost rest = run(self.state(), self.input(), self.position());
            match self.get() {
                Some(x) => {
                    assert((q + rest).drop_first() =~= q.drop_first() + rest);
                    return Some(x);
                },
                None => {
                    let st = self.state;
                    let ghost p0 = self.position();
                    let ghost s = step(st, self.input(), p0);
                    proof {
                        states::lemma_step_progress(st, self.input(), self.position());
                    }
                    let n = match st {
                        ParserState::Ground(g) => g.next(self),
                        ParserState::EscapeSeq(e) => e.next(self),
                        ParserState::ControlSequence(c) => c.next(self),
                        ParserState::SystemCommandSequence(o) => o.next(self),
                        ParserState::TwoCharSequence(t) => t.next(self),
                    };
                    match n {
                        Some(next_state) => {
                            self.state = next_state;
                            assert(self.queue() =~= s.codes);
                        },
                        None => {
                            proof {
                                lemma_step_end(st, self.input(), p0);
                            }
                            assert(self.queue() =~= Seq::<CodeV>::empty());
                            break ;
                        },
                    }
                },
            }
        }
        None
    }

    /// Appends a code at the back of the queue.
    pub fn emit(&mut self, term: Code)
        requires
            old(self).wf(),
        ensures
            final(self).wf(),
            final(self).queue() == old(self).queue().push(term@),
            final(self).input() == old(self).input(),
            final(self).position() == old(self).position(),
            final(self).state() == old(self).state(),
    {
        self.term_actions.push_back(term);
        assert(self.term_actions@.map_values(|c: Code| c@) =~= old(self).term_actions@.map_values(
            |c: Code| c@,
        ).push(term@));
    }

    /// Emits an error code with the description `msg`.
    pub fn error_msg(&mut self, msg: String)
        requires
            old(self).wf(),
        ensures
            final(self).wf(),
            final(self).queue() == old(self).queue().push(Code::Error(msg@)),
            final(self).input() == old(self).input(),
            final(self).position() == old(self).position(),
            final(self).state() == old(self).state(),
    {
        self.emit(Code::Error(msg));
    }

    /// Emits an error code whose description is the sequence `chars` that
    /// could not be understood.
    pub fn error(&mut self, chars: &[char])
        requires
            old(self).wf(),
        ensures
            final(self).wf(),
            final(self).queue() == old(self).queue().push(Code::Error(chars@)),
            final(self).input() == old(self).input(),
            final(self).position() == old(self).position(),
            final(self).state() == old(self).state(),
    {
        let s = string_from_chars(chars);
        self.emit(Code::Error(s));
    }

    /// Takes the code at the front of the queue, if there is one.
    pub fn get(&mut self) -> (r: Option<Code>)
        requires
            old(self).wf(),
        ensures
            final(self).wf(),
            old(self).queue().len() == 0 ==> r is None && final(self).queue() == old(self).queue(),
            old(self).queue().len() > 0 ==> (r matches Some(c) && c@ == old(self).queue()[0]
                && final(self).queue() == old(self).queue().drop_first()),
            final(self).input() == old(self).input(),
            final(self).position() == old(self).position(),
            final(self).state() == old(self).state(),
    {
        let r = self.term_actions.pop_front();
        if r.is_some() {
            assert(self.term_actions@.map_values(|c: Code| c@) =~= old(self).term_actions@.map_values(
                |c: Code| c@,
            ).drop_first());
        }
        r
    }

    /// Reads the next character of the input, if any is left.
    pub(crate) fn next_char(&mut self) -> (r: Option<char>)
        requires
            old(self).wf(),
        ensures
            final(self).wf(),
            final(self).input() == old(self).input(),
            final(self).queue() == old(self).queue(),
            final(self).state() == old(self).state(),
            old(self).position() < old(self).input().len() ==> r == Some(
                old(self).input()[old(self).position() as int],
            ) && final(self).position() == old(self).position() + 1,
            old(self).position() >= old(self).input().len() ==> r is None && final(self).position()
                == old(self).position(),
    {
        if self.pos < self.stream.len() {
            let c = self.stream[self.pos];
            self.pos = self.pos + 1;
            Some(c)
        } else {
            None
        }
    }

    /// Reads the run of text characters that starts at the read position.
    pub(crate) fn take_text(&mut self) -> (run: String)
        requires
            old(self).wf(),
        ensures
            final(self).wf(),
            final(self).input() == old(self).input(),
            final(self).queue() == old(self).queue(),
            final(self).state() == old(self).state(),
            final(self).position() == old(self).position() + text_run_len(
                old(self).input().skip(old(self).position() as int),
            ),
            run@ == old(self).input().subrange(
                old(self).position() as int,
                final(self).position() as int,
            ),
    {
        let run = take_text_run(&self.stream, self.pos);
        let n = run.as_str().unicode_len();
        proof {
            let rest = self.stream@.skip(self.pos as int);
            assert forall|i: int| 0 <= i < n implies crate::text::is_text_char(#[trigger] rest[i]) by {
                assert(rest[i] == run@[i]);
            }
            crate::text::lemma_text_run_unique(rest, n as int);
        }
        assert(self.pos + n <= self.stream.len());
        self.pos = self.pos + n;
        run
    }
}

} // verus!
