# vt100

A parser for the input of a VT100-style terminal, verified with Verus. It reads
a string and yields codes: runs of plain text, single control characters,
escape sequences, control sequences (CSI, including SGR character attributes)
and operating system commands (OSC, window title and current path).

Layout of `src/`:

- `parser/` — `VtParser` and its states. `states.rs` holds the specification
  of each state (`step`) and of a whole input (`parse`); `VtParser::new` and
  `VtParser::next` are proved to hand out exactly `parse(input)`, in order.
  `style.rs` holds the SGR attributes and colors, `codes.rs` the codes,
  `laws.rs` properties proved for whole families of input.
- `emulator.rs` — `VtEmulator`, a smaller front end that knows plain text, the
  bell, backspace and the insert-blank-characters control sequence.
- `text.rs` — runs of text characters (through `itertools`), decimal
  rendering and parsing of numbers.
- `ascii.rs` — the control characters; `terminal.rs` — terminal actions.

Reading a number in a control sequence beyond 32 bits overflows; `next`
therefore asks for `next_safe()`: the queue holds a code, or the steps it runs
up to the first code (or the end of the input) overflow nothing. `next_is_safe`
tests that at run time, and `input_is_safe` tests a whole input.
