//! A parser for the input of a VT100-style terminal: plain text, control
//! characters, escape sequences, control sequences (CSI) and operating system
//! commands (OSC), turned into a stream of codes.
pub mod ascii;
pub mod emulator;
pub mod parser;
pub mod text;
pub mod terminal;
