//! Control characters of ASCII, and the C1 string terminator.
use vstd::prelude::*;

verus! {

/// Enquiry (Ctrl-E).
pub const ENQ: char = '\x05';

/// Bell (Ctrl-G).
pub const BEL: char = '\x07';

/// Backspace (Ctrl-H).
pub const BS: char = '\x08';

/// Horizontal tab (Ctrl-I).
pub const HT: char = '\x09';

/// Line feed (Ctrl-J).
pub const LF: char = '\x0A';

/// Vertical tab (Ctrl-K).
pub const VT: char = '\x0B';

/// Form feed (Ctrl-L).
pub const FF: char = '\x0C';

/// Carriage return (Ctrl-M).
pub const CR: char = '\x0D';

/// Shift out (Ctrl-N).
pub const SO: char = '\x0E';

/// Shift in (Ctrl-O).
pub const SI: char = '\x0F';

/// Escape.
pub const ESC: char = '\x1B';

/// String terminator (C1 control).
pub const ST: char = '\u{9C}';

} // verus!
