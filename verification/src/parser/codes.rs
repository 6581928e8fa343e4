//! The codes that the parser yields for a stream of terminal input.
use vstd::prelude::*;
use super::style::Color;
use super::style::Style;

verus! {

/// One action for the terminal. `S` is the type of the text that some codes
/// carry: `String` in executable code, `Seq<char>` in specifications.
#[derive(Clone, Debug, PartialEq)]
pub enum Code<S = String> {
    /// Bell (Ctrl-G)
    Bell,
    /// Backspace (Ctrl-H)
    Backspace,
    /// Carriage return (Ctrl-M)
    CarriageReturn,
    /// Return terminal status (Ctrl-E). Default response is an empty string
    ReturnTerminalStatus,
    /// Form Feed (FF), New Page (NP), Line Feed (FF), New Line (NL) or Vertical Tab (Ctrl-K). All are treated the same.
    NewLine,
    /// Horizontal Tab (HT) (Ctrl-I)
    HorizontalTab,
    /// Plain characters
    Chars(S),
    // Escape sequences (starting with ESC)
    /// IND
    Index,
    /// NEL
    NextLine,
    /// HTS
    HorizontalTabSet,
    /// RI
    ReverseIndex,
    /// Single Shift Select of G2(G3) Character Set (SS2/SS3). This affects next character only.
    SingleShiftSelect(u32),
    /// Back Index (DECBI), VT420 and up
    BackIndex,
    /// DECSC
    SaveCursor,
    /// DECRC
    RestoreCursor,
    /// Forward Index (DECFI), VT420 and up
    ForwardIndex,
    /// Application Keypad (DECKPAM)
    ApplicationKeypad,
    /// Normal Keypad (DECKPNM)
    NormalKeypad,
    /// Cursor to lower left corner of the screen
    CursorToLowerLeft,
    /// Full Reset (RIS)
    FullReset,
    /// Invoke the G2/G3 Character Set as GL - locking shift 2/3 (LS2/LS3)
    MapCharsetToGL(u32),
    /// Invoke the G2/G3 Character Set as GR - locking shift 2/3, right (LS2R/LS3R)
    MapCharsetToGR(u32),
    // Two-char sequences
    /// 7-bit controls
    Charset7Bit,
    /// 8-bit controls
    Charset8Bit,
    /// ANSI conformance levels
    AnsiConformanceLevel(u32),
    /// DEC screen alignment test: fill the screen with E
    FillScreenE,
    /// Select default character set. That is ISO 8859-1
    SelectDefaultCharset,
    /// Select UTF-8 character set
    SelectUtf8Charset,
    /// Designate G[0,1,2,3] Character set
    DesignateCharset(u32, char),
    // Control sequences (starting with ESC [)
    /// ICH
    InsertBlankCharacters(u32),
    /// CUU
    CursorUp(u32),
    /// CUD
    CursorDown(u32),
    /// CUF
    CursorForward(u32),
    /// CUB
    CursorBackward(u32),
    /// CNL
    CursorNextLine(u32),
    /// CPL
    CursorPrecedingLine(u32),
    /// CHA
    CursorHorizontalAbsolute(u32),
    /// CUP
    CursorPosition { x: u32, y: u32 },
    /// ED
    EraseInDisplay(u32),
    /// DECSED
    SelectiveEraseInDisplay(u32),
    /// EL
    EraseInLine(u32),
    /// DECSEL
    SelectiveEraseInLine(u32),
    /// IL
    InsertLines(u32),
    /// DL
    DeleteLines(u32),
    /// ECH
    EraseCharacters(u32),
    /// DCH
    DeleteCharacters(u32),
    /// SU
    ScrollUp(u32),
    /// SD
    ScrollDown(u32),
    /// Primary DA
    SendPrimaryDeviceAttributes,
    /// Secondary DA
    SendSecondaryDeviceAttributes,
    /// VPA
    LinePositionAbsolute(u32),
    /// TBC
    TabClear(u32),
    /// SM
    SetMode(u32),
    /// DECSET
    SetDecPrivateMode(u32),
    /// RM
    ResetMode(u32),
    /// DECRST
    ResetDECPrivateMode(u32),
    /// SGR
    CharacterAttributes,
    /// Restore DEC private mode values
    RestoreDecPrivateMode,
    /// DSR
    DeviceStatusReport(u32),
    /// DEC-specific device status report
    DecDeviceStatusReport,
    /// DECSTBM
    SetScrollingRegion { top: u32, bottom: u32 },
    /// Resize the text area
    Resize { width: u32, height: u32 },
    /// Window title
    WindowTitle(S),
    /// Current working directory
    CurrentPath(S),
    // Style
    /// Reset all character attributes
    DefaultStyle,
    /// Turn a character attribute on or off
    StyleOption(Style, bool),
    /// Foreground color
    Foreground(Color),
    /// Background color
    Background(Color),
    /// A sequence that could not be understood, with a description
    Error(S),
}

/// A code as specifications see it: its text as a sequence of characters.
pub type CodeV = Code<Seq<char>>;

impl View for Code<String> {
    type V = Code<Seq<char>>;

    open spec fn view(&self) -> Code<Seq<char>> {
        match self {
            Code::Bell => Code::Bell,
            Code::Backspace => Code::Backspace,
            Code::CarriageReturn => Code::CarriageReturn,
            Code::ReturnTerminalStatus => Code::ReturnTerminalStatus,
            Code::NewLine => Code::NewLine,
            Code::HorizontalTab => Code::HorizontalTab,
            Code::Chars(s) => Code::Chars(s@),
            Code::Index => Code::Index,
            Code::NextLine => Code::NextLine,
            Code::HorizontalTabSet => Code::HorizontalTabSet,
            Code::ReverseIndex => Code::ReverseIndex,
            Code::SingleShiftSelect(n) => Code::SingleShiftSelect(*n),
            Code::BackIndex => Code::BackIndex,
            Code::SaveCursor => Code::SaveCursor,
            Code::RestoreCursor => Code::RestoreCursor,
            Code::ForwardIndex => Code::ForwardIndex,
            Code::ApplicationKeypad => Code::ApplicationKeypad,
            Code::NormalKeypad => Code::NormalKeypad,
            Code::CursorToLowerLeft => Code::CursorToLowerLeft,
            Code::FullReset => Code::FullReset,
            Code::MapCharsetToGL(n) => Code::MapCharsetToGL(*n),
            Code::MapCharsetToGR(n) => Code::MapCharsetToGR(*n),
            Code::Charset7Bit => Code::Charset7Bit,
            Code::Charset8Bit => Code::Charset8Bit,
            Code::AnsiConformanceLevel(n) => Code::AnsiConformanceLevel(*n),
            Code::FillScreenE => Code::FillScreenE,
            Code::SelectDefaultCharset => Code::SelectDefaultCharset,
            Code::SelectUtf8Charset => Code::SelectUtf8Charset,
            Code::DesignateCharset(n, c) => Code::DesignateCharset(*n, *c),
            Code::InsertBlankCharacters(n) => Code::InsertBlankCharacters(*n),
            Code::CursorUp(n) => Code::CursorUp(*n),
            Code::CursorDown(n) => Code::CursorDown(*n),
            Code::CursorForward(n) => Code::CursorForward(*n),
            Code::CursorBackward(n) => Code::CursorBackward(*n),
            Code::CursorNextLine(n) => Code::CursorNextLine(*n),
            Code::CursorPrecedingLine(n) => Code::CursorPrecedingLine(*n),
            Code::CursorHorizontalAbsolute(n) => Code::CursorHorizontalAbsolute(*n),
            Code::CursorPosition { x, y } => Code::CursorPosition { x: *x, y: *y },
            Code::EraseInDisplay(n) => Code::EraseInDisplay(*n),
            Code::SelectiveEraseInDisplay(n) => Code::SelectiveEraseInDisplay(*n),
            Code::EraseInLine(n) => Code::EraseInLine(*n),
            Code::SelectiveEraseInLine(n) => Code::SelectiveEraseInLine(*n),
            Code::InsertLines(n) => Code::InsertLines(*n),
            Code::DeleteLines(n) => Code::DeleteLines(*n),
            Code::EraseCharacters(n) => Code::EraseCharacters(*n),
            Code::DeleteCharacters(n) => Code::DeleteCharacters(*n),
            Code::ScrollUp(n) => Code::ScrollUp(*n),
            Code::ScrollDown(n) => Code::ScrollDown(*n),
            Code::SendPrimaryDeviceAttributes => Code::SendPrimaryDeviceAttributes,
            Code::SendSecondaryDeviceAttributes => Code::SendSecondaryDeviceAttributes,
            Code::LinePositionAbsolute(n) => Code::LinePositionAbsolute(*n),
            Code::TabClear(n) => Code::TabClear(*n),
            Code::SetMode(n) => Code::SetMode(*n),
            Code::SetDecPrivateMode(n) => Code::SetDecPrivateMode(*n),
            Code::ResetMode(n) => Code::ResetMode(*n),
            Code::ResetDECPrivateMode(n) => Code::ResetDECPrivateMode(*n),
            Code::CharacterAttributes => Code::CharacterAttributes,
            Code::RestoreDecPrivateMode => Code::RestoreDecPrivateMode,
            Code::DeviceStatusReport(n) => Code::DeviceStatusReport(*n),
            Code::DecDeviceStatusReport => Code::DecDeviceStatusReport,
            Code::SetScrollingRegion { top, bottom } => Code::SetScrollingRegion {
                top: *top,
                bottom: *bottom,
            },
            Code::Resize { width, height } => Code::Resize { width: *width, height: *height },
            Code::WindowTitle(s) => Code::WindowTitle(s@),
            Code::CurrentPath(s) => Code::CurrentPath(s@),
            Code::DefaultStyle => Code::DefaultStyle,
            Code::StyleOption(st, on) => Code::StyleOption(*st, *on),
            Code::Foreground(c) => Code::Foreground(*c),
            Code::Background(c) => Code::Background(*c),
            Code::Error(s) => Code::Error(s@),
        }
    }
}

} // verus!
