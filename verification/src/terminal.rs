//! Terminal-facing data types: positions, sizes, commands, events and
//! key descriptions.
use vstd::prelude::*;

use crate::face::Face;

verus! {

/// A terminal cell position, row-major, zero-based.
#[derive(Clone, Copy, PartialEq, Eq, Structural, Debug, Hash)]
pub struct Position {
    pub row: usize,
    pub col: usize,
}

impl Position {
    /// Build a position from its coordinates.
    pub fn new(row: usize, col: usize) -> (r: Position)
        ensures
            r == (Position { row, col }),
    {
        Position { row, col }
    }
}

/// A rectangle measured in cells.
#[derive(Clone, Copy, PartialEq, Eq, Structural, Debug, Hash)]
pub struct Size {
    pub height: usize,
    pub width: usize,
}

impl Size {
    /// Build a size from its extents.
    pub fn new(height: usize, width: usize) -> (r: Size)
        ensures
            r == (Size { height, width }),
    {
        Size { height, width }
    }
}

/// The terminal's geometry: extent in cells and in pixels.
#[derive(Clone, Copy, PartialEq, Eq, Structural, Debug, Hash)]
pub struct TerminalSize {
    pub width: usize,
    pub height: usize,
    pub width_pixels: usize,
    pub height_pixels: usize,
}

impl TerminalSize {
    /// The pixel size of a single cell; zero when the cell grid is
    /// degenerate.
    pub fn cell_size(&self) -> (r: Size)
        ensures
            self.width > 0 && self.height > 0 ==> r == (Size {
                height: (self.height_pixels / self.height) as usize,
                width: (self.width_pixels / self.width) as usize,
            }),
            self.width == 0 || self.height == 0 ==> r == (Size { height: 0usize, width: 0usize }),
    {
        if self.width == 0 || self.height == 0 {
            Size { height: 0, width: 0 }
        } else {
            Size { height: self.height_pixels / self.height, width: self.width_pixels / self.width }
        }
    }
}

impl crate::image::Image {
    /// How many cells the image covers on a given terminal.
    pub fn size_cells(&self, term_size: TerminalSize) -> (r: Size)
        ensures
            term_size.width > 0 && term_size.height > 0 && term_size.width_pixels
                / term_size.width > 0 && term_size.height_pixels / term_size.height > 0 ==> r
                == (Size {
                height: (self.height / (term_size.height_pixels / term_size.height)) as usize,
                width: (self.width / (term_size.width_pixels / term_size.width)) as usize,
            }),
            term_size.width == 0 || term_size.height == 0 || term_size.width_pixels
                / term_size.width == 0 || term_size.height_pixels / term_size.height == 0 ==> r
                == (Size { height: 0usize, width: 0usize }),
    {
        let cell_size = term_size.cell_size();
        if cell_size.width == 0 || cell_size.height == 0 {
            return Size { height: 0, width: 0 };
        }
        Size { height: self.height / cell_size.height, width: self.width / cell_size.width }
    }
}

/// DEC private modes the renderer toggles and queries.
#[derive(Clone, Copy, PartialEq, Eq, Structural, Debug, Hash)]
pub enum DecMode {
    /// Visibility of the cursor
    VisibleCursor,
    /// Wrapping of the text when it reaches end of the line
    AutoWrap,
    /// Enable/Disable mouse reporting
    MouseReport,
    /// Report mouse motion events if `MouseReport` is enabled
    MouseMotions,
    /// Report mouse event in SGR format
    MouseSGR,
    /// Alternative screen mode
    AltScreen,
    /// Kitty keyboard mode
    KittyKeyboard,
}

/// The numeric code of a DEC mode on the wire.
pub open spec fn dec_mode_code(mode: DecMode) -> int {
    match mode {
        DecMode::VisibleCursor => 25,
        DecMode::AutoWrap => 7,
        DecMode::MouseReport => 1000,
        DecMode::MouseMotions => 1003,
        DecMode::MouseSGR => 1006,
        DecMode::AltScreen => 1049,
        DecMode::KittyKeyboard => 2017,
    }
}

impl DecMode {
    /// The mode's numeric code.
    pub fn to_usize(self) -> (r: usize)
        ensures
            r == dec_mode_code(self),
    {
        match self {
            DecMode::VisibleCursor => 25,
            DecMode::AutoWrap => 7,
            DecMode::MouseReport => 1000,
            DecMode::MouseMotions => 1003,
            DecMode::MouseSGR => 1006,
            DecMode::AltScreen => 1049,
            DecMode::KittyKeyboard => 2017,
        }
    }

    /// The mode with the given code, or `None` for an unknown code.
    pub fn from_usize(code: usize) -> (r: Option<DecMode>)
        ensures
            r matches Some(mode) ==> dec_mode_code(mode) == code,
            r is None ==> forall|mode: DecMode| dec_mode_code(mode) != code,
    {
        match code {
            25 => Some(DecMode::VisibleCursor),
            7 => Some(DecMode::AutoWrap),
            1000 => Some(DecMode::MouseReport),
            1003 => Some(DecMode::MouseMotions),
            1006 => Some(DecMode::MouseSGR),
            1049 => Some(DecMode::AltScreen),
            2017 => Some(DecMode::KittyKeyboard),
            _ => None,
        }
    }
}

/// Status of a DEC mode as reported by the terminal.
#[derive(Clone, Copy, PartialEq, Eq, Structural, Debug, Hash)]
pub enum DecModeStatus {
    NotRecognized,
    Enabled,
    Disabled,
    PermanentlyEnabled,
    PermanentlyDisabled,
}

/// The numeric code of a DEC mode status on the wire.
pub open spec fn dec_mode_status_code(status: DecModeStatus) -> int {
    match status {
        DecModeStatus::NotRecognized => 0,
        DecModeStatus::Enabled => 1,
        DecModeStatus::Disabled => 2,
        DecModeStatus::PermanentlyEnabled => 3,
        DecModeStatus::PermanentlyDisabled => 4,
    }
}

impl DecModeStatus {
    /// The status's numeric code.
    pub fn to_usize(self) -> (r: usize)
        ensures
            r == dec_mode_status_code(self),
    {
        match self {
            DecModeStatus::NotRecognized => 0,
            DecModeStatus::Enabled => 1,
            DecModeStatus::Disabled => 2,
            DecModeStatus::PermanentlyEnabled => 3,
            DecModeStatus::PermanentlyDisabled => 4,
        }
    }

    /// The status with the given code, or `None` for an unknown code.
    pub fn from_usize(code: usize) -> (r: Option<DecModeStatus>)
        ensures
            r matches Some(status) ==> dec_mode_status_code(status) == code,
            r is None ==> forall|status: DecModeStatus| dec_mode_status_code(status) != code,
    {
        match code {
            0 => Some(DecModeStatus::NotRecognized),
            1 => Some(DecModeStatus::Enabled),
            2 => Some(DecModeStatus::Disabled),
            3 => Some(DecModeStatus::PermanentlyEnabled),
            4 => Some(DecModeStatus::PermanentlyDisabled),
            _ => None,
        }
    }
}

/// Commands the renderer schedules for the terminal.
#[derive(Clone, Copy, PartialEq, Eq, Debug)]
pub enum TerminalCommand {
    /// Control specified DEC mode (DECSET|DECRST)
    DecModeSet { enable: bool, mode: DecMode },
    /// Report specified DEC mode (DECRQM)
    DecModeReport(DecMode),
    /// Request current cursor position
    CursorReport,
    /// Move cursor to specified row and column
    CursorTo { row: usize, col: usize },
    /// Save current cursor position
    CursorSave,
    /// Restore previously saved cursor position
    CursorRestore,
    /// Erase line using current background color to the left of the cursor
    EraseLineLeft,
    /// Erase line using current background color to the right of the cursor
    EraseLineRight,
    /// Erase line using current background color
    EraseLine,
    /// Set current face (foreground/background colors and text attributes)
    Face(Face),
    /// Full reset of the terminal
    Reset,
}

/// Named keys.
#[derive(Clone, Copy, PartialEq, Eq, Structural, Debug, Hash)]
pub enum KeyName {
    F1,
    F2,
    F3,
    F4,
    F5,
    F6,
    F7,
    F8,
    F9,
    F10,
    F11,
    F12,
    Esc,
    PageUp,
    PageDown,
    Home,
    End,
    Up,
    Down,
    Right,
    Left,
    Char(char),
    MouseRight,
    MouseMove,
    MouseLeft,
    MouseMiddle,
    MouseWheelUp,
    MouseWheelDown,
}

/// Key modifiers, a small bit set.
#[derive(Clone, Copy, PartialEq, Eq, Structural, Debug, Hash)]
pub struct KeyMod {
    pub bits: u8,
}

impl KeyMod {
    /// No modifiers.
    pub fn empty() -> (r: KeyMod)
        ensures
            r.bits == 0,
    {
        KeyMod { bits: 0 }
    }

    /// The shift modifier.
    pub fn shift() -> (r: KeyMod)
        ensures
            r.bits == 1,
    {
        KeyMod { bits: 1 }
    }

    /// The alt modifier.
    pub fn alt() -> (r: KeyMod)
        ensures
            r.bits == 2,
    {
        KeyMod { bits: 2 }
    }

    /// The control modifier.
    pub fn ctrl() -> (r: KeyMod)
        ensures
            r.bits == 4,
    {
        KeyMod { bits: 4 }
    }

    /// The press modifier.
    pub fn press() -> (r: KeyMod)
        ensures
            r.bits == 8,
    {
        KeyMod { bits: 8 }
    }

    /// True when no modifier is set.
    pub fn is_empty(self) -> (r: bool)
        ensures
            r == (self.bits == 0),
    {
        self.bits == 0
    }

    /// Whether all modifiers of `other` are set in `self`.
    pub fn contains(self, other: KeyMod) -> (r: bool)
        ensures
            r == (self.bits & other.bits == other.bits),
    {
        self.bits & other.bits == other.bits
    }

    /// Build a modifier set from raw bits.
    pub fn from_bits(bits: u8) -> (r: KeyMod)
        ensures
            r.bits == bits,
    {
        KeyMod { bits }
    }
}

/// A key press: the key plus its modifiers.
#[derive(Clone, Copy, PartialEq, Eq, Structural, Debug, Hash)]
pub struct Key {
    pub name: KeyName,
    pub mode: KeyMod,
}

impl Key {
    /// Build a key from its name and modifiers.
    pub fn new(name: KeyName, mode: KeyMod) -> (r: Key)
        ensures
            r == (Key { name, mode }),
    {
        Key { name, mode }
    }
}

/// A mouse event: button, modifiers and cell position.
#[derive(Clone, Copy, PartialEq, Eq, Structural, Debug, Hash)]
pub struct Mouse {
    pub name: KeyName,
    pub mode: KeyMod,
    pub row: usize,
    pub col: usize,
}

/// Events delivered by the terminal. The image pipeline interprets only
/// `KittyImage` acknowledgments and ignores the rest.
#[derive(Clone, PartialEq, Eq, Debug)]
pub enum TerminalEvent {
    /// Key press event
    Key(Key),
    /// Mouse event
    Mouse(Mouse),
    /// Current cursor position
    CursorPosition { row: usize, col: usize },
    /// Terminal was resized
    Resize(TerminalSize),
    /// Current terminal size
    Size(TerminalSize),
    /// DEC mode status
    DecMode { mode: DecMode, status: DecModeStatus },
    /// Kitty graphics acknowledgment for a transferred image; a present
    /// `error` means the terminal rejected the transfer.
    KittyImage { id: u32, error: Option<String> },
    /// Unrecognized bytes
    Raw(Vec<u8>),
}

/// Failures reported by a terminal implementation.
#[derive(Debug)]
pub enum TerminalError {
    /// An I/O failure, described by the surrounding runtime.
    IOError(String),
    /// The terminal was closed.
    Closed,
    /// The device is not a terminal.
    NotATTY,
}

} // verus!
