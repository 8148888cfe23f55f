//! Core of a terminal-resident viewer for a single plain-text file.
//!
//! The library owns the logic that keeps a byte offset into the file, a
//! rendered window of lines, and a screen-relative cursor mutually consistent
//! while the user scrolls and moves. The surrounding program does the I/O: it
//! reads chunks from the file, draws rows, decodes key presses into
//! [`KeyEvent`] values, and performs the [`KeyAction`] each key produces.

use vstd::prelude::*;

pub mod command;
pub mod pagination;
pub mod widget;

verus! {

/// A key press, handed in by the surrounding program once it has decoded the
/// raw terminal input.
#[derive(Clone, Copy, Debug, PartialEq, Eq, Structural)]
pub enum KeyEvent {
    /// A printable character key.
    Char(char),
    /// The return key.
    Enter,
    /// The backspace key.
    Backspace,
    /// Any key the viewer does not react to.
    Other,
}

/// What the surrounding program must do after a key has been processed.
#[derive(Clone, Copy, Debug, PartialEq, Eq, Structural)]
pub enum KeyAction {
    /// Nothing to perform.
    Nothing,
    /// Echo one character after the command prompt.
    Echo(char),
    /// Erase the last echoed character of the command line.
    Erase,
    /// Write the serialized window back to the backing store.
    Write,
    /// Clear the screen and leave the main loop.
    Quit,
    /// Write the window back, then clear the screen and leave the main loop.
    WriteQuit,
    /// Seek the backing store to the edit offset under the cursor.
    Insert,
}

/// The input mode the viewer is in.
#[derive(Clone, Copy, Debug, PartialEq, Eq, Structural)]
pub enum InputMode {
    /// Directional keys move the cursor and scroll the window.
    Normal,
    /// Keys accumulate into a pending command line until the return key.
    Command,
}

} // verus!
