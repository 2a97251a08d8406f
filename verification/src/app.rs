//! Screen and input modes of the owning terminal application.
//!
//! The interactive front end itself (rendering, key handling) lives outside
//! the library; these two enums are the plain state it steps through.

use vstd::prelude::*;

verus! {

/// Which screen the terminal application currently shows.
#[derive(Debug, Clone, Copy, PartialEq, Eq, Structural)]
pub enum CurrentScreen {
    Main,
    Editing,
    Setting,
    Exiting,
}

/// Whether keystrokes are treated as commands or as text being edited.
#[derive(Debug, Clone, Copy, PartialEq, Eq, Structural)]
pub enum InputMode {
    Normal,
    Editing,
}

} // verus!
