//! The decisions of the refresh loop: when to take a new snapshot and which keys quit.
use vstd::prelude::*;

verus! {

/// The interval between snapshots, in milliseconds (about one refresh a second).
pub const REFRESH_MS: u64 = 1000;

/// Whether a new snapshot is due, `elapsed_ms` after the previous one.
pub fn refresh_due(elapsed_ms: u64) -> (due: bool)
    ensures
        due == (elapsed_ms >= REFRESH_MS),
{
    elapsed_ms >= REFRESH_MS
}

/// A key as the refresh loop tells keys apart.
pub enum Key {
    Char(char),
    Esc,
    Other,
}

/// Whether a key event ends the program: a press (not a release or repeat) of `q` or Esc.
pub fn quits(pressed: bool, key: &Key) -> (quit: bool)
    ensures
        quit == (pressed && (*key == Key::Char('q') || *key == Key::Esc)),
{
    if !pressed {
        return false;
    }
    match key {
        Key::Char(c) => *c == 'q',
        Key::Esc => true,
        Key::Other => false,
    }
}

} // verus!
