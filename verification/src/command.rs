//! The command-line sub-mode: a pending string of typed characters, finished
//! by the return key, from which the viewer reads its intent. Any `w` in the
//! finished command asks for a write, any `q` asks to quit; every other
//! character is ignored.

use vstd::prelude::*;

use crate::KeyAction;

verus! {

/// The intent of a finished command line.
pub open spec fn command_action(pending: Seq<char>) -> KeyAction {
    if pending.contains('w') && pending.contains('q') {
        KeyAction::WriteQuit
    } else if pending.contains('w') {
        KeyAction::Write
    } else if pending.contains('q') {
        KeyAction::Quit
    } else {
        KeyAction::Nothing
    }
}

/// Whether `s` holds the character `c`.
pub fn contains_char(s: &Vec<char>, c: char) -> (r: bool)
    ensures
        r == s@.contains(c),
{
    let mut i: usize = 0;
    while i < s.len()
        invariant
            i <= s@.len(),
            forall|j: int| 0 <= j < i ==> s@[j] != c,
        decreases s@.len() - i,
    {
        if s[i] == c {
            return true;
        }
        i = i + 1;
    }
    proof {
        assert(!s@.contains(c));
    }
    false
}

/// Reads the intent out of a pending command line.
pub fn command_intent(pending: &Vec<char>) -> (r: KeyAction)
    ensures
        r == command_action(pending@),
{
    let wants_write = contains_char(pending, 'w');
    let wants_quit = contains_char(pending, 'q');
    if wants_write && wants_quit {
        KeyAction::WriteQuit
    } else if wants_write {
        KeyAction::Write
    } else if wants_quit {
        KeyAction::Quit
    } else {
        KeyAction::Nothing
    }
}

} // verus!
