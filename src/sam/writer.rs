//! Writing SAM record data field values.

use vstd::prelude::*;

verus! {

/// A SAM data field character: printable ASCII, `!` to `~`.
#[derive(Clone, Copy, Debug, PartialEq, Eq, Structural)]
pub struct Character(u8);

/// A character outside `!` to `~`.
#[derive(Clone, Copy, Debug, PartialEq, Eq, Structural)]
pub struct TryFromCharError(pub char);

/// A printable ASCII character.
pub open spec fn is_printable(c: char) -> bool {
    '!' <= c <= '~'
}

impl Character {
    pub closed spec fn spec_byte(self) -> u8 {
        self.0
    }

    /// The character `c`; fails outside `!` to `~`.
    pub fn new(c: char) -> (r: Result<Character, TryFromCharError>)
        ensures
            is_printable(c) ==> (r matches Ok(ch) && ch.spec_byte() == c as u32),
            !is_printable(c) ==> r == Err::<Character, TryFromCharError>(TryFromCharError(c)),
    {
        if '!' <= c && c <= '~' {
            Ok(Character(c as u8))
        } else {
            Err(TryFromCharError(c))
        }
    }

    pub fn get(&self) -> (b: u8)
        ensures
            b == self.spec_byte(),
    {
        self.0
    }
}

/// Writes a character value: its one byte.
pub fn write_character(dst: &mut Vec<u8>, character: Character)
    ensures
        final(dst)@ == old(dst)@.push(character.spec_byte()),
{
    dst.push(character.0);
}

} // verus!
