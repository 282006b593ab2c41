//! Index modes: which positions of a sequence may start a listed suffix.
use vstd::prelude::*;

verus! {

/// Decides which positions are used as suffix starts.
///
/// Some positions are never searched from: in UTF-8 text, a byte inside a
/// multi-byte character is no character boundary, and a mode for text leaves
/// such positions out.
pub trait IndexMode {
    /// Whether the position `pos`, holding `value`, starts a listed suffix.
    spec fn accepts(&self, pos: int, value: u8) -> bool;

    /// Whether the position is used in search.
    fn is_index(&self, pos: usize, value: &u8) -> (r: bool)
        ensures
            r == self.accepts(pos as int, *value),
    ;

    /// Whether some position may be rejected, so that a builder has to drop
    /// rejected positions again after its work. `false` only for a mode that
    /// accepts everything.
    fn need_check(&self) -> (r: bool)
        ensures
            !r ==> forall|pos: int, value: u8| #[trigger] self.accepts(pos, value),
    {
        true
    }
}

/// The unit mode accepts every position.
impl IndexMode for () {
    open spec fn accepts(&self, pos: int, value: u8) -> bool {
        true
    }

    fn is_index(&self, _pos: usize, _value: &u8) -> (r: bool) {
        true
    }

    fn need_check(&self) -> (r: bool) {
        false
    }
}

/// Mode for UTF-8 text: accepts a byte that starts a character and rejects a
/// continuation byte (`0x80..=0xBF`).
#[derive(Debug, Clone, Copy, Hash, PartialEq, Eq, PartialOrd, Ord, Default)]
pub struct StrIndex;

/// Whether a byte starts a UTF-8 character, that is, is no continuation byte.
pub open spec fn is_char_boundary_byte(value: u8) -> bool {
    !(0x80 <= value && value < 0xC0)
}

impl IndexMode for StrIndex {
    open spec fn accepts(&self, pos: int, value: u8) -> bool {
        is_char_boundary_byte(value)
    }

    fn is_index(&self, _pos: usize, value: &u8) -> (r: bool) {
        *value < 0x80 || *value >= 0xC0
    }

}

} // verus!
