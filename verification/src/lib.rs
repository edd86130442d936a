//! Logical core of a falling-block puzzle game: the piece catalog with its
//! rotation frames, live piece instances and their rotation state machine,
//! the fair random selector that picks the next piece kind, and the score
//! ledger that serializes and parses the persisted high-score record.
use vstd::prelude::*;

pub mod pieces;
pub mod scores;
pub mod selector;

verus! {

/// One of the seven canonical falling-block piece kinds.
#[derive(Clone, Copy, PartialEq, Eq, Structural, Debug)]
pub enum PieceKind {
    I,
    J,
    L,
    O,
    S,
    Z,
    T,
}

} // verus!
