//! Fair random selector: chooses the next piece kind by a two-draw policy
//! that biases away from dispensing the same kind twice in a row.
//!
//! The policy draws a kind uniformly at random from all seven; if the draw
//! equals the kind dispensed immediately before, it draws again exactly once
//! and accepts the second draw whatever it is — even if it collides again.
//! This is a deliberate weak-fairness policy: repeats stay possible, but only
//! as a second-draw collision, and no third draw is ever attempted.
use vstd::prelude::*;
use crate::PieceKind;
use crate::pieces::Tetrimino;
use crate::pieces::spawn_x;
use rand::Rng;

verus! {

/// The kind at a catalog index, in catalog order.
pub open spec fn kind_at(i: u8) -> PieceKind {
    if i == 0 {
        PieceKind::I
    } else if i == 1 {
        PieceKind::J
    } else if i == 2 {
        PieceKind::L
    } else if i == 3 {
        PieceKind::O
    } else if i == 4 {
        PieceKind::S
    } else if i == 5 {
        PieceKind::Z
    } else {
        PieceKind::T
    }
}

/// What the two-draw fairness policy dispenses: the first draw, unless it
/// equals the previously dispensed kind, in which case the second draw is
/// accepted unconditionally.
pub open spec fn selector_pick(
    last: Option<PieceKind>,
    first: PieceKind,
    second: PieceKind,
) -> PieceKind {
    if last == Some(first) {
        second
    } else {
        first
    }
}

/// Relies on rand::thread_rng and rand::Rng::gen_range: sampling the
/// nonempty range 0..7 returns a value in that range and does not panic.
#[verifier::external_body]
fn draw_index() -> (r: u8)
    ensures
        r < 7,
{
    rand::thread_rng().gen_range(0..7)
}

/// The kind at a catalog index, as an executable lookup.
fn kind_of_index(i: u8) -> (k: PieceKind)
    requires
        i < 7,
    ensures
        k == kind_at(i),
{
    if i == 0 {
        PieceKind::I
    } else if i == 1 {
        PieceKind::J
    } else if i == 2 {
        PieceKind::L
    } else if i == 3 {
        PieceKind::O
    } else if i == 4 {
        PieceKind::S
    } else if i == 5 {
        PieceKind::Z
    } else {
        PieceKind::T
    }
}

/// Applies the two-draw fairness policy to a pair of draws.
pub fn apply_policy(last: Option<PieceKind>, first: PieceKind, second: PieceKind) -> (k:
    PieceKind)
    ensures
        k == selector_pick(last, first, second),
{
    match last {
        Option::Some(p) => if p == first {
            second
        } else {
            first
        },
        Option::None => first,
    }
}

/// The selector's memory: the kind most recently dispensed in this session,
/// or `None` before the first dispense. Owned per session so that no state
/// leaks between independent game sessions.
pub struct Selector {
    pub last: Option<PieceKind>,
}

impl Selector {
    /// A fresh selector whose memory holds no previously dispensed kind, so
    /// the first draw of a session is always accepted without a redraw.
    pub fn new() -> (s: Selector)
        ensures
            s.last is None,
    {
        Selector { last: None }
    }

    /// Dispenses the next piece: draws a kind at random, redraws exactly
    /// once if the draw equals the previously dispensed kind, accepts the
    /// second draw unconditionally, records the dispensed kind in the
    /// selector's memory, and spawns a fresh piece of that kind.
    pub fn create_new_tetrimino(&mut self) -> (t: Tetrimino)
        ensures
            t.current_state == 0,
            t.x == spawn_x(t.kind),
            t.y == 0,
            t.wf(),
            final(self).last == Some(t.kind),
            exists|first: PieceKind, second: PieceKind|
                t.kind == selector_pick(old(self).last, first, second),
    {
        let first = kind_of_index(draw_index());
        let collides = match self.last {
            Option::Some(p) => p == first,
            Option::None => false,
        };
        let second = if collides {
            kind_of_index(draw_index())
        } else {
            first
        };
        let k = apply_policy(self.last, first, second);
        self.last = Some(k);
        proof {
            assert(k == selector_pick(old(self).last, first, second));
        }
        Tetrimino::new(k)
    }
}

/// A dispensed kind equals the previously dispensed one only when both draws
/// hit it: exactly a second-draw collision, never anything rarer or more
/// frequent than the two-draw policy allows.
pub proof fn lemma_repeat_needs_double_collision(
    prev: PieceKind,
    first: PieceKind,
    second: PieceKind,
)
    ensures
        selector_pick(Some(prev), first, second) == prev ==> first == prev && second == prev,
{
}

/// A repeat remains possible: when the second draw also hits the previous
/// kind it is accepted as-is, and no third draw is attempted.
pub proof fn lemma_repeat_possible(prev: PieceKind)
    ensures
        selector_pick(Some(prev), prev, prev) == prev,
{
}

/// On the first dispense of a session the memory holds no kind, so the
/// first draw is accepted and no redraw is triggered.
pub proof fn lemma_first_draw_accepted(first: PieceKind, second: PieceKind)
    ensures
        selector_pick(None, first, second) == first,
{
}

} // verus!
