//! Piece catalog and rotation state machine.
//!
//! The catalog assigns each of the seven piece kinds its ordered, non-empty
//! sequence of rotation frames (4x4 grids whose nonzero cells hold the kind's
//! catalog value) and its spawn column. A [`Tetrimino`] is one live piece:
//! its kind, its active rotation frame index, and its position.
use vstd::prelude::*;
use crate::PieceKind;

verus! {

/// The cell value stored in a kind's rotation frames: the kind's catalog
/// index plus one, so a nonzero cell identifies its kind directly.
pub open spec fn kind_value(k: PieceKind) -> u8 {
    match k {
        PieceKind::I => 1,
        PieceKind::J => 2,
        PieceKind::L => 3,
        PieceKind::O => 4,
        PieceKind::S => 5,
        PieceKind::Z => 6,
        PieceKind::T => 7,
    }
}

/// How many distinct rotation frames the kind owns.
pub open spec fn frame_count(k: PieceKind) -> nat {
    match k {
        PieceKind::I => 2,
        PieceKind::J => 4,
        PieceKind::L => 4,
        PieceKind::O => 1,
        PieceKind::S => 2,
        PieceKind::Z => 2,
        PieceKind::T => 4,
    }
}

/// Catalog-defined horizontal spawn offset: kind O spawns one column to the
/// right of the others.
pub open spec fn spawn_x(k: PieceKind) -> isize {
    match k {
        PieceKind::O => 5,
        _ => 4,
    }
}

/// One row of a rotation frame.
pub open spec fn row4(a: u8, b: u8, c: u8, d: u8) -> Seq<u8> {
    seq![a, b, c, d]
}

/// One rotation frame, given as its four rows.
pub open spec fn grid4(r0: Seq<u8>, r1: Seq<u8>, r2: Seq<u8>, r3: Seq<u8>) -> Seq<Seq<u8>> {
    seq![r0, r1, r2, r3]
}

pub open spec fn frames_i() -> Seq<Seq<Seq<u8>>> {
    seq![
        grid4(row4(1, 1, 1, 1), row4(0, 0, 0, 0), row4(0, 0, 0, 0), row4(0, 0, 0, 0)),
        grid4(row4(0, 1, 0, 0), row4(0, 1, 0, 0), row4(0, 1, 0, 0), row4(0, 1, 0, 0)),
    ]
}

pub open spec fn frames_j() -> Seq<Seq<Seq<u8>>> {
    seq![
        grid4(row4(2, 2, 2, 0), row4(2, 0, 0, 0), row4(0, 0, 0, 0), row4(0, 0, 0, 0)),
        grid4(row4(2, 2, 0, 0), row4(0, 2, 0, 0), row4(0, 2, 0, 0), row4(0, 0, 0, 0)),
        grid4(row4(0, 0, 2, 0), row4(2, 2, 2, 0), row4(0, 0, 0, 0), row4(0, 0, 0, 0)),
        grid4(row4(2, 0, 0, 0), row4(2, 0, 0, 0), row4(2, 2, 0, 0), row4(0, 0, 0, 0)),
    ]
}

pub open spec fn frames_l() -> Seq<Seq<Seq<u8>>> {
    seq![
        grid4(row4(3, 3, 3, 0), row4(0, 0, 3, 0), row4(0, 0, 0, 0), row4(0, 0, 0, 0)),
        grid4(row4(0, 3, 0, 0), row4(0, 3, 0, 0), row4(3, 3, 0, 0), row4(0, 0, 0, 0)),
        grid4(row4(3, 0, 0, 0), row4(3, 3, 3, 0), row4(0, 0, 0, 0), row4(0, 0, 0, 0)),
        grid4(row4(3, 3, 0, 0), row4(3, 0, 0, 0), row4(3, 0, 0, 0), row4(0, 0, 0, 0)),
    ]
}

pub open spec fn frames_o() -> Seq<Seq<Seq<u8>>> {
    seq![
        grid4(row4(4, 4, 0, 0), row4(4, 4, 0, 0), row4(0, 0, 0, 0), row4(0, 0, 0, 0)),
    ]
}

pub open spec fn frames_s() -> Seq<Seq<Seq<u8>>> {
    seq![
        grid4(row4(0, 5, 5, 0), row4(5, 5, 0, 0), row4(0, 0, 0, 0), row4(0, 0, 0, 0)),
        grid4(row4(0, 5, 0, 0), row4(0, 5, 5, 0), row4(0, 0, 5, 0), row4(0, 0, 0, 0)),
    ]
}

pub open spec fn frames_z() -> Seq<Seq<Seq<u8>>> {
    seq![
        grid4(row4(6, 6, 0, 0), row4(0, 6, 6, 0), row4(0, 0, 0, 0), row4(0, 0, 0, 0)),
        grid4(row4(0, 0, 6, 0), row4(0, 6, 6, 0), row4(0, 6, 0, 0), row4(0, 0, 0, 0)),
    ]
}

pub open spec fn frames_t() -> Seq<Seq<Seq<u8>>> {
    seq![
        grid4(row4(7, 7, 7, 0), row4(0, 7, 0, 0), row4(0, 0, 0, 0), row4(0, 0, 0, 0)),
        grid4(row4(0, 7, 0, 0), row4(7, 7, 0, 0), row4(0, 7, 0, 0), row4(0, 0, 0, 0)),
        grid4(row4(0, 7, 0, 0), row4(7, 7, 7, 0), row4(0, 0, 0, 0), row4(0, 0, 0, 0)),
        grid4(row4(0, 7, 0, 0), row4(0, 7, 7, 0), row4(0, 7, 0, 0), row4(0, 0, 0, 0)),
    ]
}

/// The full catalog: the ordered rotation frames of each kind.
pub open spec fn frames_spec(k: PieceKind) -> Seq<Seq<Seq<u8>>> {
    match k {
        PieceKind::I => frames_i(),
        PieceKind::J => frames_j(),
        PieceKind::L => frames_l(),
        PieceKind::O => frames_o(),
        PieceKind::S => frames_s(),
        PieceKind::Z => frames_z(),
        PieceKind::T => frames_t(),
    }
}

fn row(a: u8, b: u8, c: u8, d: u8) -> (r: Vec<u8>)
    ensures
        r@ == row4(a, b, c, d),
{
    let mut r: Vec<u8> = Vec::new();
    r.push(a);
    r.push(b);
    r.push(c);
    r.push(d);
    proof {
        assert(r@ =~= row4(a, b, c, d));
    }
    r
}

fn grid(r0: Vec<u8>, r1: Vec<u8>, r2: Vec<u8>, r3: Vec<u8>) -> (g: Vec<Vec<u8>>)
    ensures
        g.deep_view() == grid4(r0@, r1@, r2@, r3@),
{
    let mut g: Vec<Vec<u8>> = Vec::new();
    g.push(r0);
    g.push(r1);
    g.push(r2);
    g.push(r3);
    proof {
        assert(g.deep_view() =~~= grid4(r0@, r1@, r2@, r3@));
    }
    g
}

/// Pure catalog lookup: the rotation frames of `k`, total over all seven
/// kinds, with no failure mode.
pub fn frames_for(k: PieceKind) -> (r: Vec<Vec<Vec<u8>>>)
    ensures
        r.deep_view() == frames_spec(k),
{
    let mut r: Vec<Vec<Vec<u8>>> = Vec::new();
    match k {
        PieceKind::I => {
            r.push(grid(row(1, 1, 1, 1), row(0, 0, 0, 0), row(0, 0, 0, 0), row(0, 0, 0, 0)));
            r.push(grid(row(0, 1, 0, 0), row(0, 1, 0, 0), row(0, 1, 0, 0), row(0, 1, 0, 0)));
        },
        PieceKind::J => {
            r.push(grid(row(2, 2, 2, 0), row(2, 0, 0, 0), row(0, 0, 0, 0), row(0, 0, 0, 0)));
            r.push(grid(row(2, 2, 0, 0), row(0, 2, 0, 0), row(0, 2, 0, 0), row(0, 0, 0, 0)));
            r.push(grid(row(0, 0, 2, 0), row(2, 2, 2, 0), row(0, 0, 0, 0), row(0, 0, 0, 0)));
            r.push(grid(row(2, 0, 0, 0), row(2, 0, 0, 0), row(2, 2, 0, 0), row(0, 0, 0, 0)));
        },
        PieceKind::L => {
            r.push(grid(row(3, 3, 3, 0), row(0, 0, 3, 0), row(0, 0, 0, 0), row(0, 0, 0, 0)));
            r.push(grid(row(0, 3, 0, 0), row(0, 3, 0, 0), row(3, 3, 0, 0), row(0, 0, 0, 0)));
            r.push(grid(row(3, 0, 0, 0), row(3, 3, 3, 0), row(0, 0, 0, 0), row(0, 0, 0, 0)));
            r.push(grid(row(3, 3, 0, 0), row(3, 0, 0, 0), row(3, 0, 0, 0), row(0, 0, 0, 0)));
        },
        PieceKind::O => {
            r.push(grid(row(4, 4, 0, 0), row(4, 4, 0, 0), row(0, 0, 0, 0), row(0, 0, 0, 0)));
        },
        PieceKind::S => {
            r.push(grid(row(0, 5, 5, 0), row(5, 5, 0, 0), row(0, 0, 0, 0), row(0, 0, 0, 0)));
            r.push(grid(row(0, 5, 0, 0), row(0, 5, 5, 0), row(0, 0, 5, 0), row(0, 0, 0, 0)));
        },
        PieceKind::Z => {
            r.push(grid(row(6, 6, 0, 0), row(0, 6, 6, 0), row(0, 0, 0, 0), row(0, 0, 0, 0)));
            r.push(grid(row(0, 0, 6, 0), row(0, 6, 6, 0), row(0, 6, 0, 0), row(0, 0, 0, 0)));
        },
        PieceKind::T => {
            r.push(grid(row(7, 7, 7, 0), row(0, 7, 0, 0), row(0, 0, 0, 0), row(0, 0, 0, 0)));
            r.push(grid(row(0, 7, 0, 0), row(7, 7, 0, 0), row(0, 7, 0, 0), row(0, 0, 0, 0)));
            r.push(grid(row(0, 7, 0, 0), row(7, 7, 7, 0), row(0, 0, 0, 0), row(0, 0, 0, 0)));
            r.push(grid(row(0, 7, 0, 0), row(0, 7, 7, 0), row(0, 7, 0, 0), row(0, 0, 0, 0)));
        },
    }
    proof {
        assert(r.deep_view() =~~= frames_spec(k));
    }
    r
}

/// The number of rotation frames of `k`, as an executable value.
pub fn frame_count_of(k: PieceKind) -> (n: u8)
    ensures
        n as nat == frame_count(k),
{
    match k {
        PieceKind::I => 2,
        PieceKind::J => 4,
        PieceKind::L => 4,
        PieceKind::O => 1,
        PieceKind::S => 2,
        PieceKind::Z => 2,
        PieceKind::T => 4,
    }
}

/// One live falling piece: which kind it draws frames from, which rotation
/// frame is active, and its position on the board.
pub struct Tetrimino {
    pub kind: PieceKind,
    pub x: isize,
    pub y: usize,
    pub current_state: u8,
}

/// The index a rotation advances to: one step forward, wrapping at `n`.
pub open spec fn rotate_index(i: int, n: int) -> int {
    (i + 1) % n
}

impl Tetrimino {
    /// The active rotation frame index is always valid for the kind.
    pub open spec fn wf(self) -> bool {
        (self.current_state as nat) < frame_count(self.kind)
    }

    /// Spawns a fresh piece of the given kind at its catalog-defined spawn
    /// column, in its first rotation frame.
    pub fn new(kind: PieceKind) -> (t: Tetrimino)
        ensures
            t.kind == kind,
            t.current_state == 0,
            t.x == spawn_x(kind),
            t.y == 0,
            t.wf(),
    {
        let x: isize = match kind {
            PieceKind::O => 5,
            _ => 4,
        };
        Tetrimino { kind, x, y: 0, current_state: 0 }
    }

    /// Advances to the next rotation frame, wrapping back to the first.
    /// This is the only rotation transition; it is total and cannot fail.
    pub fn rotate(&mut self)
        requires
            old(self).wf(),
        ensures
            final(self).kind == old(self).kind,
            final(self).x == old(self).x,
            final(self).y == old(self).y,
            final(self).current_state as int == rotate_index(
                old(self).current_state as int,
                frame_count(old(self).kind) as int,
            ),
            final(self).wf(),
    {
        self.current_state += 1;
        if self.current_state >= frame_count_of(self.kind) {
            self.current_state = 0;
        }
    }

    /// The active rotation frame, for the rendering collaborator: a pure
    /// read of the instance and the catalog, with no mutation.
    pub fn current_frame(&self) -> (f: Vec<Vec<u8>>)
        requires
            self.wf(),
        ensures
            f.deep_view() == frames_spec(self.kind)[self.current_state as int],
    {
        let mut frames = frames_for(self.kind);
        let ghost dv = frames.deep_view();
        let ghost sv = frames@;
        proof {
            lemma_catalog_wf(self.kind);
            assert(dv.len() == sv.len());
        }
        let f = frames.swap_remove(self.current_state as usize);
        proof {
            assert(f == sv[self.current_state as int]);
            assert(dv[self.current_state as int] == sv[self.current_state as int].deep_view());
        }
        f
    }
}

/// A frame is well formed for cell value `v`: exactly 4x4, every cell either
/// empty or holding `v`.
pub open spec fn frame_wf(f: Seq<Seq<u8>>, v: u8) -> bool {
    &&& f.len() == 4
    &&& forall|i: int| 0 <= i < 4 ==> (#[trigger] f[i]).len() == 4
    &&& forall|i: int, j: int|
        0 <= i < 4 && 0 <= j < 4 ==> (#[trigger] f[i][j]) == 0 || f[i][j] == v
}

/// The catalog is well formed: every kind owns a non-empty frame sequence of
/// the documented length, and every frame is exactly 4x4 with each cell
/// either 0 or the kind's catalog value.
pub proof fn lemma_catalog_wf(k: PieceKind)
    ensures
        frames_spec(k).len() == frame_count(k),
        frames_spec(k).len() > 0,
        forall|i: int|
            0 <= i < frames_spec(k).len() ==> frame_wf(
                #[trigger] frames_spec(k)[i],
                kind_value(k),
            ),
{
    assert forall|i: int| 0 <= i < frames_spec(k).len() implies frame_wf(
        frames_spec(k)[i],
        kind_value(k),
    ) by {
        match k {
            PieceKind::I => {
                assert(frame_wf(frames_i()[0], 1));
                assert(frame_wf(frames_i()[1], 1));
            },
            PieceKind::J => {
                assert(frame_wf(frames_j()[0], 2));
                assert(frame_wf(frames_j()[1], 2));
                assert(frame_wf(frames_j()[2], 2));
                assert(frame_wf(frames_j()[3], 2));
            },
            PieceKind::L => {
                assert(frame_wf(frames_l()[0], 3));
                assert(frame_wf(frames_l()[1], 3));
                assert(frame_wf(frames_l()[2], 3));
                assert(frame_wf(frames_l()[3], 3));
            },
            PieceKind::O => {
                assert(frame_wf(frames_o()[0], 4));
            },
            PieceKind::S => {
                assert(frame_wf(frames_s()[0], 5));
                assert(frame_wf(frames_s()[1], 5));
            },
            PieceKind::Z => {
                assert(frame_wf(frames_z()[0], 6));
                assert(frame_wf(frames_z()[1], 6));
            },
            PieceKind::T => {
                assert(frame_wf(frames_t()[0], 7));
                assert(frame_wf(frames_t()[1], 7));
                assert(frame_wf(frames_t()[2], 7));
                assert(frame_wf(frames_t()[3], 7));
            },
        }
    }
}

/// The rotation index reached after `k` rotations starting from frame 0 of a
/// kind with `n` frames.
pub open spec fn rotations(k: nat, n: int) -> int
    decreases k,
{
    if k == 0 {
        0
    } else {
        rotate_index(rotations((k - 1) as nat, n), n)
    }
}

/// Rotation is cyclic: from frame 0, the first `n - 1` rotations visit the
/// frame indices 1, 2, ... in order, each exactly once, and the `n`-th
/// rotation returns to frame 0.
pub proof fn lemma_rotation_cyclic(n: int, k: nat)
    requires
        0 < n,
        k <= n,
    ensures
        k < n ==> rotations(k, n) == k,
        k == n ==> rotations(k, n) == 0,
    decreases k,
{
    if k > 0 {
        lemma_rotation_cyclic(n, (k - 1) as nat);
        assert(rotations(k, n) == (rotations((k - 1) as nat, n) + 1) % n);
        if k < n {
            assert((k as int) % n == k) by (nonlinear_arith)
                requires 0 <= k < n;
        } else {
            assert(n % n == 0) by (nonlinear_arith)
                requires 0 < n;
        }
    }
}

} // verus!
