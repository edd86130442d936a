use tetris_core::PieceKind;
use tetris_core::pieces::Tetrimino;
use tetris_core::pieces::frame_count_of;
use tetris_core::pieces::frames_for;
use tetris_core::selector::Selector;
use tetris_core::selector::apply_policy;

fn all_kinds() -> [PieceKind; 7] {
    [
        PieceKind::I,
        PieceKind::J,
        PieceKind::L,
        PieceKind::O,
        PieceKind::S,
        PieceKind::Z,
        PieceKind::T,
    ]
}

fn kind_value(k: PieceKind) -> u8 {
    match k {
        PieceKind::I => 1,
        PieceKind::J => 2,
        PieceKind::L => 3,
        PieceKind::O => 4,
        PieceKind::S => 5,
        PieceKind::Z => 6,
        PieceKind::T => 7,
    }
}

#[test]
fn catalog_frames_well_formed() {
    for &kind in all_kinds().iter() {
        let frames = frames_for(kind);
        assert!(!frames.is_empty());
        assert_eq!(frames.len(), frame_count_of(kind) as usize);
        for frame in frames.iter() {
            assert_eq!(frame.len(), 4);
            for row in frame.iter() {
                assert_eq!(row.len(), 4);
                for &cell in row.iter() {
                    assert!(cell == 0 || cell == kind_value(kind));
                }
            }
        }
    }
}

#[test]
fn catalog_frame_counts() {
    assert_eq!(frame_count_of(PieceKind::I), 2);
    assert_eq!(frame_count_of(PieceKind::J), 4);
    assert_eq!(frame_count_of(PieceKind::L), 4);
    assert_eq!(frame_count_of(PieceKind::O), 1);
    assert_eq!(frame_count_of(PieceKind::S), 2);
    assert_eq!(frame_count_of(PieceKind::Z), 2);
    assert_eq!(frame_count_of(PieceKind::T), 4);
}

#[test]
fn catalog_first_frames_exact() {
    let frames = frames_for(PieceKind::I);
    assert_eq!(frames[0][0], vec![1, 1, 1, 1]);
    assert_eq!(frames[0][1], vec![0, 0, 0, 0]);
    assert_eq!(frames[1][0], vec![0, 1, 0, 0]);

    let frames = frames_for(PieceKind::O);
    assert_eq!(frames[0][0], vec![4, 4, 0, 0]);
    assert_eq!(frames[0][1], vec![4, 4, 0, 0]);
    assert_eq!(frames[0][2], vec![0, 0, 0, 0]);
}

#[test]
fn spawn_positions() {
    for &kind in all_kinds().iter() {
        let t = Tetrimino::new(kind);
        assert_eq!(t.kind, kind);
        assert_eq!(t.current_state, 0);
        assert_eq!(t.y, 0);
        if kind == PieceKind::O {
            assert_eq!(t.x, 5);
        } else {
            assert_eq!(t.x, 4);
        }
    }
}

#[test]
fn rotation_cycles_through_all_frames() {
    for &kind in all_kinds().iter() {
        let n = frame_count_of(kind);
        let mut t = Tetrimino::new(kind);
        for expected in 1..n {
            t.rotate();
            assert_eq!(t.current_state, expected);
        }
        t.rotate();
        assert_eq!(t.current_state, 0);
    }
}

#[test]
fn rotation_single_frame_stays_put() {
    let mut t = Tetrimino::new(PieceKind::O);
    t.rotate();
    assert_eq!(t.current_state, 0);
    t.rotate();
    assert_eq!(t.current_state, 0);
}

#[test]
fn current_frame_follows_rotation() {
    let mut t = Tetrimino::new(PieceKind::S);
    let frames = frames_for(PieceKind::S);
    assert_eq!(t.current_frame(), frames[0]);
    t.rotate();
    assert_eq!(t.current_frame(), frames[1]);
    t.rotate();
    assert_eq!(t.current_frame(), frames[0]);
}

#[test]
fn policy_redraws_only_on_collision() {
    let prev = PieceKind::I;
    assert_eq!(apply_policy(Some(prev), PieceKind::J, PieceKind::L), PieceKind::J);
    assert_eq!(apply_policy(Some(prev), PieceKind::I, PieceKind::L), PieceKind::L);
    assert_eq!(apply_policy(Some(prev), PieceKind::I, PieceKind::I), PieceKind::I);
    assert_eq!(apply_policy(None, PieceKind::I, PieceKind::T), PieceKind::I);
}

#[test]
fn selector_records_dispensed_kind() {
    let mut selector = Selector::new();
    assert_eq!(selector.last, None);
    for _ in 0..200 {
        let t = selector.create_new_tetrimino();
        assert_eq!(selector.last, Some(t.kind));
        assert_eq!(t.current_state, 0);
        assert_eq!(t.y, 0);
        if t.kind == PieceKind::O {
            assert_eq!(t.x, 5);
        } else {
            assert_eq!(t.x, 4);
        }
    }
}
