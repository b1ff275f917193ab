//! Behavioural tests for the playfield engine: line clearing, landing,
//! collision boundaries and the piece shape tables.

use playfield::tetromino::Piece;
use playfield::tetromino::PieceKind;
use playfield::tetromino::PieceShape;
use playfield::tetromino::Position;
use playfield::tetromino::rotation_count_of;
use playfield::well::Well;

/// Settle a single occupied cell of the given code at grid row `r`, column `c`.
fn put(w: &mut Well, r: i32, c: i32, code: u32) {
    let mut s = PieceShape::empty();
    s.set_cell(0, 0, code);
    w.land_shape(&s, Position { x: c, y: r });
}

/// A shape whose only occupied cell is its local top-left corner.
fn single_cell(code: u32) -> PieceShape {
    let mut s = PieceShape::empty();
    s.set_cell(0, 0, code);
    s
}

/// Every cell of the well, row-major.
fn snapshot(w: &Well) -> Vec<u32> {
    let mut v = Vec::new();
    for r in 0..22 {
        for c in 0..10 {
            v.push(w.cell(r, c));
        }
    }
    v
}

fn fill_row(w: &mut Well, r: i32) {
    for c in 0..10 {
        put(w, r, c, (c + 1) as u32);
    }
}

#[test]
fn clear_lines_on_fresh_grid_returns_zero() {
    let mut w = Well::new();
    assert_eq!(w.clear_lines(), 0);
    for r in 0..22 {
        for c in 0..10 {
            assert_eq!(w.cell(r, c), 0);
        }
    }
}

#[test]
fn noop_clear_is_idempotent() {
    let mut w = Well::new();
    put(&mut w, 21, 0, 5);
    put(&mut w, 20, 9, 2);
    put(&mut w, 3, 4, 7);
    let before = snapshot(&w);
    assert_eq!(w.clear_lines(), 0);
    assert_eq!(snapshot(&w), before);
    assert_eq!(w.clear_lines(), 0);
    assert_eq!(snapshot(&w), before);
}

#[test]
fn land_merge_on_empty_grid() {
    let mut w = Well::new();
    let mut s = PieceShape::empty();
    s.set_cell(0, 1, 4);
    s.set_cell(1, 0, 4);
    s.set_cell(1, 1, 4);
    s.set_cell(2, 1, 6);
    w.land_shape(&s, Position { x: 3, y: 5 });
    for r in 0..22i32 {
        for c in 0..10i32 {
            let expected = match (r, c) {
                (5, 4) => 4,
                (6, 3) => 4,
                (6, 4) => 4,
                (7, 4) => 6,
                _ => 0,
            };
            assert_eq!(w.cell(r as usize, c as usize), expected, "cell ({r}, {c})");
        }
    }
}

#[test]
fn land_never_clears_settled_cells() {
    let mut w = Well::new();
    put(&mut w, 6, 3, 9);
    // This shape's cell over (6, 3) is empty, so the settled 9 must survive.
    let mut s = PieceShape::empty();
    s.set_cell(0, 0, 2);
    w.land_shape(&s, Position { x: 2, y: 6 });
    assert_eq!(w.cell(6, 3), 9);
    assert_eq!(w.cell(6, 2), 2);
}

#[test]
fn single_full_row_clears_one_line() {
    let mut w = Well::new();
    fill_row(&mut w, 20);
    assert_eq!(w.clear_lines(), 1);
    for r in 0..22 {
        for c in 0..10 {
            assert_eq!(w.cell(r, c), 0);
        }
    }
}

#[test]
fn single_full_row_shifts_rows_down() {
    let mut w = Well::new();
    fill_row(&mut w, 20);
    put(&mut w, 0, 0, 1);
    put(&mut w, 19, 9, 3);
    put(&mut w, 21, 5, 4);
    assert_eq!(w.clear_lines(), 1);
    // Rows above the cleared one drop by exactly one; row 21, below it, stays.
    assert_eq!(w.cell(1, 0), 1);
    assert_eq!(w.cell(20, 9), 3);
    assert_eq!(w.cell(21, 5), 4);
    for c in 0..10 {
        assert_eq!(w.cell(0, c), 0);
    }
    assert_eq!(w.cell(0, 0), 0);
    assert_eq!(w.cell(19, 9), 0);
}

#[test]
fn four_full_rows_clear_simultaneously() {
    let mut w = Well::new();
    for r in 18..22 {
        fill_row(&mut w, r);
    }
    // One marker cell per upper row, never filling any of them.
    for r in 0..18i32 {
        put(&mut w, r, r % 10, (r + 1) as u32);
    }
    assert_eq!(w.clear_lines(), 4);
    for r in 0..4 {
        for c in 0..10 {
            assert_eq!(w.cell(r, c), 0);
        }
    }
    for r in 0..18i32 {
        for c in 0..10i32 {
            let expected = if c == r % 10 { (r + 1) as u32 } else { 0 };
            assert_eq!(w.cell((r + 4) as usize, c as usize), expected, "cell ({}, {c})", r + 4);
        }
    }
}

#[test]
fn boundary_collisions_are_exhaustive() {
    let w = Well::new();
    let s = single_cell(1);
    // One step outside each wall trips the predicate on its own.
    assert!(w.check_for_collisions(&s, Position { x: -1, y: 0 }));
    assert!(w.check_for_collisions(&s, Position { x: 10, y: 0 }));
    assert!(w.check_for_collisions(&s, Position { x: 0, y: 22 }));
    assert!(w.check_for_collisions(&s, Position { x: 0, y: -1 }));
    // The extreme in-bounds positions are free on an empty grid.
    assert!(!w.check_for_collisions(&s, Position { x: 0, y: 21 }));
    assert!(!w.check_for_collisions(&s, Position { x: 9, y: 21 }));
    assert!(!w.check_for_collisions(&s, Position { x: 0, y: 0 }));
    assert!(!w.check_for_collisions(&s, Position { x: 9, y: 0 }));
}

#[test]
fn collision_with_occupied_cell() {
    let mut w = Well::new();
    put(&mut w, 21, 0, 3);
    let s = single_cell(1);
    assert!(w.check_for_collisions(&s, Position { x: 0, y: 21 }));
    assert!(!w.check_for_collisions(&s, Position { x: 1, y: 21 }));
}

#[test]
fn empty_shape_never_collides() {
    let w = Well::new();
    let s = PieceShape::empty();
    assert!(!w.check_for_collisions(&s, Position { x: -7, y: 100 }));
}

#[test]
fn landing_on_floor_and_on_stack() {
    let mut w = Well::new();
    let s = single_cell(1);
    // On the bottom row the cell below is outside the grid: resting.
    assert!(w.check_for_landing(&s, Position { x: 0, y: 21 }));
    // One row higher, nothing below yet.
    assert!(!w.check_for_landing(&s, Position { x: 0, y: 20 }));
    put(&mut w, 21, 0, 1);
    assert!(w.check_for_landing(&s, Position { x: 0, y: 20 }));
}

#[test]
fn i_piece_shape_table() {
    let p = Piece::new(PieceKind::I, 0, Position { x: 0, y: 0 });
    let s = p.current_shape();
    for r in 0..4 {
        for c in 0..4 {
            let expected = if r == 1 { 1 } else { 0 };
            assert_eq!(s.cell(r, c), expected, "cell ({r}, {c})");
        }
    }
    let upright = Piece::new(PieceKind::I, 1, Position { x: 0, y: 0 }).current_shape();
    for r in 0..4 {
        for c in 0..4 {
            let expected = if c == 2 { 1 } else { 0 };
            assert_eq!(upright.cell(r, c), expected, "cell ({r}, {c})");
        }
    }
}

#[test]
fn o_piece_shape_table() {
    let s = Piece::new(PieceKind::O, 0, Position { x: 0, y: 0 }).current_shape();
    for r in 0..4 {
        for c in 0..4 {
            let expected = if (r == 0 || r == 1) && (c == 1 || c == 2) { 2 } else { 0 };
            assert_eq!(s.cell(r, c), expected, "cell ({r}, {c})");
        }
    }
}

#[test]
fn t_piece_shape_table() {
    let s = Piece::new(PieceKind::T, 0, Position { x: 0, y: 0 }).current_shape();
    let occupied = [(0, 1), (1, 0), (1, 1), (1, 2)];
    for r in 0..4 {
        for c in 0..4 {
            let expected = if occupied.contains(&(r, c)) { 3 } else { 0 };
            assert_eq!(s.cell(r, c), expected, "cell ({r}, {c})");
        }
    }
}

#[test]
fn rotation_counts_per_kind() {
    assert_eq!(rotation_count_of(PieceKind::I), 2);
    assert_eq!(rotation_count_of(PieceKind::O), 1);
    assert_eq!(rotation_count_of(PieceKind::T), 4);
    assert_eq!(rotation_count_of(PieceKind::S), 2);
    assert_eq!(rotation_count_of(PieceKind::Z), 2);
    assert_eq!(rotation_count_of(PieceKind::J), 4);
    assert_eq!(rotation_count_of(PieceKind::L), 4);
}

#[test]
fn piece_rotation_wraps_into_range() {
    let a = Piece::new(PieceKind::I, 5, Position { x: 3, y: 0 });
    let b = Piece::new(PieceKind::I, 1, Position { x: 3, y: 0 });
    assert_eq!(a.rotation, b.rotation);
    let c = Piece::new(PieceKind::O, 7, Position { x: 3, y: 0 });
    assert_eq!(c.rotation, 0);
}

#[test]
fn land_o_piece_marks_its_cells() {
    let mut w = Well::new();
    let p = Piece::new(PieceKind::O, 0, Position { x: 0, y: 20 });
    w.land(&p);
    for r in 0..22i32 {
        for c in 0..10i32 {
            let expected = if (r == 20 || r == 21) && (c == 1 || c == 2) { 2 } else { 0 };
            assert_eq!(w.cell(r as usize, c as usize), expected, "cell ({r}, {c})");
        }
    }
}

#[test]
fn full_bottom_row_clears() {
    let mut w = Well::new();
    fill_row(&mut w, 21);
    put(&mut w, 20, 2, 8);
    assert_eq!(w.clear_lines(), 1);
    assert_eq!(w.cell(21, 2), 8);
    assert_eq!(w.cell(20, 2), 0);
}

#[test]
fn full_spawn_row_clears_and_leaves_lower_rows() {
    let mut w = Well::new();
    fill_row(&mut w, 0);
    put(&mut w, 5, 5, 6);
    assert_eq!(w.clear_lines(), 1);
    // Clearing the top row shifts nothing below it down.
    assert_eq!(w.cell(5, 5), 6);
    for c in 0..10 {
        assert_eq!(w.cell(0, c), 0);
    }
}

#[test]
fn naive_line_clear_pulls_rows_down() {
    let mut w = Well::new();
    put(&mut w, 4, 7, 9);
    put(&mut w, 10, 1, 2);
    put(&mut w, 12, 3, 5);
    w.naive_line_clear(10);
    // Rows at or above the starting row take the row above them.
    assert_eq!(w.cell(5, 7), 9);
    assert_eq!(w.cell(4, 7), 0);
    assert_eq!(w.cell(10, 1), 0);
    // Rows below the starting row stay put.
    assert_eq!(w.cell(12, 3), 5);
}
