use tetris_core::board::{clear_lines, remove_row, row_is_full, COLS, HIDDEN, INIT_INTERVAL, MIN_INTERVAL, ROWS};
use tetris_core::piece::Piece;
use tetris_core::shape::{genus_from_index, orientation_from_index, random_shape, Genus, Orientation, Shape};

fn sorted(mut v: Vec<(i32, i32)>) -> Vec<(i32, i32)> {
    v.sort();
    v
}

#[test]
fn pieces_of_each_orientation() {
    let mut s = Shape::new(Genus::L, Orientation::R0);
    assert_eq!(s.pieces(), vec![(0, 0), (0, -2), (0, -1), (1, 0)]);
    s.rotate();
    assert_eq!(s.orientation, Orientation::R90);
    assert_eq!(s.pieces(), vec![(0, 0), (2, 0), (1, 0), (0, 1)]);
    s.rotate();
    assert_eq!(s.pieces(), vec![(0, 0), (0, 2), (0, 1), (-1, 0)]);
    s.rotate();
    assert_eq!(s.pieces(), vec![(0, 0), (-2, 0), (-1, 0), (0, -1)]);
}

#[test]
fn four_rotations_restore_every_shape() {
    for g in 0..7u32 {
        for o in 0..4u32 {
            let start = Shape::new(genus_from_index(g), orientation_from_index(o));
            let mut s = start;
            for _ in 0..4 {
                s.rotate();
            }
            assert_eq!(s, start);
            let mut once = start;
            once.rotate();
            assert_ne!(once, start);
        }
    }
}

#[test]
fn bounds_are_exclusive_at_bottom_and_right() {
    assert_eq!(Shape::new(Genus::I, Orientation::R0).bounds(), (-1, 0, 3, 1));
    assert_eq!(Shape::new(Genus::I, Orientation::R90).bounds(), (0, -2, 1, 2));
    assert_eq!(Shape::new(Genus::O, Orientation::R0).bounds(), (0, 0, 2, 2));
    assert_eq!(Shape::new(Genus::J, Orientation::R0).bounds(), (-2, -1, 1, 1));
    assert_eq!(Shape::new(Genus::T, Orientation::R180).bounds(), (-1, -1, 1, 2));
}

#[test]
fn indices_name_genera_and_orientations() {
    assert_eq!(genus_from_index(0), Genus::I);
    assert_eq!(genus_from_index(3), Genus::O);
    assert_eq!(genus_from_index(5), Genus::Z);
    assert_eq!(genus_from_index(6), Genus::T);
    assert_eq!(orientation_from_index(0), Orientation::R0);
    assert_eq!(orientation_from_index(2), Orientation::R180);
    assert_eq!(orientation_from_index(3), Orientation::R270);
}

#[test]
fn spawn_places_lowest_cell_above_playfield() {
    let p = Piece::spawn_at(Shape::new(Genus::I, Orientation::R0), 0);
    assert_eq!(p.center, (0, HIDDEN - 3));
    assert_eq!(p.squares(), vec![(0, 1), (0, 0), (0, 2), (0, 3)]);
    let o = Piece::spawn_at(Shape::new(Genus::O, Orientation::R0), 7);
    assert_eq!(sorted(o.squares()), vec![(7, 2), (7, 3), (8, 2), (8, 3)]);
}

#[test]
fn random_spawns_fit_and_vary() {
    let mut rng = rand::thread_rng();
    let mut columns = std::collections::BTreeSet::new();
    let mut shapes = std::collections::BTreeSet::new();
    for _ in 0..400 {
        let s = random_shape(&mut rng);
        shapes.insert(format!("{:?}", s));
        let p = Piece::new(s, &mut rng);
        let (_, _, b, _) = s.bounds();
        assert_eq!(p.center.1, HIDDEN - b);
        for (x, y) in p.squares() {
            assert!(0 <= x && x < COLS);
            assert!(y < HIDDEN);
        }
        columns.insert(p.center.0);
    }
    assert!(columns.len() > 3);
    assert!(shapes.len() > 10);
}

#[test]
fn full_row_is_detected() {
    let mut board: Vec<(i32, i32)> = (0..COLS).map(|c| (c, ROWS - 1)).collect();
    assert!(row_is_full(&board, ROWS - 1));
    board.pop();
    assert!(!row_is_full(&board, ROWS - 1));
    assert!(!row_is_full(&vec![], 5));
}

#[test]
fn removing_a_row_shifts_only_rows_above() {
    let board = vec![(0, 10), (3, 12), (4, 11), (5, 11), (7, 9)];
    let r = remove_row(&board, 11);
    assert_eq!(r, vec![(0, 11), (3, 12), (7, 10)]);
}

#[test]
fn clearing_two_rows_compounds() {
    let mut board: Vec<(i32, i32)> = Vec::new();
    for c in 0..COLS {
        board.push((c, 22));
        board.push((c, 23));
    }
    board.push((2, 21));
    board.push((5, 20));
    let (b, score, interval) = clear_lines(board, 7, INIT_INTERVAL);
    assert_eq!(sorted(b), vec![(2, 23), (5, 22)]);
    assert_eq!(score, 9);
    assert_eq!(interval, 691);
}

#[test]
fn clearing_leaves_no_full_row_and_distinct_cells() {
    let mut board: Vec<(i32, i32)> = Vec::new();
    for r in 15..24 {
        for c in 0..COLS {
            if !(r % 3 == 0 && c == 4) {
                board.push((c, r));
            }
        }
    }
    let (b, score, _) = clear_lines(board, 0, INIT_INTERVAL);
    assert_eq!(score, 6);
    for r in 0..ROWS {
        assert!(!row_is_full(&b, r));
    }
    let mut s = sorted(b.clone());
    s.dedup();
    assert_eq!(s.len(), b.len());
    assert_eq!(sorted(b), vec![(0, 21), (0, 22), (0, 23), (1, 21), (1, 22), (1, 23), (2, 21), (2, 22), (2, 23),
        (3, 21), (3, 22), (3, 23), (5, 21), (5, 22), (5, 23), (6, 21), (6, 22), (6, 23), (7, 21), (7, 22), (7, 23),
        (8, 21), (8, 22), (8, 23), (9, 21), (9, 22), (9, 23)]);
}

#[test]
fn interval_decays_and_stops_at_minimum() {
    let mut interval = INIT_INTERVAL;
    let mut seen = vec![];
    for _ in 0..40 {
        let board: Vec<(i32, i32)> = (0..COLS).map(|c| (c, ROWS - 1)).collect();
        let (_, _, next) = clear_lines(board, 0, interval);
        assert!(next <= interval);
        assert!(next >= MIN_INTERVAL);
        interval = next;
        seen.push(next);
    }
    assert_eq!(&seen[..4], &[720, 691, 663, 636]);
    assert_eq!(interval, MIN_INTERVAL);
}

#[test]
fn score_saturates() {
    let board: Vec<(i32, i32)> = (0..COLS).map(|c| (c, ROWS - 1)).collect();
    let (_, score, _) = clear_lines(board, u32::MAX, 300);
    assert_eq!(score, u32::MAX);
}
