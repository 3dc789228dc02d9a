use piece_paths::grid::Grid;
use piece_paths::paths::{bishop_sum, king_sum, knight_sum, path_sum, pawn_sum, Piece};

fn board(cells: &[usize], cols: usize) -> Grid {
    Grid::new(cells.to_vec(), cols).unwrap()
}

fn all_sums(g: &Grid, cell: usize) -> [usize; 4] {
    [pawn_sum(g, cell), bishop_sum(g, cell), knight_sum(g, cell), king_sum(g, cell)]
}

#[test]
fn single_cell_board() {
    let g = board(&[5], 1);
    assert_eq!(all_sums(&g, 0), [5, 5, 5, 5]);
}

#[test]
fn two_by_two_board() {
    let g = board(&[1, 2, 3, 4], 2);
    assert_eq!(pawn_sum(&g, 0), 4);
    assert_eq!(pawn_sum(&g, 1), 6);
    assert_eq!(bishop_sum(&g, 0), 5);
    assert_eq!(bishop_sum(&g, 1), 5);
    assert_eq!(king_sum(&g, 0), 5);
    assert_eq!(king_sum(&g, 1), 6);
    // No knight jump fits in two columns: the start cell stands alone.
    assert_eq!(knight_sum(&g, 0), 1);
    assert_eq!(knight_sum(&g, 1), 2);
}

#[test]
fn zero_board_sums_to_zero() {
    let g = board(&[0; 9], 3);
    for c in 0..9 {
        assert_eq!(all_sums(&g, c), [0, 0, 0, 0]);
    }
}

#[test]
fn three_by_three_board() {
    let g = board(&[1, 2, 3, 4, 5, 6, 7, 8, 9], 3);
    assert_eq!(all_sums(&g, 0), [12, 15, 14, 15]);
    assert_eq!(all_sums(&g, 1), [15, 16, 2, 17]);
    assert_eq!(all_sums(&g, 2), [18, 17, 16, 18]);
    assert_eq!(all_sums(&g, 3), [11, 12, 13, 12]);
}

#[test]
fn wide_board_every_cell() {
    let cells = [3, 1, 4, 1, 5, 9, 2, 6, 5, 3, 5, 8, 9, 7, 9, 3, 2, 3, 8, 4];
    let g = board(&cells, 5);
    let pawn = [20, 13, 22, 21, 21, 17, 12, 18, 20, 16, 8, 10, 12, 15, 13, 3, 2, 3, 8, 4];
    let bishop = [22, 21, 26, 18, 27, 20, 19, 17, 22, 14, 7, 11, 17, 11, 17, 3, 2, 3, 8, 4];
    let knight = [21, 22, 26, 12, 23, 22, 11, 18, 21, 16, 8, 16, 13, 9, 12, 3, 2, 3, 8, 4];
    let king = [23, 24, 27, 24, 27, 20, 19, 23, 22, 20, 8, 11, 17, 15, 17, 3, 2, 3, 8, 4];
    for c in 0..cells.len() {
        assert_eq!(all_sums(&g, c), [pawn[c], bishop[c], knight[c], king[c]]);
    }
}

#[test]
fn path_sum_matches_named_functions() {
    let g = board(&[5, 0, 0, 7, 9, 0, 0, 0, 1, 2, 3, 4], 4);
    for c in 0..4 {
        assert_eq!(path_sum(&g, Piece::Pawn, c), pawn_sum(&g, c));
        assert_eq!(path_sum(&g, Piece::Bishop, c), bishop_sum(&g, c));
        assert_eq!(path_sum(&g, Piece::Knight, c), knight_sum(&g, c));
        assert_eq!(path_sum(&g, Piece::King, c), king_sum(&g, c));
    }
    assert_eq!(all_sums(&g, 0), [15, 8, 6, 16]);
    assert_eq!(all_sums(&g, 2), [3, 3, 12, 4]);
}

#[test]
fn pawn_bottom_row_is_cell_value() {
    let g = board(&[1, 2, 3, 4, 5, 6], 3);
    for c in 3..6 {
        assert_eq!(pawn_sum(&g, c), g.cell(c));
    }
}

#[test]
fn pawn_adds_cell_below() {
    let g = board(&[3, 1, 4, 1, 5, 9, 2, 6, 5, 3, 5, 8], 3);
    for c in 0..9 {
        assert_eq!(pawn_sum(&g, c), g.cell(c) + pawn_sum(&g, c + 3));
    }
}

#[test]
fn sums_cover_start_and_king_covers_pawn() {
    let g = board(&[3, 1, 4, 1, 5, 9, 2, 6, 5, 3, 5, 8, 9, 7, 9, 3, 2, 3, 8, 4], 5);
    for c in 0..g.size() {
        for s in all_sums(&g, c) {
            assert!(s >= g.cell(c));
        }
        assert!(king_sum(&g, c) >= pawn_sum(&g, c));
    }
}

#[test]
fn mirrored_board_gives_mirrored_sums() {
    let cells = [3, 1, 4, 1, 5, 9, 2, 6, 5, 3, 5, 8, 9, 7, 9, 3, 2, 3, 8, 4];
    let cols = 5;
    let mut reflected = Vec::new();
    for row in cells.chunks(cols) {
        reflected.extend(row.iter().rev());
    }
    let g = board(&cells, cols);
    let r = board(&reflected, cols);
    for c in 0..cols {
        let m = cols - 1 - c;
        assert_eq!(bishop_sum(&r, m), bishop_sum(&g, c));
        assert_eq!(knight_sum(&r, m), knight_sum(&g, c));
        assert_eq!(king_sum(&r, m), king_sum(&g, c));
        assert_eq!(pawn_sum(&r, m), pawn_sum(&g, c));
    }
}

#[test]
fn repeated_calls_agree() {
    let g = board(&[5, 0, 0, 7, 9, 0, 0, 0, 1, 2, 3, 4], 4);
    for c in 0..4 {
        assert_eq!(all_sums(&g, c), all_sums(&g, c));
    }
}

#[test]
fn sums_reach_the_total_without_overflow() {
    let big = usize::MAX / 2;
    let g = board(&[big, 0, 1, big], 2);
    assert_eq!(bishop_sum(&g, 0), big + big);
    assert_eq!(king_sum(&g, 0), big + big);
    assert_eq!(pawn_sum(&g, 0), big + 1);
}
