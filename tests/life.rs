use game_of_life::{
    advance, apply_moves, capture_moves, count_neighbors, flip_board, gather_board_values, get_groups,
    get_subgrids, is_life_board, merge_moves, partition, Board, CellChange, ConfigError, GridError,
    SubRegion,
};

fn board_from_rows(rows: &[&[u8]]) -> Board {
    let r = rows.len();
    let c = rows[0].len();
    let mut cells: Vec<u8> = Vec::new();
    for row in rows {
        cells.extend_from_slice(row);
    }
    Board::new(r, c, cells).unwrap()
}

/// A board holding arbitrary values, written through change lists.
fn weighted_board(rows: &[&[u8]]) -> Board {
    let r = rows.len();
    let c = rows[0].len();
    let mut b = Board::new(r, c, vec![0; r * c]).unwrap();
    let mut moves: Vec<CellChange> = Vec::new();
    for (i, row) in rows.iter().enumerate() {
        for (j, v) in row.iter().enumerate() {
            moves.push((i, j, *v));
        }
    }
    apply_moves(&mut b, &moves);
    b
}

fn to_rows(b: &Board) -> Vec<Vec<u8>> {
    let mut out = Vec::new();
    for r in 0..b.nrows() {
        let mut row = Vec::new();
        for c in 0..b.ncols() {
            row.push(b.get(r, c));
        }
        out.push(row);
    }
    out
}

/// A plain whole-grid Life step, written independently of the library.
fn reference_step(g: &Vec<Vec<u8>>) -> Vec<Vec<u8>> {
    let rows = g.len() as i64;
    let cols = g[0].len() as i64;
    let mut out = g.clone();
    for r in 0..rows {
        for c in 0..cols {
            let mut n = 0;
            for dr in -1..=1i64 {
                for dc in -1..=1i64 {
                    if (dr, dc) == (0, 0) {
                        continue;
                    }
                    let (rr, cc) = (r + dr, c + dc);
                    if rr >= 0 && rr < rows && cc >= 0 && cc < cols {
                        n += g[rr as usize][cc as usize];
                    }
                }
            }
            let cur = g[r as usize][c as usize];
            out[r as usize][c as usize] = match (cur, n) {
                (1, 2) | (1, 3) => 1,
                (1, _) => 0,
                (_, 3) => 1,
                _ => cur,
            };
        }
    }
    out
}

fn glider_board(rows: usize, cols: usize) -> Board {
    let mut cells = vec![0u8; rows * cols];
    for (r, c) in [(0, 1), (1, 2), (2, 0), (2, 1), (2, 2), (5, 5), (5, 6), (5, 7)] {
        cells[r * cols + c] = 1;
    }
    Board::new(rows, cols, cells).unwrap()
}

#[test]
fn flip_board_turns_every_cell() {
    let mut b = board_from_rows(&[&[0, 1], &[1, 0]]);
    flip_board(&mut b, &2, &2);
    assert_eq!(to_rows(&b), vec![vec![1, 0], vec![0, 1]]);
}

#[test]
fn gather_board_values_adds_positions() {
    let b = weighted_board(&[&[1, 2], &[3, 4]]);
    assert_eq!(gather_board_values(&b, &[(0, 0), (1, 1)]), 5);
    assert_eq!(gather_board_values(&b, &[]), 0);
    assert_eq!(gather_board_values(&b, &[(0, 1), (0, 1)]), 4);
}

#[test]
fn count_neighbors_weighted_grid() {
    let b = weighted_board(&[&[0, 1, 2], &[3, 4, 5], &[6, 7, 8]]);
    let expected = [[8, 14, 10], [18, 32, 22], [14, 26, 16]];
    for r in 0..3 {
        for c in 0..3 {
            assert_eq!(count_neighbors(&b, &3, &3, &r, &c), expected[r][c], "cell ({}, {})", r, c);
        }
    }
}

#[test]
fn count_neighbors_larger_grid_edges() {
    // 4 x 5 grid with value r * 5 + c + 1 at (r, c)
    let rows: Vec<Vec<u8>> = (0..4).map(|r| (0..5).map(|c| (r * 5 + c + 1) as u8).collect()).collect();
    let refs: Vec<&[u8]> = rows.iter().map(|r| r.as_slice()).collect();
    let b = weighted_board(&refs);
    for r in 0..4i64 {
        for c in 0..5i64 {
            let mut n = 0u8;
            for (dr, dc) in [(-1, -1), (-1, 0), (-1, 1), (0, -1), (0, 1), (1, -1), (1, 0), (1, 1)] {
                let (rr, cc) = (r + dr, c + dc);
                if (0..4).contains(&rr) && (0..5).contains(&cc) {
                    n += rows[rr as usize][cc as usize];
                }
            }
            assert_eq!(count_neighbors(&b, &4, &5, &(r as usize), &(c as usize)), n);
        }
    }
}

#[test]
fn count_neighbors_single_row_and_column() {
    let row = weighted_board(&[&[1, 2, 4, 8]]);
    assert_eq!(count_neighbors(&row, &1, &4, &0, &0), 2);
    assert_eq!(count_neighbors(&row, &1, &4, &0, &1), 5);
    assert_eq!(count_neighbors(&row, &1, &4, &0, &2), 10);
    assert_eq!(count_neighbors(&row, &1, &4, &0, &3), 4);
    let col = weighted_board(&[&[1], &[2], &[4]]);
    assert_eq!(count_neighbors(&col, &3, &1, &0, &0), 2);
    assert_eq!(count_neighbors(&col, &3, &1, &1, &0), 5);
    assert_eq!(count_neighbors(&col, &3, &1, &2, &0), 2);
    let one = board_from_rows(&[&[1]]);
    assert_eq!(count_neighbors(&one, &1, &1, &0, &0), 0);
}

#[test]
fn capture_moves_l_shape() {
    let b = board_from_rows(&[&[0, 1, 0], &[1, 1, 1], &[1, 0, 0]]);
    // (0, 0) is dead with three live neighbours and is born; (1, 0) is alive
    // with three live neighbours and stays alive, so it yields no change.
    assert_eq!(capture_moves(&b, &3, &3, &0, &2, &0, &1), vec![(0, 0, 1)]);
}

#[test]
fn capture_moves_whole_grid_lists_only_changes() {
    let b = board_from_rows(&[&[0, 1, 0], &[1, 1, 1], &[1, 0, 0]]);
    let moves = capture_moves(&b, &3, &3, &0, &3, &0, &3);
    assert_eq!(moves, vec![(0, 0, 1), (0, 2, 1), (1, 1, 0)]);
}

#[test]
fn lone_cell_dies() {
    let b = board_from_rows(&[&[0, 0, 0], &[0, 1, 0], &[0, 0, 0]]);
    assert_eq!(capture_moves(&b, &3, &3, &0, &3, &0, &3), vec![(1, 1, 0)]);
    let next = advance(&b, 3, 3, &vec![(0, 3, 0, 3)]);
    assert_eq!(to_rows(&next), vec![vec![0; 3]; 3]);
}

#[test]
fn block_still_life_yields_no_change() {
    let b = board_from_rows(&[&[0, 0, 0, 0], &[0, 1, 1, 0], &[0, 1, 1, 0], &[0, 0, 0, 0]]);
    assert_eq!(capture_moves(&b, &4, &4, &1, &3, &1, &3), vec![]);
    assert_eq!(capture_moves(&b, &4, &4, &0, &4, &0, &4), vec![]);
}

#[test]
fn get_groups_balanced() {
    assert_eq!(get_groups(11, 2), vec![6, 5]);
    assert_eq!(get_groups(42, 1), vec![42]);
    assert_eq!(get_groups(20, 6), vec![4, 4, 3, 3, 3, 3]);
    assert_eq!(get_groups(2, 3), vec![1, 1, 0]);
}

#[test]
fn get_subgrids_15_by_7() {
    assert_eq!(
        get_subgrids(15, 7),
        vec![
            (0, 5, 0, 3),
            (0, 5, 3, 5),
            (0, 5, 5, 7),
            (5, 10, 0, 3),
            (5, 10, 3, 5),
            (5, 10, 5, 7),
            (10, 15, 0, 3),
            (10, 15, 3, 5),
            (10, 15, 5, 7)
        ]
    );
}

#[test]
fn partition_covers_each_cell_once() {
    for &(rows, cols, rg, cg) in &[(15, 7, 3, 3), (11, 20, 2, 6), (5, 5, 5, 5), (9, 4, 1, 1), (13, 8, 4, 3)] {
        let regions = partition(rows, cols, rg, cg).unwrap();
        assert_eq!(regions.len(), rg * cg);
        let mut count = vec![vec![0u32; cols]; rows];
        for &(r0, r1, c0, c1) in &regions {
            assert!(r0 < r1 && r1 <= rows && c0 < c1 && c1 <= cols);
            for r in r0..r1 {
                for c in c0..c1 {
                    count[r][c] += 1;
                }
            }
        }
        assert!(count.iter().all(|row| row.iter().all(|&n| n == 1)));
    }
}

#[test]
fn partition_refuses_bad_counts() {
    assert_eq!(partition(0, 5, 1, 1), Err(ConfigError::EmptyGrid));
    assert_eq!(partition(5, 0, 1, 1), Err(ConfigError::EmptyGrid));
    assert_eq!(partition(5, 5, 0, 1), Err(ConfigError::NoGroups));
    assert_eq!(partition(5, 5, 1, 0), Err(ConfigError::NoGroups));
    assert_eq!(partition(2, 5, 3, 1), Err(ConfigError::TooManyGroups));
    assert_eq!(partition(5, 2, 1, 3), Err(ConfigError::TooManyGroups));
    assert_eq!(partition(3, 3, 3, 3).unwrap().len(), 9);
}

#[test]
fn board_new_validates() {
    assert!(matches!(Board::new(0, 3, vec![]), Err(GridError::EmptyGrid)));
    assert!(matches!(Board::new(2, 0, vec![]), Err(GridError::EmptyGrid)));
    assert!(matches!(Board::new(2, 2, vec![0, 1, 0]), Err(GridError::WrongCellCount)));
    assert!(matches!(Board::new(2, 2, vec![0, 1, 0, 1, 1]), Err(GridError::WrongCellCount)));
    assert!(matches!(Board::new(2, 2, vec![0, 1, 2, 1]), Err(GridError::InvalidCell)));
    let b = Board::new(2, 3, vec![0, 1, 0, 1, 1, 0]).unwrap();
    assert_eq!((b.nrows(), b.ncols()), (2, 3));
    assert_eq!(to_rows(&b), vec![vec![0, 1, 0], vec![1, 1, 0]]);
}

#[test]
fn is_life_board_checks_shape_and_values() {
    let b = board_from_rows(&[&[0, 1, 0], &[1, 1, 0]]);
    assert!(is_life_board(&b, 2, 3));
    assert!(!is_life_board(&b, 3, 2));
    assert!(!is_life_board(&b, 2, 2));
    let w = weighted_board(&[&[0, 2], &[1, 1]]);
    assert!(!is_life_board(&w, 2, 2));
}

#[test]
fn apply_moves_writes_only_listed_cells() {
    let mut b = board_from_rows(&[&[0, 0], &[0, 0]]);
    apply_moves(&mut b, &vec![(0, 1, 1), (1, 0, 1)]);
    assert_eq!(to_rows(&b), vec![vec![0, 1], vec![1, 0]]);
}

#[test]
fn advance_leaves_input_unchanged() {
    let b = board_from_rows(&[&[0, 1, 0], &[0, 1, 0], &[0, 1, 0]]);
    let next = advance(&b, 3, 3, &get_subgrids(3, 3));
    assert_eq!(to_rows(&b), vec![vec![0, 1, 0], vec![0, 1, 0], vec![0, 1, 0]]);
    assert_eq!(to_rows(&next), vec![vec![0, 0, 0], vec![1, 1, 1], vec![0, 0, 0]]);
}

#[test]
fn partitioned_generations_match_sequential() {
    let (rows, cols) = (12usize, 10usize);
    let partitions: Vec<Vec<SubRegion>> = vec![
        vec![(0, rows, 0, cols)],
        get_subgrids(rows, cols),
        partition(rows, cols, 4, 5).unwrap(),
        partition(rows, cols, 12, 10).unwrap(),
    ];
    let start = glider_board(rows, cols);
    let mut expected = to_rows(&start);
    let mut boards: Vec<Board> = partitions.iter().map(|_| glider_board(rows, cols)).collect();
    let mut merged = glider_board(rows, cols);
    for _ in 0..20 {
        expected = reference_step(&expected);
        for (b, regions) in boards.iter_mut().zip(&partitions) {
            *b = advance(b, rows, cols, regions);
            assert_eq!(to_rows(b), expected);
        }
        let regions = &partitions[1];
        let batches: Vec<Vec<CellChange>> = regions
            .iter()
            .map(|&(r0, r1, c0, c1)| capture_moves(&merged, &rows, &cols, &r0, &r1, &c0, &c1))
            .collect();
        merged = merge_moves(&merged, &batches);
        assert_eq!(to_rows(&merged), expected);
    }
}

#[test]
fn corner_cell_is_not_a_neighbor_of_opposite_corner() {
    let mut cells = vec![0u8; 4 * 5];
    cells[0] = 1;
    let b = Board::new(4, 5, cells).unwrap();
    assert_eq!(count_neighbors(&b, &4, &5, &3, &4), 0);
    assert_eq!(count_neighbors(&b, &4, &5, &0, &1), 1);
    let line = Board::new(1, 3, vec![1, 0, 0]).unwrap();
    assert_eq!(count_neighbors(&line, &1, &3, &0, &2), 0);
    let next = advance(&b, 4, 5, &get_subgrids(4, 5));
    assert_eq!(to_rows(&next), vec![vec![0; 5]; 4]);
}
