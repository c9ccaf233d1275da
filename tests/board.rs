use sudoku::board::{Board, GridError};

fn unsolved_board() -> Board {
    Board::from_cells(vec![
        4, 6, 2, /**/ 5, 0, 0, /**/ 0, 3, 8,
        7, 9, 3, /**/ 8, 0, 2, /**/ 5, 0, 4,
        0, 8, 0, /**/ 0, 0, 4, /**/ 6, 0, 0,
        /**********************************/
        0, 5, 0, /**/ 0, 2, 9, /**/ 1, 8, 6,
        0, 0, 1, /**/ 6, 5, 8, /**/ 3, 2, 7,
        6, 2, 0, /**/ 0, 3, 0, /**/ 0, 0, 0,
        /**********************************/
        8, 0, 9, /**/ 0, 0, 0, /**/ 2, 0, 0,
        2, 3, 4, /**/ 9, 0, 0, /**/ 8, 0, 0,
        5, 0, 0, /**/ 0, 0, 0, /**/ 9, 4, 1,
    ])
    .unwrap()
}

fn cells_of(board: &Board) -> Vec<isize> {
    (0..board.len()).map(|i| board.get(i).unwrap()).collect()
}

fn collect_rows(board: &Board) -> Vec<Vec<isize>> {
    let mut out = Vec::new();
    let mut rows = board.rows();
    while let Some(row) = rows.next() {
        out.push(row);
    }
    out
}

fn collect_cols(board: &Board) -> Vec<Vec<isize>> {
    let mut out = Vec::new();
    let mut cols = board.cols();
    while let Some(col) = cols.next() {
        out.push(col);
    }
    out
}

fn collect_zones(board: &Board) -> Vec<Vec<isize>> {
    let mut out = Vec::new();
    let mut zones = board.zones();
    while let Some(zone) = zones.next() {
        out.push(zone);
    }
    out
}

#[test]
fn test_zones() {
    let board = unsolved_board();

    let zones: Vec<Vec<isize>> = vec![
        vec![4, 6, 2, 7, 9, 3, 0, 8, 0,], /**/
        vec![5, 0, 0, 8, 0, 2, 0, 0, 4,], /**/
        vec![0, 3, 8, 5, 0, 4, 6, 0, 0,],
             /************************/
        vec![0, 5, 0, 0, 0, 1, 6, 2, 0,], /**/
        vec![0, 2, 9, 6, 5, 8, 0, 3, 0,], /**/
        vec![1, 8, 6, 3, 2, 7, 0, 0, 0,],
             /************************/
        vec![8, 0, 9, 2, 3, 4, 5, 0, 0,], /**/
        vec![0, 0, 0, 9, 0, 0, 0, 0, 0,], /**/
        vec![2, 0, 0, 8, 0, 0, 9, 4, 1,],
    ];

    let mut cursor = board.zones();
    for truth in zones {
        let output = cursor.next().unwrap();
        println!("{:?}    {:?}", output, truth);
        assert_eq!(output, truth);
    }
}

#[test]
fn test_idx() {
    let board = unsolved_board();
    let mut zone_idx: Vec<Vec<usize>> = Vec::new();

    for i in 0..9 {
        let begin = board.zone_row_starts(i);
        println!("{:?}", begin);
        zone_idx.push(begin);
    }

    assert_eq!(vec![
        vec![ 0,  9, 18],
        vec![ 3, 12, 21],
        vec![ 6, 15, 24],

        vec![27, 36, 45],
        vec![30, 39, 48],
        vec![33, 42, 51],

        vec![54, 63, 72],
        vec![57, 66, 75],
        vec![60, 69, 78],
    ], zone_idx)
}

#[test]
fn new_board_is_all_zero() {
    let board = Board::new(9);
    assert_eq!(board.degree, 9);
    assert_eq!(board.degree(), 9);
    assert_eq!(board.len(), 81);
    assert!(cells_of(&board).iter().all(|&v| v == 0));
}

#[test]
fn set_then_get_returns_value() {
    let mut board = Board::new(9);
    for i in 0..81 {
        let v = (i as isize) * 3 - 100;
        assert_eq!(board.set(i, v), Ok(()));
        assert_eq!(board.get(i), Ok(v));
    }
    assert_eq!(board.set(80, 12), Ok(()));
    assert_eq!(board.get(80), Ok(12));
    assert_eq!(board.get(79), Ok(79 * 3 - 100));
}

#[test]
fn linear_access_out_of_range() {
    let mut board = Board::new(9);
    assert_eq!(board.get(81), Err(GridError::IndexOutOfRange));
    assert_eq!(board.set(81, 1), Err(GridError::IndexOutOfRange));
    assert_eq!(cells_of(&board), vec![0; 81]);
}

#[test]
fn row_col_access() {
    let mut board = Board::new(9);
    assert_eq!(board.set_at(2, 7, 5), Ok(()));
    assert_eq!(board.get(2 * 9 + 7), Ok(5));
    assert_eq!(board.get_at(2, 7), Ok(5));
    assert_eq!(board.get_at(7, 2), Ok(0));
    assert_eq!(board.get_at(9, 0), Err(GridError::IndexOutOfRange));
    assert_eq!(board.get_at(0, 9), Err(GridError::IndexOutOfRange));
    assert_eq!(board.set_at(0, 9, 1), Err(GridError::IndexOutOfRange));
    assert_eq!(board.set_at(9, 0, 1), Err(GridError::IndexOutOfRange));
}

#[test]
fn from_cells_rejects_non_square_length() {
    assert_eq!(Board::from_cells(vec![0; 80]), Err(GridError::DimensionMismatch));
    assert_eq!(Board::from_cells(vec![1, 2, 3]), Err(GridError::DimensionMismatch));
    let b = Board::from_cells(vec![1, 2, 3, 4]).unwrap();
    assert_eq!(b.degree, 2);
    let empty = Board::from_cells(Vec::new()).unwrap();
    assert_eq!(empty.degree, 0);
    assert_eq!(collect_rows(&empty), Vec::<Vec<isize>>::new());
}

#[test]
fn rows_concatenate_to_storage() {
    let board = unsolved_board();
    let rows = collect_rows(&board);
    assert_eq!(rows.len(), 9);
    assert!(rows.iter().all(|r| r.len() == 9));
    assert_eq!(rows[0], vec![4, 6, 2, 5, 0, 0, 0, 3, 8]);
    let flat: Vec<isize> = rows.into_iter().flatten().collect();
    assert_eq!(flat, cells_of(&board));
}

#[test]
fn cols_transpose_rows() {
    let board = unsolved_board();
    let rows = collect_rows(&board);
    let cols = collect_cols(&board);
    assert_eq!(cols.len(), 9);
    assert_eq!(cols[0], vec![4, 7, 0, 0, 0, 6, 8, 2, 5]);
    for r in 0..9 {
        for c in 0..9 {
            assert_eq!(cols[c][r], rows[r][c]);
        }
    }
}

#[test]
fn zones_partition_cells() {
    let board = unsolved_board();
    let zones = collect_zones(&board);
    assert_eq!(zones.len(), 9);
    assert!(zones.iter().all(|z| z.len() == 9));
    let mut seen = vec![false; 81];
    for z in 0..9 {
        for (j, start) in board.zone_row_starts(z).into_iter().enumerate() {
            for k in 0..3 {
                assert!(!seen[start + k]);
                seen[start + k] = true;
                assert_eq!(zones[z][j * 3 + k], board.get(start + k).unwrap());
            }
        }
    }
    assert!(seen.into_iter().all(|s| s));
}

#[test]
fn zones_of_degree_four() {
    let board = Board::from_cells((1..=16).collect()).unwrap();
    assert_eq!(
        collect_zones(&board),
        vec![
            vec![1, 2, 5, 6],
            vec![3, 4, 7, 8],
            vec![9, 10, 13, 14],
            vec![11, 12, 15, 16],
        ]
    );
    assert_eq!(board.zone_row_starts(3), vec![10, 14]);
}

#[test]
fn views_repeat_on_unchanged_board() {
    let board = unsolved_board();
    assert_eq!(collect_rows(&board), collect_rows(&board));
    assert_eq!(collect_cols(&board), collect_cols(&board));
    assert_eq!(collect_zones(&board), collect_zones(&board));
    assert_eq!(board.simple_display(), board.simple_display());
}

#[test]
fn cursor_stops_after_last_view() {
    let board = Board::new(4);
    let mut rows = board.rows();
    for _ in 0..4 {
        assert_eq!(rows.next(), Some(vec![0, 0, 0, 0]));
    }
    assert_eq!(rows.next(), None);
    assert_eq!(rows.next(), None);
    assert_eq!(board.row(3), vec![0, 0, 0, 0]);
    assert_eq!(board.col(0), vec![0, 0, 0, 0]);
    assert_eq!(board.zone(1), vec![0, 0, 0, 0]);
}

#[test]
fn display_shows_one_digit_per_cell() {
    let mut board = Board::new(9);
    assert_eq!(board.simple_display(), "000000000\n".repeat(9));
    board.set(0, 12).unwrap();
    board.set(1, 7).unwrap();
    board.set(8, -3).unwrap();
    board.set(9, 25).unwrap();
    let text = board.simple_display();
    let lines: Vec<&str> = text.lines().collect();
    assert_eq!(lines.len(), 9);
    assert_eq!(lines[0], "270000003");
    assert_eq!(lines[1], "500000000");
}

#[test]
fn display_of_unsolved_board() {
    let text = unsolved_board().simple_display();
    assert!(text.starts_with("462500038\n793802504\n"));
    assert!(text.ends_with("500000941\n"));
}
