use binairo::board::{Board, BoardError, OPEN};
use binairo::search::Search;

const O: u8 = OPEN;

fn board_of(squares: Vec<u8>, dim: usize, options: Vec<char>, max_items: usize) -> Board {
    Board { size: squares.len(), squares, dim, options, max_items }
}

fn lines(board: &Board) -> Vec<Vec<u8>> {
    let d = board.dim;
    let mut out = Vec::new();
    for y in 0..d {
        out.push(board.get_row(y).to_vec());
    }
    for x in 0..d {
        out.push((0..d).map(|y| board.squares[y * d + x]).collect());
    }
    out
}

fn assert_lines_ok(board: &Board) {
    for line in lines(board) {
        for v in 0..board.options.len() as u8 {
            assert!(line.iter().filter(|&&c| c == v).count() <= board.max_items);
        }
        for w in line.windows(3) {
            assert!(!(w[0] != OPEN && w[0] == w[1] && w[1] == w[2]));
        }
    }
}

fn render(board: &Board) -> String {
    board
        .squares
        .iter()
        .map(|&v| if v == OPEN { '.' } else { board.options[v as usize] })
        .collect()
}

fn small_puzzle() -> Board {
    board_of(
        vec![O, O, 0, O, 0, O, O, O, O, O, O, 0, O, 0, O, O],
        4,
        vec!['A', 'B'],
        2,
    )
}

#[test]
fn new_reads_symbols_in_first_seen_order() {
    let b = Board::new("BA\nAB").unwrap();
    assert_eq!(b.options, vec!['B', 'A']);
    assert_eq!(b.squares, vec![0, 1, 1, 0]);
    assert_eq!(b.dim, 2);
    assert_eq!(b.size, 4);
    assert_eq!(b.max_items, 1);
}

#[test]
fn new_drops_dashes_and_line_breaks_and_reads_blanks_as_open() {
    let b = Board::new("X .\n--.\tX\n\u{a0}X.").unwrap();
    assert_eq!(b.options, vec!['X']);
    assert_eq!(b.dim, 3);
    assert_eq!(b.size, 9);
    assert_eq!(b.max_items, 3);
    assert_eq!(b.squares, vec![0, O, O, O, O, 0, O, 0, O]);
}

#[test]
fn new_without_symbols_has_cap_zero() {
    let b = Board::new("....").unwrap();
    assert!(b.options.is_empty());
    assert_eq!(b.squares, vec![O; 4]);
    assert_eq!(b.max_items, 0);
}

#[test]
fn new_on_empty_text_gives_empty_board() {
    let b = Board::new("").unwrap();
    assert_eq!(b.size, 0);
    assert_eq!(b.dim, 0);
}

#[test]
fn new_rejects_a_size_that_is_not_square() {
    assert_eq!(Board::new("ABC").unwrap_err(), BoardError::InvalidSize { size: 3 });
    assert_eq!(Board::new("AB-\n--AB.").unwrap_err(), BoardError::InvalidSize { size: 5 });
}

#[test]
fn new_rejects_too_many_symbols() {
    let mut text = String::new();
    for i in 0..256u32 {
        text.push(char::from_u32(0x4e00 + i).unwrap());
    }
    assert_eq!(Board::new(&text).unwrap_err(), BoardError::TooManySymbols { count: 256 });
}

#[test]
fn new_accepts_as_many_symbols_as_a_cell_can_index() {
    // 255 symbols fit beside the open value; on 16 cells a side the cap is 0,
    // so every filled cell is reported rather than the alphabet refused.
    let mut text = String::new();
    for i in 0..255u32 {
        text.push(char::from_u32(0x4e00 + i).unwrap());
    }
    text.push('.');
    match Board::new(&text).unwrap_err() {
        BoardError::IllegalValues(cells) => {
            assert_eq!(cells.len(), 255);
            assert_eq!(cells[0], ('\u{4e00}', 1, 1));
            assert_eq!(cells[254], ('\u{4efe}', 15, 16));
        }
        e => panic!("unexpected error {:?}", e),
    }
}

#[test]
fn new_reports_three_in_a_row_with_positions() {
    let err = Board::new("AAA.\n....\n....\n....").unwrap_err();
    assert_eq!(err, BoardError::IllegalValues(vec![('A', 1, 1), ('A', 2, 1), ('A', 3, 1)]));
    match err {
        BoardError::IllegalValues(cells) => assert!(cells.contains(&('A', 3, 1))),
        _ => panic!("wrong error"),
    }
}

#[test]
fn new_reports_cells_over_the_cap() {
    // Two symbols on a 2x2 board allow one of each per line.
    let err = Board::new("AA\nB.").unwrap_err();
    assert_eq!(err, BoardError::IllegalValues(vec![('A', 1, 1), ('A', 2, 1)]));
}

#[test]
fn new_reports_cells_in_a_column() {
    let err = Board::new("B...\nB...\nB...\n...A").unwrap_err();
    assert_eq!(err, BoardError::IllegalValues(vec![('B', 1, 1), ('B', 1, 2), ('B', 1, 3)]));
}

#[test]
fn get_and_set_square_value() {
    let mut b = Board::new("A..B").unwrap();
    assert_eq!(b.get_square_value(0), 0);
    assert_eq!(b.get_square_value(1), O);
    b.set_square_value(1, 1);
    assert_eq!(b.get_square_value(1), 1);
    assert_eq!(b.squares, vec![0, 1, O, 1]);
    b.set_square_value(1, O);
    assert_eq!(b.squares, vec![0, O, O, 1]);
}

#[test]
fn get_row_returns_the_row() {
    let b = Board::new("AB.\n.AB\nB.A").unwrap();
    assert_eq!(b.get_row(0), &[0, 1, O]);
    assert_eq!(b.get_row(1), &[O, 0, 1]);
    assert_eq!(b.get_row(2), &[1, O, 0]);
}

#[test]
fn valid_square_value_checks_cap_and_runs() {
    let mut b = small_puzzle();
    // Row 0 already holds A at x = 2: a second A fits, a third would not.
    assert!(b.valid_square_value(0, 0));
    b.set_square_value(0, 0);
    assert!(!b.valid_square_value(1, 0));
    assert!(b.valid_square_value(1, 1));
    b.set_square_value(0, O);
    // Three equal values through the cell are refused.
    let mut c = board_of(vec![0, 0, O, O, O, O, O, O, O, O, O, O, O, O, O, O], 4, vec!['A', 'B'], 4);
    assert!(!c.valid_square_value(2, 0));
    assert!(c.valid_square_value(3, 0));
    assert!(c.valid_square_value(2, 1));
    // An open value passes the cap but not a run of open cells.
    assert!(!c.valid_square_value(15, O));
    assert!(!c.valid_square_value(2, O));
}

#[test]
fn valid_square_value_ignores_what_the_cell_holds() {
    // Row 0 reads A B A B: an A at x = 1 would stand between two A.
    let mut b = board_of(vec![0, 1, 0, 1, O, O, O, O, O, O, O, O, O, O, O, O], 4, vec!['A', 'B'], 4);
    assert!(!b.valid_square_value(1, 0));
    assert!(b.valid_square_value(1, 1));
    assert_eq!(b.squares[1], 1);
}

#[test]
fn valid_square_value_leaves_board_unchanged() {
    let mut b = small_puzzle();
    let before = b.squares.clone();
    for i in 0..16 {
        for v in [0u8, 1, O] {
            b.valid_square_value(i, v);
            assert_eq!(b.squares, before);
        }
    }
}

#[test]
fn search_solves_small_puzzle() {
    let mut b = small_puzzle();
    let found = Search::new(&mut b).search_board(0);
    assert!(found);
    assert_eq!(b.squares, vec![0, 1, 0, 1, 0, 0, 1, 1, 1, 1, 0, 0, 1, 0, 1, 0]);
    for line in lines(&b) {
        assert_eq!(line.iter().filter(|&&c| c == 0).count(), 2);
        assert_eq!(line.iter().filter(|&&c| c == 1).count(), 2);
    }
    assert_lines_ok(&b);
}

#[test]
fn search_result_passes_validation_again() {
    let mut b = Board::new("A.....\n..B...\n......\n...A..\n......\n.B...A").unwrap();
    assert!(Search::new(&mut b).search_board(0));
    assert!(b.squares.iter().all(|&v| v != OPEN));
    assert_lines_ok(&b);
    let again = Board::new(&render(&b)).unwrap();
    assert_eq!(again.squares, b.squares);
}

#[test]
fn search_is_deterministic() {
    let text = "A.....\n..B...\n......\n...A..\n......\n.B...A";
    let mut b1 = Board::new(text).unwrap();
    let mut b2 = Board::new(text).unwrap();
    let r1 = Search::new(&mut b1).search_board(0);
    let r2 = Search::new(&mut b2).search_board(0);
    assert_eq!(r1, r2);
    assert_eq!(b1.squares, b2.squares);
}

#[test]
fn search_failure_leaves_board_unchanged() {
    // The first row needs B in its second cell, whose column already holds B.
    let mut b = Board::new("A..B").unwrap();
    let before = b.squares.clone();
    assert!(!Search::new(&mut b).search_board(0));
    assert_eq!(b.squares, before);
}

#[test]
fn search_on_full_board_succeeds_at_once() {
    let mut b = Board::new("AB\nBA").unwrap();
    assert!(Search::new(&mut b).search_board(0));
    assert_eq!(b.squares, vec![0, 1, 1, 0]);
    let mut e = Board::new("").unwrap();
    assert!(Search::new(&mut e).search_board(0));
}

#[test]
fn search_without_symbols_fails_on_open_cells() {
    let mut b = Board::new("....").unwrap();
    assert!(!Search::new(&mut b).search_board(0));
    assert_eq!(b.squares, vec![O; 4]);
}

#[test]
fn search_finds_lexicographically_first_solution() {
    // Both Latin squares of side 2 solve the empty board; the first has A first.
    let mut b = board_of(vec![O; 4], 2, vec!['A', 'B'], 1);
    assert!(Search::new(&mut b).search_board(0));
    assert_eq!(b.squares, vec![0, 1, 1, 0]);
}

#[test]
fn search_from_later_start_keeps_earlier_cells() {
    let mut b = board_of(vec![1, 0, O, O], 2, vec!['A', 'B'], 1);
    assert!(Search::new(&mut b).search_board(2));
    assert_eq!(b.squares, vec![1, 0, 0, 1]);
}
