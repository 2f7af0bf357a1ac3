use sudoku::{
    add_possibility, check_possibility, remove_possibility, toggle_possibility, AlreadySolved,
    Cell, LoadError, Sudoku,
};

const FULL: u16 = 0b1_1111_1111;

fn peers_of(i: usize) -> Vec<usize> {
    (0..81)
        .filter(|&j| {
            j != i && (j / 9 == i / 9 || j % 9 == i % 9 || (j / 27 == i / 27 && (j % 9) / 3 == (i % 9) / 3))
        })
        .collect()
}

fn chars(s: &str) -> Vec<char> {
    s.chars().collect()
}

#[test]
fn bit_primitives_exact_values() {
    assert_eq!(add_possibility(0, 1), 0b1);
    assert_eq!(add_possibility(0, 9), 0b1_0000_0000);
    assert_eq!(add_possibility(0b100, 3), 0b100);
    assert_eq!(remove_possibility(FULL, 5), 0b1_1110_1111);
    assert_eq!(remove_possibility(0, 5), 0);
    assert_eq!(toggle_possibility(0b10, 2), 0);
    assert_eq!(toggle_possibility(0, 4), 0b1000);
    assert!(check_possibility(0b1_0000_0000, 9));
    assert!(!check_possibility(0b0_1111_1111, 9));
    assert!(check_possibility(0b1, 1));
}

#[test]
fn add_then_remove_equals_remove() {
    for s in [0u16, 0b1010_1010, FULL, 0b1_0000_0001] {
        for d in 1..=9u8 {
            assert_eq!(
                remove_possibility(add_possibility(s, d), d),
                remove_possibility(s, d)
            );
            assert!(check_possibility(add_possibility(remove_possibility(s, d), d), d));
        }
    }
}

#[test]
fn toggle_twice_is_identity() {
    for s in [0u16, 0b1_0101_0101, FULL, 0b11] {
        for d in 1..=9u8 {
            assert_eq!(toggle_possibility(toggle_possibility(s, d), d), s);
        }
    }
}

#[test]
fn contains_after_add_and_remove() {
    for s in [0u16, FULL, 0b1_0010_0100] {
        for d in 1..=9u8 {
            assert!(check_possibility(add_possibility(s, d), d));
            assert!(!check_possibility(remove_possibility(s, d), d));
        }
    }
}

#[test]
fn new_board_is_blank() {
    let s = Sudoku::new();
    for i in 0..81 {
        assert_eq!(s.board[i], Cell::Unknown(0));
    }
}

#[test]
fn solve_on_blank_board_leaves_peers_empty() {
    let mut s = Sudoku::new();
    assert!(s.solve_cell(0, 5).is_ok());
    assert_eq!(s.board[0], Cell::Solved(5));
    for i in 1..81 {
        assert_eq!(s.board[i], Cell::Unknown(0));
    }
}

#[test]
fn solve_removes_digit_from_full_peers_only() {
    let mut s = Sudoku::new();
    for i in 0..81 {
        s.board[i] = Cell::Unknown(FULL);
    }
    assert!(s.solve_cell(0, 5).is_ok());
    assert_eq!(s.board[0], Cell::Solved(5));
    let peers = peers_of(0);
    assert_eq!(peers.len(), 20);
    for i in 1..81 {
        if peers.contains(&i) {
            assert_eq!(s.board[i], Cell::Unknown(0b1_1110_1111));
        } else {
            assert_eq!(s.board[i], Cell::Unknown(FULL));
        }
    }
}

#[test]
fn solve_cascades_into_peer_left_with_one_candidate() {
    let mut s = Sudoku::new();
    for i in 0..81 {
        s.board[i] = Cell::Unknown(FULL);
    }
    // cell 1 may hold 3 or 5: once 5 is gone it is solved to 3
    s.board[1] = Cell::Unknown(0b1_0100);
    assert!(s.solve_cell(0, 5).is_ok());
    assert_eq!(s.board[1], Cell::Solved(3));
    // cell 2 is a peer of both: loses 5 and 3
    assert_eq!(s.board[2], Cell::Unknown(FULL & !0b1_0000 & !0b100));
    // cell 28 shares only the column of cell 1: loses 3 only
    assert_eq!(s.board[28], Cell::Unknown(FULL & !0b100));
    // cell 80 is a peer of neither
    assert_eq!(s.board[80], Cell::Unknown(FULL));
}

#[test]
fn cascade_chains_through_several_cells() {
    let mut s = Sudoku::new();
    s.board[1] = Cell::Unknown(0b1_0010); // {2, 5}
    s.board[2] = Cell::Unknown(0b0_0110); // {2, 3}
    assert!(s.solve_cell(0, 5).is_ok());
    assert_eq!(s.board[1], Cell::Solved(2));
    assert_eq!(s.board[2], Cell::Solved(3));
}

#[test]
fn cascaded_solve_that_conflicts_leaves_cell_open() {
    let mut s = Sudoku::new();
    s.board[0] = Cell::Solved(5);
    s.board[1] = Cell::Unknown(0b1_0100); // {3, 5}
    assert!(s.remove_poss(1, 3).is_ok());
    assert_eq!(s.board[1], Cell::Unknown(0b1_0000));
    assert_eq!(s.board[0], Cell::Solved(5));
    match s.solve_cell(1, 5) {
        Err(e) => {
            assert_eq!(e.cell_attempted, 1);
            assert_eq!(e.conflicting_cell, 0);
            assert_eq!(e.value, 5);
        }
        Ok(()) => panic!("expected a conflict"),
    }
    assert_eq!(s.board[1], Cell::Unknown(0b1_0000));
}

#[test]
fn solve_conflict_leaves_board_unchanged() {
    let mut s = Sudoku::new();
    for i in 0..81 {
        s.board[i] = Cell::Unknown(FULL);
    }
    assert!(s.solve_cell(40, 7).is_ok());
    let before = s.board;
    match s.solve_cell(44, 7) {
        Err(e) => {
            assert_eq!(e.cell_attempted, 44);
            assert_eq!(e.conflicting_cell, 40);
            assert_eq!(e.value, 7);
        }
        Ok(()) => panic!("expected a conflict"),
    }
    assert_eq!(s.board, before);
}

#[test]
fn solving_a_solved_cell_again_replaces_its_digit() {
    let mut s = Sudoku::new();
    assert!(s.solve_cell(0, 5).is_ok());
    assert!(s.solve_cell(0, 7).is_ok());
    assert_eq!(s.board[0], Cell::Solved(7));
    s.board[80] = Cell::Solved(4);
    s.board[8] = Cell::Solved(4);
    assert!(s.solve_cell(0, 4).is_err());
    assert_eq!(s.board[0], Cell::Solved(7));
}

#[test]
fn unsolve_resets_to_empty_set() {
    let mut s = Sudoku::new();
    assert!(s.solve_cell(12, 9).is_ok());
    s.unsolve_cell(12);
    assert_eq!(s.board[12], Cell::Unknown(0));
}

#[test]
fn possibility_ops_on_solved_cell_fail() {
    let mut s = Sudoku::new();
    assert!(s.solve_cell(3, 1).is_ok());
    assert_eq!(s.remove_poss(3, 1), Err(AlreadySolved));
    assert_eq!(s.add_poss(3, 2), Err(AlreadySolved));
    assert_eq!(s.toggle_poss(3, 2), Err(AlreadySolved));
    assert_eq!(s.board[3], Cell::Solved(1));
}

#[test]
fn add_and_toggle_never_auto_solve() {
    let mut s = Sudoku::new();
    assert_eq!(s.add_poss(7, 4), Ok(()));
    assert_eq!(s.board[7], Cell::Unknown(0b1000));
    assert_eq!(s.toggle_poss(8, 6), Ok(()));
    assert_eq!(s.board[8], Cell::Unknown(0b10_0000));
    assert_eq!(s.toggle_poss(8, 6), Ok(()));
    assert_eq!(s.board[8], Cell::Unknown(0));
}

#[test]
fn remove_poss_solves_when_one_candidate_left() {
    let mut s = Sudoku::new();
    s.board[20] = Cell::Unknown(0b1_0000_0001); // {1, 9}
    s.board[21] = Cell::Unknown(0b1_0000_0010); // {2, 9}
    assert_eq!(s.remove_poss(20, 1), Ok(()));
    assert_eq!(s.board[20], Cell::Solved(9));
    assert_eq!(s.board[21], Cell::Solved(2));
}

#[test]
fn remove_poss_keeps_cell_open_with_several_candidates() {
    let mut s = Sudoku::new();
    s.board[20] = Cell::Unknown(0b111);
    assert_eq!(s.remove_poss(20, 2), Ok(()));
    assert_eq!(s.board[20], Cell::Unknown(0b101));
    assert_eq!(s.remove_poss(50, 2), Ok(()));
    assert_eq!(s.board[50], Cell::Unknown(0));
}

fn sample_text() -> String {
    let mut t = String::new();
    for r in 0..9 {
        for c in 0..9 {
            t.push(if (r + c) % 4 == 0 { char::from(b'1' + ((r * 3 + c) % 9) as u8) } else { '0' });
        }
        t.push('\n');
    }
    t
}

#[test]
fn loader_reads_81_characters() {
    let t = sample_text();
    let s = match Sudoku::from_chars(&chars(&t)) {
        Ok(s) => s,
        Err(e) => panic!("unexpected {:?}", e),
    };
    let flat: Vec<char> = t.chars().filter(|&c| c != '\n').collect();
    for i in 0..81 {
        let c = flat[i];
        if c == '0' {
            assert_eq!(s.board[i], Cell::Unknown(0));
        } else {
            assert_eq!(s.board[i], Cell::Solved(c as u8 - b'0'));
        }
    }
    // no spreading from the solved cells
    assert_eq!(s.board[1], Cell::Unknown(0));
}

#[test]
fn loader_rejects_80_characters() {
    let t: String = "0".repeat(80);
    assert_eq!(Sudoku::from_chars(&chars(&t)).err(), Some(LoadError::WrongLength(80)));
}

#[test]
fn loader_rejects_82_characters() {
    let t: String = "0".repeat(82);
    assert_eq!(Sudoku::from_chars(&chars(&t)).err(), Some(LoadError::WrongLength(82)));
}

#[test]
fn loader_ignores_line_breaks() {
    let t = format!("{}\n\n{}\n", "0".repeat(40), "0".repeat(41));
    assert!(Sudoku::from_chars(&chars(&t)).is_ok());
}

#[test]
fn loader_rejects_invalid_character() {
    let t = format!("{}x{}", "0".repeat(10), "0".repeat(70));
    assert_eq!(Sudoku::from_chars(&chars(&t)).err(), Some(LoadError::InvalidCharacter('x')));
    let u = format!("1 {}y", "0".repeat(90));
    assert_eq!(Sudoku::from_chars(&chars(&u)).err(), Some(LoadError::InvalidCharacter(' ')));
}

fn consistent(s: &Sudoku) -> bool {
    for i in 0..81 {
        for j in peers_of(i) {
            if let (Cell::Solved(a), Cell::Solved(b)) = (s.board[i], s.board[j]) {
                if a == b {
                    return false;
                }
            }
        }
    }
    true
}

#[test]
fn successful_solves_keep_peers_distinct() {
    let mut s = Sudoku::new();
    for i in 0..81 {
        s.board[i] = Cell::Unknown(FULL);
    }
    let moves: [(usize, u8); 12] = [
        (0, 1), (1, 2), (2, 3), (9, 4), (10, 5), (11, 6), (18, 7), (19, 8),
        (30, 1), (40, 2), (50, 3), (80, 9),
    ];
    for (idx, d) in moves {
        let _ = s.solve_cell(idx, d);
        assert!(consistent(&s));
    }
    // the box of cell 0 now has 20 left with the single candidate 9
    assert_eq!(s.board[20], Cell::Solved(9));
    assert!(s.solve_cell(3, 1).is_err());
    assert!(consistent(&s));
}
