use chomp::board::Board;

#[test]
fn test_chomper() {
    let mut board = Board::new(5, 5);
    board.chomper(3, 3);
    for r in 3..=5 {
        for c in 3..=5 {
            assert!(
                !board.chocolate_bar.contains(&(r, c)),
                "Chomper failed at square ({}, {})",
                r,
                c
            );
        }
    }
}

#[test]
fn test_winning_move() {
    let mut board = Board::new(2, 2);
    let winning_move = board.winning_move();
    assert_eq!(winning_move, Some((2, 2)), "Winning move should be (2, 2)");
}

#[test]
fn chomper_removes_only_the_cone() {
    let mut board = Board::new(5, 5);
    board.chomper(3, 3);
    for r in 1..=5 {
        for c in 1..=5 {
            let expected = !(r >= 3 && c >= 3);
            assert_eq!(board.contains(r, c), expected, "square ({}, {})", r, c);
        }
    }
    assert_eq!(board.chocolate_bar.len(), 25 - 9);
}

#[test]
fn chomping_the_poison_square_empties_any_board() {
    for rows in 1..=4 {
        for cols in 1..=4 {
            let mut board = Board::new(rows, cols);
            board.chomper(1, 1);
            assert!(board.chocolate_bar.is_empty(), "{}x{} board", rows, cols);
        }
    }
}

#[test]
fn poison_only_position_has_no_winning_move() {
    // Chomp a 2x2 board down to just the poison square.
    let mut board = Board::new(2, 2);
    board.chomper(2, 2);
    board.chomper(1, 2);
    board.chomper(2, 1);
    assert!(board.is_terminal());
    assert_eq!(board.winning_move(), None);
}

#[test]
fn one_by_one_board_is_immediately_terminal() {
    let mut board = Board::new(1, 1);
    assert!(board.is_terminal());
    assert_eq!(board.winning_move(), None);
}

#[test]
fn single_row_winning_move_leaves_poison_square() {
    let mut board = Board::new(1, 3);
    assert_eq!(board.winning_move(), Some((1, 2)));
}

#[test]
fn first_player_wins_on_all_small_boards() {
    for rows in 1..=4usize {
        for cols in 1..=4usize {
            if rows == 1 && cols == 1 {
                continue;
            }
            let mut board = Board::new(rows, cols);
            assert!(
                board.winning_move().is_some(),
                "{}x{} board should be a first-player win",
                rows,
                cols
            );
        }
    }
}

#[test]
fn winning_move_is_deterministic_and_leaves_board_alone() {
    let mut board = Board::new(3, 4);
    let before = board.chocolate_bar.clone();
    let first = board.winning_move();
    assert_eq!(board.chocolate_bar, before);
    let second = board.winning_move();
    assert_eq!(first, second);
    assert_eq!(board.chocolate_bar, before);
}

#[test]
fn new_board_holds_the_full_rectangle() {
    let board = Board::new(3, 2);
    assert_eq!(board.rows, 3);
    assert_eq!(board.cols, 2);
    assert_eq!(board.chocolate_bar.len(), 6);
    for r in 1..=3 {
        for c in 1..=2 {
            assert!(board.contains(r, c));
        }
    }
    assert!(!board.contains(0, 1));
    assert!(!board.contains(4, 1));
    assert!(!board.contains(1, 3));
}

#[test]
fn terminal_is_exactly_the_poison_singleton() {
    let board = Board::new(2, 2);
    assert!(!board.is_terminal());
    let mut row = Board::new(1, 2);
    assert!(!row.is_terminal());
    row.chomper(1, 2);
    assert!(row.is_terminal());
}

#[test]
fn iter_remaining_sorted_is_row_major() {
    let mut board = Board::new(2, 3);
    board.chomper(2, 2);
    assert_eq!(
        board.iter_remaining_sorted(),
        vec![(1, 1), (1, 2), (1, 3), (2, 1)]
    );
}

#[test]
fn played_out_game_ends_at_the_poison_square() {
    // Let the solver play both sides from a 3x3 board; the game must reach
    // the terminal position in finitely many legal moves.
    let mut board = Board::new(3, 3);
    let mut moves = 0;
    while !board.is_terminal() {
        let next = board.winning_move();
        let (r, c) = match next {
            Some(sq) => sq,
            None => {
                // Losing side: take the bottom-right-most remaining square,
                // never the poison square unless it is all that is left.
                let mut pick = (1, 1);
                for &(r, c) in board.chocolate_bar.iter() {
                    if (r, c) != (1, 1) && (r, c) > pick {
                        pick = (r, c);
                    }
                }
                pick
            }
        };
        assert!(board.contains(r, c));
        board.chomper(r, c);
        moves += 1;
        assert!(moves <= 9, "game must end within one move per square");
    }
}
