use tictactoe::game::{Action, GameState, Player, Progress};
use tictactoe::code::state_code;

fn parse(rows: [&str; 3], turn: Player) -> GameState {
    let mut board = [[None; 3]; 3];
    for r in 0..3 {
        for (c, ch) in rows[r].chars().enumerate() {
            board[r][c] = match ch {
                'X' => Some(Player::You),
                'O' => Some(Player::Opponent),
                _ => None,
            };
        }
    }
    GameState { board, turn }
}

fn occupied(s: &GameState) -> usize {
    s.board.iter().flatten().filter(|c| c.is_some()).count()
}

#[test]
fn player_opposite_swaps() {
    assert_eq!(Player::You.opposite(), Player::Opponent);
    assert_eq!(Player::Opponent.opposite(), Player::You);
}

#[test]
fn progress_row_win() {
    let s = parse(["...", "OOO", "XX."], Player::You);
    assert_eq!(s.progress(), Progress::Win(Player::Opponent));
}

#[test]
fn progress_column_win() {
    let s = parse(["X.O", "X.O", "X.."], Player::Opponent);
    assert_eq!(s.progress(), Progress::Win(Player::You));
}

#[test]
fn progress_diagonal_wins() {
    let d = parse(["X.O", ".XO", "..X"], Player::Opponent);
    assert_eq!(d.progress(), Progress::Win(Player::You));
    let a = parse(["X.O", "XO.", "O.X"], Player::You);
    assert_eq!(a.progress(), Progress::Win(Player::Opponent));
}

#[test]
fn progress_draw_and_ongoing() {
    let full = parse(["XOX", "XOO", "OXX"], Player::Opponent);
    assert_eq!(full.progress(), Progress::Draw);
    let empty = parse(["...", "...", "..."], Player::You);
    assert_eq!(empty.progress(), Progress::Ongoing);
    let partial = parse(["XOX", "XOO", "OX."], Player::You);
    assert_eq!(partial.progress(), Progress::Ongoing);
}

#[test]
fn progress_first_line_checked_wins() {
    // Row 0 is checked before row 1.
    let s = parse(["XXX", "OOO", "..."], Player::You);
    assert_eq!(s.progress(), Progress::Win(Player::You));
}

#[test]
fn possible_actions_in_row_major_order() {
    let s = parse(["X.O", "...", "O.X"], Player::You);
    let acts = s.possible_actions();
    let expected = vec![
        Action { row: 0, col: 1 },
        Action { row: 1, col: 0 },
        Action { row: 1, col: 1 },
        Action { row: 1, col: 2 },
        Action { row: 2, col: 1 },
    ];
    assert_eq!(acts, expected);
}

#[test]
fn possible_actions_empty_board_has_nine() {
    let s = parse(["...", "...", "..."], Player::You);
    assert_eq!(s.possible_actions().len(), 9);
}

#[test]
fn won_position_has_no_actions() {
    let s = parse(["XXX", "OO.", "..."], Player::Opponent);
    assert_eq!(s.possible_actions(), Vec::<Action>::new());
}

#[test]
fn full_board_has_no_actions() {
    let s = parse(["XOX", "XOO", "OXX"], Player::Opponent);
    assert!(s.possible_actions().is_empty());
}

#[test]
fn next_marks_cell_and_flips_turn() {
    let s = parse(["...", "...", "..."], Player::You);
    let t = s.next(Action { row: 1, col: 2 });
    assert_eq!(t, parse(["...", "..X", "..."], Player::Opponent));
    let u = t.next(Action { row: 0, col: 0 });
    assert_eq!(u, parse(["O..", "..X", "..."], Player::You));
}

#[test]
fn two_moves_fill_two_distinct_cells() {
    let s = parse(["X.O", "...", "..."], Player::You);
    for a1 in s.possible_actions() {
        let t = s.next(a1);
        for a2 in t.possible_actions() {
            assert!(a1 != a2);
            let u = t.next(a2);
            assert_eq!(occupied(&u), occupied(&s) + 2);
            assert_eq!(u.board[a1.row][a1.col], Some(Player::You));
            assert_eq!(u.board[a2.row][a2.col], Some(Player::Opponent));
        }
    }
}

#[test]
fn opposite_mirrors_board_and_turn() {
    let s = parse(["X.O", ".X.", "..O"], Player::You);
    assert_eq!(s.opposite(), parse(["O.X", ".O.", "..X"], Player::Opponent));
    assert_eq!(s.opposite().opposite(), s);
}

#[test]
fn state_code_values() {
    let empty = parse(["...", "...", "..."], Player::You);
    assert_eq!(state_code(&empty), 0);
    assert_eq!(state_code(&parse(["...", "...", "..."], Player::Opponent)), 1);
    assert_eq!(state_code(&parse(["X..", "...", "..."], Player::You)), 13122);
    assert_eq!(state_code(&parse(["...", "...", "..O"], Player::You)), 4);
    assert_eq!(state_code(&parse(["OOO", "OOO", "OOO"], Player::Opponent)), 39365);
}
