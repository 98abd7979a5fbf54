use tictactoe::game::Player;
use tictactoe::outcome::build_info;
use tictactoe::outcome::GameStateInfo::{D, DL, L, W, WD, WDL, WL};

#[test]
fn build_info_is_total() {
    let mut count = 0;
    for mover in [Player::You, Player::Opponent] {
        for bits in 1u32..128 {
            let f = |k: u32| bits & (1 << k) != 0;
            let _ = build_info((mover, f(0), f(1), f(2), f(3), f(4), f(5), f(6)));
            count += 1;
        }
    }
    assert_eq!(count, 254);
}

#[test]
fn build_info_table_rows() {
    let y = Player::You;
    let o = Player::Opponent;
    assert_eq!(build_info((y, true, false, false, false, false, false, true)), W);
    assert_eq!(build_info((o, true, false, false, false, false, false, false)), W);
    assert_eq!(build_info((y, false, false, false, false, false, false, true)), L);
    assert_eq!(build_info((o, true, true, false, false, false, false, true)), L);
    assert_eq!(build_info((y, false, false, false, false, true, false, false)), D);
    assert_eq!(build_info((o, true, false, false, false, true, false, false)), DL);
    assert_eq!(build_info((o, false, true, false, false, false, true, false)), DL);
    assert_eq!(build_info((y, false, false, false, false, true, true, true)), DL);
    assert_eq!(build_info((y, false, true, false, false, true, false, false)), WD);
    assert_eq!(build_info((o, true, true, false, false, false, false, false)), WD);
    assert_eq!(build_info((y, false, false, false, true, false, false, true)), WL);
    assert_eq!(build_info((o, true, false, false, true, false, false, false)), WL);
    assert_eq!(build_info((y, false, false, true, false, false, false, false)), WDL);
    assert_eq!(build_info((y, false, true, false, false, false, false, true)), WDL);
}
