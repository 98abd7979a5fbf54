//! The outcome rule: a parent's label from the labels of its children.
use vstd::prelude::*;
use crate::game::Player;

verus! {

/// Which final outcomes remain reachable for the player to move.
#[derive(PartialEq, Eq, Clone, Copy, Debug, Structural)]
pub enum GameStateInfo {
    /// Forced win.
    W,
    /// Never lose.
    WD,
    /// Not sure: win, draw and loss all reachable.
    WDL,
    /// Never draw.
    WL,
    /// Forced draw.
    D,
    /// Never win.
    DL,
    /// Forced lose.
    L,
}

/// The player to move, then for each label in the order
/// W, WD, WDL, WL, D, DL, L whether some child carries it.
pub type Summary = (Player, bool, bool, bool, bool, bool, bool, bool);

/// The decision table; the first matching row wins.
pub open spec fn classify(summary: Summary) -> GameStateInfo {
    match summary {
        (Player::You, true, _, _, _, _, _, _) => GameStateInfo::W,
        (Player::Opponent, true, false, false, false, false, false, false) => GameStateInfo::W,
        (Player::You, false, false, false, false, false, false, true) => GameStateInfo::L,
        (Player::Opponent, _, _, _, _, _, _, true) => GameStateInfo::L,
        (_, false, false, false, false, true, false, false) => GameStateInfo::D,
        (Player::Opponent, _, _, _, _, true, _, _) => GameStateInfo::DL,
        (Player::Opponent, _, _, _, _, _, true, _) => GameStateInfo::DL,
        (_, false, false, false, false, _, _, _) => GameStateInfo::DL,
        (_, _, _, false, false, _, false, false) => GameStateInfo::WD,
        (_, _, false, false, _, false, false, _) => GameStateInfo::WL,
        _ => GameStateInfo::WDL,
    }
}

/// Applies the decision table. It is total: every player and every
/// combination of present labels yields exactly one label.
pub fn build_info(summary: Summary) -> (r: GameStateInfo)
    ensures
        r == classify(summary),
{
    match summary {
        (Player::You, true, _, _, _, _, _, _) => GameStateInfo::W,
        (Player::Opponent, true, false, false, false, false, false, false) => GameStateInfo::W,
        (Player::You, false, false, false, false, false, false, true) => GameStateInfo::L,
        (Player::Opponent, _, _, _, _, _, _, true) => GameStateInfo::L,
        (_, false, false, false, false, true, false, false) => GameStateInfo::D,
        (Player::Opponent, _, _, _, _, true, _, _) => GameStateInfo::DL,
        (Player::Opponent, _, _, _, _, _, true, _) => GameStateInfo::DL,
        (_, false, false, false, false, _, _, _) => GameStateInfo::DL,
        (_, _, _, false, false, _, false, false) => GameStateInfo::WD,
        (_, _, false, false, _, false, false, _) => GameStateInfo::WL,
        _ => GameStateInfo::WDL,
    }
}

} // verus!
