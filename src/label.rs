//! The label of a position by backward induction over the game tree.
use vstd::prelude::*;
use crate::game::{
    Player, PositionModel, Progress, empties_below, empty_count, next_model, progress_of,
};
use crate::outcome::{GameStateInfo, classify};

verus! {

/// The label of a position under optimal play, by backward induction over
/// the game tree.
pub open spec fn label_of(m: PositionModel) -> GameStateInfo
    decreases empty_count(m), 10int,
{
    match progress_of(m) {
        Progress::Win(Player::You) => GameStateInfo::W,
        Progress::Win(Player::Opponent) => GameStateInfo::L,
        Progress::Draw => GameStateInfo::D,
        Progress::Ongoing => classify(
            (
                m.turn,
                has_child_below(m, 9, GameStateInfo::W),
                has_child_below(m, 9, GameStateInfo::WD),
                has_child_below(m, 9, GameStateInfo::WDL),
                has_child_below(m, 9, GameStateInfo::WL),
                has_child_below(m, 9, GameStateInfo::D),
                has_child_below(m, 9, GameStateInfo::DL),
                has_child_below(m, 9, GameStateInfo::L),
            ),
        ),
    }
}

/// Whether marking some empty cell with index below `k` leads to a position
/// labeled `l`.
pub open spec fn has_child_below(m: PositionModel, k: int, l: GameStateInfo) -> bool
    decreases empty_count(m), k,
{
    if k <= 0 || k > 9 || m.cells.len() != 9 {
        false
    } else {
        has_child_below(m, k - 1, l) || (m.cells[k - 1].is_none() && label_of(
            next_model(m, k - 1),
        ) == l)
    }
}

/// A child label is present iff some legal action leads to a position with it.
pub proof fn lemma_has_child_below(m: PositionModel, k: int, l: GameStateInfo)
    requires
        0 <= k <= 9,
        m.cells.len() == 9,
    ensures
        has_child_below(m, k, l) <==> exists|j: int|
            0 <= j < empties_below(m, k).len() && label_of(
                next_model(m, #[trigger] empties_below(m, k)[j]),
            ) == l,
    decreases k,
{
    if k > 0 {
        lemma_has_child_below(m, k - 1, l);
        let s = empties_below(m, k - 1);
        let t = empties_below(m, k);
        if m.cells[k - 1].is_none() {
            assert(t == s.push(k - 1));
            if has_child_below(m, k - 1, l) {
                let j = choose|j: int|
                    0 <= j < s.len() && label_of(next_model(m, #[trigger] s[j])) == l;
                assert(t[j] == s[j]);
            } else if label_of(next_model(m, k - 1)) == l {
                assert(t[s.len() as int] == k - 1);
            }
            if exists|j: int| 0 <= j < t.len() && label_of(next_model(m, #[trigger] t[j])) == l {
                let j = choose|j: int|
                    0 <= j < t.len() && label_of(next_model(m, #[trigger] t[j])) == l;
                if j < s.len() {
                    assert(t[j] == s[j]);
                }
            }
        }
    }
}

} // verus!
