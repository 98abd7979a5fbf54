//! A number for each position, used to index the registry.
use vstd::prelude::*;
use crate::game::{GameState, Player, PositionModel};

verus! {

/// Number of distinct position codes: three states per cell, two turns.
pub const NUM_CODES: usize = 39366;

pub open spec fn digit(c: Option<Player>) -> int {
    match c {
        None => 0,
        Some(Player::You) => 1,
        Some(Player::Opponent) => 2,
    }
}

/// The first `k` cells read as a number in base three.
pub open spec fn code_below(m: PositionModel, k: int) -> int
    decreases k,
{
    if k <= 0 {
        0
    } else {
        code_below(m, k - 1) * 3 + digit(m.cells[k - 1])
    }
}

/// A number for each position; its order is the order of positions
/// (cells in row-major order, then the turn).
pub open spec fn position_code(m: PositionModel) -> int {
    code_below(m, 9) * 2 + (if m.turn == Player::You {
        0int
    } else {
        1int
    })
}

pub open spec fn pow3(k: int) -> int
    decreases k,
{
    if k <= 0 {
        1
    } else {
        3 * pow3(k - 1)
    }
}

proof fn lemma_code_below_bounds(m: PositionModel, k: int)
    requires
        0 <= k,
    ensures
        0 <= code_below(m, k) < pow3(k),
    decreases k,
{
    if k > 0 {
        lemma_code_below_bounds(m, k - 1);
    }
}

proof fn lemma_code_below_injective(a: PositionModel, b: PositionModel, k: int)
    requires
        0 <= k,
        code_below(a, k) == code_below(b, k),
    ensures
        forall|j: int| 0 <= j < k ==> a.cells[j] == b.cells[j],
    decreases k,
{
    if k > 0 {
        lemma_code_below_bounds(a, k - 1);
        lemma_code_below_bounds(b, k - 1);
        lemma_code_below_injective(a, b, k - 1);
        assert(a.cells[k - 1] == b.cells[k - 1]);
    }
}

pub proof fn lemma_position_code_bounds(m: PositionModel)
    ensures
        0 <= position_code(m) < NUM_CODES,
{
    lemma_code_below_bounds(m, 9);
    reveal_with_fuel(pow3, 10);
}

/// Distinct positions have distinct codes.
pub proof fn lemma_position_code_injective(a: PositionModel, b: PositionModel)
    requires
        a.cells.len() == 9,
        b.cells.len() == 9,
        position_code(a) == position_code(b),
    ensures
        a == b,
{
    lemma_code_below_bounds(a, 9);
    lemma_code_below_bounds(b, 9);
    lemma_code_below_injective(a, b, 9);
    assert(a.cells =~= b.cells);
}

/// The code of a position, an index into the registry's table.
pub fn state_code(s: &GameState) -> (r: usize)
    ensures
        r == position_code(s@),
        r < NUM_CODES,
{
    let ghost m = s@;
    let mut c: usize = 0;
    let mut row: usize = 0;
    while row < 3
        invariant
            m == s@,
            row <= 3,
            c == code_below(m, 3 * row),
        decreases 3 - row,
    {
        let mut col: usize = 0;
        while col < 3
            invariant
                m == s@,
                row < 3,
                col <= 3,
                c == code_below(m, 3 * row + col),
            decreases 3 - col,
        {
            let ghost k = 3 * row + col;
            assert(m.cells[k] == s.board[row as int][col as int]);
            proof {
                lemma_code_below_bounds(m, k);
                lemma_code_below_bounds(m, k + 1);
                assert(pow3(k + 1) <= pow3(9)) by {
                    reveal_with_fuel(pow3, 10);
                }
                reveal_with_fuel(pow3, 10);
            }
            let d: usize = match s.board[row][col] {
                None => 0,
                Some(Player::You) => 1,
                Some(Player::Opponent) => 2,
            };
            c = c * 3 + d;
            col = col + 1;
        }
        row = row + 1;
    }
    proof {
        lemma_position_code_bounds(m);
    }
    match s.turn {
        Player::You => c * 2,
        Player::Opponent => c * 2 + 1,
    }
}

} // verus!
