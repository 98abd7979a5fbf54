//! Positions, their progress, legal actions and successors.
use vstd::prelude::*;

verus! {

/// One of the two participants.
#[derive(PartialEq, Eq, PartialOrd, Ord, Clone, Copy, Debug, Structural)]
pub enum Player {
    You,
    Opponent,
}

pub open spec fn opposite_player(p: Player) -> Player {
    match p {
        Player::You => Player::Opponent,
        Player::Opponent => Player::You,
    }
}

impl Player {
    pub fn opposite(&self) -> (r: Player)
        ensures
            r == opposite_player(*self),
    {
        match *self {
            Player::You => Player::Opponent,
            Player::Opponent => Player::You,
        }
    }
}

/// A board configuration and the player who moves next.
#[derive(PartialEq, Eq, PartialOrd, Ord, Clone, Copy, Debug)]
pub struct GameState {
    pub board: [[Option<Player>; 3]; 3],
    pub turn: Player,
}

/// A move: the cell where the player to move puts a mark.
#[derive(PartialEq, Eq, PartialOrd, Ord, Clone, Copy, Debug, Structural)]
pub struct Action {
    pub row: usize,
    pub col: usize,
}

/// Terminal or non-terminal status of a position.
#[derive(PartialEq, Eq, Clone, Copy, Debug, Structural)]
pub enum Progress {
    Draw,
    Win(Player),
    Ongoing,
}

/// Mathematical model of a position: nine cells in row-major order and the
/// player to move.
pub struct PositionModel {
    pub cells: Seq<Option<Player>>,
    pub turn: Player,
}

pub open spec fn cells_of(b: [[Option<Player>; 3]; 3]) -> Seq<Option<Player>> {
    Seq::new(9, |k: int| b[k / 3][k % 3])
}

impl View for GameState {
    type V = PositionModel;

    open spec fn view(&self) -> PositionModel {
        PositionModel { cells: cells_of(self.board), turn: self.turn }
    }
}

/// Index of the cell an action targets.
pub open spec fn action_cell(a: Action) -> int {
    3 * a.row + a.col
}

pub open spec fn opposite_cell(c: Option<Player>) -> Option<Player> {
    match c {
        Some(p) => Some(opposite_player(p)),
        None => None,
    }
}

/// The position with every occupant swapped and the turn flipped.
pub open spec fn mirror(m: PositionModel) -> PositionModel {
    PositionModel {
        cells: m.cells.map_values(|c: Option<Player>| opposite_cell(c)),
        turn: opposite_player(m.turn),
    }
}

/// The occupant shared by three cells, if all three hold the same player.
pub open spec fn line_owner(m: PositionModel, a: int, b: int, c: int) -> Option<Player> {
    if m.cells[a].is_some() && m.cells[a] == m.cells[b] && m.cells[a] == m.cells[c] {
        m.cells[a]
    } else {
        None
    }
}

/// The first completed line, looking at row i and column i for i from `i`
/// upward, then the main diagonal, then the anti-diagonal.
pub open spec fn winner_from(m: PositionModel, i: int) -> Option<Player>
    decreases 3 - i,
{
    if i >= 3 {
        if line_owner(m, 0, 4, 8).is_some() {
            line_owner(m, 0, 4, 8)
        } else {
            line_owner(m, 2, 4, 6)
        }
    } else if line_owner(m, 3 * i, 3 * i + 1, 3 * i + 2).is_some() {
        line_owner(m, 3 * i, 3 * i + 1, 3 * i + 2)
    } else if line_owner(m, i, i + 3, i + 6).is_some() {
        line_owner(m, i, i + 3, i + 6)
    } else {
        winner_from(m, i + 1)
    }
}

pub open spec fn winner(m: PositionModel) -> Option<Player> {
    winner_from(m, 0)
}

pub open spec fn has_empty(m: PositionModel) -> bool {
    exists|k: int| 0 <= k < 9 && m.cells[k].is_none()
}

pub open spec fn progress_of(m: PositionModel) -> Progress {
    match winner(m) {
        Some(p) => Progress::Win(p),
        None => if has_empty(m) {
            Progress::Ongoing
        } else {
            Progress::Draw
        },
    }
}

/// The empty cells with index below `k`, ascending.
pub open spec fn empties_below(m: PositionModel, k: int) -> Seq<int>
    decreases k,
{
    if k <= 0 {
        Seq::empty()
    } else if m.cells[k - 1].is_none() {
        empties_below(m, k - 1).push(k - 1)
    } else {
        empties_below(m, k - 1)
    }
}

/// The cells a legal action may target, ascending: none once a line is complete.
pub open spec fn legal_cells(m: PositionModel) -> Seq<int> {
    if winner(m).is_some() {
        Seq::empty()
    } else {
        empties_below(m, 9)
    }
}

/// The position after the player to move marks cell `k`.
pub open spec fn next_model(m: PositionModel, k: int) -> PositionModel {
    PositionModel { cells: m.cells.update(k, Some(m.turn)), turn: opposite_player(m.turn) }
}

pub open spec fn empty_at(m: PositionModel, k: int) -> int {
    if m.cells[k].is_none() {
        1
    } else {
        0
    }
}

/// Number of empty cells.
pub open spec fn empty_count(m: PositionModel) -> int {
    empty_at(m, 0) + empty_at(m, 1) + empty_at(m, 2) + empty_at(m, 3) + empty_at(m, 4)
        + empty_at(m, 5) + empty_at(m, 6) + empty_at(m, 7) + empty_at(m, 8)
}

/// Marking an empty cell fills exactly one cell.
pub proof fn lemma_next_empty_count(m: PositionModel, k: int)
    requires
        m.cells.len() == 9,
        0 <= k < 9,
        m.cells[k].is_none(),
    ensures
        empty_count(next_model(m, k)) == empty_count(m) - 1,
        0 <= empty_count(m) <= 9,
{
    let n = next_model(m, k);
    assert(n.cells[k].is_some());
    assert forall|j: int| 0 <= j < 9 && j != k implies n.cells[j] == m.cells[j] by {}
}

/// Every legal cell is empty and in range, and they ascend.
pub proof fn lemma_legal_cells(m: PositionModel)
    requires
        m.cells.len() == 9,
    ensures
        forall|j: int| 0 <= j < legal_cells(m).len() ==> {
            let c = #[trigger] legal_cells(m)[j];
            0 <= c < 9 && m.cells[c].is_none()
        },
        winner(m).is_none() ==> legal_cells(m) == empties_below(m, 9),
{
    lemma_empties_below_props(m, 9);
}

fn line_owner_exec(a: Option<Player>, b: Option<Player>, c: Option<Player>) -> (r: Option<Player>)
    ensures
        r == (if a.is_some() && a == b && a == c {
            a
        } else {
            None
        }),
{
    match (a, b, c) {
        (Some(x), Some(y), Some(z)) => {
            if x == y && x == z {
                Some(x)
            } else {
                None
            }
        },
        _ => None,
    }
}

proof fn lemma_empties_below_props(m: PositionModel, k: int)
    requires
        0 <= k <= 9,
        m.cells.len() == 9,
    ensures
        forall|j: int| 0 <= j < empties_below(m, k).len() ==> {
            let c = #[trigger] empties_below(m, k)[j];
            0 <= c < k && m.cells[c].is_none()
        },
        forall|j1: int, j2: int|
            0 <= j1 < j2 < empties_below(m, k).len() ==> empties_below(m, k)[j1] < empties_below(
                m,
                k,
            )[j2],
        forall|c: int|
            0 <= c < k && m.cells[c].is_none() ==> empties_below(m, k).contains(c),
    decreases k,
{
    if k > 0 {
        lemma_empties_below_props(m, k - 1);
        if m.cells[k - 1].is_none() {
            let s = empties_below(m, k - 1);
            assert forall|c: int|
                0 <= c < k && m.cells[c].is_none() implies empties_below(m, k).contains(c) by {
                if c < k - 1 {
                    assert(s.contains(c));
                    let j = choose|j: int| 0 <= j < s.len() && s[j] == c;
                    assert(empties_below(m, k)[j] == c);
                } else {
                    assert(empties_below(m, k)[s.len() as int] == c);
                }
            }
        }
    }
}

impl GameState {
    /// The mirrored position: every occupant swapped, turn flipped.
    pub fn opposite(&self) -> (r: GameState)
        ensures
            r@ == mirror(self@),
    {
        let mut board = self.board;
        for i in 0..3usize
            invariant
                forall|r: int, c: int|
                    0 <= r < 3 && 0 <= c < 3 ==> board[r][c] == (if r < i {
                        opposite_cell(self.board[r][c])
                    } else {
                        self.board[r][c]
                    }),
        {
            for j in 0..3usize
                invariant
                    0 <= i < 3,
                    forall|r: int, c: int|
                        0 <= r < 3 && 0 <= c < 3 ==> board[r][c] == (if r < i || (r == i && c
                            < j) {
                            opposite_cell(self.board[r][c])
                        } else {
                            self.board[r][c]
                        }),
            {
                let v = match board[i][j] {
                    Some(p) => Some(p.opposite()),
                    None => None,
                };
                board[i][j] = v;
            }
        }
        let turn = self.turn.opposite();
        let r = GameState { board, turn };
        assert(r@.cells =~= mirror(self@).cells);
        r
    }

    /// Whether a line is complete, the board is full, or play goes on.
    pub fn progress(&self) -> (r: Progress)
        ensures
            r == progress_of(self@),
    {
        let ghost m = self@;
        for i in 0..3usize
            invariant
                m == self@,
                winner(m) == winner_from(m, i as int),
        {
            let row = line_owner_exec(self.board[i][0], self.board[i][1], self.board[i][2]);
            assert(row == line_owner(m, 3 * i, 3 * i + 1, 3 * i + 2));
            if let Some(p) = row {
                return Progress::Win(p);
            }
            let col = line_owner_exec(self.board[0][i], self.board[1][i], self.board[2][i]);
            assert(col == line_owner(m, i as int, i + 3, i + 6));
            if let Some(p) = col {
                return Progress::Win(p);
            }
        }
        let d = line_owner_exec(self.board[0][0], self.board[1][1], self.board[2][2]);
        assert(d == line_owner(m, 0, 4, 8));
        if let Some(p) = d {
            return Progress::Win(p);
        }
        let a = line_owner_exec(self.board[0][2], self.board[1][1], self.board[2][0]);
        assert(a == line_owner(m, 2, 4, 6));
        if let Some(p) = a {
            return Progress::Win(p);
        }
        let mut result = Progress::Draw;
        for i in 0..3usize
            invariant
                m == self@,
                result == Progress::Draw || result == Progress::Ongoing,
                result == Progress::Ongoing <==> exists|k: int|
                    0 <= k < 3 * i && m.cells[k].is_none(),
        {
            for j in 0..3usize
                invariant
                    m == self@,
                    i < 3,
                    result == Progress::Draw || result == Progress::Ongoing,
                    result == Progress::Ongoing <==> exists|k: int|
                        0 <= k < 3 * i + j && m.cells[k].is_none(),
            {
                if self.board[i][j].is_none() {
                    assert(m.cells[3 * i + j].is_none());
                    result = Progress::Ongoing;
                } else {
                    assert forall|k: int|
                        0 <= k < 3 * i + j + 1 && m.cells[k].is_none() implies k < 3 * i + j by {
                        if k == 3 * i + j {
                            assert(m.cells[k] == self.board[i as int][j as int]);
                        }
                    }
                }
            }
        }
        result
    }

    /// The legal actions, ordered by row then column; none once a line is
    /// complete.
    pub fn possible_actions(&self) -> (r: Vec<Action>)
        ensures
            r@.len() == legal_cells(self@).len(),
            forall|j: int|
                0 <= j < r@.len() ==> #[trigger] action_cell(r@[j]) == legal_cells(self@)[j]
                    && r@[j].row < 3 && r@[j].col < 3,
    {
        let ghost m = self@;
        if let Progress::Win(_) = self.progress() {
            return Vec::new();
        }
        let mut result: Vec<Action> = Vec::new();
        let mut row: usize = 0;
        while row < 3
            invariant
                m == self@,
                row <= 3,
                result@.len() == empties_below(m, 3 * row).len(),
                forall|j: int|
                    0 <= j < result@.len() ==> #[trigger] action_cell(result@[j]) == empties_below(
                        m,
                        3 * row,
                    )[j] && result@[j].row < 3 && result@[j].col < 3,
            decreases 3 - row,
        {
            let mut col: usize = 0;
            assert forall|j: int| 0 <= j < result@.len() implies #[trigger] action_cell(result@[j])
                == empties_below(m, 3 * row + col)[j] && result@[j].row < 3 && result@[j].col < 3 by {
                assert(3 * row + col == 3 * row);
                assert(action_cell(result@[j]) == empties_below(m, 3 * row)[j]);
            }
            while col < 3
                invariant
                    m == self@,
                    row < 3,
                    col <= 3,
                    result@.len() == empties_below(m, 3 * row + col).len(),
                    forall|j: int|
                        0 <= j < result@.len() ==> #[trigger] action_cell(result@[j])
                            == empties_below(m, 3 * row + col)[j] && result@[j].row < 3
                            && result@[j].col < 3,
                decreases 3 - col,
            {
                let ghost k = 3 * row + col;
                let ghost prev = result@;
                assert(m.cells[k] == self.board[row as int][col as int]);
                if self.board[row][col].is_none() {
                    result.push(Action { row, col });
                }
                proof {
                    let e = empties_below(m, k);
                    assert(empties_below(m, k + 1) == (if m.cells[k].is_none() {
                        e.push(k)
                    } else {
                        e
                    }));
                    assert forall|j: int| 0 <= j < result@.len() implies #[trigger] action_cell(
                        result@[j],
                    ) == empties_below(m, k + 1)[j] && result@[j].row < 3 && result@[j].col
                        < 3 by {
                        if j < prev.len() {
                            assert(result@[j] == prev[j]);
                            assert(action_cell(prev[j]) == e[j]);
                        }
                    }
                }
                col = col + 1;
            }
            row = row + 1;
        }
        result
    }

    /// The position after the player to move marks the action's cell.
    pub fn next(&self, action: Action) -> (r: GameState)
        requires
            action.row < 3,
            action.col < 3,
        ensures
            r@ == next_model(self@, action_cell(action)),
    {
        let mut board = self.board;
        board[action.row][action.col] = Some(self.turn);
        let turn = self.turn.opposite();
        let r = GameState { board, turn };
        assert(r@.cells =~= next_model(self@, action_cell(action)).cells);
        r
    }
}

/// Two successive legal moves mark two different cells, leave every other
/// cell as it was, and fill exactly two cells.
pub proof fn lemma_two_moves(m: PositionModel, k1: int, k2: int)
    requires
        m.cells.len() == 9,
        legal_cells(m).contains(k1),
        legal_cells(next_model(m, k1)).contains(k2),
    ensures
        k1 != k2,
        empty_count(next_model(next_model(m, k1), k2)) == empty_count(m) - 2,
        forall|c: int|
            0 <= c < 9 && c != k1 && c != k2 ==> #[trigger] next_model(next_model(m, k1), k2).cells[c]
                == m.cells[c],
{
    lemma_legal_cells(m);
    let m1 = next_model(m, k1);
    lemma_legal_cells(m1);
    let j1 = choose|j: int| 0 <= j < legal_cells(m).len() && legal_cells(m)[j] == k1;
    let j2 = choose|j: int| 0 <= j < legal_cells(m1).len() && legal_cells(m1)[j] == k2;
    assert(legal_cells(m)[j1] == k1);
    assert(legal_cells(m1)[j2] == k2);
    lemma_next_empty_count(m, k1);
    lemma_next_empty_count(m1, k2);
}

/// A position with a completed line offers no action, whatever cells are
/// still empty.
pub proof fn lemma_won_position_is_terminal(m: PositionModel)
    requires
        winner(m).is_some(),
    ensures
        legal_cells(m).len() == 0,
        progress_of(m) == Progress::Win(winner(m).unwrap()),
{
}

} // verus!
