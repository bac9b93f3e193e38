//! The look-ahead opponent.
//!
//! The opponent tries each column, looks a number of moves ahead and takes
//! the column with the best chance to win.  A chance is exact: the contracts
//! state it as a real number, and [`Probability`] holds it as a fraction.

use vstd::prelude::*;
use crate::board::{column_full, drop_disc, grid_full, is_player, Board, Grid, GridPosition, MyColor,
    BOARD_SIZE};
use crate::probability::{lemma_top_levels_bound, total, Probability};
use crate::runs::{lemma_tally_bounds, runs_from_point};

verus! {

/// The team that moves at `depth`: `team` itself at an even depth, the
/// other team at an odd one.
pub open spec fn acting_team(team: i32, depth: int) -> i32 {
    if depth % 2 == 0 {
        team
    } else {
        (team % 2 + 1) as i32
    }
}

/// For the two teams, 1 and 2, the team that moves at `depth` is
/// `(team + depth + 1) % 2 + 1`.
pub proof fn lemma_acting_team(team: i32, depth: int)
    requires
        is_player(team as int),
    ensures
        acting_team(team, depth) == (team + depth + 1) % 2 + 1,
        is_player(acting_team(team, depth) as int),
{
}

/// The cell in which a disc dropped into column `col` comes to rest.
pub open spec fn landing(grid: Grid, col: int) -> GridPosition {
    GridPosition { x: col as i32, y: grid[col].len() as i32 }
}

/// The runs that `team` has through the cell in which its disc comes to
/// rest in column `col`.
pub open spec fn move_runs(grid: Grid, col: int, team: i32) -> Seq<int> {
    runs_from_point(grid, landing(grid, col), team as int)
}

/// Whether a disc of `team` in column `col` makes four in a row.
pub open spec fn wins(grid: Grid, col: int, team: i32) -> bool {
    move_runs(grid, col, team)[3] > 0
}

/// Whether `team` has a column to drop a disc in that makes four in a row.
pub open spec fn can_win(grid: Grid, team: i32) -> bool {
    exists|c: int| 0 <= c < 7 && !column_full(grid, c) && #[trigger] wins(grid, c, team)
}

/// The number of columns before `upto` that can take a disc.
pub open spec fn open_columns(grid: Grid, upto: int) -> int
    decreases upto,
{
    if upto <= 0 {
        0
    } else {
        open_columns(grid, upto - 1) + if column_full(grid, upto - 1) {
            0int
        } else {
            1int
        }
    }
}

/// What the counts of runs weigh: a run of four counts 1, a run of three a
/// half, a run of two a quarter and a single cell an eighth, and all of it
/// is halved, since a line counts in both of its senses.
pub open spec fn raw_estimate(runs: Seq<int>) -> real {
    (runs[0] as real / (8 as real) + runs[1] as real / (4 as real) + runs[2] as real / (
    2 as real) + runs[3] as real) / (2 as real)
}

/// `x`, held between 0 and 1.
pub open spec fn clamped(x: real) -> real {
    if x < 0 as real {
        0 as real
    } else if x > 1 as real {
        1 as real
    } else {
        x
    }
}

/// The chance that `team` wins, judged by the runs of a move of `mover`
/// alone: for the mover what the runs weigh, for the other team what is
/// left of 1, and for either at least 0 and at most 1.
pub open spec fn estimate(runs: Seq<int>, mover: i32, team: i32) -> real {
    let raw = raw_estimate(runs);
    if team == mover {
        clamped(raw)
    } else {
        clamped(1 as real - raw)
    }
}

/// How many levels of moves lie between `depth` and `max_depth`.
pub open spec fn lookahead(depth: int, max_depth: int) -> nat {
    if depth < max_depth {
        (max_depth - depth) as nat
    } else {
        0
    }
}

/// The chance that `team` wins from `grid`, where the move at hand is the
/// one at `depth` and the look-ahead ends at `max_depth`.
///   - Where the team that moves can make four in a row, the outcome is
///     certain: 1 if that team is `team`, else 0.
///   - Else, where no column can take a disc, the chance is 0.
///   - Else it is the mean, over the columns that can take a disc, of the
///     chance after the move into that column.
pub open spec fn win_probability(grid: Grid, team: i32, depth: int, max_depth: int) -> real
    decreases lookahead(depth, max_depth), 8int,
{
    let mover = acting_team(team, depth);
    if can_win(grid, mover) {
        if mover == team {
            1 as real
        } else {
            0 as real
        }
    } else if open_columns(grid, 7) == 0 {
        0 as real
    } else {
        outcomes(grid, team, depth, max_depth, 7) / (open_columns(grid, 7) as real)
    }
}

/// The sum, over the columns before `upto` that can take a disc, of the
/// chance after the move into that column.
pub open spec fn outcomes(grid: Grid, team: i32, depth: int, max_depth: int, upto: int) -> real
    decreases lookahead(depth, max_depth), upto,
{
    if upto <= 0 {
        0 as real
    } else {
        outcomes(grid, team, depth, max_depth, upto - 1) + if column_full(grid, upto - 1) {
            0 as real
        } else {
            outcome(grid, team, depth, max_depth, upto - 1)
        }
    }
}

/// The chance that `team` wins after the move at `depth` has gone into
/// column `col`: looked up one level further on where the look-ahead goes
/// further, and judged by the runs of the move where it ends.
pub open spec fn outcome(grid: Grid, team: i32, depth: int, max_depth: int, col: int) -> real
    decreases lookahead(depth, max_depth), 0int,
{
    let mover = acting_team(team, depth);
    if depth < max_depth {
        win_probability(drop_disc(grid, col, mover), team, depth + 1, max_depth)
    } else {
        estimate(move_runs(grid, col, mover), mover, team)
    }
}

/// What the runs of a move weigh lies between 0 and 1 for either team.
pub proof fn lemma_estimate_bounds(runs: Seq<int>, mover: i32, team: i32)
    ensures
        0 as real <= estimate(runs, mover, team) <= 1 as real,
{
}

/// The runs of a move are four counts, none below 0 and none above 8.
pub proof fn lemma_move_runs(grid: Grid, col: int, team: i32)
    ensures
        move_runs(grid, col, team).len() == 4,
        forall|i: int| 0 <= i < 4 ==> 0 <= #[trigger] move_runs(grid, col, team)[i] <= 8,
{
    assert forall|i: int| 0 <= i < 4 implies 0 <= #[trigger] move_runs(grid, col, team)[i]
        <= 8 by {
        lemma_tally_bounds(grid, landing(grid, col), team as int, i + 1, 4);
    }
}

/// No more columns can take a disc than there are.
pub proof fn lemma_open_columns(grid: Grid, upto: int)
    ensures
        0 <= open_columns(grid, upto),
        upto >= 0 ==> open_columns(grid, upto) <= upto,
        open_columns(grid, upto) == 0 <==> forall|c: int| 0 <= c < upto ==> column_full(grid, c),
    decreases upto,
{
    if upto > 0 {
        lemma_open_columns(grid, upto - 1);
    }
}

/// A chance to win is a chance: it lies between 0 and 1, whatever the grid,
/// the team and the depths.
pub proof fn lemma_probability_bounds(grid: Grid, team: i32, depth: int, max_depth: int)
    ensures
        0 as real <= win_probability(grid, team, depth, max_depth) <= 1 as real,
    decreases lookahead(depth, max_depth), 8int,
{
    lemma_outcomes_bounds(grid, team, depth, max_depth, 7);
    lemma_open_columns(grid, 7);
    let sum = outcomes(grid, team, depth, max_depth, 7);
    let count = open_columns(grid, 7) as real;
    if open_columns(grid, 7) > 0 {
        assert(0 as real <= sum / count <= 1 as real) by (nonlinear_arith)
            requires
                0 as real <= sum <= count,
                count >= 1 as real,
        ;
    }
}

/// The chances after the moves into the columns before `upto` sum to 0 at
/// least and at most to the number of those columns that can take a disc.
pub proof fn lemma_outcomes_bounds(grid: Grid, team: i32, depth: int, max_depth: int, upto: int)
    ensures
        0 as real <= outcomes(grid, team, depth, max_depth, upto) <= open_columns(grid, upto) as real,
    decreases lookahead(depth, max_depth), upto,
{
    if upto > 0 {
        lemma_outcomes_bounds(grid, team, depth, max_depth, upto - 1);
        if !column_full(grid, upto - 1) {
            lemma_outcome_bounds(grid, team, depth, max_depth, upto - 1);
        }
    }
}

/// The chance after a move lies between 0 and 1.
pub proof fn lemma_outcome_bounds(grid: Grid, team: i32, depth: int, max_depth: int, col: int)
    ensures
        0 as real <= outcome(grid, team, depth, max_depth, col) <= 1 as real,
    decreases lookahead(depth, max_depth), 0int,
{
    let mover = acting_team(team, depth);
    if depth < max_depth {
        lemma_probability_bounds(drop_disc(grid, col, mover), team, depth + 1, max_depth);
    } else {
        lemma_estimate_bounds(move_runs(grid, col, mover), mover, team);
    }
}

/// On a full grid nobody wins any more: the chance is 0, whatever the team
/// and the depths.
pub proof fn lemma_full_board(grid: Grid, team: i32, depth: int, max_depth: int)
    requires
        grid_full(grid),
    ensures
        win_probability(grid, team, depth, max_depth) == 0 as real,
{
    lemma_open_columns(grid, 7);
}

/// The chance that `team` wins if it drops its disc into column `col` and
/// the opponent that looks `difficulty` moves ahead has the next move.
pub open spec fn score(grid: Grid, team: i32, difficulty: int, col: int) -> real {
    win_probability(drop_disc(grid, col, team), team, 1, difficulty)
}

/// A column that settles the choice at once: the disc makes four in a row
/// there, or the chance after it is 1.
pub open spec fn decisive(grid: Grid, team: i32, difficulty: int, col: int) -> bool {
    wins(grid, col, team) || score(grid, team, difficulty, col) == 1 as real
}

/// Whether `col` is the move to pick for `team`.
///   - On a full grid there is no move: `col` is -1.
///   - Else `col` is a column that can take a disc.  Where a column
///     settles the choice at once, it is the first such column.
///   - Where none does, it is the last of the columns with the best chance.
pub open spec fn best_move(grid: Grid, team: i32, difficulty: int, col: int) -> bool {
    if grid_full(grid) {
        col == -1
    } else {
        &&& 0 <= col < 7
        &&& !column_full(grid, col)
        &&& if exists|c: int|
            0 <= c < 7 && !column_full(grid, c) && #[trigger] decisive(grid, team, difficulty, c) {
            &&& decisive(grid, team, difficulty, col)
            &&& forall|c: int|
                0 <= c < col && !column_full(grid, c) ==> !#[trigger] decisive(
                    grid,
                    team,
                    difficulty,
                    c,
                )
        } else {
            forall|c: int|
                0 <= c < 7 && !column_full(grid, c) ==> {
                    &&& #[trigger] score(grid, team, difficulty, c) <= score(
                        grid,
                        team,
                        difficulty,
                        col,
                    )
                    &&& c > col ==> score(grid, team, difficulty, c) < score(
                        grid,
                        team,
                        difficulty,
                        col,
                    )
                }
        }
    }
}

/// Only one column is the move to pick.
pub proof fn lemma_best_move_unique(grid: Grid, team: i32, difficulty: int, a: int, b: int)
    requires
        best_move(grid, team, difficulty, a),
        best_move(grid, team, difficulty, b),
    ensures
        a == b,
{
    if !grid_full(grid) {
        if exists|c: int|
            0 <= c < 7 && !column_full(grid, c) && #[trigger] decisive(grid, team, difficulty, c) {
            if a < b {
                assert(!decisive(grid, team, difficulty, a));
            }
            if b < a {
                assert(!decisive(grid, team, difficulty, b));
            }
        } else {
            if a < b {
                assert(score(grid, team, difficulty, b) < score(grid, team, difficulty, a));
                assert(score(grid, team, difficulty, a) <= score(grid, team, difficulty, b));
            }
            if b < a {
                assert(score(grid, team, difficulty, a) < score(grid, team, difficulty, b));
                assert(score(grid, team, difficulty, b) <= score(grid, team, difficulty, a));
            }
        }
    }
}

/// A move that is thought through: the team that makes it, the board after
/// it, and the runs that the team has through the disc it has dropped.
pub struct MoveCheck {
    team: i32,
    board: Board,
    runs: [i32; 4],
}

impl MoveCheck {
    /// The team that makes the move.
    pub closed spec fn team(&self) -> i32 {
        self.team
    }

    /// The board after the move.
    pub closed spec fn board(&self) -> Board {
        self.board
    }

    /// The runs through the dropped disc: entry `i` counts the runs of
    /// length `i + 1`.
    pub closed spec fn runs(&self) -> Seq<int> {
        Seq::new(4, |i: int| self.runs@[i] as int)
    }

    /// The counts are those of eight scans.
    pub open spec fn wf(&self) -> bool {
        &&& self.runs().len() == 4
        &&& forall|i: int| 0 <= i < 4 ==> 0 <= #[trigger] self.runs()[i] <= 8
    }

    /// Thinks the move of `team` into column `move_col` of `board` through.
    /// A full column takes no disc: the board then stays as it is.
    pub fn new(board: Board, move_col: i32, team: i32) -> (check: Self)
        requires
            board.wf(),
            0 <= move_col < 7,
            is_player(team as int),
        ensures
            check.wf(),
            check.team() == team,
            check.board().wf(),
            check.board()@ == if column_full(board@, move_col as int) {
                board@
            } else {
                drop_disc(board@, move_col as int, team)
            },
            check.runs() == move_runs(board@, move_col as int, team),
    {
        let mut new_board = board.clone();
        let runs = new_board.get_runs_from_point(
            GridPosition::new(move_col, new_board.get_column_height(move_col as usize) as i32),
            team,
        );
        new_board.insert(move_col, team, MyColor::White);
        let check = MoveCheck { team, board: new_board, runs };
        proof {
            lemma_move_runs(board@, move_col as int, team);
            assert(check.runs() =~= move_runs(board@, move_col as int, team));
        }
        check
    }

    /// The board after the move.
    pub fn get_board(&self) -> (board: Board)
        ensures
            board == self.board(),
    {
        self.board
    }

    /// The team that makes the move.
    pub fn get_team(&self) -> (team: i32)
        ensures
            team == self.team(),
    {
        self.team
    }

    /// The runs through the dropped disc: entry `i` counts the runs of
    /// length `i + 1`.
    pub fn get_runs(&self) -> (runs: [i32; 4])
        ensures
            runs@.len() == 4,
            self.runs().len() == 4,
            forall|i: int| 0 <= i < 4 ==> #[trigger] runs@[i] as int == self.runs()[i],
    {
        self.runs
    }

    /// Whether the move makes four in a row.
    pub fn has_end_result(&self) -> (won: bool)
        ensures
            won == (self.runs()[3] > 0),
    {
        assert(self.runs()[3] == self.runs@[3] as int);
        self.runs[3] > 0
    }

    /// The chance that `team` wins, judged by the runs of this move alone.
    pub fn get_win_probability(&self, team: i32) -> (chance: Probability)
        ensures
            chance@ == estimate(self.runs(), self.team(), team),
            chance.levels() == 0,
    {
        proof {
            assert(self.runs()[0] == self.runs@[0] as int);
            assert(self.runs()[1] == self.runs@[1] as int);
            assert(self.runs()[2] == self.runs@[2] as int);
            assert(self.runs()[3] == self.runs@[3] as int);
        }
        let weighed: i64 = self.runs[0] as i64 + 2 * (self.runs[1] as i64) + 4 * (
        self.runs[2] as i64) + 8 * (self.runs[3] as i64);
        let capped: u32 = if weighed < 0 {
            0
        } else if weighed < 16 {
            weighed as u32
        } else {
            16
        };
        if team == self.team {
            Probability::from_sixteenths(capped)
        } else {
            Probability::from_sixteenths(16 - capped)
        }
    }
}

/// How many frames the opponent lets pass between choosing its column and
/// dropping its disc.
pub const AI_MOVE_DELAY: i32 = 100;

/// What the opponent does in a frame in which its team is to move.
#[derive(Clone, Copy, PartialEq, Eq, Debug)]
pub enum AiStep {
    /// It has chosen no column yet: it chooses one now.
    Choose,
    /// It has shown its column long enough: it drops its disc.
    Drop,
    /// It goes on showing its column.
    Wait,
}

/// An opponent that plays for `team` and looks `difficulty` moves ahead.
pub struct AI {
    /// The team that the opponent plays for.
    pub team: i32,
    /// How many moves the opponent looks ahead.
    pub difficulty: i32,
    /// The frame in which the opponent chose its move, -1 while it has
    /// chosen none.
    pub last_move_frame: i32,
}

impl AI {
    /// An opponent for `team` that looks `difficulty` moves ahead and has
    /// chosen no move yet.
    pub fn new(team: i32, difficulty: i32) -> (ai: Self)
        ensures
            ai.team == team,
            ai.difficulty == difficulty,
            ai.last_move_frame == -1,
    {
        AI { team, difficulty, last_move_frame: -1 }
    }

    /// What the opponent does in frame `frames`: it chooses a column while
    /// it has chosen none, and drops its disc once more than
    /// [`AI_MOVE_DELAY`] frames have passed since it chose.
    pub open spec fn step_at(&self, frames: int) -> AiStep {
        if self.last_move_frame < 0 {
            AiStep::Choose
        } else if frames > self.last_move_frame + AI_MOVE_DELAY {
            AiStep::Drop
        } else {
            AiStep::Wait
        }
    }

    /// What the opponent does in frame `frames`, if its team is to move.
    pub fn next_step(&self, frames: usize) -> (step: AiStep)
        ensures
            step == self.step_at(frames as int),
    {
        if self.last_move_frame < 0 {
            AiStep::Choose
        } else if frames as u64 > self.last_move_frame as u64 + AI_MOVE_DELAY as u64 {
            AiStep::Drop
        } else {
            AiStep::Wait
        }
    }

    /// Picks the column for the opponent's next disc, -1 on a full board.
    /// A column in which the disc makes four in a row, or after which the
    /// chance to win is 1, is taken at once, the first such column from the
    /// left.  Otherwise the column with the best chance is taken, the last
    /// of them from the left where several are as good.
    pub fn pick_optimal_move(&self, board: Board) -> (col: i32)
        requires
            board.wf(),
            is_player(self.team as int),
        ensures
            best_move(board@, self.team, self.difficulty as int, col as int),
    {
        let ghost grid = board@;
        let ghost depth = self.difficulty as int;
        let mut best_move: i32 = -1;
        let mut best_prob = Probability::zero();
        let mut i: i32 = 0;
        while i < BOARD_SIZE.1
            invariant
                0 <= i <= 7,
                board.wf(),
                grid == board@,
                depth == self.difficulty as int,
                is_player(self.team as int),
                -1 <= best_move < i,
                forall|c: int|
                    0 <= c < i && !column_full(grid, c) ==> !#[trigger] decisive(
                        grid,
                        self.team,
                        depth,
                        c,
                    ),
                best_move == -1 ==> forall|c: int| 0 <= c < i ==> column_full(grid, c),
                best_move >= 0 ==> {
                    &&& !column_full(grid, best_move as int)
                    &&& best_prob@ == score(grid, self.team, depth, best_move as int)
                    &&& forall|c: int|
                        0 <= c < i && !column_full(grid, c) ==> {
                            &&& #[trigger] score(grid, self.team, depth, c) <= best_prob@
                            &&& c > best_move ==> score(grid, self.team, depth, c) < best_prob@
                        }
                },
                best_move == -1 ==> best_prob@ == 0 as real,
            decreases 7 - i,
        {
            if !board.is_column_full(i as usize) {
                let next_move = MoveCheck::new(board.clone(), i, self.team);
                if next_move.has_end_result() {
                    proof {
                        assert(decisive(grid, self.team, depth, i as int));
                    }
                    return i;
                } else {
                    let curr_prob = self.find_win_probability(
                        next_move.get_board(),
                        1,
                        self.difficulty,
                    );
                    proof {
                        lemma_probability_bounds(
                            drop_disc(grid, i as int, self.team),
                            self.team,
                            1,
                            depth,
                        );
                    }
                    if curr_prob.is_one() {
                        proof {
                            assert(decisive(grid, self.team, depth, i as int));
                        }
                        return i;
                    } else if curr_prob.ge(&best_prob) {
                        best_prob = curr_prob;
                        best_move = i;
                    }
                }
            }
            i += 1;
        }
        best_move
    }

    /// The chance that the opponent's team wins from `board`, where the
    /// move at hand is the one at depth `curr_move` and the look-ahead ends
    /// at depth `last_move`.
    pub fn find_win_probability(&self, board: Board, curr_move: i32, last_move: i32) -> (chance:
        Probability)
        requires
            board.wf(),
            is_player(self.team as int),
        ensures
            chance@ == win_probability(board@, self.team, curr_move as int, last_move as int),
            chance.levels() <= lookahead(curr_move as int, last_move as int) + 1,
        decreases lookahead(curr_move as int, last_move as int),
    {
        let ghost grid = board@;
        let mover: i32 = if curr_move % 2 == 0 {
            self.team
        } else {
            self.team % 2 + 1
        };
        let mut moves: Vec<Probability> = Vec::new();
        let mut i: i32 = 0;
        while i < BOARD_SIZE.1
            invariant
                0 <= i <= 7,
                board.wf(),
                grid == board@,
                is_player(self.team as int),
                is_player(mover as int),
                mover == acting_team(self.team, curr_move as int),
                moves@.len() == open_columns(grid, i as int),
                total(moves@) == outcomes(grid, self.team, curr_move as int, last_move as int, i as int),
                forall|c: int|
                    0 <= c < i && !column_full(grid, c) ==> !#[trigger] wins(grid, c, mover),
                forall|k: int|
                    0 <= k < moves@.len() ==> (#[trigger] moves@[k]).levels() <= lookahead(
                        curr_move as int,
                        last_move as int,
                    ),
            decreases 7 - i,
        {
            if !board.is_column_full(i as usize) {
                let ghost before = moves@;
                let move_check = MoveCheck::new(board.clone(), i, mover);
                if move_check.has_end_result() {
                    proof {
                        assert(wins(grid, i as int, mover));
                    }
                    return if mover == self.team {
                        Probability::one()
                    } else {
                        Probability::zero()
                    };
                } else if curr_move < last_move {
                    moves.push(
                        self.find_win_probability(move_check.get_board(), curr_move + 1, last_move),
                    );
                } else {
                    moves.push(move_check.get_win_probability(self.team));
                }
                proof {
                    assert(moves@.drop_last() == before);
                    assert(moves@.last()@ == outcome(
                        grid,
                        self.team,
                        curr_move as int,
                        last_move as int,
                        i as int,
                    ));
                    assert(outcomes(
                        grid,
                        self.team,
                        curr_move as int,
                        last_move as int,
                        i as int + 1,
                    ) == outcomes(grid, self.team, curr_move as int, last_move as int, i as int)
                        + outcome(grid, self.team, curr_move as int, last_move as int, i as int));
                }
            } else {
                assert(outcomes(
                    grid,
                    self.team,
                    curr_move as int,
                    last_move as int,
                    i as int + 1,
                ) == outcomes(grid, self.team, curr_move as int, last_move as int, i as int));
            }
            i += 1;
        }
        proof {
            lemma_open_columns(grid, 7);
        }
        if moves.is_empty() {
            Probability::zero()
        } else {
            proof {
                lemma_top_levels_bound(
                    moves@,
                    lookahead(curr_move as int, last_move as int),
                );
            }
            Probability::mean(&moves)
        }
    }
}

} // verus!
