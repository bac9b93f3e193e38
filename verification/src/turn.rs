//! Whose turn it is, and what a dropped disc does to the game.

use vstd::prelude::*;
use crate::ai::{landing, wins};
use crate::board::{column_full, drop_disc, is_player, on_grid, team_at, Board, Grid, GridPosition,
    MyColor};
use crate::runs::{axis, is_direction, lemma_streak_bounds, opposite, run_length, runs_from_point,
    tally, Ray};

verus! {

/// The team that moves after `team`.
pub open spec fn other_team(team: i32) -> i32 {
    (team % 2 + 1) as i32
}

/// What the turn indicator shows.
#[derive(Clone, Copy, PartialEq, Eq, Debug)]
pub enum TurnStatus {
    /// Nobody is to move and the game is not over.
    Paused,
    /// The team is to move.
    Turn(i32),
    /// The team has won.
    Won(i32),
    /// The game is over and nobody has won.
    Draw,
}

/// Tells whose turn it is and whether the game is over.  Team 0 stands for
/// nobody.
pub struct TurnIndicator {
    gameover: bool,
    team: i32,
}

impl TurnIndicator {
    /// Whether the game is over.
    pub closed spec fn gameover(&self) -> bool {
        self.gameover
    }

    /// The team to move or, once the game is over, the team that has won.
    pub closed spec fn team(&self) -> i32 {
        self.team
    }

    /// What the indicator shows for its state.
    pub open spec fn shown(&self) -> TurnStatus {
        if self.gameover() {
            if self.team() == 0 {
                TurnStatus::Draw
            } else {
                TurnStatus::Won(self.team())
            }
        } else if self.team() == 0 {
            TurnStatus::Paused
        } else {
            TurnStatus::Turn(self.team())
        }
    }

    /// An indicator for a game that has not begun.
    pub fn new() -> (indicator: Self)
        ensures
            !indicator.gameover(),
            indicator.team() == 0,
    {
        TurnIndicator { gameover: false, team: 0 }
    }

    /// Makes `team` the team to move.
    pub fn change_team(&mut self, team: i32)
        ensures
            final(self).team() == team,
            final(self).gameover() == old(self).gameover(),
    {
        self.team = team;
    }

    /// Marks the game as over.
    pub fn game_ends(&mut self)
        ensures
            final(self).gameover(),
            final(self).team() == old(self).team(),
    {
        self.gameover = true;
    }

    /// Puts the indicator back to a game that has not begun.
    pub fn reset(&mut self)
        ensures
            !final(self).gameover(),
            final(self).team() == 0,
    {
        self.team = 0;
        self.gameover = false;
    }

    /// The team to move or, once the game is over, the team that has won.
    pub fn get_team(&self) -> (team: i32)
        ensures
            team == self.team(),
    {
        self.team
    }

    /// Whether the game is over.
    pub fn is_gameover(&self) -> (over: bool)
        ensures
            over == self.gameover(),
    {
        self.gameover
    }

    /// What to show for the indicator's state.
    pub fn status(&self) -> (status: TurnStatus)
        ensures
            status == self.shown(),
    {
        if self.gameover {
            if self.team == 0 {
                TurnStatus::Draw
            } else {
                TurnStatus::Won(self.team)
            }
        } else if self.team == 0 {
            TurnStatus::Paused
        } else {
            TurnStatus::Turn(self.team)
        }
    }
}

/// What a disc has done to the game.
#[derive(Clone, Copy, PartialEq, Eq, Debug)]
pub enum DropOutcome {
    /// The column was full: nothing has changed.
    Refused,
    /// The disc has made four in a row: the game is over.
    Won,
    /// The disc lies on the board and the other team is to move.
    Passed,
}

/// A scan does not look at its origin: what it reports is the same before
/// and after a disc has come to rest there.
pub proof fn lemma_scan_skips_origin(
    grid: Grid,
    col: int,
    disc: i32,
    dir: GridPosition,
    team: int,
)
    requires
        0 <= col < 7,
        grid.len() == 7,
        grid[col].len() < 6,
        is_direction(dir),
    ensures
        run_length(drop_disc(grid, col, disc), landing(grid, col), dir, team) == run_length(
            grid,
            landing(grid, col),
            dir,
            team,
        ),
{
    let after = drop_disc(grid, col, disc);
    let origin = landing(grid, col);
    let fwd = Ray::new(origin, dir);
    let rev = fwd.reversed();
    lemma_same_streaks(grid, after, fwd, team, true, 1);
    lemma_same_streaks(grid, after, fwd, team, false, 1);
    lemma_same_streaks(grid, after, rev, team, true, 1);
    lemma_same_streaks(grid, after, rev, team, false, 1);
    let ahead = fwd.streak(grid, team, true, 1);
    lemma_streak_bounds(fwd, grid, team, 1);
    lemma_same_streaks(grid, after, fwd, team, true, ahead + 2);
    lemma_same_cell(grid, after, fwd, ahead + 1);
}

/// Two grids that differ in the origin of a line alone hold the same in
/// every other cell of the line.
proof fn lemma_same_cell(grid: Grid, after: Grid, ray: Ray, steps: int)
    requires
        steps >= 1,
        -1 <= ray.dcol <= 1,
        -1 <= ray.drow <= 1,
        ray.dcol != 0 || ray.drow != 0,
        forall|c: int, r: int|
            on_grid(c, r) && !(c == ray.col && r == ray.row) ==> team_at(after, c, r) == team_at(
                grid,
                c,
                r,
            ),
    ensures
        team_at(after, ray.col_at(steps), ray.row_at(steps)) == team_at(
            grid,
            ray.col_at(steps),
            ray.row_at(steps),
        ),
{
    assert(steps * ray.dcol != 0 || steps * ray.drow != 0) by (nonlinear_arith)
        requires
            steps >= 1,
            ray.dcol != 0 || ray.drow != 0,
    ;
}

/// Two grids that differ in the origin of a line alone have the same
/// streaks along it.
proof fn lemma_same_streaks(
    grid: Grid,
    after: Grid,
    ray: Ray,
    team: int,
    owned_only: bool,
    from: int,
)
    requires
        from >= 1,
        -1 <= ray.dcol <= 1,
        -1 <= ray.drow <= 1,
        ray.dcol != 0 || ray.drow != 0,
        forall|c: int, r: int|
            on_grid(c, r) && !(c == ray.col && r == ray.row) ==> team_at(after, c, r) == team_at(
                grid,
                c,
                r,
            ),
    ensures
        ray.streak(after, team, owned_only, from) == ray.streak(grid, team, owned_only, from),
    decreases 8 - from,
{
    if from <= 7 {
        lemma_same_cell(grid, after, ray, from);
        lemma_same_streaks(grid, after, ray, team, owned_only, from + 1);
    }
}

/// The runs through a disc that has come to rest are the runs that were
/// counted through its cell before it fell.
pub proof fn lemma_runs_skip_origin(grid: Grid, col: int, disc: i32, team: int)
    requires
        0 <= col < 7,
        grid.len() == 7,
        grid[col].len() < 6,
    ensures
        runs_from_point(drop_disc(grid, col, disc), landing(grid, col), team) == runs_from_point(
            grid,
            landing(grid, col),
            team,
        ),
{
    let after = drop_disc(grid, col, disc);
    let origin = landing(grid, col);
    assert forall|len: int|
        tally(after, origin, team, len, 4) == tally(grid, origin, team, len, 4) by {
        lemma_tally_skips_origin(grid, col, disc, team, len, 4);
    }
    assert(runs_from_point(after, origin, team) =~= runs_from_point(grid, origin, team));
}

/// The same for the scans counted along the first `axes` axes.
proof fn lemma_tally_skips_origin(grid: Grid, col: int, disc: i32, team: int, len: int, axes: int)
    requires
        0 <= col < 7,
        grid.len() == 7,
        grid[col].len() < 6,
        0 <= axes <= 4,
    ensures
        tally(drop_disc(grid, col, disc), landing(grid, col), team, len, axes) == tally(
            grid,
            landing(grid, col),
            team,
            len,
            axes,
        ),
    decreases axes,
{
    if axes > 0 {
        lemma_tally_skips_origin(grid, col, disc, team, len, axes - 1);
        lemma_scan_skips_origin(grid, col, disc, axis(axes - 1), team);
        lemma_scan_skips_origin(grid, col, disc, opposite(axis(axes - 1)), team);
    }
}

/// Drops a disc of the team to move, drawn in `color`, into column
/// `column`, and says what came of it.
///   - A full column takes no disc: board and indicator stay as they are.
///   - Where the disc makes four in a row, the game is over and the
///     indicator keeps the team, which has won.
///   - Otherwise the other team is to move.
pub fn play(board: &mut Board, indicator: &mut TurnIndicator, column: i32, color: MyColor) -> (outcome:
    DropOutcome)
    requires
        old(board).wf(),
        0 <= column < 7,
        is_player(old(indicator).team() as int),
    ensures
        final(board).wf(),
        final(board).position() == old(board).position(),
        outcome == (if column_full(old(board)@, column as int) {
            DropOutcome::Refused
        } else if wins(old(board)@, column as int, old(indicator).team()) {
            DropOutcome::Won
        } else {
            DropOutcome::Passed
        }),
        outcome == DropOutcome::Refused ==> *final(board) == *old(board) && *final(indicator)
            == *old(indicator),
        outcome != DropOutcome::Refused ==> final(board)@ == drop_disc(
            old(board)@,
            column as int,
            old(indicator).team(),
        ),
        outcome == DropOutcome::Won ==> final(indicator).gameover() && final(indicator).team()
            == old(indicator).team(),
        outcome == DropOutcome::Passed ==> final(indicator).gameover() == old(
            indicator,
        ).gameover() && final(indicator).team() == other_team(old(indicator).team()),
{
    let team = indicator.get_team();
    if board.insert(column, team, color) {
        proof {
            lemma_runs_skip_origin(old(board)@, column as int, team, team as int);
        }
        let row: i32 = board.get_column_height(column as usize) as i32 - 1;
        let runs = board.get_runs_from_point(GridPosition::new(column, row), team);
        if runs[3] > 0 {
            indicator.game_ends();
            DropOutcome::Won
        } else {
            indicator.change_team(team % 2 + 1);
            DropOutcome::Passed
        }
    } else {
        DropOutcome::Refused
    }
}

} // verus!
