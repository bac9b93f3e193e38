//! Runs of discs: how close a team is to four in a row through a cell.
//!
//! A scan looks along a line through an origin cell, ahead in a direction
//! and behind against it, and reports a length between 0 and 4.  What it
//! reports is defined here without reference to how the scan walks: by the
//! streaks of cells that lie ahead of the origin and behind it.

use vstd::prelude::*;
use crate::board::{on_grid, team_at, Board, Grid, GridPosition};

verus! {

/// A step from a cell to one of its eight neighbours.
pub open spec fn is_direction(dir: GridPosition) -> bool {
    &&& -1 <= dir.x <= 1
    &&& -1 <= dir.y <= 1
    &&& (dir.x != 0 || dir.y != 0)
}

/// A line of cells: the cell at (`col`, `row`) and the step that leads from
/// each cell of the line to the next.
pub struct Ray {
    pub col: int,
    pub row: int,
    pub dcol: int,
    pub drow: int,
}

impl Ray {
    /// The line from `origin` in the direction `dir`.
    pub open spec fn new(origin: GridPosition, dir: GridPosition) -> Ray {
        Ray { col: origin.x as int, row: origin.y as int, dcol: dir.x as int, drow: dir.y as int }
    }

    /// The same line walked the other way.
    pub open spec fn reversed(self) -> Ray {
        Ray { col: self.col, row: self.row, dcol: -self.dcol, drow: -self.drow }
    }

    /// The column of the cell `steps` steps from the origin.
    pub open spec fn col_at(self, steps: int) -> int {
        self.col + steps * self.dcol
    }

    /// The row of the cell `steps` steps from the origin.
    pub open spec fn row_at(self, steps: int) -> int {
        self.row + steps * self.drow
    }

    /// A cell stops the scan of `team` if it lies outside the grid or holds
    /// a disc of the other team.
    pub open spec fn blocked(self, grid: Grid, team: int, steps: int) -> bool {
        let t = team_at(grid, self.col_at(steps), self.row_at(steps));
        !on_grid(self.col_at(steps), self.row_at(steps)) || (t != 0 && t != team)
    }

    /// A cell of the grid that holds a disc of `team`.
    pub open spec fn owned(self, grid: Grid, team: int, steps: int) -> bool {
        !self.blocked(grid, team, steps) && team_at(grid, self.col_at(steps), self.row_at(steps))
            == team
    }

    /// A cell of the grid that `team` could still take: it stops no scan
    /// and is not the team's own.
    pub open spec fn free(self, grid: Grid, team: int, steps: int) -> bool {
        !self.blocked(grid, team, steps) && !self.owned(grid, team, steps)
    }

    /// Whether the cell counts for a streak: an owned cell always does, a
    /// free one only where `owned_only` is false.
    pub open spec fn fits(self, grid: Grid, team: int, owned_only: bool, steps: int) -> bool {
        if owned_only {
            self.owned(grid, team, steps)
        } else {
            !self.blocked(grid, team, steps)
        }
    }

    /// The number of cells in a row that fit, starting with the cell `from`
    /// steps from the origin and walking away from it.  No streak reaches
    /// past the seventh step: along a direction at most seven cells in a
    /// row lie on the grid.
    pub open spec fn streak(self, grid: Grid, team: int, owned_only: bool, from: int) -> int
        decreases 8 - from,
    {
        if from < 1 || from > 7 || !self.fits(grid, team, owned_only, from) {
            0
        } else {
            1 + self.streak(grid, team, owned_only, from + 1)
        }
    }
}

/// The lesser of `x` and `y`.
pub open spec fn min_of(x: int, y: int) -> int {
    if x <= y {
        x
    } else {
        y
    }
}

/// The length that a scan of `team` from `origin` in the direction `dir`
/// reports.
///
/// Let `ahead` be the team's cells in a row ahead of the origin and `behind`
/// those behind it.  The line has a gap where the cell after `ahead` is
/// free; the team's cells in a row after the gap are `beyond`.  The line's
/// reach is the origin and the cells in a row, ahead and behind, that no
/// opponent and no edge blocks.
///   - Where four are in a row before the scan meets the gap, the result
///     is 4.
///   - Else a reach below 4 gives 0: four in a row can never come about.
///   - Else a line with a gap gives what it holds on both sides of the
///     gap, at most 3.
///   - Else the result is the origin with `ahead` and `behind`, at most 4.
pub open spec fn run_length(grid: Grid, origin: GridPosition, dir: GridPosition, team: int) -> int {
    let fwd = Ray::new(origin, dir);
    let rev = fwd.reversed();
    let ahead = fwd.streak(grid, team, true, 1);
    let behind = rev.streak(grid, team, true, 1);
    let reach = 1 + fwd.streak(grid, team, false, 1) + rev.streak(grid, team, false, 1);
    let gap = fwd.free(grid, team, ahead + 1) && ahead < 7;
    let beyond = fwd.streak(grid, team, true, ahead + 2);
    run_of(ahead, behind, gap, beyond, reach)
}

/// The length of a run, from what lies on its line: see [`run_length`].
pub open spec fn run_of(ahead: int, behind: int, gap: bool, beyond: int, reach: int) -> int {
    if gap && 1 + min_of(behind, ahead + 1) + ahead >= 4 {
        4
    } else if reach < 4 {
        0
    } else if gap {
        min_of(1 + behind + ahead + beyond, 3)
    } else {
        min_of(1 + behind + ahead, 4)
    }
}

/// A streak is never negative, never longer than what is left of the
/// seven steps, and a streak of owned cells is never longer than the
/// streak of unblocked cells from the same place.
pub proof fn lemma_streak_bounds(ray: Ray, grid: Grid, team: int, from: int)
    requires
        1 <= from,
    ensures
        0 <= ray.streak(grid, team, true, from) <= ray.streak(grid, team, false, from),
        ray.streak(grid, team, false, from) <= 8 - from || ray.streak(grid, team, false, from)
            == 0,
    decreases 8 - from,
{
    if from <= 7 {
        lemma_streak_bounds(ray, grid, team, from + 1);
    }
}

/// A streak that reaches `upto` is the cells before `upto`, all of which
/// fit, and the streak that starts at `upto`.
pub proof fn lemma_streak_split(
    ray: Ray,
    grid: Grid,
    team: int,
    owned_only: bool,
    from: int,
    upto: int,
)
    requires
        1 <= from <= upto,
        ray.streak(grid, team, owned_only, from) >= upto - from,
    ensures
        ray.streak(grid, team, owned_only, from) == upto - from + ray.streak(
            grid,
            team,
            owned_only,
            upto,
        ),
        forall|k: int| from <= k < upto ==> ray.fits(grid, team, owned_only, k) && k <= 7,
    decreases upto - from,
{
    if from < upto {
        lemma_streak_bounds(ray, grid, team, from + 1);
        lemma_streak_split(ray, grid, team, owned_only, from + 1, upto);
    }
}

/// Seven cells in a row along a direction span the grid: the eighth lies
/// outside.
pub proof fn lemma_eighth_step_off_grid(ray: Ray)
    requires
        -1 <= ray.dcol <= 1,
        -1 <= ray.drow <= 1,
        ray.dcol != 0 || ray.drow != 0,
        on_grid(ray.col_at(1), ray.row_at(1)),
        on_grid(ray.col_at(7), ray.row_at(7)),
    ensures
        !on_grid(ray.col_at(8), ray.row_at(8)),
{
}

/// What a scan holds between two steps.
pub struct Scan {
    /// Whether the scan still walks ahead.
    pub fwd_on: bool,
    /// Whether the scan still walks behind.
    pub rev_on: bool,
    /// The free cells met ahead, up to the second.
    pub gaps: int,
    /// Whether a free cell was met behind.
    pub rev_gap: bool,
    /// The cells counted for the run.
    pub run: int,
    /// The cells counted for the reach.
    pub reach: int,
}

/// What lies on a line, as far as a scan can tell: the team's cells in a row
/// ahead and behind, the unblocked cells in a row ahead and behind, and the
/// team's cells in a row beyond the gap.
pub struct Line {
    pub ahead: int,
    pub behind: int,
    pub open_ahead: int,
    pub open_behind: int,
    pub beyond: int,
}

impl Line {
    /// The line through `origin` along `dir`, as `team` sees it.
    pub open spec fn of(grid: Grid, origin: GridPosition, dir: GridPosition, team: int) -> Line {
        let fwd = Ray::new(origin, dir);
        let rev = fwd.reversed();
        let ahead = fwd.streak(grid, team, true, 1);
        Line {
            ahead,
            behind: rev.streak(grid, team, true, 1),
            open_ahead: fwd.streak(grid, team, false, 1),
            open_behind: rev.streak(grid, team, false, 1),
            beyond: fwd.streak(grid, team, true, ahead + 2),
        }
    }

    /// The streaks of a line lie inside one another.
    pub open spec fn wf(self) -> bool {
        &&& 0 <= self.ahead <= self.open_ahead <= 7
        &&& 0 <= self.behind <= self.open_behind <= 7
        &&& 0 <= self.beyond
        &&& self.ahead < self.open_ahead ==> self.ahead + 1 + self.beyond <= self.open_ahead
    }

    /// The length of the run on this line.
    pub open spec fn run(self) -> int {
        run_of(
            self.ahead,
            self.behind,
            self.ahead < self.open_ahead,
            self.beyond,
            1 + self.open_ahead + self.open_behind,
        )
    }

    /// What the cell `step` steps away on one side tells of the line, where
    /// the scan has come as far as the cell before it.
    pub open spec fn step_behind(self, step: int, open: bool, own: bool) -> bool {
        &&& own ==> open
        &&& self.open_behind >= step - 1 ==> (self.open_behind >= step <==> open)
        &&& self.behind >= step - 1 ==> (self.behind >= step <==> own)
    }

    /// The same for the cell `step` steps ahead.
    pub open spec fn step_ahead(self, step: int, open: bool, own: bool) -> bool {
        &&& own ==> open
        &&& self.open_ahead >= step - 1 ==> (self.open_ahead >= step <==> open)
        &&& self.ahead >= step - 1 ==> (self.ahead >= step <==> own)
        &&& self.ahead < self.open_ahead && self.ahead + 2 <= step && self.beyond >= step
            - self.ahead - 2 ==> (self.beyond >= step - self.ahead - 1 <==> own)
    }
}

impl Scan {
    /// The scan before its first step: the origin alone.
    pub open spec fn start() -> Scan {
        Scan { fwd_on: true, rev_on: true, gaps: 0, rev_gap: false, run: 1, reach: 1 }
    }

    /// Whether the scan takes another step.
    pub open spec fn goes_on(self) -> bool {
        self.run <= 4 && (self.fwd_on || self.rev_on)
    }

    /// The scan after it has looked at the next cell behind: `open` says
    /// that nothing blocks the cell, `own` that it is the team's.
    pub open spec fn look_behind(self, open: bool, own: bool) -> Scan {
        if !self.rev_on || !open {
            Scan { rev_on: false, ..self }
        } else if self.rev_gap {
            Scan { reach: self.reach + 1, ..self }
        } else if own {
            Scan { run: self.run + 1, reach: self.reach + 1, ..self }
        } else {
            Scan { rev_gap: true, reach: self.reach + 1, ..self }
        }
    }

    /// Whether the scan ends at the next cell ahead with four in a row:
    /// the cell is not blocked, four are counted and no gap was met.
    pub open spec fn wins(self, open: bool) -> bool {
        self.fwd_on && open && self.gaps == 0 && self.run >= 4
    }

    /// The scan after it has looked at the next cell ahead.
    pub open spec fn look_ahead(self, open: bool, own: bool) -> Scan {
        if !self.fwd_on || !open {
            Scan { fwd_on: false, ..self }
        } else if self.gaps > 1 {
            Scan { reach: self.reach + 1, ..self }
        } else if own {
            Scan { run: self.run + 1, reach: self.reach + 1, ..self }
        } else {
            Scan { gaps: self.gaps + 1, reach: self.reach + 1, ..self }
        }
    }

    /// What the scan reports when it has taken its last step.
    pub open spec fn result(self) -> int {
        if self.reach < 4 {
            0
        } else if self.gaps > 0 {
            min_of(self.run, 3)
        } else {
            min_of(self.run, 4)
        }
    }

    /// What holds of a scan that has taken `done` steps along `line`.
    pub open spec fn agrees(self, line: Line, done: int) -> bool {
        let near = min_of(done, min_of(line.ahead + 1, line.open_ahead));
        let gap_met = line.ahead + 1 <= min_of(done, line.open_ahead);
        &&& 0 <= done <= 8
        &&& self.fwd_on <==> done <= line.open_ahead
        &&& self.rev_on <==> done <= line.open_behind
        &&& self.rev_gap <==> line.behind + 1 <= min_of(done, line.open_behind)
        &&& self.gaps == if !gap_met {
            0int
        } else if line.ahead + line.beyond + 2 <= min_of(done, line.open_ahead) {
            2int
        } else {
            1int
        }
        &&& self.run == 1 + min_of(line.behind, done) + min_of(line.ahead, done) + if gap_met {
            min_of(line.beyond, done - line.ahead - 1)
        } else {
            0
        }
        &&& self.reach == 1 + min_of(line.open_behind, done) + min_of(line.open_ahead, done)
        &&& 1 <= near ==> min_of(line.behind, near) + near < 4
    }
}

/// A step of the scan keeps it in agreement with the line, and where the
/// step ends the scan with four in a row, the line's run is 4.
pub proof fn lemma_scan_turn(
    scan: Scan,
    line: Line,
    done: int,
    open_behind: bool,
    own_behind: bool,
    open_ahead: bool,
    own_ahead: bool,
)
    requires
        line.wf(),
        scan.agrees(line, done),
        scan.goes_on(),
        line.step_behind(done + 1, open_behind, own_behind),
        line.step_ahead(done + 1, open_ahead, own_ahead),
    ensures
        done <= 7,
        ({
            let turned = scan.look_behind(open_behind, own_behind);
            if turned.wins(open_ahead) {
                line.run() == 4
            } else {
                turned.look_ahead(open_ahead, own_ahead).agrees(line, done + 1)
            }
        }),
{
}

/// A scan that has taken its last step reports the line's run.
pub proof fn lemma_scan_end(scan: Scan, line: Line, done: int)
    requires
        line.wf(),
        scan.agrees(line, done),
        !scan.goes_on(),
    ensures
        scan.result() == line.run(),
{
}

/// The streaks of a line on the grid lie inside one another, and the line
/// has a gap exactly where more cells ahead are unblocked than are the
/// team's.
pub proof fn lemma_line(grid: Grid, origin: GridPosition, dir: GridPosition, team: int)
    ensures
        Line::of(grid, origin, dir, team).wf(),
        Line::of(grid, origin, dir, team).run() == run_length(grid, origin, dir, team),
{
    let ray = Ray::new(origin, dir);
    let rev = ray.reversed();
    let ahead = ray.streak(grid, team, true, 1);
    let open = ray.streak(grid, team, false, 1);
    lemma_streak_bounds(ray, grid, team, 1);
    lemma_streak_bounds(rev, grid, team, 1);
    lemma_streak_split(ray, grid, team, true, 1, ahead + 1);
    lemma_streak_split(ray, grid, team, false, 1, ahead + 1);
    lemma_streak_bounds(ray, grid, team, ahead + 2);
    if ahead < open {
        lemma_streak_split(ray, grid, team, false, 1, ahead + 2);
    }
}

/// What the cell `step` steps from the origin tells of the streaks that
/// start at the first cell: each goes on exactly where the cell fits, and
/// none goes on past the seventh cell.
pub proof fn lemma_streak_step(ray: Ray, grid: Grid, team: int, owned_only: bool, step: int)
    requires
        1 <= step <= 8,
        -1 <= ray.dcol <= 1,
        -1 <= ray.drow <= 1,
        ray.dcol != 0 || ray.drow != 0,
        ray.streak(grid, team, owned_only, 1) >= step - 1,
    ensures
        ray.streak(grid, team, owned_only, 1) >= step <==> ray.fits(grid, team, owned_only, step),
{
    lemma_streak_bounds(ray, grid, team, step + 1);
    lemma_streak_split(ray, grid, team, owned_only, 1, step);
    if step == 8 {
        assert(ray.fits(grid, team, owned_only, 1));
        assert(ray.fits(grid, team, owned_only, 7));
        lemma_eighth_step_off_grid(ray);
    }
}

/// The cells `step` steps away on both sides tell of the line what a step
/// of the scan relies on.
pub proof fn lemma_line_step(
    grid: Grid,
    origin: GridPosition,
    dir: GridPosition,
    team: int,
    step: int,
)
    requires
        is_direction(dir),
        1 <= step <= 8,
    ensures
        ({
            let line = Line::of(grid, origin, dir, team);
            let fwd = Ray::new(origin, dir);
            let rev = fwd.reversed();
            &&& line.step_behind(
                step,
                !rev.blocked(grid, team, step),
                rev.owned(grid, team, step),
            )
            &&& line.step_ahead(step, !fwd.blocked(grid, team, step), fwd.owned(grid, team, step))
        }),
{
    let line = Line::of(grid, origin, dir, team);
    let fwd = Ray::new(origin, dir);
    let rev = fwd.reversed();
    if line.open_behind >= step - 1 {
        lemma_streak_step(rev, grid, team, false, step);
    }
    if line.behind >= step - 1 {
        lemma_streak_step(rev, grid, team, true, step);
    }
    if line.open_ahead >= step - 1 {
        lemma_streak_step(fwd, grid, team, false, step);
    }
    if line.ahead >= step - 1 {
        lemma_streak_step(fwd, grid, team, true, step);
    }
    if line.ahead < line.open_ahead && line.ahead + 2 <= step && line.beyond >= step
        - line.ahead - 2 {
        lemma_streak_bounds(fwd, grid, team, 1);
        lemma_streak_split(fwd, grid, team, true, line.ahead + 2, step);
        lemma_streak_bounds(fwd, grid, team, step + 1);
        if step == 8 {
            lemma_streak_split(fwd, grid, team, false, 1, line.ahead + 2);
            assert(fwd.fits(grid, team, false, 1));
            if line.ahead + 1 >= 7 {
                assert(fwd.fits(grid, team, false, 7));
            } else {
                assert(fwd.fits(grid, team, true, 7));
            }
            lemma_eighth_step_off_grid(fwd);
        }
    }
}

/// What a scan reports that stands at `scan` and takes step `step` next.
/// At each step it looks first at the cell behind, then at the cell ahead,
/// and it goes on while it has counted at most four cells and still walks
/// on one side at least.
pub open spec fn scan_from(
    grid: Grid,
    origin: GridPosition,
    dir: GridPosition,
    team: int,
    scan: Scan,
    step: int,
) -> int
    decreases 9 - step,
{
    let fwd = Ray::new(origin, dir);
    let rev = fwd.reversed();
    if !scan.goes_on() || step > 8 {
        scan.result()
    } else {
        let turned = scan.look_behind(!rev.blocked(grid, team, step), rev.owned(grid, team, step));
        if turned.wins(!fwd.blocked(grid, team, step)) {
            4
        } else {
            scan_from(
                grid,
                origin,
                dir,
                team,
                turned.look_ahead(!fwd.blocked(grid, team, step), fwd.owned(grid, team, step)),
                step + 1,
            )
        }
    }
}

/// A scan that agrees with its line so far reports the line's run.
pub proof fn lemma_scan_from(
    grid: Grid,
    origin: GridPosition,
    dir: GridPosition,
    team: int,
    scan: Scan,
    step: int,
)
    requires
        is_direction(dir),
        1 <= step <= 9,
        scan.agrees(Line::of(grid, origin, dir, team), step - 1),
    ensures
        scan_from(grid, origin, dir, team, scan, step) == run_length(grid, origin, dir, team),
    decreases 9 - step,
{
    let line = Line::of(grid, origin, dir, team);
    let fwd = Ray::new(origin, dir);
    let rev = fwd.reversed();
    lemma_line(grid, origin, dir, team);
    if !scan.goes_on() {
        lemma_scan_end(scan, line, step - 1);
    } else {
        let open_behind = !rev.blocked(grid, team, step);
        let own_behind = rev.owned(grid, team, step);
        let open_ahead = !fwd.blocked(grid, team, step);
        let own_ahead = fwd.owned(grid, team, step);
        lemma_line_step(grid, origin, dir, team, step);
        lemma_scan_turn(scan, line, step - 1, open_behind, own_behind, open_ahead, own_ahead);
        let turned = scan.look_behind(open_behind, own_behind);
        if !turned.wins(open_ahead) {
            lemma_scan_from(
                grid,
                origin,
                dir,
                team,
                turned.look_ahead(open_ahead, own_ahead),
                step + 1,
            );
        }
    }
}

/// The scan, walked step by step from the origin, reports the run that the
/// streaks on the line define.
pub proof fn lemma_scan_is_run_length(
    grid: Grid,
    origin: GridPosition,
    dir: GridPosition,
    team: int,
)
    requires
        is_direction(dir),
    ensures
        scan_from(grid, origin, dir, team, Scan::start(), 1) == run_length(
            grid,
            origin,
            dir,
            team,
        ),
{
    lemma_line(grid, origin, dir, team);
    lemma_scan_from(grid, origin, dir, team, Scan::start(), 1);
}

/// The position `steps` steps from `start`: along `dir` where `ahead` is
/// true, against it where not.  `None` stands for a position off the board.
fn step_from(start: GridPosition, dir: GridPosition, steps: i32, ahead: bool) -> (pos: Option<
    GridPosition,
>)
    requires
        0 <= steps <= 8,
        -1 <= dir.x <= 1,
        -1 <= dir.y <= 1,
    ensures
        ({
            let ray = if ahead {
                Ray::new(start, dir)
            } else {
                Ray::new(start, dir).reversed()
            };
            &&& pos is Some <==> on_grid(ray.col_at(steps as int), ray.row_at(steps as int))
            &&& pos matches Some(p) ==> p.x == ray.col_at(steps as int) && p.y == ray.row_at(
                steps as int,
            )
        }),
{
    assert(-8 <= steps * dir.x <= 8 && -8 <= steps * dir.y <= 8 && steps * (-dir.x) == -(steps
        * dir.x) && steps * (-dir.y) == -(steps * dir.y)) by (nonlinear_arith)
        requires
            0 <= steps <= 8,
            -1 <= dir.x <= 1,
            -1 <= dir.y <= 1,
    ;
    let dx: i64 = (steps * dir.x) as i64;
    let dy: i64 = (steps * dir.y) as i64;
    let x: i64 = if ahead {
        start.x as i64 + dx
    } else {
        start.x as i64 - dx
    };
    let y: i64 = if ahead {
        start.y as i64 + dy
    } else {
        start.y as i64 - dy
    };
    if 0 <= x && x < 7 && 0 <= y && y < 6 {
        Some(GridPosition::new(x as i32, y as i32))
    } else {
        None
    }
}

impl Board {
    /// Scans the line through `start` for `team`: ahead in the direction
    /// `dir` and behind against it, a step at a time on both sides.  Behind,
    /// only the team's cells in a row count; ahead, one free cell may lie
    /// among them.  The result is the length of the run through `start`, at
    /// most 4, at most 3 where a free cell lies in it, and 0 where the line
    /// has no room for four.
    pub fn get_run_in_direction(&self, start: GridPosition, dir: GridPosition, team: i32) -> (run:
        i32)
        requires
            self.wf(),
            is_direction(dir),
        ensures
            run == run_length(self@, start, dir, team as int),
            0 <= run <= 4,
    {
        let ghost line = Line::of(self@, start, dir, team as int);
        let ghost fwd = Ray::new(start, dir);
        let ghost rev = fwd.reversed();
        proof {
            lemma_line(self@, start, dir, team as int);
        }
        let mut dir_active = true;
        let mut rev_active = true;
        let mut dir_spaces_used: i32 = 0;
        let mut rev_space_used = false;
        let mut run_len: i32 = 1;
        let mut potential_len: i32 = 1;
        let mut i: i32 = 1;
        while run_len <= 4 && (dir_active || rev_active)
            invariant
                self.wf(),
                is_direction(dir),
                line == Line::of(self@, start, dir, team as int),
                fwd == Ray::new(start, dir),
                rev == fwd.reversed(),
                line.wf(),
                line.run() == run_length(self@, start, dir, team as int),
                1 <= i <= 9,
                (Scan {
                    fwd_on: dir_active,
                    rev_on: rev_active,
                    gaps: dir_spaces_used as int,
                    rev_gap: rev_space_used,
                    run: run_len as int,
                    reach: potential_len as int,
                }).agrees(line, i - 1),
            decreases 9 - i,
        {
            let ghost before = Scan {
                fwd_on: dir_active,
                rev_on: rev_active,
                gaps: dir_spaces_used as int,
                rev_gap: rev_space_used,
                run: run_len as int,
                reach: potential_len as int,
            };
            let ghost open_behind = !rev.blocked(self@, team as int, i as int);
            let ghost own_behind = rev.owned(self@, team as int, i as int);
            let ghost open_ahead = !fwd.blocked(self@, team as int, i as int);
            let ghost own_ahead = fwd.owned(self@, team as int, i as int);
            proof {
                assert(i <= 8);
                lemma_line_step(self@, start, dir, team as int, i as int);
                lemma_scan_turn(
                    before,
                    line,
                    i - 1,
                    open_behind,
                    own_behind,
                    open_ahead,
                    own_ahead,
                );
            }
            let fwd_pos = step_from(start, dir, i, true);
            let rev_pos = step_from(start, dir, i, false);
            dir_active = dir_active && fwd_pos.is_some();
            rev_active = rev_active && rev_pos.is_some();
            if rev_active {
                let val = self.get_cell_team(rev_pos.unwrap());
                if val != 0 && val != team {
                    rev_active = false;
                } else if !rev_space_used {
                    if val == team {
                        run_len += 1;
                    } else {
                        rev_space_used = true;
                    }
                    potential_len += 1;
                } else {
                    potential_len += 1;
                }
            }
            assert(Scan {
                fwd_on: before.fwd_on,
                rev_on: rev_active,
                gaps: dir_spaces_used as int,
                rev_gap: rev_space_used,
                run: run_len as int,
                reach: potential_len as int,
            } == before.look_behind(open_behind, own_behind));
            if dir_active {
                let val = self.get_cell_team(fwd_pos.unwrap());
                if val != 0 && val != team {
                    dir_active = false;
                } else if dir_spaces_used <= 1 {
                    if run_len >= 4 && dir_spaces_used == 0 {
                        return 4i32;
                    } else if val == team {
                        run_len += 1;
                    } else {
                        dir_spaces_used += 1;
                    }
                    potential_len += 1;
                } else {
                    potential_len += 1;
                }
            }
            assert(Scan {
                fwd_on: dir_active,
                rev_on: rev_active,
                gaps: dir_spaces_used as int,
                rev_gap: rev_space_used,
                run: run_len as int,
                reach: potential_len as int,
            } == before.look_behind(open_behind, own_behind).look_ahead(open_ahead, own_ahead));
            i += 1;
        }
        proof {
            lemma_scan_end(
                Scan {
                    fwd_on: dir_active,
                    rev_on: rev_active,
                    gaps: dir_spaces_used as int,
                    rev_gap: rev_space_used,
                    run: run_len as int,
                    reach: potential_len as int,
                },
                line,
                i - 1,
            );
        }
        if potential_len < 4 {
            0i32
        } else if dir_spaces_used > 0 {
            if run_len < 3 {
                run_len
            } else {
                3
            }
        } else {
            if run_len < 4 {
                run_len
            } else {
                4
            }
        }
    }
}

/// The four axes of the grid, each by the sense in which it is scanned
/// first: to the right, up to the right, up, and up to the left.
pub open spec fn axis(n: int) -> GridPosition {
    if n == 0 {
        GridPosition { x: 1, y: 0 }
    } else if n == 1 {
        GridPosition { x: 1, y: 1 }
    } else if n == 2 {
        GridPosition { x: 0, y: 1 }
    } else {
        GridPosition { x: -1i32, y: 1 }
    }
}

/// The step against `dir`.
pub open spec fn opposite(dir: GridPosition) -> GridPosition {
    GridPosition { x: (-dir.x) as i32, y: (-dir.y) as i32 }
}

/// 1 where the scan from `origin` along `dir` reports `len`, else 0.
pub open spec fn hit(grid: Grid, origin: GridPosition, dir: GridPosition, team: int, len: int)
    -> int {
    if run_length(grid, origin, dir, team) == len {
        1
    } else {
        0
    }
}

/// The number of scans from `origin` that report `len`, among the scans in
/// both senses of the first `axes` axes.
pub open spec fn tally(grid: Grid, origin: GridPosition, team: int, len: int, axes: int) -> int
    decreases axes,
{
    if axes <= 0 {
        0
    } else {
        tally(grid, origin, team, len, axes - 1) + hit(grid, origin, axis(axes - 1), team, len)
            + hit(grid, origin, opposite(axis(axes - 1)), team, len)
    }
}

/// The runs through `origin`: entry `i` counts the scans, among the eight
/// from `origin`, that report the length `i + 1`.  A line that runs on both
/// sides of the origin is scanned in both senses and may count twice.
pub open spec fn runs_from_point(grid: Grid, origin: GridPosition, team: int) -> Seq<int> {
    Seq::new(4, |i: int| tally(grid, origin, team, i + 1, 4))
}

/// No scan reports less than 0 or more than 4.
pub proof fn lemma_run_length_bounds(
    grid: Grid,
    origin: GridPosition,
    dir: GridPosition,
    team: int,
)
    ensures
        0 <= run_length(grid, origin, dir, team) <= 4,
{
    lemma_line(grid, origin, dir, team);
}

/// Whether three of the team's cells stand in a row with the origin on its
/// line along `dir`: `behind` of them behind the origin, the others ahead.
/// With the origin, which a scan takes for the team's, they are four.
pub open spec fn four_through(
    grid: Grid,
    origin: GridPosition,
    dir: GridPosition,
    team: int,
    behind: int,
) -> bool {
    &&& 0 <= behind <= 3
    &&& forall|k: int| 1 <= k <= 3 - behind ==> Ray::new(origin, dir).owned(grid, team, k)
    &&& forall|k: int| 1 <= k <= behind ==> Ray::new(origin, dir).reversed().owned(grid, team, k)
}

/// Four in a row are found.  Where three of the team's cells stand in a
/// row with the origin, the scan along `dir` reports 4, unless the cell one
/// step ahead is free; and where it is, the scan against `dir` reports 4.
/// So of the two scans of the line at least one reports 4.
pub proof fn lemma_four_in_a_row(
    grid: Grid,
    origin: GridPosition,
    dir: GridPosition,
    team: int,
    behind: int,
)
    requires
        -1 <= dir.x <= 1,
        -1 <= dir.y <= 1,
        four_through(grid, origin, dir, team, behind),
    ensures
        run_length(grid, origin, dir, team) == 4 <==> !Ray::new(origin, dir).free(grid, team, 1),
        run_length(grid, origin, dir, team) == 4 || run_length(grid, origin, opposite(dir), team)
            == 4,
{
    let fwd = Ray::new(origin, dir);
    let rev = fwd.reversed();
    lemma_line(grid, origin, dir, team);
    lemma_streak_reaches(fwd, grid, team, 1, 3 - behind);
    lemma_streak_reaches(rev, grid, team, 1, behind);
    lemma_streak_bounds(fwd, grid, team, 2);
    lemma_streak_bounds(rev, grid, team, 2);
    let back = opposite(dir);
    assert(Ray::new(origin, back) == rev);
    assert(Ray::new(origin, back).reversed() == fwd);
    lemma_line(grid, origin, back, team);
}

/// Only four in a row are reported as four: where a scan reports 4, three
/// of the team's cells stand in a row with the origin on the scan's line.
pub proof fn lemma_four_is_four(grid: Grid, origin: GridPosition, dir: GridPosition, team: int)
    requires
        run_length(grid, origin, dir, team) == 4,
    ensures
        exists|behind: int| four_through(grid, origin, dir, team, behind),
{
    let fwd = Ray::new(origin, dir);
    let rev = fwd.reversed();
    let ahead = fwd.streak(grid, team, true, 1);
    let back = rev.streak(grid, team, true, 1);
    lemma_line(grid, origin, dir, team);
    lemma_streak_split(fwd, grid, team, true, 1, ahead + 1);
    lemma_streak_split(rev, grid, team, true, 1, back + 1);
    let behind = min_of(back, 3);
    assert forall|k: int| 1 <= k <= 3 - behind implies fwd.owned(grid, team, k) by {
        assert(fwd.fits(grid, team, true, k));
    }
    assert forall|k: int| 1 <= k <= behind implies rev.owned(grid, team, k) by {
        assert(rev.fits(grid, team, true, k));
    }
    assert(four_through(grid, origin, dir, team, behind));
}

/// Four in a row through a cell show in the runs through it: where three
/// of the team's cells stand in a row with the origin along one of the
/// four axes, the runs of length 4 are counted at least once.
pub proof fn lemma_four_is_counted(
    grid: Grid,
    origin: GridPosition,
    team: int,
    n: int,
    behind: int,
)
    requires
        0 <= n < 4,
        four_through(grid, origin, axis(n), team, behind),
    ensures
        runs_from_point(grid, origin, team)[3] > 0,
{
    lemma_four_in_a_row(grid, origin, axis(n), team, behind);
    lemma_tally_holds_axis(grid, origin, team, 4, 4, n);
}

/// The scans of an axis that report `len` are among those counted for the
/// axes up to it.
pub proof fn lemma_tally_holds_axis(
    grid: Grid,
    origin: GridPosition,
    team: int,
    len: int,
    axes: int,
    n: int,
)
    requires
        0 <= n < axes,
    ensures
        tally(grid, origin, team, len, axes) >= hit(grid, origin, axis(n), team, len) + hit(
            grid,
            origin,
            opposite(axis(n)),
            team,
            len,
        ),
    decreases axes,
{
    lemma_tally_bounds(grid, origin, team, len, axes - 1);
    if n < axes - 1 {
        lemma_tally_holds_axis(grid, origin, team, len, axes - 1, n);
    }
}

/// Cells in a row that all fit make a streak at least as long.
pub proof fn lemma_streak_reaches(ray: Ray, grid: Grid, team: int, from: int, count: int)
    requires
        1 <= from,
        0 <= count,
        from + count <= 8,
        forall|k: int| from <= k < from + count ==> ray.owned(grid, team, k),
    ensures
        ray.streak(grid, team, true, from) >= count,
        ray.streak(grid, team, false, from) >= count,
    decreases count,
{
    lemma_streak_bounds(ray, grid, team, from);
    if count > 0 {
        assert(ray.owned(grid, team, from));
        lemma_streak_reaches(ray, grid, team, from + 1, count - 1);
    }
}

/// A gap caps the run.  Where a free cell follows the team's cells ahead
/// of the origin, the scan reports 4 only if four stand in a row before it
/// meets the gap: the origin, the cells ahead, and the cells behind that
/// it has met by then.  Otherwise it reports 3 at most.
pub proof fn lemma_gap_caps_run(grid: Grid, origin: GridPosition, dir: GridPosition, team: int)
    requires
        ({
            let fwd = Ray::new(origin, dir);
            let ahead = fwd.streak(grid, team, true, 1);
            fwd.free(grid, team, ahead + 1) && ahead < 7
        }),
    ensures
        ({
            let fwd = Ray::new(origin, dir);
            let ahead = fwd.streak(grid, team, true, 1);
            let behind = fwd.reversed().streak(grid, team, true, 1);
            &&& run_length(grid, origin, dir, team) == 4 <==> 1 + min_of(behind, ahead + 1)
                + ahead >= 4
            &&& 1 + min_of(behind, ahead + 1) + ahead < 4 ==> run_length(grid, origin, dir, team)
                <= 3
        }),
{
    lemma_line(grid, origin, dir, team);
}

/// A dead line gives 0.  The scan reports 0 exactly where the origin and
/// the cells in a row that nothing blocks, ahead and behind, are fewer than
/// four; whatever the team holds on such a line counts for nothing.
pub proof fn lemma_dead_line(grid: Grid, origin: GridPosition, dir: GridPosition, team: int)
    ensures
        ({
            let fwd = Ray::new(origin, dir);
            let reach = 1 + fwd.streak(grid, team, false, 1) + fwd.reversed().streak(
                grid,
                team,
                false,
                1,
            );
            run_length(grid, origin, dir, team) == 0 <==> reach < 4
        }),
{
    lemma_line(grid, origin, dir, team);
}

/// The counts of the runs through a cell are not negative, and together
/// they are at most the two scans of each axis counted so far.
pub proof fn lemma_tally_bounds(
    grid: Grid,
    origin: GridPosition,
    team: int,
    len: int,
    axes: int,
)
    requires
        0 <= axes,
    ensures
        0 <= tally(grid, origin, team, len, axes) <= 2 * axes,
    decreases axes,
{
    if axes > 0 {
        lemma_tally_bounds(grid, origin, team, len, axes - 1);
    }
}

/// Counts a scan's result: a run of length `run` adds one to entry
/// `run - 1`, and no run adds nothing.
fn count_run(output: &mut [i32; 4], run: i32)
    requires
        0 <= run <= 4,
        forall|k: int| 0 <= k < 4 ==> 0 <= #[trigger] old(output)@[k] < 1000,
    ensures
        forall|k: int|
            0 <= k < 4 ==> #[trigger] final(output)@[k] == old(output)@[k] + if run == k + 1 {
                1int
            } else {
                0int
            },
{
    let a = run - 1;
    if a >= 0 {
        output[a as usize] += 1;
    }
}

impl Board {
    /// Counts the runs through `start`: entry `i` of the result is the number
    /// of scans, among those in both senses of the four axes, that report
    /// the length `i + 1`.
    pub fn get_runs_from_point(&self, start: GridPosition, team: i32) -> (runs: [i32; 4])
        requires
            self.wf(),
        ensures
            runs@.len() == 4,
            forall|i: int|
                0 <= i < 4 ==> #[trigger] runs@[i] as int == runs_from_point(
                    self@,
                    start,
                    team as int,
                )[i],
    {
        let mut output: [i32; 4] = [0i32;4];
        let directions: [(i32, i32); 4] = [(1, 0), (1, 1), (0, 1), (-1, 1)];
        let mut n: usize = 0;
        while n < 4
            invariant
                self.wf(),
                n <= 4,
                directions@.len() == 4,
                directions@[0] == (1i32, 0i32),
                directions@[1] == (1i32, 1i32),
                directions@[2] == (0i32, 1i32),
                directions@[3] == (-1i32, 1i32),
                forall|k: int|
                    0 <= k < 4 ==> #[trigger] output@[k] as int == tally(
                        self@,
                        start,
                        team as int,
                        k + 1,
                        n as int,
                    ),
            decreases 4 - n,
        {
            let dir = directions[n];
            let ahead = GridPosition::new(dir.0, dir.1);
            let back = GridPosition::new(-dir.0, -dir.1);
            proof {
                assert(ahead == axis(n as int));
                assert(back == opposite(axis(n as int)));
                assert forall|k: int| 0 <= k < 4 implies 0 <= #[trigger] output@[k] <= 8 by {
                    lemma_tally_bounds(self@, start, team as int, k + 1, n as int);
                }
            }
            let ghost before = output@;
            let a = self.get_run_in_direction(start, ahead, team);
            let b = self.get_run_in_direction(start, back, team);
            count_run(&mut output, a);
            assert forall|k: int| 0 <= k < 4 implies 0 <= #[trigger] output@[k] <= 9 by {
                assert(0 <= before[k] <= 8);
            }
            count_run(&mut output, b);
            proof {
                assert forall|k: int| 0 <= k < 4 implies #[trigger] output@[k] as int == tally(
                    self@,
                    start,
                    team as int,
                    k + 1,
                    n as int + 1,
                ) by {
                    assert(before[k] == tally(self@, start, team as int, k + 1, n as int));
                    assert(hit(self@, start, ahead, team as int, k + 1) == if a == k + 1 {
                        1int
                    } else {
                        0int
                    });
                    assert(hit(self@, start, back, team as int, k + 1) == if b == k + 1 {
                        1int
                    } else {
                        0int
                    });
                }
            }
            n += 1;
        }
        output
    }
}

} // verus!
