//! The playing grid: seven columns of six cells, filled from the bottom up.
//!
//! The mathematical model of a board is a [`Grid`]: for each column the stack
//! of discs that were dropped into it, bottom disc first.  Every contract in
//! this crate is stated over that model.

use vstd::prelude::*;

verus! {

/// Board size in cells, as (rows, columns).
pub const BOARD_SIZE: (i32, i32) = (6, 7);

/// Width and height of one cell, in pixels.
pub const BOARD_CELL_SIZE: (i32, i32) = (64, 64);

/// Width of the border drawn around the cells, in pixels.
pub const BOARD_BORDER_SIZE: i32 = 32;

/// The stacks of discs of the seven columns, each bottom disc first.
pub type Grid = Seq<Seq<i32>>;

/// The two teams that can own a disc.
pub open spec fn is_player(team: int) -> bool {
    team == 1 || team == 2
}

/// Whether (`col`, `row`) names a cell of the grid.
pub open spec fn on_grid(col: int, row: int) -> bool {
    0 <= col < 7 && 0 <= row < 6
}

/// A grid has seven columns, none higher than six discs, and every disc
/// belongs to one of the two teams.
pub open spec fn grid_wf(grid: Grid) -> bool {
    &&& grid.len() == 7
    &&& forall|c: int| 0 <= c < 7 ==> (#[trigger] grid[c]).len() <= 6
    &&& forall|c: int, r: int|
        0 <= c < 7 && 0 <= r < grid[c].len() ==> is_player(#[trigger] grid[c][r] as int)
}

/// The grid without any disc.
pub open spec fn empty_grid() -> Grid {
    Seq::new(7, |c: int| Seq::<i32>::empty())
}

/// The team whose disc lies at (`col`, `row`): 0 for an empty cell and -1
/// for a position outside the grid.
pub open spec fn team_at(grid: Grid, col: int, row: int) -> int {
    if !on_grid(col, row) {
        -1
    } else if row < grid[col].len() {
        grid[col][row] as int
    } else {
        0
    }
}

/// Whether column `col` can take no further disc.
pub open spec fn column_full(grid: Grid, col: int) -> bool {
    grid[col].len() >= 6
}

/// Whether no column can take a further disc.
pub open spec fn grid_full(grid: Grid) -> bool {
    forall|c: int| 0 <= c < 7 ==> column_full(grid, c)
}

/// The grid after `team` has dropped a disc into column `col`.
pub open spec fn drop_disc(grid: Grid, col: int, team: i32) -> Grid {
    grid.update(col, grid[col].push(team))
}

/// In a well-formed grid the occupied cells of a column are exactly its
/// rows below the column's height: no disc floats and no gap lies under one.
pub proof fn lemma_gravity(grid: Grid, col: int, row: int)
    requires
        grid_wf(grid),
        on_grid(col, row),
    ensures
        team_at(grid, col, row) != 0 <==> row < grid[col].len(),
        team_at(grid, col, row) == 0 || is_player(team_at(grid, col, row)),
{
}

/// Dropping a player's disc into a column that is not full keeps the grid
/// well formed, raises that column by one and changes no other cell.
pub proof fn lemma_drop_disc(grid: Grid, col: int, team: i32)
    requires
        grid_wf(grid),
        0 <= col < 7,
        !column_full(grid, col),
        is_player(team as int),
    ensures
        grid_wf(drop_disc(grid, col, team)),
        drop_disc(grid, col, team)[col].len() == grid[col].len() + 1,
        team_at(drop_disc(grid, col, team), col, grid[col].len() as int) == team,
        forall|c: int, r: int|
            on_grid(c, r) && !(c == col && r == grid[col].len()) ==> team_at(
                drop_disc(grid, col, team),
                c,
                r,
            ) == team_at(grid, c, r),
{
    let after = drop_disc(grid, col, team);
    assert forall|c: int| 0 <= c < 7 implies (#[trigger] after[c]).len() <= 6 by {
        if c != col {
            assert(after[c] == grid[c]);
        }
    }
    assert forall|c: int, r: int| 0 <= c < 7 && 0 <= r < after[c].len() implies is_player(
        #[trigger] after[c][r] as int,
    ) by {
        if c != col {
            assert(after[c] == grid[c]);
        } else if r < grid[col].len() {
            assert(after[c][r] == grid[c][r]);
        }
    }
}

/// Colour presets for discs and widgets.
#[derive(Clone, Copy, PartialEq, Eq, PartialOrd, Ord, Debug, Hash)]
pub enum MyColor {
    White,
    Blue,
    Red,
    Green,
    Brown,
}

impl MyColor {
    /// The red, green, blue and alpha components of the colour.
    pub open spec fn rgba(self) -> (u8, u8, u8, u8) {
        match self {
            MyColor::White => (255u8, 255u8, 255u8, 255u8),
            MyColor::Blue => (0u8, 0u8, 255u8, 255u8),
            MyColor::Red => (255u8, 0u8, 0u8, 255u8),
            MyColor::Green => (0u8, 255u8, 0u8, 255u8),
            MyColor::Brown => (205u8, 133u8, 63u8, 255u8),
        }
    }

    /// The colour to draw with, as red, green, blue and alpha components.
    pub fn get_draw_color(self) -> (c: (u8, u8, u8, u8))
        ensures
            c == self.rgba(),
    {
        match self {
            MyColor::White => (255, 255, 255, 255),
            MyColor::Blue => (0, 0, 255, 255),
            MyColor::Red => (255, 0, 0, 255),
            MyColor::Green => (0, 255, 0, 255),
            MyColor::Brown => (205, 133, 63, 255),
        }
    }
}

/// A position on the board, or a step between positions: `x` counts
/// columns and `y` counts rows, row 0 being the bottom of a column.
#[derive(Clone, Copy, PartialEq, Eq, Debug)]
pub struct GridPosition {
    pub x: i32,
    pub y: i32,
}

impl GridPosition {
    /// The position in column `x` and row `y`.
    pub fn new(x: i32, y: i32) -> (p: Self)
        ensures
            p.x == x,
            p.y == y,
    {
        GridPosition { x, y }
    }
}

impl vstd::std_specs::convert::FromSpecImpl<(i32, i32)> for GridPosition {
    open spec fn obeys_from_spec() -> bool {
        true
    }

    open spec fn from_spec(pos: (i32, i32)) -> Self {
        GridPosition { x: pos.0, y: pos.1 }
    }
}

impl From<(i32, i32)> for GridPosition {
    /// The position in column `pos.0` and row `pos.1`.
    fn from(pos: (i32, i32)) -> (p: Self) {
        GridPosition { x: pos.0, y: pos.1 }
    }
}

/// One cell of the board: where it is drawn, whose disc it holds (0 for
/// none) and in which colour.
#[derive(Clone, Copy, PartialEq, Eq, Debug)]
pub struct Cell {
    position: GridPosition,
    team: i32,
    color: MyColor,
}

impl Cell {
    /// Where the cell is drawn.
    pub closed spec fn position(&self) -> GridPosition {
        self.position
    }

    /// The team whose disc the cell holds, 0 for none.
    pub closed spec fn team(&self) -> i32 {
        self.team
    }

    /// The colour of the cell's disc.
    pub closed spec fn color(&self) -> MyColor {
        self.color
    }

    /// An empty cell drawn at `pos`.
    pub fn new(pos: GridPosition) -> (cell: Self)
        ensures
            cell.position() == pos,
            cell.team() == 0,
            cell.color() == MyColor::White,
    {
        Cell { position: pos, team: 0, color: MyColor::White }
    }

    /// Where the cell is drawn.
    pub fn get_position(&self) -> (pos: GridPosition)
        ensures
            pos == self.position(),
    {
        self.position
    }

    /// The team whose disc the cell holds, 0 for none.
    pub fn get_team(&self) -> (team: i32)
        ensures
            team == self.team(),
    {
        self.team
    }

    /// The colour of the cell's disc.
    pub fn get_color(&self) -> (color: MyColor)
        ensures
            color == self.color(),
    {
        self.color
    }

    /// Puts a disc of `team` in `color` into the cell.
    pub fn fill(&mut self, team: i32, color: MyColor)
        ensures
            final(self).team() == team,
            final(self).color() == color,
            final(self).position() == old(self).position(),
    {
        self.team = team;
        self.color = color;
    }
}

/// One column of the board: six cells, of which the lowest `height` hold a
/// disc.
#[derive(Clone, Copy, PartialEq, Eq, Debug)]
pub struct Column {
    position: GridPosition,
    cells: [Cell; 6],
    height: usize,
}

impl View for Column {
    type V = Seq<i32>;

    /// The teams of the discs in the column, bottom disc first.
    closed spec fn view(&self) -> Seq<i32> {
        Seq::new(self.height as nat, |r: int| self.cells[r].team)
    }
}

impl Column {
    /// Where the column is drawn: the top-left corner of its highest cell.
    pub closed spec fn position(&self) -> GridPosition {
        self.position
    }

    /// The colours of the discs in the column, bottom disc first.
    pub closed spec fn colors(&self) -> Seq<MyColor> {
        Seq::new(self.height as nat, |r: int| self.cells[r].color)
    }

    /// The cells above the discs are empty and white, and every cell is
    /// drawn in its place under the column's position.
    pub closed spec fn cells_in_place(&self) -> bool {
        &&& self.height <= 6
        &&& forall|r: int|
            self.height <= r < 6 ==> (#[trigger] self.cells[r]).team == 0 && self.cells[r].color
                == MyColor::White
        &&& forall|r: int|
            0 <= r < 6 ==> (#[trigger] self.cells[r]).position.x == self.position.x
                && self.cells[r].position.y == self.position.y + BOARD_CELL_SIZE.1 * (5 - r)
    }

    /// The column's invariant: at most six discs, each of a player, and
    /// nothing but empty cells above them.
    pub open spec fn wf(&self) -> bool {
        &&& self.cells_in_place()
        &&& self@.len() <= 6
        &&& self@.len() == self.colors().len()
        &&& forall|r: int| 0 <= r < self@.len() ==> is_player(#[trigger] self@[r] as int)
    }

    /// An empty column drawn at `pos`.
    pub fn new(pos: GridPosition) -> (column: Self)
        requires
            pos.y + 5 * BOARD_CELL_SIZE.1 <= i32::MAX,
        ensures
            column.wf(),
            column@ == Seq::<i32>::empty(),
            column.position() == pos,
    {
        let step: i32 = BOARD_CELL_SIZE.1;
        Column {
            position: pos,
            cells: [
                Cell::new(GridPosition::new(pos.x, pos.y + step * 5)),
                Cell::new(GridPosition::new(pos.x, pos.y + step * 4)),
                Cell::new(GridPosition::new(pos.x, pos.y + step * 3)),
                Cell::new(GridPosition::new(pos.x, pos.y + step * 2)),
                Cell::new(GridPosition::new(pos.x, pos.y + step)),
                Cell::new(GridPosition::new(pos.x, pos.y)),
            ],
            height: 0,
        }
    }

    /// The number of discs in the column.
    pub fn get_height(&self) -> (height: usize)
        ensures
            height == self@.len(),
    {
        self.height
    }

    /// Whether the column can take no further disc.
    pub fn is_full(&self) -> (full: bool)
        ensures
            full == (self@.len() >= 6),
    {
        self.height >= 6
    }

    /// Drops a disc of `team`, drawn in `color`, onto the column.  A full
    /// column is left as it is and `false` is returned.
    pub fn insert(&mut self, team: i32, color: MyColor) -> (inserted: bool)
        requires
            old(self).wf(),
            is_player(team as int),
        ensures
            final(self).wf(),
            final(self).position() == old(self).position(),
            inserted == (old(self)@.len() < 6),
            inserted ==> final(self)@ == old(self)@.push(team) && final(self).colors() == old(
                self,
            ).colors().push(color),
            !inserted ==> *final(self) == *old(self),
    {
        if self.is_full() {
            false
        } else {
            let row = self.height;
            self.cells[row].fill(team, color);
            self.height += 1;
            proof {
                assert(self@ =~= old(self)@.push(team));
                assert(self.colors() =~= old(self).colors().push(color));
            }
            true
        }
    }

    /// The team whose disc lies in row `row`, 0 for an empty cell.
    pub fn cell_team(&self, row: usize) -> (team: i32)
        requires
            self.wf(),
            row < 6,
        ensures
            team == (if row < self@.len() {
                self@[row as int]
            } else {
                0
            }),
    {
        self.cells[row].team
    }

    /// Where the column is drawn: the top-left corner of its highest cell.
    pub fn get_position(&self) -> (pos: GridPosition)
        ensures
            pos == self.position(),
    {
        self.position
    }

    /// Where the cell of row `row` is drawn, by its top-left corner.  Rows
    /// go down the screen: row 5 lies at the column's position and row 0
    /// five cells below it.
    pub fn get_cell_position(&self, row: usize) -> (pos: GridPosition)
        requires
            self.wf(),
            row < 6,
        ensures
            pos.x == self.position().x,
            pos.y == self.position().y + BOARD_CELL_SIZE.1 * (5 - row),
    {
        self.cells[row].position
    }

    /// The colour of the disc in row `row`, white for an empty cell.
    pub fn get_cell_color(&self, row: usize) -> (color: MyColor)
        requires
            self.wf(),
            row < 6,
        ensures
            color == (if row < self.colors().len() {
                self.colors()[row as int]
            } else {
                MyColor::White
            }),
    {
        self.cells[row].color
    }

    /// Takes every disc out of the column.
    pub fn reset(&mut self)
        requires
            old(self).wf(),
        ensures
            final(self).wf(),
            final(self)@ == Seq::<i32>::empty(),
            final(self).position() == old(self).position(),
    {
        self.height = 0;
        let mut row: usize = 0;
        while row < 6
            invariant
                row <= 6,
                self.height == 0,
                self.position == old(self).position,
                forall|r: int| 0 <= r < row ==> (#[trigger] self.cells[r]).team == 0
                    && self.cells[r].color == MyColor::White,
                forall|r: int| 0 <= r < 6 ==> (#[trigger] self.cells[r]).position == old(
                    self,
                ).cells[r].position,
            decreases 6 - row,
        {
            self.cells[row].fill(0, MyColor::White);
            row += 1;
        }
        proof {
            assert(self@ =~= Seq::<i32>::empty());
            assert(self.colors() =~= Seq::<MyColor>::empty());
        }
    }
}

/// The board: seven columns side by side, column 0 on the left.
#[derive(Clone, Copy, PartialEq, Eq, Debug)]
pub struct Board {
    position: GridPosition,
    columns: [Column; 7],
}

impl View for Board {
    type V = Grid;

    /// The stack of discs of each column.
    closed spec fn view(&self) -> Grid {
        Seq::new(7, |c: int| self.columns[c]@)
    }
}

impl Board {
    /// Where the board is drawn: its top-left corner.
    pub closed spec fn position(&self) -> GridPosition {
        self.position
    }

    /// The colours of the discs, column by column, bottom disc first.
    pub closed spec fn colors(&self) -> Seq<Seq<MyColor>> {
        Seq::new(7, |c: int| self.columns[c].colors())
    }

    /// Every column keeps its own invariant and is drawn in its place
    /// inside the border.
    pub closed spec fn columns_in_place(&self) -> bool {
        forall|c: int|
            0 <= c < 7 ==> (#[trigger] self.columns[c]).wf() && self.columns[c].position.x
                == self.position.x + BOARD_BORDER_SIZE / 2 + BOARD_CELL_SIZE.1 * c
                && self.columns[c].position.y == self.position.y + BOARD_BORDER_SIZE / 2
    }

    /// The board's invariant: its grid is well formed, and so is what
    /// stands for it in memory.
    pub open spec fn wf(&self) -> bool {
        &&& self.columns_in_place()
        &&& grid_wf(self@)
        &&& self.colors().len() == 7
        &&& forall|c: int| 0 <= c < 7 ==> (#[trigger] self.colors()[c]).len() == self@[c].len()
    }

    /// An empty board drawn at `pos`.
    pub fn new(pos: GridPosition) -> (board: Self)
        requires
            pos.x + BOARD_BORDER_SIZE / 2 + 6 * BOARD_CELL_SIZE.1 <= i32::MAX,
            pos.y + BOARD_BORDER_SIZE / 2 + 5 * BOARD_CELL_SIZE.1 <= i32::MAX,
        ensures
            board.wf(),
            board@ == empty_grid(),
            board.position() == pos,
    {
        let left: i32 = pos.x + BOARD_BORDER_SIZE / 2;
        let top: i32 = pos.y + BOARD_BORDER_SIZE / 2;
        let step: i32 = BOARD_CELL_SIZE.1;
        let board = Board {
            position: pos,
            columns: [
                Column::new(GridPosition::new(left, top)),
                Column::new(GridPosition::new(left + step, top)),
                Column::new(GridPosition::new(left + step * 2, top)),
                Column::new(GridPosition::new(left + step * 3, top)),
                Column::new(GridPosition::new(left + step * 4, top)),
                Column::new(GridPosition::new(left + step * 5, top)),
                Column::new(GridPosition::new(left + step * 6, top)),
            ],
        };
        proof {
            assert(board@ =~= empty_grid());
            assert forall|c: int| 0 <= c < 7 implies (#[trigger] board.colors()[c]).len()
                == board@[c].len() by {
                assert(board.columns[c].wf());
            }
        }
        board
    }

    /// Whether `pos` names a cell of the board.
    pub fn on_board(&self, pos: GridPosition) -> (on: bool)
        ensures
            on == on_grid(pos.x as int, pos.y as int),
    {
        pos.x >= 0 && pos.x < BOARD_SIZE.1 && pos.y >= 0 && pos.y < BOARD_SIZE.0
    }

    /// The number of discs in column `col`.
    pub fn get_column_height(&self, col: usize) -> (height: usize)
        requires
            col < 7,
        ensures
            height == self@[col as int].len(),
    {
        self.columns[col].get_height()
    }

    /// Whether column `col` can take no further disc.
    pub fn is_column_full(&self, col: usize) -> (full: bool)
        requires
            col < 7,
        ensures
            full == column_full(self@, col as int),
    {
        self.columns[col].is_full()
    }

    /// The team whose disc lies at `pos`: 0 for an empty cell, -1 for a
    /// position outside the board.
    pub fn get_cell_team(&self, pos: GridPosition) -> (team: i32)
        requires
            self.wf(),
        ensures
            team == team_at(self@, pos.x as int, pos.y as int),
    {
        if self.on_board(pos) {
            let col: usize = pos.x as usize;
            let row: usize = pos.y as usize;
            proof {
                assert(self.columns[col as int].wf());
                assert(self@[col as int] == self.columns[col as int]@);
            }
            self.columns[col].cell_team(row)
        } else {
            -1
        }
    }

    /// Drops a disc of `team`, drawn in `color`, into column `position`.
    /// A full column takes none: the board stays as it is and `false` is
    /// returned.
    pub fn insert(&mut self, position: i32, team: i32, color: MyColor) -> (inserted: bool)
        requires
            old(self).wf(),
            0 <= position < 7,
            is_player(team as int),
        ensures
            final(self).wf(),
            final(self).position() == old(self).position(),
            inserted == !column_full(old(self)@, position as int),
            inserted ==> final(self)@ == drop_disc(old(self)@, position as int, team),
            inserted ==> final(self).colors() == old(self).colors().update(
                position as int,
                old(self).colors()[position as int].push(color),
            ),
            !inserted ==> *final(self) == *old(self),
    {
        let col: usize = position as usize;
        proof {
            assert(self.columns[col as int].wf());
            assert(self@[col as int] == self.columns[col as int]@);
        }
        let inserted = self.columns[col].insert(team, color);
        proof {
            if inserted {
                assert(self@ =~= drop_disc(old(self)@, position as int, team));
                assert(self.colors() =~= old(self).colors().update(
                    position as int,
                    old(self).colors()[position as int].push(color),
                ));
                lemma_drop_disc(old(self)@, position as int, team);
                assert forall|c: int| 0 <= c < 7 implies (#[trigger] self.colors()[c]).len()
                    == self@[c].len() by {
                    assert(self.columns[c].wf());
                }
            } else {
                assert(self.columns =~= old(self).columns);
            }
        }
        inserted
    }

    /// Where the board is drawn: its top-left corner.
    pub fn get_position(&self) -> (pos: GridPosition)
        ensures
            pos == self.position(),
    {
        self.position
    }

    /// Where column `col` is drawn, by the top-left corner of its highest
    /// cell: half a border in from the board's corner, and a cell's width
    /// further right for each column before it.
    pub fn get_column_position(&self, col: usize) -> (pos: GridPosition)
        requires
            self.wf(),
            col < 7,
        ensures
            pos.x == self.position().x + BOARD_BORDER_SIZE / 2 + BOARD_CELL_SIZE.1 * col,
            pos.y == self.position().y + BOARD_BORDER_SIZE / 2,
    {
        proof {
            assert(self.columns[col as int].wf());
        }
        self.columns[col].get_position()
    }

    /// Where the cell in column `col` and row `row` is drawn, by its
    /// top-left corner.  Row 0 is drawn lowest.
    pub fn get_cell_position(&self, col: usize, row: usize) -> (pos: GridPosition)
        requires
            self.wf(),
            col < 7,
            row < 6,
        ensures
            pos.x == self.position().x + BOARD_BORDER_SIZE / 2 + BOARD_CELL_SIZE.1 * col,
            pos.y == self.position().y + BOARD_BORDER_SIZE / 2 + BOARD_CELL_SIZE.1 * (5 - row),
    {
        proof {
            assert(self.columns[col as int].wf());
        }
        self.columns[col].get_cell_position(row)
    }

    /// The colour of the disc in column `col` and row `row`, white for an
    /// empty cell.
    pub fn get_cell_color(&self, col: usize, row: usize) -> (color: MyColor)
        requires
            self.wf(),
            col < 7,
            row < 6,
        ensures
            color == (if row < self.colors()[col as int].len() {
                self.colors()[col as int][row as int]
            } else {
                MyColor::White
            }),
    {
        proof {
            assert(self.columns[col as int].wf());
        }
        self.columns[col].get_cell_color(row)
    }

    /// Whether no column can take a further disc.
    pub fn is_full(&self) -> (full: bool)
        ensures
            full == grid_full(self@),
    {
        let mut col: usize = 0;
        while col < 7
            invariant
                col <= 7,
                forall|c: int| 0 <= c < col ==> column_full(self@, c),
            decreases 7 - col,
        {
            if !self.is_column_full(col) {
                return false;
            }
            col += 1;
        }
        true
    }

    /// Takes every disc off the board.
    pub fn reset(&mut self)
        requires
            old(self).wf(),
        ensures
            final(self).wf(),
            final(self)@ == empty_grid(),
            final(self).position() == old(self).position(),
    {
        let mut col: usize = 0;
        while col < 7
            invariant
                col <= 7,
                self.position == old(self).position,
                forall|c: int| 0 <= c < 7 ==> (#[trigger] self.columns[c]).wf(),
                forall|c: int| 0 <= c < 7 ==> (#[trigger] self.columns[c]).position == old(
                    self,
                ).columns[c].position,
                forall|c: int| 0 <= c < col ==> (#[trigger] self.columns[c])@ == Seq::<i32>::empty(),
            decreases 7 - col,
        {
            self.columns[col].reset();
            col += 1;
        }
        proof {
            assert(self@ =~= empty_grid());
            assert forall|c: int| 0 <= c < 7 implies (#[trigger] self.colors()[c]).len()
                == self@[c].len() by {
                assert(self.columns[c].wf());
            }
        }
    }
}

} // verus!
