//! The classified maze: a detected grid together with per-cell types and
//! icon marks, and its application onto the simulation lattice.

use vstd::prelude::*;

use crate::field::{is_interior, Cell, Subway};
use crate::imga::{flex_rows_spec, FlexGrid, Mark};

verus! {

/// Encapsulates a detected maze for passing around.
pub struct Maze {
    grid: FlexGrid,
    cells: Vec<Cell>,
    marks: Vec<Mark>,
}

/// The field cell written for one maze cell: entrance and treasury marks
/// override the wall/passage classification.
pub open spec fn maze_cell_of(marks: Seq<Mark>, cells: Seq<Cell>, gi: int) -> Cell {
    if marks[gi] == Mark::Entrance {
        Cell::Entrance
    } else if marks[gi] == Mark::Treasury {
        Cell::Treasury
    } else {
        cells[gi]
    }
}

/// Row offset that centers `n` maze rows inside the 20-cell lattice.
pub open spec fn center_offset(n: int) -> int {
    (20 - n) / 2
}

/// What the lattice holds after a maze is applied: the maze window is
/// centered on the field, every cell outside it (and every border cell)
/// is a wall.
pub open spec fn overlay_cell(m: Maze, i: int) -> Cell {
    let nr = flex_rows_spec(m.grid_view().rows_view());
    let nc = flex_rows_spec(m.grid_view().cols_view());
    let ro = center_offset(nr);
    let co = center_offset(nc);
    let r = i / 20;
    let c = i % 20;
    if ro <= r < ro + nr && co <= c < co + nc && is_interior(i) {
        maze_cell_of(m.marks_view(), m.cells_view(), (r - ro) * nc + (c - co))
    } else {
        Cell::Wall
    }
}

/// The mark reported for a lattice index: the mark of the maze cell under
/// it, or no mark outside the centered maze window.
pub open spec fn mark_at_spec(m: Maze, idx: int) -> Mark {
    let nr = flex_rows_spec(m.grid_view().rows_view());
    let nc = flex_rows_spec(m.grid_view().cols_view());
    let ro = center_offset(nr);
    let co = center_offset(nc);
    let row = idx / 20;
    let col = idx % 20;
    if row < ro || col < co || row >= nr + ro || col >= nc + co {
        Mark::Empty
    } else {
        let gi = (row - ro) * nc + (col - co);
        if gi < m.marks_view().len() {
            m.marks_view()[gi]
        } else {
            Mark::Empty
        }
    }
}

impl Maze {
    /// The detected grid.
    pub closed spec fn grid_view(self) -> FlexGrid {
        self.grid
    }

    /// The wall/passage classification, row-major over the grid.
    pub closed spec fn cells_view(self) -> Seq<Cell> {
        self.cells@
    }

    /// The icon marks, row-major over the grid.
    pub closed spec fn marks_view(self) -> Seq<Mark> {
        self.marks@
    }

    /// A maze is well formed when its grid fits the lattice and it holds
    /// one cell and one mark per grid cell.
    pub open spec fn wf(self) -> bool {
        &&& self.grid_view().wf()
        &&& self.cells_view().len() == flex_rows_spec(self.grid_view().rows_view())
            * flex_rows_spec(self.grid_view().cols_view())
        &&& self.marks_view().len() == self.cells_view().len()
    }

    /// Build a maze from its parts.
    pub fn from_parts(grid: FlexGrid, cells: Vec<Cell>, marks: Vec<Mark>) -> (r: Self)
        ensures
            r.grid_view() == grid,
            r.cells_view() == cells@,
            r.marks_view() == marks@,
    {
        Maze { grid, cells, marks }
    }

    /// Tell if the structure has valid data.
    pub fn is_valid(&self) -> (r: bool)
        requires
            self.grid_view().wf(),
        ensures
            r == (self.grid_view().cellsize > 0 && flex_rows_spec(self.grid_view().rows_view())
                * flex_rows_spec(self.grid_view().cols_view()) > 0),
    {
        self.grid.cellsize > 0 && self.grid.num_cells() > 0
    }

    /// Get a mark at a specified lattice location (relative to the larger
    /// field, inside which the maze is centered).
    pub fn get_mark(&self, idx: usize) -> (r: Mark)
        requires
            self.wf(),
            self.grid_view().rows_view().len() >= 1,
            self.grid_view().cols_view().len() >= 1,
        ensures
            r == mark_at_spec(*self, idx as int),
    {
        let nr = self.grid.num_rows();
        let nc = self.grid.num_cols();
        let subway_row_offset = (20 - nr) / 2;
        let subway_col_offset = (20 - nc) / 2;
        let row = idx / 20;
        let col = idx % 20;
        if row < subway_row_offset || col < subway_col_offset || row >= nr + subway_row_offset
            || col >= nc + subway_col_offset {
            return Mark::Empty;
        }
        proof {
            assert((row - subway_row_offset) * (nc as int) + (col - subway_col_offset) < 441)
                by (nonlinear_arith)
                requires
                    subway_row_offset <= row < nr + subway_row_offset,
                    subway_col_offset <= col < nc + subway_col_offset,
                    nr <= 20,
                    nc <= 20,
            ;
        }
        let gi = (row - subway_row_offset) * nc + (col - subway_col_offset);
        if gi < self.marks.len() {
            self.marks[gi]
        } else {
            Mark::Empty
        }
    }

    /// Apply the detected maze to the subway field: the field is first
    /// reset to all walls, then the maze cells are written into the
    /// centered window, entrance and treasury marks becoming entrance and
    /// treasury cells.
    ///
    /// Every cell of the field outside the maze window, the border
    /// included, is a wall afterwards, and all visit and mover mass is
    /// cleared.
    #[verifier::loop_isolation(false)]
    pub fn apply_to_subway(&self, subway: &mut Subway)
        requires
            old(subway).wf(),
            self.wf(),
            1 <= self.grid_view().rows_view().len() <= 21,
            1 <= self.grid_view().cols_view().len() <= 21,
        ensures
            final(subway).wf(),
            forall|i: int| 0 <= i < 400 ==> final(subway).cell_at(i) == overlay_cell(*self, i),
            forall|i: int| 0 <= i < 400 ==> final(subway).visited_at(i) == 0,
            forall|d: int, i: int|
                0 <= d < 4 && 0 <= i < 400 ==> final(subway).mover_at(d, i) == 0,
            final(subway).jumpy_mode() == old(subway).jumpy_mode(),
    {
        let nr = self.grid.num_rows();
        let nc = self.grid.num_cols();
        let subway_row_offset = (20 - nr) / 2;
        let subway_col_offset = (20 - nc) / 2;
        let ghost ro = subway_row_offset as int;
        let ghost co = subway_col_offset as int;

        subway.reset();
        let mut row: usize = 0;
        while row < nr
            invariant
                row <= nr,
                subway.wf(),
                subway.jumpy_mode() == old(subway).jumpy_mode(),
                forall|i: int| 0 <= i < 400 ==> subway.visited_at(i) == 0,
                forall|d: int, i: int| 0 <= d < 4 && 0 <= i < 400 ==> subway.mover_at(d, i) == 0,
                forall|i: int|
                    0 <= i < 400 ==> subway.cell_at(i) == overlay_upto(
                        *self,
                        i,
                        row as int * nc as int,
                    ),
            decreases nr - row,
        {
            let mut col: usize = 0;
            while col < nc
                invariant
                    col <= nc,
                    row < nr,
                    subway.wf(),
                    subway.jumpy_mode() == old(subway).jumpy_mode(),
                    forall|i: int| 0 <= i < 400 ==> subway.visited_at(i) == 0,
                    forall|d: int, i: int|
                        0 <= d < 4 && 0 <= i < 400 ==> subway.mover_at(d, i) == 0,
                    forall|i: int|
                        0 <= i < 400 ==> subway.cell_at(i) == overlay_upto(
                            *self,
                            i,
                            row as int * nc as int + col as int,
                        ),
                decreases nc - col,
            {
                proof {
                    assert((row as int) * (nc as int) + (col as int) < nr as int * nc as int
                        <= 400) by (nonlinear_arith)
                        requires
                            row < nr,
                            col < nc,
                            nr <= 20,
                            nc <= 20,
                    ;
                }
                let grid_idx = row * nc + col;
                proof {
                    assert(grid_idx < self.marks_view().len());
                    assert(row + subway_row_offset < 20 && col + subway_col_offset < 20);
                }
                let target = subway.to_idx(row + subway_row_offset, col + subway_col_offset);
                let mark = self.marks[grid_idx];
                let cell_value = if mark == Mark::Entrance {
                    Cell::Entrance
                } else if mark == Mark::Treasury {
                    Cell::Treasury
                } else {
                    self.cells[grid_idx]
                };
                subway.set_field(target, cell_value);
                proof {
                    let t = target as int;
                    assert(t == (row + ro) * 20 + (col + co));
                    assert(t / 20 == row + ro && t % 20 == col + co) by (nonlinear_arith)
                        requires
                            t == (row + ro) * 20 + (col + co),
                            0 <= col + co < 20,
                            0 <= row + ro < 20,
                    ;
                    assert(cell_value == maze_cell_of(
                        self.marks_view(),
                        self.cells_view(),
                        grid_idx as int,
                    ));
                    assert forall|i: int| 0 <= i < 400 implies subway.cell_at(i) == overlay_upto(
                        *self,
                        i,
                        row as int * nc as int + col as int + 1,
                    ) by {
                        if i != t {
                            assert(i / 20 != row + ro || i % 20 != col + co);
                            if in_window(*self, i) {
                                assert(pair_index(*self, i) != row as int * nc as int + col as int)
                                    by (nonlinear_arith)
                                    requires
                                        i / 20 != row + ro || i % 20 != col + co,
                                        pair_index(*self, i) == (i / 20 - ro) * (nc as int) + (i
                                            % 20 - co),
                                        ro <= i / 20 < ro + nr,
                                        co <= i % 20 < co + nc,
                                        0 <= col < nc,
                                        0 <= row < nr,
                                ;
                            }
                        }
                    }
                }
                col = col + 1;
            }
            col = 0;
            proof {
                assert(row as int * nc as int + nc as int == (row as int + 1) * nc as int)
                    by (nonlinear_arith);
            }
            row = row + 1;
        }
        proof {
            assert forall|i: int| 0 <= i < 400 implies subway.cell_at(i) == overlay_cell(
                *self,
                i,
            ) by {
                if in_window(*self, i) {
                    assert(0 <= pair_index(*self, i) < nr as int * nc as int) by (nonlinear_arith)
                        requires
                            in_window(*self, i),
                            ro == center_offset(nr as int),
                            co == center_offset(nc as int),
                            nr == flex_rows_spec(self.grid_view().rows_view()),
                            nc == flex_rows_spec(self.grid_view().cols_view()),
                            pair_index(*self, i) == (i / 20 - ro) * (nc as int) + (i % 20 - co),
                            0 <= i < 400,
                    ;
                }
            }
        }
    }
}

/// Whether the square of maze cell `(r, c)` covers the frame pixel at
/// row `i`, column `j`.
pub open spec fn cell_rect_covers(grid: FlexGrid, r: int, c: int, i: int, j: int) -> bool {
    let cs = grid.cellsize as int;
    &&& grid.rows_view()[r] <= i < grid.rows_view()[r] + cs
    &&& grid.cols_view()[c] <= j < grid.cols_view()[c] + cs
}

/// Whether some wall cell of the maze covers the frame pixel at row `i`,
/// column `j`.
pub open spec fn wall_covered(m: Maze, i: int, j: int) -> bool {
    let nr = flex_rows_spec(m.grid_view().rows_view());
    let nc = flex_rows_spec(m.grid_view().cols_view());
    exists|r: int, c: int|
        0 <= r < nr && 0 <= c < nc && #[trigger] cell_rect_covers(m.grid_view(), r, c, i, j)
            && m.cells_view()[r * nc + c] == Cell::Wall
}

impl Maze {
    /// Whether some wall cell of the maze covers the given frame pixel.
    #[verifier::loop_isolation(false)]
    pub fn covers_wall(&self, i: usize, j: usize) -> (b: bool)
        requires
            self.wf(),
        ensures
            b == wall_covered(*self, i as int, j as int),
    {
        let nr = if self.grid.rows.len() == 0 {
            0
        } else {
            self.grid.rows.len() - 1
        };
        let nc = if self.grid.cols.len() == 0 {
            0
        } else {
            self.grid.cols.len() - 1
        };
        let cs = self.grid.cellsize;
        let mut found = false;
        let mut r: usize = 0;
        while r < nr
            invariant
                r <= nr,
                nr == flex_rows_spec(self.grid_view().rows_view()),
                nc == flex_rows_spec(self.grid_view().cols_view()),
                found == (exists|a: int, c: int|
                    0 <= a < r && 0 <= c < nc && #[trigger] cell_rect_covers(
                        self.grid_view(),
                        a,
                        c,
                        i as int,
                        j as int,
                    ) && self.cells_view()[a * nc + c] == Cell::Wall),
            decreases nr - r,
        {
            let mut c: usize = 0;
            while c < nc
                invariant
                    c <= nc,
                    r < nr,
                    nr == flex_rows_spec(self.grid_view().rows_view()),
                    nc == flex_rows_spec(self.grid_view().cols_view()),
                    found == ((exists|a: int, cc: int|
                        0 <= a < r && 0 <= cc < nc && #[trigger] cell_rect_covers(
                            self.grid_view(),
                            a,
                            cc,
                            i as int,
                            j as int,
                        ) && self.cells_view()[a * nc + cc] == Cell::Wall) || (exists|cc: int|
                        0 <= cc < c && #[trigger] cell_rect_covers(
                            self.grid_view(),
                            r as int,
                            cc,
                            i as int,
                            j as int,
                        ) && self.cells_view()[r as int * nc + cc] == Cell::Wall)),
                decreases nc - c,
            {
                let rv = self.grid.rows[r];
                let cv = self.grid.cols[c];
                let covers = i >= rv && i - rv < cs && j >= cv && j - cv < cs;
                proof {
                    assert(covers == cell_rect_covers(
                        self.grid_view(),
                        r as int,
                        c as int,
                        i as int,
                        j as int,
                    ));
                    assert(r as int * nc as int + c < nr as int * nc as int <= 400)
                        by (nonlinear_arith)
                        requires
                            0 <= (r as int) < nr as int,
                            0 <= (c as int) < nc as int,
                            nr <= 20,
                            nc <= 20,
                    ;
                }
                if covers {
                    let gi = r * nc + c;
                    if self.cells[gi] == Cell::Wall {
                        found = true;
                    }
                }
                c = c + 1;
            }
            r = r + 1;
        }
        found
    }
}

/// Whether lattice index `i` falls inside the centered maze window.
pub open spec fn in_window(m: Maze, i: int) -> bool {
    let nr = flex_rows_spec(m.grid_view().rows_view());
    let nc = flex_rows_spec(m.grid_view().cols_view());
    let ro = center_offset(nr);
    let co = center_offset(nc);
    ro <= i / 20 < ro + nr && co <= i % 20 < co + nc
}

/// Row-major position of lattice index `i` inside the maze window.
pub open spec fn pair_index(m: Maze, i: int) -> int {
    let nc = flex_rows_spec(m.grid_view().cols_view());
    let ro = center_offset(flex_rows_spec(m.grid_view().rows_view()));
    let co = center_offset(nc);
    (i / 20 - ro) * nc + (i % 20 - co)
}

/// What the lattice holds mid-application, after the first `done` maze
/// cells (in row-major order) have been written.
pub open spec fn overlay_upto(m: Maze, i: int, done: int) -> Cell {
    if in_window(m, i) && pair_index(m, i) < done && is_interior(i) {
        maze_cell_of(m.marks_view(), m.cells_view(), pair_index(m, i))
    } else {
        Cell::Wall
    }
}

} // verus!
