//! The simulation lattice: a fixed 20x20 field of cells, per-cell visit
//! mass and per-(direction, cell) mover mass, advanced one tick at a time.
//!
//! Probabilities are held as integer numerators over the fixed denominator
//! [`SCALE`]: a mover weight of `SCALE` stands for probability 1.

use vstd::prelude::*;

verus! {

/// Cells per side of the square field.
pub const SIZE: usize = 20;

/// Number of cells of the field.
pub const FLAT_SIZE: usize = 400;

/// Denominator of all probability values: `SCALE` stands for 1.0.
pub const SCALE: u64 = 1_000_000_000;

/// What a cell of the field is.
#[derive(Copy, Clone, PartialEq, Eq, Structural, Debug)]
pub enum Cell {
    Wall,
    Pass,
    Entrance,
    Treasury,
    Subtreasury,
    Boss,
}

/// One of the four cardinal directions of movement.
#[derive(Copy, Clone, PartialEq, Eq, Structural, Debug)]
pub enum Direction {
    North,
    East,
    South,
    West,
}

/// Numeric index of a direction.
pub open spec fn dir_index_spec(d: Direction) -> int {
    match d {
        Direction::North => 0,
        Direction::East => 1,
        Direction::South => 2,
        Direction::West => 3,
    }
}

impl Direction {
    /// The opposite cardinal direction.
    pub fn opposite(self) -> (r: Self)
        ensures
            dir_index_spec(r) == (dir_index_spec(self) + 2) % 4,
    {
        match self {
            Direction::North => Direction::South,
            Direction::East => Direction::West,
            Direction::South => Direction::North,
            Direction::West => Direction::East,
        }
    }

    /// The index of the direction, `0` north through `3` west.
    pub fn index(self) -> (r: usize)
        ensures
            r as int == dir_index_spec(self),
    {
        match self {
            Direction::North => 0,
            Direction::East => 1,
            Direction::South => 2,
            Direction::West => 3,
        }
    }

    /// Direction of the given index, inverse of [`Direction::index`].
    pub fn from_index(i: usize) -> (r: Self)
        ensures
            dir_index_spec(r) == i as int % 4,
    {
        match i % 4 {
            1 => Direction::East,
            2 => Direction::South,
            3 => Direction::West,
            _ => Direction::North,
        }
    }

    /// Turn by another direction: the indices add modulo four.
    pub fn plus(self, rhs: Self) -> (r: Self)
        ensures
            dir_index_spec(r) == (dir_index_spec(self) + dir_index_spec(rhs)) % 4,
    {
        Self::from_index(self.index() + rhs.index())
    }
}

/// True of the indices on the outer rim of the field.
pub open spec fn is_border(i: int) -> bool {
    i % 20 == 0 || i % 20 == 19 || i / 20 == 0 || i / 20 == 19
}

/// True of the indices strictly inside the rim.
pub open spec fn is_interior(i: int) -> bool {
    0 <= i < 400 && !is_border(i)
}

/// Game field with the accumulated state of the flow simulation.
pub struct Subway {
    /// Cell types, row-major, `FLAT_SIZE` entries.
    field: Vec<Cell>,
    /// Accumulated visit mass per cell, scaled by `SCALE`.
    visited: Vec<u64>,
    /// Mover mass per (direction, cell), flattened as `d * FLAT_SIZE + cell`.
    movers: Vec<u64>,
    /// Jump moves enabled.
    jumpy: bool,
}

impl Subway {
    /// The cell types of the field, as a sequence of 400 entries.
    pub closed spec fn cells_view(self) -> Seq<Cell> {
        self.field@
    }

    /// The visit masses, as a sequence of 400 entries.
    pub closed spec fn visited_view(self) -> Seq<u64> {
        self.visited@
    }

    /// The mover masses, as a flat sequence of 1600 entries,
    /// `d * 400 + cell`.
    pub closed spec fn movers_view(self) -> Seq<u64> {
        self.movers@
    }

    /// Type of the cell at index `i`.
    pub open spec fn cell_at(self, i: int) -> Cell {
        self.cells_view()[i]
    }

    /// Accumulated visit mass of cell `i`, scaled by `SCALE`.
    pub open spec fn visited_at(self, i: int) -> u64 {
        self.visited_view()[i]
    }

    /// Mover mass heading in direction `d` into cell `i`, scaled by `SCALE`.
    pub open spec fn mover_at(self, d: int, i: int) -> u64 {
        self.movers_view()[d * 400 + i]
    }

    /// Whether jump moves are enabled.
    pub closed spec fn jumpy_mode(self) -> bool {
        self.jumpy
    }

    /// Well-formedness: the buffers have their fixed sizes and the border
    /// cells of the field are walls.
    pub open spec fn wf(self) -> bool {
        &&& self.cells_view().len() == 400
        &&& self.visited_view().len() == 400
        &&& self.movers_view().len() == 1600
        &&& forall|i: int| 0 <= i < 400 && is_border(i) ==> self.cells_view()[i] == Cell::Wall
    }

    /// Border cells of a well-formed field are always walls.
    ///
    /// Every operation of [`Subway`] keeps `wf`, so this holds at all times.
    pub proof fn lemma_border_is_wall(self, i: int)
        requires
            self.wf(),
            0 <= i < 400,
            is_border(i),
        ensures
            self.cell_at(i) == Cell::Wall,
    {
    }

    /// A fresh field: all walls, no visits, no movers.
    pub fn new() -> (r: Self)
        ensures
            r.wf(),
            forall|i: int| 0 <= i < 400 ==> r.cell_at(i) == Cell::Wall,
            forall|i: int| 0 <= i < 400 ==> r.visited_at(i) == 0,
            forall|d: int, i: int| 0 <= d < 4 && 0 <= i < 400 ==> r.mover_at(d, i) == 0,
            !r.jumpy_mode(),
    {
        Subway {
            field: filled_cells(400, Cell::Wall),
            visited: filled_u64(400, 0),
            movers: filled_u64(1600, 0),
            jumpy: false,
        }
    }

    /// Linear index of the cell at `row`, `col`.
    pub fn to_idx(&self, row: usize, col: usize) -> (r: usize)
        requires
            row < 20,
            col < 20,
        ensures
            r == row * 20 + col,
    {
        row * SIZE + col
    }

    /// Row and column of the cell at linear index `idx`, inverse of
    /// [`Subway::to_idx`].
    pub fn from_idx(&self, idx: usize) -> (r: (usize, usize))
        ensures
            r.0 == idx as int / 20,
            r.1 == idx as int % 20,
    {
        (idx / SIZE, idx % SIZE)
    }

    /// Composing `from_idx` with `to_idx` gives the index back, for every
    /// index of the field.
    pub proof fn lemma_idx_round_trip(i: int)
        requires
            0 <= i < 400,
        ensures
            (i / 20) * 20 + i % 20 == i,
    {
    }

    /// Set the type of a cell. Writes outside the interior of the field are
    /// ignored, so the border stays all walls.
    pub fn set_field(&mut self, idx: usize, cell: Cell)
        requires
            old(self).wf(),
        ensures
            final(self).wf(),
            is_interior(idx as int) ==> final(self).cell_at(idx as int) == cell,
            forall|i: int|
                0 <= i < 400 && i != idx ==> final(self).cell_at(i) == old(self).cell_at(i),
            !is_interior(idx as int) ==> forall|i: int|
                0 <= i < 400 ==> final(self).cell_at(i) == old(self).cell_at(i),
            forall|i: int| 0 <= i < 400 ==> final(self).visited_at(i) == old(self).visited_at(i),
            forall|d: int, i: int|
                0 <= d < 4 && 0 <= i < 400 ==> final(self).mover_at(d, i) == old(self).mover_at(
                    d,
                    i,
                ),
            final(self).jumpy_mode() == old(self).jumpy_mode(),
    {
        let x = idx % SIZE;
        let y = idx / SIZE;
        if 1 <= x && x <= SIZE - 2 && 1 <= y && y <= SIZE - 2 {
            assert(idx < 400) by (nonlinear_arith)
                requires
                    x == idx % 20,
                    y == idx / 20,
                    y <= 18,
            ;
            self.field.set(idx, cell);
        }
    }

    /// Type of the cell at `idx`.
    pub fn get_field(&self, idx: usize) -> (r: Cell)
        requires
            self.wf(),
            idx < 400,
        ensures
            r == self.cell_at(idx as int),
    {
        self.field[idx]
    }

    /// Accumulated visit mass of the cell at `idx`, scaled by `SCALE`.
    pub fn get_visited_probability(&self, idx: usize) -> (r: u64)
        requires
            self.wf(),
            idx < 400,
        ensures
            r == self.visited_at(idx as int),
    {
        self.visited[idx]
    }

    /// Mover mass heading in `dir` into the cell at `idx`, scaled by
    /// `SCALE`.
    pub fn get_mover(&self, dir: Direction, idx: usize) -> (r: u64)
        requires
            self.wf(),
            idx < 400,
        ensures
            r == self.mover_at(dir_index_spec(dir), idx as int),
    {
        self.movers[dir.index() * 400 + idx]
    }

    /// Reset the field to its initial state: all walls, nothing visited.
    pub fn reset(&mut self)
        ensures
            final(self).wf(),
            forall|i: int| 0 <= i < 400 ==> final(self).cell_at(i) == Cell::Wall,
            forall|i: int| 0 <= i < 400 ==> final(self).visited_at(i) == 0,
            forall|d: int, i: int| 0 <= d < 4 && 0 <= i < 400 ==> final(self).mover_at(d, i) == 0,
            final(self).jumpy_mode() == old(self).jumpy_mode(),
    {
        self.field = filled_cells(400, Cell::Wall);
        self.visited = filled_u64(400, 0);
        self.movers = filled_u64(1600, 0);
    }
}

impl Default for Subway {
    /// Same as [`Subway::new`].
    fn default() -> (r: Self)
        ensures
            r.wf(),
            forall|i: int| 0 <= i < 400 ==> r.cell_at(i) == Cell::Wall,
            forall|i: int| 0 <= i < 400 ==> r.visited_at(i) == 0,
            forall|d: int, i: int| 0 <= d < 4 && 0 <= i < 400 ==> r.mover_at(d, i) == 0,
            !r.jumpy_mode(),
    {
        Self::new()
    }
}

/// The product `a * b / SCALE`, the fixed-point multiplication of two
/// scaled values, computed in 128 bits so it cannot overflow.
pub fn scale_mul(a: u64, b: u64) -> (r: u64)
    requires
        b <= SCALE,
    ensures
        r as int == a as int * b as int / SCALE as int,
        r <= a,
{
    proof {
        assert(a as int * b as int <= a as int * SCALE as int) by (nonlinear_arith)
            requires
                b <= SCALE,
                0 <= a,
        ;
        assert(a as int * SCALE as int / SCALE as int == a as int) by (nonlinear_arith);
        assert(a as int * b as int / SCALE as int <= a as int * SCALE as int / SCALE as int)
            by (nonlinear_arith)
            requires
                a as int * b as int <= a as int * SCALE as int,
        ;
    }
    let p: u128 = a as u128 * b as u128;
    let q: u128 = p / (SCALE as u128);
    q as u64
}

/// Probability numerator for the preferred branch at a plain fork (0.85).
pub const P_FORWARD: u64 = 850_000_000;

/// Probability numerator for the secondary branch at a plain fork (0.15).
pub const P_RIGHT: u64 = 150_000_000;

/// Probability numerator for turning at a corner (0.8).
pub const P_TURN: u64 = 800_000_000;

/// Probability numerator for reversing at a corner (0.2).
pub const P_BACK: u64 = 200_000_000;

/// Probability numerator of a jump move when jump mode is on (0.2).
pub const JUMP_PROBABILITY: u64 = 200_000_000;

/// Direction preference over (forward, right, backward, left), given which
/// of the four relative neighbors are walls.
pub open spec fn mover_probability_spec(w0: bool, w1: bool, w2: bool, w3: bool) -> Seq<u64> {
    if w0 && w1 && w2 && w3 {
        seq![0u64, 0u64, 0u64, 0u64]
    } else if w0 && w1 && w2 && !w3 {
        seq![0u64, 0u64, 0u64, SCALE]
    } else if w0 && w1 && !w2 && w3 {
        seq![0u64, 0u64, SCALE, 0u64]
    } else if w0 && !w1 && w2 && w3 {
        seq![0u64, SCALE, 0u64, 0u64]
    } else if !w0 && w1 && w2 && w3 {
        seq![SCALE, 0u64, 0u64, 0u64]
    } else if w0 && w1 && !w3 {
        seq![0u64, 0u64, 0u64, SCALE]
    } else if w0 && !w1 && w3 {
        seq![0u64, P_TURN, P_BACK, 0u64]
    } else if w0 && !w1 && !w3 {
        seq![0u64, P_TURN, 0u64, P_BACK]
    } else if !w0 && w1 {
        seq![SCALE, 0u64, 0u64, 0u64]
    } else if !w0 && !w1 && w3 {
        seq![P_FORWARD, P_RIGHT, 0u64, 0u64]
    } else if !w0 && !w1 && !w2 && !w3 {
        seq![P_FORWARD, P_RIGHT, 0u64, 0u64]
    } else {
        seq![0u64, 0u64, 0u64, 0u64]
    }
}

/// Mover directions when looking from the direction of travel.
///
/// `walls` holds, for the forward, right, backward and left neighbor in
/// turn, whether that neighbor is a wall; the result gives the movement
/// probability toward each, scaled by [`SCALE`].
pub fn mover_probability(walls: [bool; 4]) -> (r: Vec<u64>)
    ensures
        r@ == mover_probability_spec(walls[0], walls[1], walls[2], walls[3]),
{
    let w0 = walls[0];
    let w1 = walls[1];
    let w2 = walls[2];
    let w3 = walls[3];
    let r: Vec<u64> = if w0 && w1 && w2 && w3 {
        vec![0u64, 0u64, 0u64, 0u64]
    } else if w0 && w1 && w2 && !w3 {
        vec![0u64, 0u64, 0u64, SCALE]
    } else if w0 && w1 && !w2 && w3 {
        vec![0u64, 0u64, SCALE, 0u64]
    } else if w0 && !w1 && w2 && w3 {
        vec![0u64, SCALE, 0u64, 0u64]
    } else if !w0 && w1 && w2 && w3 {
        vec![SCALE, 0u64, 0u64, 0u64]
    } else if w0 && w1 && !w3 {
        vec![0u64, 0u64, 0u64, SCALE]
    } else if w0 && !w1 && w3 {
        vec![0u64, P_TURN, P_BACK, 0u64]
    } else if w0 && !w1 && !w3 {
        vec![0u64, P_TURN, 0u64, P_BACK]
    } else if !w0 && w1 {
        vec![SCALE, 0u64, 0u64, 0u64]
    } else if !w0 && !w1 && w3 {
        vec![P_FORWARD, P_RIGHT, 0u64, 0u64]
    } else if !w0 && !w1 && !w2 && !w3 {
        vec![P_FORWARD, P_RIGHT, 0u64, 0u64]
    } else {
        vec![0u64, 0u64, 0u64, 0u64]
    };
    proof {
        assert(r@ =~= mover_probability_spec(w0, w1, w2, w3));
    }
    r
}

/// Neighbor of `idx` one cell toward absolute direction `a`, with the
/// index arithmetic saturating at zero and clamped to the field.
pub open spec fn nb(idx: int, a: int) -> int {
    let raw = if a % 4 == 0 {
        idx + 20
    } else if a % 4 == 1 {
        if idx >= 1 {
            idx - 1
        } else {
            0
        }
    } else if a % 4 == 2 {
        if idx >= 20 {
            idx - 20
        } else {
            0
        }
    } else {
        idx + 1
    };
    if raw > 399 {
        399
    } else {
        raw
    }
}

/// Neighbor of `idx` two cells toward absolute direction `a`, saturating
/// and clamped like [`nb`].
pub open spec fn jnb(idx: int, a: int) -> int {
    let raw = if a % 4 == 0 {
        idx + 40
    } else if a % 4 == 1 {
        if idx >= 2 {
            idx - 2
        } else {
            0
        }
    } else if a % 4 == 2 {
        if idx >= 40 {
            idx - 40
        } else {
            0
        }
    } else {
        idx + 2
    };
    if raw > 399 {
        399
    } else {
        raw
    }
}

/// Target cell of candidate `k` of the movement policy at `idx`, entered
/// from the direction of index `in_dir`: candidates 0 to 3 are the walk
/// neighbors in the rotated frame, 4 to 7 the jump neighbors.
pub open spec fn movement_offset(idx: int, in_dir: int, k: int) -> int {
    if k < 4 {
        nb(idx, (in_dir + k) % 4)
    } else {
        jnb(idx, (in_dir + k) % 4)
    }
}

/// Whether the policy absorbs at `idx` of a field with the given cells:
/// walls, treasuries, and the entrance from the twentieth move on swallow
/// every mover.
pub open spec fn absorbing_core(cells: Seq<Cell>, idx: int, move_count: u32) -> bool {
    ||| cells[idx] == Cell::Wall
    ||| (cells[idx] == Cell::Entrance && move_count >= 20)
    ||| cells[idx] == Cell::Treasury
    ||| cells[idx] == Cell::Subtreasury
}

/// Target cell of candidate `k` of the movement policy; an absorbing cell
/// points every candidate at itself.
pub open spec fn movement_index_core(
    cells: Seq<Cell>,
    idx: int,
    in_dir: int,
    mc: u32,
    k: int,
) -> int {
    if absorbing_core(cells, idx, mc) {
        idx
    } else {
        movement_offset(idx, in_dir, k)
    }
}

/// Whether the walk neighbor `k` (0 to 3, rotated frame) is a wall.
pub open spec fn rel_wall_core(cells: Seq<Cell>, idx: int, in_dir: int, k: int) -> bool {
    cells[movement_offset(idx, in_dir, k)] == Cell::Wall
}

/// Whether the jump neighbor `k` (taken at distance two) is a wall.
pub open spec fn rel_jump_wall_core(cells: Seq<Cell>, idx: int, in_dir: int, k: int) -> bool {
    cells[movement_offset(idx, in_dir, k + 4)] == Cell::Wall
}

/// Whether a jump branch is evaluated at all.
pub open spec fn can_jump_core(cells: Seq<Cell>, jumpy: bool, idx: int, in_dir: int, mc: u32) -> bool {
    &&& jumpy
    &&& mc >= 5
    &&& !(rel_jump_wall_core(cells, idx, in_dir, 0) && rel_jump_wall_core(cells, idx, in_dir, 1)
        && rel_jump_wall_core(cells, idx, in_dir, 2) && rel_jump_wall_core(cells, idx, in_dir, 3))
}

/// Number of walk neighbors that are not walls.
pub open spec fn free_count_core(cells: Seq<Cell>, idx: int, in_dir: int) -> int {
    (if rel_wall_core(cells, idx, in_dir, 0) {
        0int
    } else {
        1int
    }) + (if rel_wall_core(cells, idx, in_dir, 1) {
        0int
    } else {
        1int
    }) + (if rel_wall_core(cells, idx, in_dir, 2) {
        0int
    } else {
        1int
    }) + (if rel_wall_core(cells, idx, in_dir, 3) {
        0int
    } else {
        1int
    })
}

/// Probability (scaled by [`SCALE`]) of each of the eight candidates of
/// the movement policy at `idx` entered from direction index `in_dir` on
/// move `mc`: zeros at an absorbing cell, uniform over the free neighbors
/// at the entrance on move zero, and otherwise the direction preference
/// table, split with the jump branch when jumping applies.
pub open spec fn movement_prob_core(
    cells: Seq<Cell>,
    jumpy: bool,
    idx: int,
    in_dir: int,
    mc: u32,
) -> Seq<int> {
    if absorbing_core(cells, idx, mc) {
        seq![0, 0, 0, 0, 0, 0, 0, 0]
    } else if mc == 0 && cells[idx] == Cell::Entrance {
        let n = free_count_core(cells, idx, in_dir);
        Seq::new(8, |k: int|
            if k < 4 && !rel_wall_core(cells, idx, in_dir, k) {
                SCALE as int / n
            } else {
                0
            })
    } else {
        let mp = mover_probability_spec(
            rel_wall_core(cells, idx, in_dir, 0),
            rel_wall_core(cells, idx, in_dir, 1),
            rel_wall_core(cells, idx, in_dir, 2),
            rel_wall_core(cells, idx, in_dir, 3),
        );
        if !can_jump_core(cells, jumpy, idx, in_dir, mc) {
            Seq::new(8, |k: int| if k < 4 { mp[k] as int } else { 0 })
        } else {
            let jp = mover_probability_spec(
                rel_jump_wall_core(cells, idx, in_dir, 0),
                rel_jump_wall_core(cells, idx, in_dir, 1),
                rel_jump_wall_core(cells, idx, in_dir, 2),
                rel_jump_wall_core(cells, idx, in_dir, 3),
            );
            Seq::new(8, |k: int|
                if k < 4 {
                    mp[k] as int * (SCALE - JUMP_PROBABILITY) as int / SCALE as int
                } else {
                    jp[k - 4] as int * JUMP_PROBABILITY as int / SCALE as int
                })
        }
    }
}

impl Subway {
    /// Whether the policy absorbs at `idx`.
    pub open spec fn absorbing_at(self, idx: int, move_count: u32) -> bool {
        absorbing_core(self.cells_view(), idx, move_count)
    }

    /// Target cell of candidate `k` returned by the movement policy.
    pub open spec fn movement_index_spec(self, idx: int, in_dir: int, mc: u32, k: int) -> int {
        movement_index_core(self.cells_view(), idx, in_dir, mc, k)
    }

    /// Whether the walk neighbor `k` (0 to 3, rotated frame) is a wall.
    pub open spec fn rel_wall(self, idx: int, in_dir: int, k: int) -> bool {
        rel_wall_core(self.cells_view(), idx, in_dir, k)
    }

    /// Whether the jump neighbor `k` (taken at distance two) is a wall.
    pub open spec fn rel_jump_wall(self, idx: int, in_dir: int, k: int) -> bool {
        rel_jump_wall_core(self.cells_view(), idx, in_dir, k)
    }

    /// Whether a jump branch is evaluated at all.
    pub open spec fn can_jump_at(self, idx: int, in_dir: int, mc: u32) -> bool {
        can_jump_core(self.cells_view(), self.jumpy_mode(), idx, in_dir, mc)
    }

    /// Number of walk neighbors that are not walls.
    pub open spec fn free_count(self, idx: int, in_dir: int) -> int {
        free_count_core(self.cells_view(), idx, in_dir)
    }

    /// Probability (scaled by [`SCALE`]) of each movement candidate.
    pub open spec fn movement_prob_spec(self, idx: int, in_dir: int, mc: u32) -> Seq<int> {
        movement_prob_core(self.cells_view(), self.jumpy_mode(), idx, in_dir, mc)
    }

    /// Possible movements from cell `idx` entered from `in_direction` on
    /// move `move_count`: the eight candidate target cells and the
    /// probability (scaled by [`SCALE`]) of moving to each.
    #[verifier::rlimit(60)]
    pub fn get_movement(&self, idx: usize, in_direction: Direction, move_count: u32) -> (r: (
        Vec<usize>,
        Vec<u64>,
    ))
        requires
            self.wf(),
            idx < 400,
        ensures
            r.0@.len() == 8,
            r.1@.len() == 8,
            forall|k: int| 0 <= k < 8 ==> r.0@[k] < 400,
            forall|k: int|
                0 <= k < 8 ==> r.0@[k] as int == self.movement_index_spec(
                    idx as int,
                    dir_index_spec(in_direction),
                    move_count,
                    k,
                ),
            forall|k: int|
                0 <= k < 8 ==> r.1@[k] as int == self.movement_prob_spec(
                    idx as int,
                    dir_index_spec(in_direction),
                    move_count,
                )[k],
    {
        let ghost in_dir = dir_index_spec(in_direction);
        let here = self.field[idx];
        if here == Cell::Wall || (here == Cell::Entrance && move_count >= 20) || here
            == Cell::Treasury || here == Cell::Subtreasury {
            let offs = vec![idx, idx, idx, idx, idx, idx, idx, idx];
            let probs = vec![0u64, 0u64, 0u64, 0u64, 0u64, 0u64, 0u64, 0u64];
            return (offs, probs);
        }
        let base = in_direction.index();
        let mut offs: Vec<usize> = Vec::new();
        let mut k: usize = 0;
        while k < 8
            invariant
                k <= 8,
                base < 4,
                idx < 400,
                offs@.len() == k,
                forall|j: int| 0 <= j < k ==> offs@[j] as int == movement_offset(
                    idx as int,
                    base as int,
                    j,
                ),
                forall|j: int| 0 <= j < k ==> offs@[j] < 400,
            decreases 8 - k,
        {
            let a = (base + k) % 4;
            let raw: usize = if k < 4 {
                if a == 0 {
                    idx + 20
                } else if a == 1 {
                    if idx >= 1 {
                        idx - 1
                    } else {
                        0
                    }
                } else if a == 2 {
                    if idx >= 20 {
                        idx - 20
                    } else {
                        0
                    }
                } else {
                    idx + 1
                }
            } else {
                if a == 0 {
                    idx + 40
                } else if a == 1 {
                    if idx >= 2 {
                        idx - 2
                    } else {
                        0
                    }
                } else if a == 2 {
                    if idx >= 40 {
                        idx - 40
                    } else {
                        0
                    }
                } else {
                    idx + 2
                }
            };
            let clamped = if raw > 399 {
                399
            } else {
                raw
            };
            offs.push(clamped);
            k = k + 1;
        }
        let walls: [bool; 4] = [
            self.field[offs[0]] == Cell::Wall,
            self.field[offs[1]] == Cell::Wall,
            self.field[offs[2]] == Cell::Wall,
            self.field[offs[3]] == Cell::Wall,
        ];
        let jump_walls: [bool; 4] = [
            self.field[offs[4]] == Cell::Wall,
            self.field[offs[5]] == Cell::Wall,
            self.field[offs[6]] == Cell::Wall,
            self.field[offs[7]] == Cell::Wall,
        ];
        let can_jump = self.jumpy && move_count >= 5 && !(jump_walls[0] && jump_walls[1]
            && jump_walls[2] && jump_walls[3]);

        if move_count == 0 && here == Cell::Entrance {
            let mut n: u64 = 0;
            if !walls[0] {
                n = n + 1;
            }
            if !walls[1] {
                n = n + 1;
            }
            if !walls[2] {
                n = n + 1;
            }
            if !walls[3] {
                n = n + 1;
            }
            assert(n as int == self.free_count(idx as int, in_dir));
            let prob: u64 = if n > 0 {
                SCALE / n
            } else {
                0
            };
            let mut probs: Vec<u64> = Vec::new();
            let mut j: usize = 0;
            while j < 8
                invariant
                    j <= 8,
                    probs@.len() == j,
                    walls@.len() == 4,
                    idx < 400,
                    move_count == 0,
                    !self.absorbing_at(idx as int, move_count),
                    self.cell_at(idx as int) == Cell::Entrance,
                    n as int == self.free_count(idx as int, in_dir),
                    prob == if n > 0 { SCALE as int / n as int } else { 0 },
                    forall|m: int| 0 <= m < 4 ==> walls@[m] == self.rel_wall(
                        idx as int,
                        in_dir,
                        m,
                    ),
                    forall|m: int| 0 <= m < j ==> probs@[m] as int == self.movement_prob_spec(
                        idx as int,
                        in_dir,
                        move_count,
                    )[m],
                decreases 8 - j,
            {
                if j < 4 && !walls[j] {
                    probs.push(prob);
                } else {
                    probs.push(0);
                }
                j = j + 1;
            }
            return (offs, probs);
        }
        let mp = mover_probability(walls);
        let mut probs: Vec<u64> = Vec::new();
        if !can_jump {
            let mut j: usize = 0;
            while j < 8
                invariant
                    j <= 8,
                    probs@.len() == j,
                    mp@.len() == 4,
                    forall|m: int| 0 <= m < j ==> probs@[m] == if m < 4 { mp@[m] } else { 0u64 },
                decreases 8 - j,
            {
                if j < 4 {
                    probs.push(mp[j]);
                } else {
                    probs.push(0);
                }
                j = j + 1;
            }
        } else {
            let jp = mover_probability(jump_walls);
            let mut j: usize = 0;
            while j < 8
                invariant
                    j <= 8,
                    probs@.len() == j,
                    mp@.len() == 4,
                    jp@.len() == 4,
                    forall|m: int| 0 <= m < 4 ==> mp@[m] <= SCALE,
                    forall|m: int| 0 <= m < 4 ==> jp@[m] <= SCALE,
                    forall|m: int| 0 <= m < j ==> probs@[m] as int == if m < 4 {
                        mp@[m] as int * (SCALE - JUMP_PROBABILITY) as int / SCALE as int
                    } else {
                        jp@[m - 4] as int * JUMP_PROBABILITY as int / SCALE as int
                    },
                decreases 8 - j,
            {
                if j < 4 {
                    probs.push(scale_mul(mp[j], SCALE - JUMP_PROBABILITY));
                } else {
                    probs.push(scale_mul(jp[j - 4], JUMP_PROBABILITY));
                }
                j = j + 1;
            }
        }
        (offs, probs)
    }
}

/// The visit masses after the entrances among the first `n` cells have
/// been seeded: `SCALE` at every interior entrance seen so far, zero
/// elsewhere.
pub open spec fn visited_after_init(cells: Seq<Cell>, n: int) -> Seq<u64> {
    Seq::new(400, |c: int|
        if 0 <= c < n && is_interior(c) && cells[c] == Cell::Entrance {
            SCALE
        } else {
            0u64
        })
}

/// The all-zero mover table.
pub open spec fn zero_movers() -> Seq<u64> {
    Seq::new(1600, |i: int| 0u64)
}

/// `x` clamped into the 64-bit range (for non-negative `x`).
pub open spec fn sat_u64(x: int) -> u64 {
    if x > u64::MAX {
        u64::MAX
    } else {
        x as u64
    }
}

/// Total mover mass arriving at cell `c` across the four directions.
pub open spec fn incoming_mass(m: Seq<u64>, c: int) -> int {
    m[c] + m[400 + c] + m[800 + c] + m[1200 + c]
}

/// Mover table after the entrance at `idx` has written its first `k`
/// movement candidates (entered from the south on move zero) over `m`.
pub open spec fn init_assign(
    cells: Seq<Cell>,
    jumpy: bool,
    m: Seq<u64>,
    idx: int,
    k: int,
) -> Seq<u64>
    decreases k,
{
    if k <= 0 {
        m
    } else {
        let prev = init_assign(cells, jumpy, m, idx, k - 1);
        let dir = k - 1;
        let t = movement_index_core(cells, idx, 2, 0, dir);
        let p = movement_prob_core(cells, jumpy, idx, 2, 0)[dir];
        prev.update((dir % 4) * 400 + t, p as u64)
    }
}

/// Mover table after the entrances among the first `n` cells have seeded
/// their movers.
pub open spec fn init_movers_upto(cells: Seq<Cell>, jumpy: bool, n: int) -> Seq<u64>
    decreases n,
{
    if n <= 0 {
        zero_movers()
    } else {
        let prev = init_movers_upto(cells, jumpy, n - 1);
        let idx = n - 1;
        if is_interior(idx) && cells[idx] == Cell::Entrance {
            init_assign(cells, jumpy, prev, idx, 8)
        } else {
            prev
        }
    }
}

/// Staged mover table after the first `k` candidate contributions of the
/// mover heading `d` into `idx` have been added to `next`.
pub open spec fn step_candidates(
    cells: Seq<Cell>,
    jumpy: bool,
    n: u32,
    movers: Seq<u64>,
    next: Seq<u64>,
    idx: int,
    d: int,
    k: int,
) -> Seq<u64>
    decreases k,
{
    if k <= 0 {
        next
    } else {
        let prev = step_candidates(cells, jumpy, n, movers, next, idx, d, k - 1);
        let r = k - 1;
        let m = movers[d * 400 + idx];
        let t = movement_index_core(cells, idx, (d + 2) % 4, n, r);
        let p = movement_prob_core(cells, jumpy, idx, (d + 2) % 4, n)[r];
        if t != idx {
            let e = ((r + d) % 4) * 400 + t;
            prev.update(e, sat_u64(prev[e] + m as int * p / (SCALE as int)))
        } else {
            prev
        }
    }
}

/// Staged mover table after the movers of the first `d` direction
/// channels of cell `idx` have spread.
pub open spec fn step_dirs(
    cells: Seq<Cell>,
    jumpy: bool,
    n: u32,
    movers: Seq<u64>,
    next: Seq<u64>,
    idx: int,
    d: int,
) -> Seq<u64>
    decreases d,
{
    if d <= 0 {
        next
    } else {
        step_candidates(
            cells,
            jumpy,
            n,
            movers,
            step_dirs(cells, jumpy, n, movers, next, idx, d - 1),
            idx,
            d - 1,
            8,
        )
    }
}

/// Staged mover table after the cells before `upto` (inside the guard
/// rails, which begin at cell 20) have spread their movers.
pub open spec fn step_cells(
    cells: Seq<Cell>,
    jumpy: bool,
    n: u32,
    movers: Seq<u64>,
    upto: int,
) -> Seq<u64>
    decreases upto,
{
    if upto <= 20 {
        zero_movers()
    } else {
        step_dirs(
            cells,
            jumpy,
            n,
            movers,
            step_cells(cells, jumpy, n, movers, upto - 1),
            upto - 1,
            4,
        )
    }
}

/// The whole mover table of the next tick: every mover of every interior
/// cell advanced by the movement policy on move `n`.
pub open spec fn next_movers_spec(cells: Seq<Cell>, jumpy: bool, n: u32, movers: Seq<u64>) -> Seq<
    u64,
> {
    step_cells(cells, jumpy, n, movers, 380)
}

/// Every candidate probability of the movement policy lies between 0 and
/// `SCALE`.
pub proof fn lemma_movement_prob_bounded(
    cells: Seq<Cell>,
    jumpy: bool,
    idx: int,
    in_dir: int,
    mc: u32,
)
    ensures
        forall|k: int|
            0 <= k < 8 ==> 0 <= #[trigger] movement_prob_core(cells, jumpy, idx, in_dir, mc)[k]
                <= SCALE,
{
    assert forall|k: int| 0 <= k < 8 implies 0 <= #[trigger] movement_prob_core(
        cells,
        jumpy,
        idx,
        in_dir,
        mc,
    )[k] <= SCALE by {
        lemma_mp_seq_bounded(
            rel_wall_core(cells, idx, in_dir, 0),
            rel_wall_core(cells, idx, in_dir, 1),
            rel_wall_core(cells, idx, in_dir, 2),
            rel_wall_core(cells, idx, in_dir, 3),
        );
        lemma_mp_seq_bounded(
            rel_jump_wall_core(cells, idx, in_dir, 0),
            rel_jump_wall_core(cells, idx, in_dir, 1),
            rel_jump_wall_core(cells, idx, in_dir, 2),
            rel_jump_wall_core(cells, idx, in_dir, 3),
        );
        if absorbing_core(cells, idx, mc) {
        } else if mc == 0 && cells[idx] == Cell::Entrance {
            let n = free_count_core(cells, idx, in_dir);
            if k < 4 && !rel_wall_core(cells, idx, in_dir, k) {
                assert(n >= 1);
                assert(0 <= SCALE as int / n <= SCALE) by (nonlinear_arith)
                    requires
                        n >= 1,
                ;
            }
        } else {
            let mp = mover_probability_spec(
                rel_wall_core(cells, idx, in_dir, 0),
                rel_wall_core(cells, idx, in_dir, 1),
                rel_wall_core(cells, idx, in_dir, 2),
                rel_wall_core(cells, idx, in_dir, 3),
            );
            if !can_jump_core(cells, jumpy, idx, in_dir, mc) {
            } else {
                let jp = mover_probability_spec(
                    rel_jump_wall_core(cells, idx, in_dir, 0),
                    rel_jump_wall_core(cells, idx, in_dir, 1),
                    rel_jump_wall_core(cells, idx, in_dir, 2),
                    rel_jump_wall_core(cells, idx, in_dir, 3),
                );
                if 0 <= k < 4 {
                    lemma_scaled_product_bounded(mp[k] as int, (SCALE - JUMP_PROBABILITY) as int);
                } else if 4 <= k < 8 {
                    lemma_scaled_product_bounded(jp[k - 4] as int, JUMP_PROBABILITY as int);
                }
            }
        }
    }
}

/// The four table probabilities are each between 0 and `SCALE`.
proof fn lemma_mp_seq_bounded(w0: bool, w1: bool, w2: bool, w3: bool)
    ensures
        forall|k: int|
            0 <= k < 4 ==> 0 <= #[trigger] mover_probability_spec(w0, w1, w2, w3)[k] <= SCALE,
{
    let s = mover_probability_spec(w0, w1, w2, w3);
    assert(0 <= s[0] <= SCALE && 0 <= s[1] <= SCALE && 0 <= s[2] <= SCALE && 0 <= s[3] <= SCALE);
    assert forall|k: int| 0 <= k < 4 implies 0 <= #[trigger] s[k] <= SCALE by {
        if k == 0 {
        } else if k == 1 {
        } else if k == 2 {
        }
    }
}

/// `x * c / SCALE` stays between 0 and `x` when `0 <= x <= SCALE` and
/// `0 <= c <= SCALE`.
proof fn lemma_scaled_product_bounded(x: int, c: int)
    requires
        0 <= x <= SCALE,
        0 <= c <= SCALE,
    ensures
        0 <= x * c / (SCALE as int) <= x,
{
    assert(0 <= x * c / (SCALE as int) <= x) by (nonlinear_arith)
        requires
            0 <= x <= SCALE,
            0 <= c <= SCALE,
    ;
}

impl Subway {
    /// Initialize the simulation: clear all visit and mover mass, set the
    /// jump mode, give every interior entrance cell a visit mass of 1
    /// (that is, `SCALE`), and seed its movers uniformly over its free
    /// neighbors.
    #[verifier::loop_isolation(false)]
    pub fn init(&mut self, jumpy: bool)
        requires
            old(self).wf(),
        ensures
            final(self).wf(),
            final(self).cells_view() == old(self).cells_view(),
            final(self).jumpy_mode() == jumpy,
            final(self).visited_view() == visited_after_init(old(self).cells_view(), 400),
            forall|c: int|
                0 <= c < 400 ==> final(self).visited_at(c) == (if final(self).cell_at(c)
                    == Cell::Entrance {
                    SCALE
                } else {
                    0u64
                }),
            final(self).movers_view() == init_movers_upto(old(self).cells_view(), jumpy, 400),
    {
        let ghost cells = old(self).cells_view();
        self.visited = filled_u64(400, 0);
        self.movers = filled_u64(1600, 0);
        self.jumpy = jumpy;
        proof {
            assert(self.movers_view() =~= zero_movers());
            assert(self.visited_view() =~= visited_after_init(cells, 0));
        }
        let mut idx: usize = 0;
        while idx < 400
            invariant
                idx <= 400,
                self.wf(),
                self.cells_view() == cells,
                self.jumpy_mode() == jumpy,
                self.visited_view() == visited_after_init(cells, idx as int),
                self.movers_view() == init_movers_upto(cells, jumpy, idx as int),
            decreases 400 - idx,
        {
            let x = idx % SIZE;
            let y = idx / SIZE;
            if !(x == 0 || x == SIZE - 1 || y == 0 || y == SIZE - 1) {
                if self.field[idx] == Cell::Entrance {
                    self.visited.set(idx, SCALE);
                    proof {
                        assert(self.visited_view() =~= visited_after_init(
                            cells,
                            idx as int + 1,
                        ));
                    }
                    let (offs, probs) = self.get_movement(idx, Direction::South, 0);
                    let ghost before = self.movers_view();
                    let ghost vis_frozen = self.visited_view();
                    let mut dir: usize = 0;
                    while dir < 8
                        invariant
                            dir <= 8,
                            self.cells_view() == cells,
                            self.jumpy_mode() == jumpy,
                            self.visited_view() == vis_frozen,
                            self.movers_view().len() == 1600,
                            self.movers_view() == init_assign(
                                cells,
                                jumpy,
                                before,
                                idx as int,
                                dir as int,
                            ),
                        decreases 8 - dir,
                    {
                        let t = offs[dir];
                        let p = probs[dir];
                        self.movers.set((dir % 4) * 400 + t, p);
                        dir = dir + 1;
                    }
                } else {
                    proof {
                        assert(self.visited_view() =~= visited_after_init(
                            cells,
                            idx as int + 1,
                        ));
                    }
                }
            } else {
                proof {
                    assert(is_border(idx as int));
                    assert(self.visited_view() =~= visited_after_init(cells, idx as int + 1));
                }
            }
            idx = idx + 1;
        }
    }
}

/// The visit masses after one tick: each cell gains the mover mass
/// arriving at it, clamped into 64 bits.
pub open spec fn visited_after_step(visited: Seq<u64>, movers: Seq<u64>, n: int) -> Seq<u64> {
    Seq::new(400, |c: int|
        if 0 <= c < n {
            sat_u64(visited[c] + incoming_mass(movers, c))
        } else {
            visited[c]
        })
}

impl Subway {
    /// Advance the simulation by one tick, `step_number` counting the
    /// moves made so far: every cell's arriving mover mass is added to
    /// its visit mass, and every mover spreads to its movement candidates
    /// under the local movement policy.
    #[verifier::loop_isolation(false)]
    #[verifier::rlimit(60)]
    pub fn step(&mut self, step_number: u32)
        requires
            old(self).wf(),
        ensures
            final(self).wf(),
            final(self).cells_view() == old(self).cells_view(),
            final(self).jumpy_mode() == old(self).jumpy_mode(),
            final(self).visited_view() == visited_after_step(
                old(self).visited_view(),
                old(self).movers_view(),
                400,
            ),
            forall|c: int|
                0 <= c < 400 ==> final(self).visited_at(c) == sat_u64(
                    old(self).visited_at(c) + incoming_mass(old(self).movers_view(), c),
                ),
            forall|c: int|
                0 <= c < 400 ==> final(self).visited_at(c) >= old(self).visited_at(c),
            final(self).movers_view() == next_movers_spec(
                old(self).cells_view(),
                old(self).jumpy_mode(),
                step_number,
                old(self).movers_view(),
            ),
    {
        let ghost cells = old(self).cells_view();
        let ghost mov = old(self).movers_view();
        let ghost jm = old(self).jumpy_mode();
        proof {
            assert(self.visited_view() =~= visited_after_step(old(self).visited_view(), mov, 0));
        }
        let mut c: usize = 0;
        while c < 400
            invariant
                c <= 400,
                self.wf(),
                self.cells_view() == cells,
                self.jumpy_mode() == jm,
                self.movers_view() == mov,
                self.visited_view() == visited_after_step(old(self).visited_view(), mov, c as int),
            decreases 400 - c,
        {
            let inc: u128 = self.movers[c] as u128 + self.movers[400 + c] as u128 + self.movers[800
                + c] as u128 + self.movers[1200 + c] as u128;
            let s: u128 = self.visited[c] as u128 + inc;
            let nv: u64 = if s > u64::MAX as u128 {
                u64::MAX
            } else {
                s as u64
            };
            self.visited.set(c, nv);
            proof {
                assert(self.visited_view() =~= visited_after_step(
                    old(self).visited_view(),
                    mov,
                    c as int + 1,
                ));
            }
            c = c + 1;
        }
        let mut next = filled_u64(1600, 0);
        proof {
            assert(next@ =~= zero_movers());
            assert(next@ == step_cells(cells, jm, step_number, mov, 20));
        }
        let mut idx: usize = 20;
        while idx < 380
            invariant
                20 <= idx <= 380,
                self.wf(),
                self.cells_view() == cells,
                self.jumpy_mode() == jm,
                self.movers_view() == mov,
                next@.len() == 1600,
                next@ == step_cells(cells, jm, step_number, mov, idx as int),
            decreases 380 - idx,
        {
            let mut dnum: usize = 0;
            while dnum < 4
                invariant
                    dnum <= 4,
                    self.cells_view() == cells,
                    self.jumpy_mode() == jm,
                    self.movers_view() == mov,
                    next@.len() == 1600,
                    next@ == step_dirs(
                        cells,
                        jm,
                        step_number,
                        mov,
                        step_cells(cells, jm, step_number, mov, idx as int),
                        idx as int,
                        dnum as int,
                    ),
                decreases 4 - dnum,
            {
                let d = Direction::from_index(dnum);
                let od = d.opposite();
                let m = self.movers[dnum * 400 + idx];
                let (offs, probs) = self.get_movement(idx, od, step_number);
                proof {
                    lemma_movement_prob_bounded(
                        cells,
                        jm,
                        idx as int,
                        (dnum + 2) % 4,
                        step_number,
                    );
                }
                let ghost entry = next@;
                let mut k: usize = 0;
                while k < 8
                    invariant
                        k <= 8,
                        next@.len() == 1600,
                        next@ == step_candidates(
                            cells,
                            jm,
                            step_number,
                            mov,
                            entry,
                            idx as int,
                            dnum as int,
                            k as int,
                        ),
                    decreases 8 - k,
                {
                    let t = offs[k];
                    if t != idx {
                        let p = probs[k];
                        let add = scale_mul(m, p);
                        let e = ((k + dnum) % 4) * 400 + t;
                        let cur = next[e];
                        let s2: u128 = cur as u128 + add as u128;
                        let nv: u64 = if s2 > u64::MAX as u128 {
                            u64::MAX
                        } else {
                            s2 as u64
                        };
                        next.set(e, nv);
                    }
                    k = k + 1;
                }
                dnum = dnum + 1;
            }
            idx = idx + 1;
        }
        self.movers = next;
    }
}

/// Whether a cell type absorbs and counts mass (a treasury exit).
pub open spec fn is_exit_cell(c: Cell) -> bool {
    c == Cell::Treasury || c == Cell::Subtreasury
}

/// Sum of the first `n` entries of a mass sequence.
pub open spec fn mass_sum(m: Seq<u64>, n: int) -> int
    decreases n,
{
    if n <= 0 {
        0
    } else {
        mass_sum(m, n - 1) + m[n - 1]
    }
}

/// Sum of the visit masses of the absorbing (treasury) cells among the
/// first `n` cells.
pub open spec fn absorbed_sum(cells: Seq<Cell>, visited: Seq<u64>, n: int) -> int
    decreases n,
{
    if n <= 0 {
        0
    } else {
        absorbed_sum(cells, visited, n - 1) + (if is_exit_cell(cells[n - 1]) {
            visited[n - 1] as int
        } else {
            0
        })
    }
}

/// If every entry of `a` is at most the matching entry of `b`, the
/// absorbed sums are ordered the same way.
pub proof fn lemma_absorbed_sum_monotone(cells: Seq<Cell>, a: Seq<u64>, b: Seq<u64>, n: int)
    requires
        forall|c: int| 0 <= c < n ==> a[c] <= b[c],
    ensures
        absorbed_sum(cells, a, n) <= absorbed_sum(cells, b, n),
    decreases n,
{
    if n > 0 {
        lemma_absorbed_sum_monotone(cells, a, b, n - 1);
    }
}

/// The sum of visit masses over the absorbing cells never shrinks from
/// one tick to the next: `step` only adds to each cell's visit mass.
pub proof fn lemma_absorbed_sum_grows(pre: Subway, post: Subway, n: u32)
    requires
        pre.wf(),
        post.wf(),
        post.cells_view() == pre.cells_view(),
        forall|c: int| 0 <= c < 400 ==> post.visited_at(c) >= pre.visited_at(c),
    ensures
        absorbed_sum(pre.cells_view(), pre.visited_view(), 400) <= absorbed_sum(
            post.cells_view(),
            post.visited_view(),
            400,
        ),
{
    assert forall|c: int| 0 <= c < 400 implies pre.visited_view()[c] <= post.visited_view()[c] by {
        assert(post.visited_at(c) >= pre.visited_at(c));
    }
    lemma_absorbed_sum_monotone(pre.cells_view(), pre.visited_view(), post.visited_view(), 400);
}

/// A mass sum is never negative.
pub proof fn lemma_mass_sum_nonneg(m: Seq<u64>, n: int)
    ensures
        mass_sum(m, n) >= 0,
    decreases n,
{
    if n > 0 {
        lemma_mass_sum_nonneg(m, n - 1);
    }
}

/// Mass sums grow along the prefix.
pub proof fn lemma_mass_sum_monotone(m: Seq<u64>, a: int, b: int)
    requires
        a <= b,
    ensures
        mass_sum(m, a) <= mass_sum(m, b),
    decreases b - a,
{
    if a < b {
        lemma_mass_sum_monotone(m, a, b - 1);
    }
}

/// Updating one entry moves the mass sum by the difference at that
/// entry (and not at all when the entry lies past the summed prefix).
pub proof fn lemma_mass_sum_update(m: Seq<u64>, e: int, v: u64, n: int)
    requires
        0 <= e < m.len(),
        n <= m.len(),
    ensures
        mass_sum(m.update(e, v), n) == if e < n {
            mass_sum(m, n) - m[e] + v
        } else {
            mass_sum(m, n)
        },
    decreases n,
{
    if n > 0 {
        lemma_mass_sum_update(m, e, v, n - 1);
    }
}

/// Dividing two parts separately never beats dividing their sum.
pub proof fn lemma_div_parts(a: int, b: int, d: int)
    requires
        a >= 0,
        b >= 0,
        d >= 1,
    ensures
        a / d + b / d <= (a + b) / d,
{
    assert(a / d + b / d <= (a + b) / d) by (nonlinear_arith)
        requires
            a >= 0,
            b >= 0,
            d >= 1,
    ;
}

/// Division by a positive amount keeps order.
pub proof fn lemma_div_mono(a: int, b: int, d: int)
    requires
        0 <= a <= b,
        d >= 1,
    ensures
        a / d <= b / d,
{
    assert(a / d <= b / d) by (nonlinear_arith)
        requires
            0 <= a <= b,
            d >= 1,
    ;
}

/// Sum of the first `k` candidate probabilities of the movement policy.
pub open spec fn psum(cells: Seq<Cell>, jumpy: bool, idx: int, in_dir: int, mc: u32, k: int) -> int
    decreases k,
{
    if k <= 0 {
        0
    } else {
        psum(cells, jumpy, idx, in_dir, mc, k - 1) + movement_prob_core(
            cells,
            jumpy,
            idx,
            in_dir,
            mc,
        )[k - 1]
    }
}

/// The four table probabilities sum to at most `SCALE`.
proof fn lemma_mp_sum_le(w0: bool, w1: bool, w2: bool, w3: bool)
    ensures
        mover_probability_spec(w0, w1, w2, w3)[0] + mover_probability_spec(w0, w1, w2, w3)[1]
            + mover_probability_spec(w0, w1, w2, w3)[2] + mover_probability_spec(w0, w1, w2, w3)[3]
            <= SCALE,
{
    let s = mover_probability_spec(w0, w1, w2, w3);
    assert(s[0] + s[1] + s[2] + s[3] <= SCALE);
}

/// The eight candidate probabilities of the movement policy sum to at
/// most `SCALE`: the policy never creates mass.
#[verifier::rlimit(100)]
#[verifier::spinoff_prover]
pub proof fn lemma_psum_le_scale(cells: Seq<Cell>, jumpy: bool, idx: int, in_dir: int, mc: u32)
    ensures
        psum(cells, jumpy, idx, in_dir, mc, 8) <= SCALE,
        forall|k: int| 0 <= k <= 8 ==> 0 <= #[trigger] psum(cells, jumpy, idx, in_dir, mc, k),
    decreases 1int,
{
    reveal_with_fuel(psum, 9);
    lemma_movement_prob_bounded(cells, jumpy, idx, in_dir, mc);
    assert forall|k: int| 0 <= k <= 8 implies 0 <= #[trigger] psum(cells, jumpy, idx, in_dir, mc, k) by {
        lemma_psum_nonneg(cells, jumpy, idx, in_dir, mc, k);
    }
    let probs = movement_prob_core(cells, jumpy, idx, in_dir, mc);
    assert(psum(cells, jumpy, idx, in_dir, mc, 8) == probs[0] + probs[1] + probs[2] + probs[3]
        + probs[4] + probs[5] + probs[6] + probs[7]);
    if absorbing_core(cells, idx, mc) {
    } else if mc == 0 && cells[idx] == Cell::Entrance {
        let n = free_count_core(cells, idx, in_dir);
        if n >= 1 {
            assert(n * (SCALE as int / n) <= SCALE) by (nonlinear_arith)
                requires
                    1 <= n <= 4,
            ;
        }
    } else {
        let mp = mover_probability_spec(
            rel_wall_core(cells, idx, in_dir, 0),
            rel_wall_core(cells, idx, in_dir, 1),
            rel_wall_core(cells, idx, in_dir, 2),
            rel_wall_core(cells, idx, in_dir, 3),
        );
        lemma_mp_seq_bounded(
            rel_wall_core(cells, idx, in_dir, 0),
            rel_wall_core(cells, idx, in_dir, 1),
            rel_wall_core(cells, idx, in_dir, 2),
            rel_wall_core(cells, idx, in_dir, 3),
        );
        lemma_mp_sum_le(
            rel_wall_core(cells, idx, in_dir, 0),
            rel_wall_core(cells, idx, in_dir, 1),
            rel_wall_core(cells, idx, in_dir, 2),
            rel_wall_core(cells, idx, in_dir, 3),
        );
        if !can_jump_core(cells, jumpy, idx, in_dir, mc) {
        } else {
            let jp = mover_probability_spec(
                rel_jump_wall_core(cells, idx, in_dir, 0),
                rel_jump_wall_core(cells, idx, in_dir, 1),
                rel_jump_wall_core(cells, idx, in_dir, 2),
                rel_jump_wall_core(cells, idx, in_dir, 3),
            );
            lemma_mp_seq_bounded(
                rel_jump_wall_core(cells, idx, in_dir, 0),
                rel_jump_wall_core(cells, idx, in_dir, 1),
                rel_jump_wall_core(cells, idx, in_dir, 2),
                rel_jump_wall_core(cells, idx, in_dir, 3),
            );
            lemma_mp_sum_le(
                rel_jump_wall_core(cells, idx, in_dir, 0),
                rel_jump_wall_core(cells, idx, in_dir, 1),
                rel_jump_wall_core(cells, idx, in_dir, 2),
                rel_jump_wall_core(cells, idx, in_dir, 3),
            );
            let keep = (SCALE - JUMP_PROBABILITY) as int;
            let jump = JUMP_PROBABILITY as int;
            let s = SCALE as int;
            lemma_div_parts(mp[0] as int * keep, mp[1] as int * keep, s);
            lemma_div_parts(mp[0] as int * keep + mp[1] as int * keep, mp[2] as int * keep, s);
            lemma_div_parts(
                mp[0] as int * keep + mp[1] as int * keep + mp[2] as int * keep,
                mp[3] as int * keep,
                s,
            );
            lemma_div_parts(jp[0] as int * jump, jp[1] as int * jump, s);
            lemma_div_parts(jp[0] as int * jump + jp[1] as int * jump, jp[2] as int * jump, s);
            lemma_div_parts(
                jp[0] as int * jump + jp[1] as int * jump + jp[2] as int * jump,
                jp[3] as int * jump,
                s,
            );
            let mpsum = mp[0] as int + mp[1] as int + mp[2] as int + mp[3] as int;
            let jpsum = jp[0] as int + jp[1] as int + jp[2] as int + jp[3] as int;
            assert(mp[0] as int * keep + mp[1] as int * keep + mp[2] as int * keep + mp[3] as int
                * keep == mpsum * keep) by (nonlinear_arith)
                requires
                    mpsum == mp[0] as int + mp[1] as int + mp[2] as int + mp[3] as int,
            ;
            assert(jp[0] as int * jump + jp[1] as int * jump + jp[2] as int * jump + jp[3] as int
                * jump == jpsum * jump) by (nonlinear_arith)
                requires
                    jpsum == jp[0] as int + jp[1] as int + jp[2] as int + jp[3] as int,
            ;
            assert(mpsum * keep <= s * keep) by (nonlinear_arith)
                requires
                    0 <= mpsum <= s,
                    keep >= 0,
            ;
            assert(jpsum * jump <= s * jump) by (nonlinear_arith)
                requires
                    0 <= jpsum <= s,
                    jump >= 0,
            ;
            lemma_div_mono(mpsum * keep, s * keep, s);
            lemma_div_mono(jpsum * jump, s * jump, s);
            assert(s * keep / s == keep) by (nonlinear_arith)
                requires
                    s >= 1,
                    keep >= 0,
            ;
            assert(s * jump / s == jump) by (nonlinear_arith)
                requires
                    s >= 1,
                    jump >= 0,
            ;
            lemma_div_parts(mpsum * keep, jpsum * jump, s);
            lemma_div_mono(mpsum * keep + jpsum * jump, s * keep + s * jump, s);
            assert((s * keep + s * jump) / s == keep + jump) by (nonlinear_arith)
                requires
                    s >= 1,
                    keep >= 0,
                    jump >= 0,
            ;
        }
    }
}

/// Partial policy sums are never negative.
proof fn lemma_psum_nonneg(cells: Seq<Cell>, jumpy: bool, idx: int, in_dir: int, mc: u32, k: int)
    requires
        0 <= k <= 8,
    ensures
        psum(cells, jumpy, idx, in_dir, mc, k) >= 0,
    decreases k,
{
    if k > 0 {
        lemma_psum_nonneg(cells, jumpy, idx, in_dir, mc, k - 1);
        lemma_movement_prob_bounded(cells, jumpy, idx, in_dir, mc);
    }
}

/// Sum of the first `k` scaled contributions a mover of weight `m`
/// spreads under the policy.
pub open spec fn contrib_sum(
    cells: Seq<Cell>,
    jumpy: bool,
    n: u32,
    m: u64,
    idx: int,
    in_dir: int,
    k: int,
) -> int
    decreases k,
{
    if k <= 0 {
        0
    } else {
        contrib_sum(cells, jumpy, n, m, idx, in_dir, k - 1) + m as int * movement_prob_core(
            cells,
            jumpy,
            idx,
            in_dir,
            n,
        )[k - 1] / (SCALE as int)
    }
}

/// Each scaled contribution is non-negative.
proof fn lemma_contrib_nonneg(
    cells: Seq<Cell>,
    jumpy: bool,
    n: u32,
    m: u64,
    idx: int,
    in_dir: int,
    k: int,
)
    requires
        0 <= k <= 8,
    ensures
        contrib_sum(cells, jumpy, n, m, idx, in_dir, k) >= 0,
        forall|r: int|
            0 <= r < k ==> #[trigger] (m as int * movement_prob_core(cells, jumpy, idx, in_dir, n)[r]
                / (SCALE as int)) >= 0,
    decreases k,
{
    lemma_movement_prob_bounded(cells, jumpy, idx, in_dir, n);
    if k > 0 {
        lemma_contrib_nonneg(cells, jumpy, n, m, idx, in_dir, k - 1);
        let p = movement_prob_core(cells, jumpy, idx, in_dir, n)[k - 1];
        assert(m as int * p / (SCALE as int) >= 0) by (nonlinear_arith)
            requires
                m >= 0,
                p >= 0,
        ;
    }
}

/// A mover never spreads more mass than its own weight.
#[verifier::rlimit(100)]
#[verifier::spinoff_prover]
proof fn lemma_contrib_le_m(cells: Seq<Cell>, jumpy: bool, n: u32, m: u64, idx: int, in_dir: int)
    ensures
        contrib_sum(cells, jumpy, n, m, idx, in_dir, 8) <= m,
{
    reveal_with_fuel(contrib_sum, 9);
    reveal_with_fuel(psum, 9);
    lemma_movement_prob_bounded(cells, jumpy, idx, in_dir, n);
    lemma_psum_le_scale(cells, jumpy, idx, in_dir, n);
    let s = SCALE as int;
    let mi = m as int;
    let probs = movement_prob_core(cells, jumpy, idx, in_dir, n);
    let total = mi * probs[0] + mi * probs[1] + mi * probs[2] + mi * probs[3] + mi * probs[4] + mi
        * probs[5] + mi * probs[6] + mi * probs[7];
    assert forall|r: int| 0 <= r < 8 implies #[trigger] (mi * probs[r]) >= 0 by {
        assert(mi * probs[r] >= 0) by (nonlinear_arith)
            requires
                mi >= 0,
                probs[r] >= 0,
        ;
    }
    lemma_div_parts(mi * probs[0], mi * probs[1], s);
    lemma_div_parts(mi * probs[0] + mi * probs[1], mi * probs[2], s);
    lemma_div_parts(mi * probs[0] + mi * probs[1] + mi * probs[2], mi * probs[3], s);
    lemma_div_parts(
        mi * probs[0] + mi * probs[1] + mi * probs[2] + mi * probs[3],
        mi * probs[4],
        s,
    );
    lemma_div_parts(
        mi * probs[0] + mi * probs[1] + mi * probs[2] + mi * probs[3] + mi * probs[4],
        mi * probs[5],
        s,
    );
    lemma_div_parts(
        mi * probs[0] + mi * probs[1] + mi * probs[2] + mi * probs[3] + mi * probs[4] + mi
            * probs[5],
        mi * probs[6],
        s,
    );
    lemma_div_parts(
        mi * probs[0] + mi * probs[1] + mi * probs[2] + mi * probs[3] + mi * probs[4] + mi
            * probs[5] + mi * probs[6],
        mi * probs[7],
        s,
    );
    assert(total == mi * psum(cells, jumpy, idx, in_dir, n, 8)) by (nonlinear_arith)
        requires
            total == mi * probs[0] + mi * probs[1] + mi * probs[2] + mi * probs[3] + mi * probs[4]
                + mi * probs[5] + mi * probs[6] + mi * probs[7],
            psum(cells, jumpy, idx, in_dir, n, 8) == probs[0] + probs[1] + probs[2] + probs[3]
                + probs[4] + probs[5] + probs[6] + probs[7],
    ;
    assert(mi * psum(cells, jumpy, idx, in_dir, n, 8) <= mi * s) by (nonlinear_arith)
        requires
            0 <= psum(cells, jumpy, idx, in_dir, n, 8) <= s,
            mi >= 0,
    ;
    lemma_div_mono(total, mi * s, s);
    assert(mi * s / s == mi) by (nonlinear_arith)
        requires
            s >= 1,
            mi >= 0,
    ;
}

/// Every target cell the policy names lies on the field.
proof fn lemma_movement_index_in_range(cells: Seq<Cell>, idx: int, in_dir: int, mc: u32, k: int)
    requires
        0 <= idx < 400,
    ensures
        0 <= movement_index_core(cells, idx, in_dir, mc, k) < 400,
{
}

/// Spreading one mover adds at most its scaled contributions to the
/// staging table.
proof fn lemma_step_candidates_mass(
    cells: Seq<Cell>,
    jumpy: bool,
    n: u32,
    movers: Seq<u64>,
    next: Seq<u64>,
    idx: int,
    d: int,
    k: int,
)
    requires
        next.len() == 1600,
        movers.len() == 1600,
        20 <= idx < 380,
        0 <= d < 4,
        0 <= k <= 8,
    ensures
        step_candidates(cells, jumpy, n, movers, next, idx, d, k).len() == 1600,
        mass_sum(step_candidates(cells, jumpy, n, movers, next, idx, d, k), 1600) <= mass_sum(
            next,
            1600,
        ) + contrib_sum(cells, jumpy, n, movers[d * 400 + idx], idx, (d + 2) % 4, k),
    decreases k,
{
    let m = movers[d * 400 + idx];
    lemma_contrib_nonneg(cells, jumpy, n, m, idx, (d + 2) % 4, k);
    if k > 0 {
        lemma_step_candidates_mass(cells, jumpy, n, movers, next, idx, d, k - 1);
        let prev = step_candidates(cells, jumpy, n, movers, next, idx, d, k - 1);
        let r = k - 1;
        let t = movement_index_core(cells, idx, (d + 2) % 4, n, r);
        lemma_movement_index_in_range(cells, idx, (d + 2) % 4, n, r);
        let p = movement_prob_core(cells, jumpy, idx, (d + 2) % 4, n)[r];
        if t != idx {
            let e = ((r + d) % 4) * 400 + t;
            let add = m as int * p / (SCALE as int);
            lemma_mass_sum_update(prev, e, sat_u64(prev[e] + add), 1600);
        }
    }
}

/// Mover mass already sitting in the first `d` direction channels of a
/// cell.
pub open spec fn dir_budget(m: Seq<u64>, idx: int, d: int) -> int
    decreases d,
{
    if d <= 0 {
        0
    } else {
        dir_budget(m, idx, d - 1) + m[(d - 1) * 400 + idx]
    }
}

/// Spreading all four direction channels of a cell adds at most the
/// cell's incoming mass to the staging table.
proof fn lemma_step_dirs_mass(
    cells: Seq<Cell>,
    jumpy: bool,
    n: u32,
    movers: Seq<u64>,
    next: Seq<u64>,
    idx: int,
    d: int,
)
    requires
        next.len() == 1600,
        movers.len() == 1600,
        20 <= idx < 380,
        0 <= d <= 4,
    ensures
        step_dirs(cells, jumpy, n, movers, next, idx, d).len() == 1600,
        mass_sum(step_dirs(cells, jumpy, n, movers, next, idx, d), 1600) <= mass_sum(next, 1600)
            + dir_budget(movers, idx, d),
        absorbing_core(cells, idx, n) ==> mass_sum(
            step_dirs(cells, jumpy, n, movers, next, idx, d),
            1600,
        ) <= mass_sum(next, 1600),
    decreases d,
{
    if d > 0 {
        lemma_step_dirs_mass(cells, jumpy, n, movers, next, idx, d - 1);
        let prev = step_dirs(cells, jumpy, n, movers, next, idx, d - 1);
        lemma_step_candidates_mass(cells, jumpy, n, movers, prev, idx, d - 1, 8);
        let m = movers[(d - 1) * 400 + idx];
        lemma_contrib_le_m(cells, jumpy, n, m, idx, (d - 1 + 2) % 4);
        if absorbing_core(cells, idx, n) {
            lemma_contrib_absorbing(cells, jumpy, n, m, idx, (d - 1 + 2) % 4, 8);
        }
    }
}

/// An absorbing cell spreads nothing.
proof fn lemma_contrib_absorbing(
    cells: Seq<Cell>,
    jumpy: bool,
    n: u32,
    m: u64,
    idx: int,
    in_dir: int,
    k: int,
)
    requires
        absorbing_core(cells, idx, n),
        0 <= k <= 8,
    ensures
        contrib_sum(cells, jumpy, n, m, idx, in_dir, k) == 0,
    decreases k,
{
    if k > 0 {
        lemma_contrib_absorbing(cells, jumpy, n, m, idx, in_dir, k - 1);
    }
}

/// Incoming mover mass of the treasury cells among the first `upto`
/// cells.
pub open spec fn exit_incoming(cells: Seq<Cell>, m: Seq<u64>, upto: int) -> int
    decreases upto,
{
    if upto <= 0 {
        0
    } else {
        exit_incoming(cells, m, upto - 1) + (if is_exit_cell(cells[upto - 1]) {
            incoming_mass(m, upto - 1)
        } else {
            0
        })
    }
}

/// Incoming mover mass of the cells between the guard rails, up to
/// `upto`.
pub open spec fn interior_budget(m: Seq<u64>, upto: int) -> int
    decreases upto,
{
    if upto <= 20 {
        0
    } else {
        interior_budget(m, upto - 1) + incoming_mass(m, upto - 1)
    }
}

/// The all-zero mover table carries no mass.
proof fn lemma_zero_movers_mass(n: int)
    requires
        0 <= n <= 1600,
    ensures
        mass_sum(zero_movers(), n) == 0,
    decreases n,
{
    if n > 0 {
        lemma_zero_movers_mass(n - 1);
    }
}

/// After spreading the cells up to `upto`, the staged mass plus the
/// mass arriving at treasuries is covered by the interior budget.
proof fn lemma_step_cells_mass(cells: Seq<Cell>, jumpy: bool, n: u32, movers: Seq<u64>, upto: int)
    requires
        movers.len() == 1600,
        cells.len() == 400,
        20 <= upto <= 380,
        forall|i: int| 0 <= i < 400 && is_border(i) ==> cells[i] == Cell::Wall,
    ensures
        step_cells(cells, jumpy, n, movers, upto).len() == 1600,
        mass_sum(step_cells(cells, jumpy, n, movers, upto), 1600) + (exit_incoming(
            cells,
            movers,
            upto,
        ) - exit_incoming(cells, movers, 20)) <= interior_budget(movers, upto),
    decreases upto,
{
    if upto <= 20 {
        lemma_zero_movers_mass(1600);
    } else {
        lemma_step_cells_mass(cells, jumpy, n, movers, upto - 1);
        let prev = step_cells(cells, jumpy, n, movers, upto - 1);
        let idx = upto - 1;
        lemma_step_dirs_mass(cells, jumpy, n, movers, prev, idx, 4);
        reveal_with_fuel(dir_budget, 5);
        assert(dir_budget(movers, idx, 4) == incoming_mass(movers, idx));
        if is_exit_cell(cells[idx]) {
            assert(absorbing_core(cells, idx, n));
        }
    }
}

/// The interior budget never exceeds the whole mover mass.
proof fn lemma_budget_bands(m: Seq<u64>, upto: int)
    requires
        m.len() == 1600,
        20 <= upto <= 380,
    ensures
        interior_budget(m, upto) == (mass_sum(m, upto) - mass_sum(m, 20)) + (mass_sum(m, 400 + upto)
            - mass_sum(m, 420)) + (mass_sum(m, 800 + upto) - mass_sum(m, 820)) + (mass_sum(
            m,
            1200 + upto,
        ) - mass_sum(m, 1220)),
    decreases upto,
{
    if upto > 20 {
        lemma_budget_bands(m, upto - 1);
    }
}

/// The interior budget is covered by the whole mover mass.
proof fn lemma_budget_le_total(m: Seq<u64>, upto: int)
    requires
        m.len() == 1600,
        20 <= upto <= 380,
    ensures
        interior_budget(m, upto) <= mass_sum(m, 1600),
{
    lemma_budget_bands(m, upto);
    lemma_mass_sum_monotone(m, upto, 420);
    lemma_mass_sum_monotone(m, 400 + upto, 820);
    lemma_mass_sum_monotone(m, 800 + upto, 1220);
    lemma_mass_sum_monotone(m, 1200 + upto, 1600);
    lemma_mass_sum_nonneg(m, 20);
}

/// On a field with walled borders, no treasury sits on the first or
/// last row, so the treasury inflow over the whole field equals the
/// inflow between the guard rails.
proof fn lemma_exit_incoming_borders(cells: Seq<Cell>, m: Seq<u64>, lo: int, hi: int)
    requires
        cells.len() == 400,
        forall|i: int| 0 <= i < 400 && is_border(i) ==> cells[i] == Cell::Wall,
        0 <= lo <= hi,
        hi <= 20 || lo >= 380,
        hi <= 400,
    ensures
        exit_incoming(cells, m, hi) == exit_incoming(cells, m, lo),
    decreases hi - lo,
{
    if hi > lo {
        lemma_exit_incoming_borders(cells, m, lo, hi - 1);
        assert(is_border(hi - 1));
    }
}

/// One tick's visit growth at the treasuries is covered by the mass
/// arriving there.
proof fn lemma_absorbed_step(cells: Seq<Cell>, visited: Seq<u64>, movers: Seq<u64>, n4: int)
    requires
        cells.len() == 400,
        visited.len() == 400,
        movers.len() == 1600,
        0 <= n4 <= 400,
    ensures
        absorbed_sum(cells, visited_after_step(visited, movers, 400), n4) <= absorbed_sum(
            cells,
            visited,
            n4,
        ) + exit_incoming(cells, movers, n4),
    decreases n4,
{
    if n4 > 0 {
        lemma_absorbed_step(cells, visited, movers, n4 - 1);
        let c = n4 - 1;
        let after = visited_after_step(visited, movers, 400);
        assert(after[c] == sat_u64(visited[c] + incoming_mass(movers, c)));
        assert(incoming_mass(movers, c) >= 0);
    }
}

/// Law: one tick never pushes the total of the treasuries' visit mass
/// and the circulating mover mass above where it stood. With the
/// monotone growth of the treasury total, the sum of visit mass over
/// the absorbing cells converges to at most 1 (that is, `SCALE`) over
/// the ticks.
pub proof fn lemma_step_keeps_mass_bound(
    cells: Seq<Cell>,
    jumpy: bool,
    n: u32,
    visited: Seq<u64>,
    movers: Seq<u64>,
)
    requires
        cells.len() == 400,
        visited.len() == 400,
        movers.len() == 1600,
        forall|i: int| 0 <= i < 400 && is_border(i) ==> cells[i] == Cell::Wall,
        absorbed_sum(cells, visited, 400) + mass_sum(movers, 1600) <= SCALE,
    ensures
        absorbed_sum(cells, visited_after_step(visited, movers, 400), 400) + mass_sum(
            next_movers_spec(cells, jumpy, n, movers),
            1600,
        ) <= SCALE,
        absorbed_sum(cells, visited_after_step(visited, movers, 400), 400) <= SCALE,
{
    lemma_step_cells_mass(cells, jumpy, n, movers, 380);
    lemma_budget_le_total(movers, 380);
    lemma_exit_incoming_borders(cells, movers, 0, 20);
    lemma_exit_incoming_borders(cells, movers, 380, 400);
    lemma_absorbed_step(cells, visited, movers, 400);
    lemma_mass_sum_nonneg(next_movers_spec(cells, jumpy, n, movers), 1600);
    lemma_absorbed_sum_nonneg(cells, visited, 400);
}

/// An absorbed sum is never negative.
proof fn lemma_absorbed_sum_nonneg(cells: Seq<Cell>, visited: Seq<u64>, n: int)
    ensures
        absorbed_sum(cells, visited, n) >= 0,
    decreases n,
{
    if n > 0 {
        lemma_absorbed_sum_nonneg(cells, visited, n - 1);
    }
}

/// Whether the field holds at most one entrance cell.
pub open spec fn at_most_one_entrance(cells: Seq<Cell>) -> bool {
    forall|i: int, j: int|
        0 <= i < 400 && 0 <= j < 400 && #[trigger] cells[i] == Cell::Entrance && #[trigger] cells[j]
            == Cell::Entrance ==> i == j
}

/// Just after initialization no treasury carries visit mass.
proof fn lemma_absorbed_after_init(cells: Seq<Cell>, n: int)
    requires
        0 <= n <= 400,
    ensures
        absorbed_sum(cells, visited_after_init(cells, 400), n) == 0,
    decreases n,
{
    if n > 0 {
        lemma_absorbed_after_init(cells, n - 1);
    }
}

/// Seeding one entrance adds at most the policy's probability mass.
proof fn lemma_init_assign_mass(cells: Seq<Cell>, jumpy: bool, m: Seq<u64>, idx: int, k: int)
    requires
        m.len() == 1600,
        0 <= idx < 400,
        0 <= k <= 8,
    ensures
        init_assign(cells, jumpy, m, idx, k).len() == 1600,
        mass_sum(init_assign(cells, jumpy, m, idx, k), 1600) <= mass_sum(m, 1600) + psum(
            cells,
            jumpy,
            idx,
            2,
            0,
            k,
        ),
    decreases k,
{
    lemma_movement_prob_bounded(cells, jumpy, idx, 2, 0);
    lemma_psum_le_scale(cells, jumpy, idx, 2, 0);
    if k > 0 {
        lemma_init_assign_mass(cells, jumpy, m, idx, k - 1);
        let prev = init_assign(cells, jumpy, m, idx, k - 1);
        let dir = k - 1;
        let t = movement_index_core(cells, idx, 2, 0, dir);
        lemma_movement_index_in_range(cells, idx, 2, 0, dir);
        let p = movement_prob_core(cells, jumpy, idx, 2, 0)[dir];
        let e = (dir % 4) * 400 + t;
        lemma_mass_sum_update(prev, e, p as u64, 1600);
    }
}

/// The movers seeded by initialization carry at most one unit of mass,
/// and none at all while no entrance has been seen.
proof fn lemma_init_movers_mass(cells: Seq<Cell>, jumpy: bool, n: int)
    requires
        at_most_one_entrance(cells),
        0 <= n <= 400,
    ensures
        init_movers_upto(cells, jumpy, n).len() == 1600,
        mass_sum(init_movers_upto(cells, jumpy, n), 1600) <= SCALE,
        (forall|c: int| 0 <= c < n ==> !(is_interior(c) && cells[c] == Cell::Entrance))
            ==> mass_sum(init_movers_upto(cells, jumpy, n), 1600) == 0,
    decreases n,
{
    if n <= 0 {
        lemma_zero_movers_mass(1600);
    } else {
        lemma_init_movers_mass(cells, jumpy, n - 1);
        let idx = n - 1;
        if is_interior(idx) && cells[idx] == Cell::Entrance {
            assert(forall|c: int|
                0 <= c < n - 1 ==> !(is_interior(c) && cells[c] == Cell::Entrance));
            lemma_init_assign_mass(
                cells,
                jumpy,
                init_movers_upto(cells, jumpy, n - 1),
                idx,
                8,
            );
            lemma_psum_le_scale(cells, jumpy, idx, 2, 0);
        }
    }
}

/// Law: initialization starts the conserved total below one. Together
/// with the per-tick bound, the visit mass absorbed at the treasuries
/// stays at most 1 (that is, `SCALE`) forever, as long as the field has
/// at most one entrance.
pub proof fn lemma_init_establishes_mass_bound(cells: Seq<Cell>, jumpy: bool)
    requires
        cells.len() == 400,
        at_most_one_entrance(cells),
    ensures
        absorbed_sum(cells, visited_after_init(cells, 400), 400) + mass_sum(
            init_movers_upto(cells, jumpy, 400),
            1600,
        ) <= SCALE,
{
    lemma_absorbed_after_init(cells, 400);
    lemma_init_movers_mass(cells, jumpy, 400);
}

/// The conserved quantity of the simulation: the visit mass absorbed at
/// the treasuries plus the mover mass still circulating never exceeds
/// one (that is, `SCALE`).
pub open spec fn mass_invariant(s: Subway) -> bool {
    absorbed_sum(s.cells_view(), s.visited_view(), 400) + mass_sum(s.movers_view(), 1600) <= SCALE
}

/// Law: on a field with at most one entrance, `init` establishes the
/// mass invariant.
pub proof fn lemma_init_mass_invariant(pre: Subway, post: Subway, jumpy: bool)
    requires
        pre.wf(),
        at_most_one_entrance(pre.cells_view()),
        post.cells_view() == pre.cells_view(),
        post.visited_view() == visited_after_init(pre.cells_view(), 400),
        post.movers_view() == init_movers_upto(pre.cells_view(), jumpy, 400),
    ensures
        mass_invariant(post),
{
    lemma_init_establishes_mass_bound(pre.cells_view(), jumpy);
}

/// Law: `step` preserves the mass invariant, so the treasuries' visit
/// total grows monotonically toward a limit of at most one.
pub proof fn lemma_step_mass_invariant(pre: Subway, post: Subway, n: u32)
    requires
        pre.wf(),
        mass_invariant(pre),
        post.cells_view() == pre.cells_view(),
        post.visited_view() == visited_after_step(pre.visited_view(), pre.movers_view(), 400),
        post.movers_view() == next_movers_spec(
            pre.cells_view(),
            pre.jumpy_mode(),
            n,
            pre.movers_view(),
        ),
    ensures
        mass_invariant(post),
        absorbed_sum(post.cells_view(), post.visited_view(), 400) <= SCALE,
{
    lemma_step_keeps_mass_bound(
        pre.cells_view(),
        pre.jumpy_mode(),
        n,
        pre.visited_view(),
        pre.movers_view(),
    );
}

/// A vector of `n` copies of the cell `c`.
fn filled_cells(n: usize, c: Cell) -> (r: Vec<Cell>)
    ensures
        r@.len() == n,
        forall|i: int| 0 <= i < n ==> r@[i] == c,
{
    let mut v: Vec<Cell> = Vec::new();
    let mut k: usize = 0;
    while k < n
        invariant
            k <= n,
            v@.len() == k,
            forall|i: int| 0 <= i < k ==> v@[i] == c,
        decreases n - k,
    {
        v.push(c);
        k = k + 1;
    }
    v
}

/// A vector of `n` copies of the value `x`.
fn filled_u64(n: usize, x: u64) -> (r: Vec<u64>)
    ensures
        r@.len() == n,
        forall|i: int| 0 <= i < n ==> r@[i] == x,
{
    let mut v: Vec<u64> = Vec::new();
    let mut k: usize = 0;
    while k < n
        invariant
            k <= n,
            v@.len() == k,
            forall|i: int| 0 <= i < k ==> v@[i] == x,
        decreases n - k,
    {
        v.push(x);
        k = k + 1;
    }
    v
}

} // verus!
