use grid_pathfinding::PathingGrid;
use grid_util::point::Point;
use grid_util::ValueGrid;
use vstd::prelude::*;

verus! {

/// Largest number of cells a grid may have, in all and along either axis,
/// to be built and searched. The search adds up path costs (99 at most per
/// cell moved) and estimates (140 at most per cell of width and height) in
/// `i32`, and its set-up walks one cell past each border with `i32`
/// coordinates; under this many cells all of these stay far below
/// `i32::MAX`.
pub const MAX_GRID_CELLS: u64 = 4194304;

#[verifier::external_type_specification]
#[verifier::external_body]
pub struct ExPathingGrid(PathingGrid);

/// What a pathing grid holds: `cells[x][y]` is `true` where column `x`,
/// row `y` is blocked.
pub uninterp spec fn pathing_cells(g: PathingGrid) -> Seq<Seq<bool>>;

/// Which cells the grid's connected components put together: the pair
/// `(a, b)` is in the set when `a` and `b` are in one component.
pub uninterp spec fn pathing_joined(g: PathingGrid) -> Set<((i32, i32), (i32, i32))>;

/// The path that the single-goal search returns on a grid with these cells
/// and with current components.
pub uninterp spec fn single_goal_path(cells: Seq<Seq<bool>>, start: (i32, i32), goal: (i32, i32)) -> Option<Seq<(i32, i32)>>;

/// A `width × height` grid with every cell free.
pub open spec fn all_free(width: int, height: int) -> Seq<Seq<bool>> {
    Seq::new(width as nat, |x: int| Seq::new(height as nat, |y: int| false))
}

/// The grid with every cell of columns `x_lo ..= x_hi` and rows
/// `y_lo ..= y_hi` blocked as well.
pub open spec fn with_rect(cells: Seq<Seq<bool>>, x_lo: int, x_hi: int, y_lo: int, y_hi: int) -> Seq<Seq<bool>> {
    Seq::new(
        cells.len(),
        |x: int|
            Seq::new(cells[x].len(), |y: int| cells[x][y] || (x_lo <= x <= x_hi && y_lo <= y <= y_hi)),
    )
}

/// The number of cells of a rectangular grid.
pub open spec fn cell_count(cells: Seq<Seq<bool>>) -> int {
    if cells.len() == 0 {
        0
    } else {
        (cells.len() * cells[0].len()) as int
    }
}

pub open spec fn in_grid(cells: Seq<Seq<bool>>, c: (i32, i32)) -> bool {
    0 <= c.0 < cells.len() && 0 <= c.1 < cells[c.0 as int].len()
}

pub open spec fn free_cell(cells: Seq<Seq<bool>>, c: (i32, i32)) -> bool {
    in_grid(cells, c) && !cells[c.0 as int][c.1 as int]
}

/// One move to one of the eight neighbouring cells.
pub open spec fn king_step(a: (i32, i32), b: (i32, i32)) -> bool {
    let dx = b.0 - a.0;
    let dy = b.1 - a.1;
    -1 <= dx <= 1 && -1 <= dy <= 1 && (dx != 0 || dy != 0)
}

/// `p` goes from `from` to `to` one neighbouring cell at a time, and every
/// cell it enters is a free cell of the grid.
pub open spec fn is_walk(cells: Seq<Seq<bool>>, p: Seq<(i32, i32)>, from: (i32, i32), to: (i32, i32)) -> bool {
    &&& p.len() >= 1
    &&& p[0] == from
    &&& p.last() == to
    &&& forall|i: int| 1 <= i < p.len() ==> #[trigger] free_cell(cells, p[i]) && king_step(p[i - 1], p[i])
}

pub open spec fn path_view(p: Option<Vec<(i32, i32)>>) -> Option<Seq<(i32, i32)>> {
    match p {
        Some(v) => Some(v@),
        None => None,
    }
}

/// `a` and `b` are cells of the grid and either the same cell, or free
/// cells joined by a walk of free cells.
pub open spec fn joined_in(cells: Seq<Seq<bool>>, a: (i32, i32), b: (i32, i32)) -> bool {
    &&& in_grid(cells, a)
    &&& in_grid(cells, b)
    &&& (a == b || (free_cell(cells, a) && exists|p: Seq<(i32, i32)>| is_walk(cells, p, a, b)))
}

/// The components of a grid with these cells: each free cell with every free
/// cell it can walk to, each blocked cell alone.
pub open spec fn connected_pairs(cells: Seq<Seq<bool>>) -> Set<((i32, i32), (i32, i32))> {
    Set::new(|ab: ((i32, i32), (i32, i32))| joined_in(cells, ab.0, ab.1))
}

/// What holds of the single-goal search from `start` to `goal`: a path is
/// a walk of free cells from `start` to `goal`; there is none when either point
/// is off the grid; there is one exactly when the two are joined; the same
/// cell gives the one-cell path.
pub open spec fn search_outcome(
    cells: Seq<Seq<bool>>,
    start: (i32, i32),
    goal: (i32, i32),
    r: Option<Seq<(i32, i32)>>,
) -> bool {
    &&& (r matches Some(p) ==> is_walk(cells, p, start, goal))
    &&& (!in_grid(cells, start) || !in_grid(cells, goal) ==> r is None)
    &&& (r is Some <==> joined_in(cells, start, goal))
    &&& (start == goal && in_grid(cells, start) ==> r == Some(seq![start]))
}

/// Relies on `PathingGrid::new` (through `ValueGrid`): a grid of the given
/// size with every cell free. Its set-up walks the border with `i32`
/// coordinates and allocates `width * height` cells.
#[verifier::external_body]
pub(crate) fn new_pathing_grid(width: usize, height: usize) -> (g: PathingGrid)
    requires
        width * height <= MAX_GRID_CELLS,
        width <= MAX_GRID_CELLS,
        height <= MAX_GRID_CELLS,
    ensures
        pathing_cells(g) == all_free(width as int, height as int),
{
    PathingGrid::new(width, height, false)
}

/// Relies on `PathingGrid::set` (through `ValueGrid`): the cell becomes
/// blocked and every other cell keeps its state.
#[verifier::external_body]
pub(crate) fn block_cell(g: &mut PathingGrid, x: i32, y: i32)
    requires
        in_grid(pathing_cells(*old(g)), (x, y)),
    ensures
        pathing_cells(*final(g)) == pathing_cells(*old(g)).update(
            x as int,
            pathing_cells(*old(g))[x as int].update(y as int, true),
        ),
{
    g.set(x, y, true)
}

/// Relies on `PathingGrid::generate_components`: it starts every cell in a
/// component of its own and joins each free cell with its free neighbours
/// among the eight, so that the components become the sets of free cells
/// that can walk to each other (and each blocked cell alone); the cells stay
/// as they are.
#[verifier::external_body]
pub(crate) fn regenerate_components(g: &mut PathingGrid)
    ensures
        pathing_cells(*final(g)) == pathing_cells(*old(g)),
        pathing_joined(*final(g)) == connected_pairs(pathing_cells(*old(g))),
{
    g.generate_components()
}

/// Relies on `PathingGrid::get` (through `ValueGrid`): whether a cell is blocked.
#[verifier::external_body]
pub(crate) fn is_blocked(g: &PathingGrid, x: i32, y: i32) -> (r: bool)
    requires
        in_grid(pathing_cells(*g), (x, y)),
    ensures
        r == pathing_cells(*g)[x as int][y as int],
{
    g.get(x, y)
}

/// Relies on `PathingGrid::get_path_single_goal` (not approximate, with
/// the grid's default settings: diagonal moves, heuristic factor 1.0). It
/// answers `None` when the components keep the two cells apart (which
/// includes a cell off the grid), and otherwise runs A* with jump points
/// until the goal is reached, which gives a path moving one neighbouring
/// free cell at a time. With current components the answer
/// depends only on the cells and the two points.
#[verifier::external_body]
pub(crate) fn search_path(g: &PathingGrid, start: (i32, i32), goal: (i32, i32)) -> (r: Option<Vec<(i32, i32)>>)
    requires
        cell_count(pathing_cells(*g)) <= MAX_GRID_CELLS,
        pathing_joined(*g) == connected_pairs(pathing_cells(*g)),
    ensures
        path_view(r) == single_goal_path(pathing_cells(*g), start, goal),
        search_outcome(pathing_cells(*g), start, goal, path_view(r)),
{
    g.get_path_single_goal(Point::new(start.0, start.1), Point::new(goal.0, goal.1), false)
        .map(|p| p.into_iter().map(|q| (q.x, q.y)).collect())
}

} // verus!
