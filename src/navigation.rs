use crate::geometry::{
    axis_origin2, cell_index, cell_world2, is_within_axis, origin2_on_axis, to_cell, to_world2,
    within_axis, GroundVec, Waypoint, CELL_SIZE,
};
use crate::pathing::{
    block_cell, connected_pairs, in_grid, is_blocked, joined_in, new_pathing_grid, pathing_cells,
    path_view, pathing_joined, regenerate_components, search_outcome, search_path, single_goal_path, with_rect,
    MAX_GRID_CELLS,
};
use grid_pathfinding::PathingGrid;
use vstd::prelude::*;

verus! {

/// Where a navigable region lies in the world, and how finely it is gridded.
#[derive(Clone, Copy, Debug, PartialEq, Eq, Structural)]
pub struct NavMeshDimensions {
    /// Center of the region on the ground plane.
    pub position: GroundVec,
    /// Width (x) and depth (z) of the region.
    pub area_size_world: GroundVec,
    /// Grid columns; a count below one gives an empty grid.
    pub x_cells_count: i32,
    /// Grid rows; a count below one gives an empty grid.
    pub z_cells_count: i32,
}

/// The footprint of one blocking object: its center snapped to whole units,
/// and its size.
#[derive(Clone, Copy, Debug, PartialEq, Eq, Structural)]
pub struct NavMeshObstacleTransform {
    pub position_x: i32,
    pub position_z: i32,
    pub area_size_world: GroundVec,
}

impl NavMeshObstacleTransform {
    pub fn new(position: GroundVec, size: GroundVec) -> (r: NavMeshObstacleTransform)
        ensures
            r.position_x == position.x,
            r.position_z == position.z,
            r.area_size_world == size,
    {
        NavMeshObstacleTransform { position_x: position.x, position_z: position.z, area_size_world: size }
    }

    pub open spec fn center(self) -> GroundVec {
        GroundVec { x: self.position_x, z: self.position_z }
    }

    pub fn center_point(&self) -> (r: GroundVec)
        ensures
            r == self.center(),
    {
        GroundVec::new(self.position_x, self.position_z)
    }
}

/// The number of cells along an axis of the given extent, as
/// `NavMeshDimensions::new` derives it.
pub open spec fn cells_along(extent: int) -> int {
    if extent >= 0 {
        extent / (CELL_SIZE as int)
    } else {
        (-extent) / (CELL_SIZE as int)
    }
}

/// Inclusive cell range `(x_lo, x_hi, z_lo, z_hi)`.
pub type CellRect = (i32, i32, i32, i32);

impl NavMeshDimensions {
    /// A region whose grid has one cell per two world units of its size,
    /// rounded down; a negative size counts by its magnitude.
    pub fn new(position: GroundVec, area_size: GroundVec) -> (r: NavMeshDimensions)
        ensures
            r.position == position,
            r.area_size_world == area_size,
            r.x_cells_count == cells_along(area_size.x as int),
            r.z_cells_count == cells_along(area_size.z as int),
    {
        let sx = area_size.x as i64;
        let sz = area_size.z as i64;
        let x_cells_count: i32 = if sx >= 0 { (sx / CELL_SIZE) as i32 } else { (-sx / CELL_SIZE) as i32 };
        let z_cells_count: i32 = if sz >= 0 { (sz / CELL_SIZE) as i32 } else { (-sz / CELL_SIZE) as i32 };
        NavMeshDimensions { position, area_size_world: area_size, x_cells_count, z_cells_count }
    }

    /// The point lies within the region's world bounds, edges included.
    pub open spec fn contains(self, p: GroundVec) -> bool {
        &&& within_axis(self.position.x as int, self.area_size_world.x as int, p.x as int)
        &&& within_axis(self.position.z as int, self.area_size_world.z as int, p.z as int)
    }

    pub fn contains_point(&self, p: GroundVec) -> (r: bool)
        ensures
            r == self.contains(p),
    {
        is_within_axis(self.position.x, self.area_size_world.x, p.x) && is_within_axis(
            self.position.z,
            self.area_size_world.z,
            p.z,
        )
    }

    pub open spec fn cols(self) -> int {
        if self.x_cells_count > 0 {
            self.x_cells_count as int
        } else {
            0
        }
    }

    pub open spec fn rows(self) -> int {
        if self.z_cells_count > 0 {
            self.z_cells_count as int
        } else {
            0
        }
    }

    /// The grid is small enough to be built and searched.
    pub open spec fn fits(self) -> bool {
        &&& self.cols() <= MAX_GRID_CELLS
        &&& self.rows() <= MAX_GRID_CELLS
        &&& self.cols() * self.rows() <= MAX_GRID_CELLS
    }

    /// Twice the world x of the region's minimum corner.
    pub open spec fn origin2_x(self) -> int {
        axis_origin2(self.position.x as int, self.area_size_world.x as int)
    }

    /// Twice the world z of the region's minimum corner.
    pub open spec fn origin2_z(self) -> int {
        axis_origin2(self.position.z as int, self.area_size_world.z as int)
    }

    /// The cell that holds a world point, each axis from its own offset to
    /// the minimum corner (clamped to the grid; `-1` along an axis without
    /// cells).
    pub open spec fn cell_of(self, p: GroundVec) -> (i32, i32) {
        (
            cell_index(2 * p.x - self.origin2_x(), self.cols()) as i32,
            cell_index(2 * p.z - self.origin2_z(), self.rows()) as i32,
        )
    }

    /// The world position of a cell's minimum corner: the region's minimum
    /// corner plus the cell's index times the cell size, in half units.
    pub open spec fn world_of(self, c: (i32, i32)) -> Waypoint {
        Waypoint {
            x2: cell_world2(self.origin2_x(), c.0 as int) as i64,
            z2: cell_world2(self.origin2_z(), c.1 as int) as i64,
        }
    }

    /// The cells from the one that holds the obstacle's minimum corner to
    /// the one that holds its maximum corner, clamped to the grid.
    pub open spec fn footprint(self, o: NavMeshObstacleTransform) -> (int, int, int, int) {
        let ox2 = 2 * o.position_x - self.origin2_x();
        let oz2 = 2 * o.position_z - self.origin2_z();
        (
            cell_index(ox2 - o.area_size_world.x, self.cols()),
            cell_index(ox2 + o.area_size_world.x, self.cols()),
            cell_index(oz2 - o.area_size_world.z, self.rows()),
            cell_index(oz2 + o.area_size_world.z, self.rows()),
        )
    }

    pub open spec fn covers(self, o: NavMeshObstacleTransform, x: int, y: int) -> bool {
        let f = self.footprint(o);
        f.0 <= x <= f.1 && f.2 <= y <= f.3
    }

    /// The occupancy grid of this region with the given obstacles: a cell is
    /// blocked exactly when some obstacle's footprint covers it.
    pub open spec fn baked(self, obstacles: Seq<NavMeshObstacleTransform>) -> Seq<Seq<bool>> {
        Seq::new(
            self.cols() as nat,
            |x: int|
                Seq::new(
                    self.rows() as nat,
                    |y: int| exists|k: int| 0 <= k < obstacles.len() && self.covers(obstacles[k], x, y),
                ),
        )
    }

    /// Grid size as `usize`, when the grid fits.
    fn grid_size(&self) -> (r: Option<(usize, usize)>)
        ensures
            self.fits() <==> r is Some,
            r matches Some(s) ==> s.0 == self.cols() && s.1 == self.rows(),
    {
        let w: i64 = if self.x_cells_count > 0 { self.x_cells_count as i64 } else { 0 };
        let h: i64 = if self.z_cells_count > 0 { self.z_cells_count as i64 } else { 0 };
        assert(0 <= w * h <= 0x8000_0000 * 0x8000_0000) by (nonlinear_arith)
            requires
                0 <= w <= 0x8000_0000,
                0 <= h <= 0x8000_0000,
        ;
        if w as u64 <= MAX_GRID_CELLS && h as u64 <= MAX_GRID_CELLS && (w * h) as u64 <= MAX_GRID_CELLS {
            Some((w as usize, h as usize))
        } else {
            None
        }
    }

    fn cell_of_point(&self, p: GroundVec) -> (r: (i32, i32))
        ensures
            r == self.cell_of(p),
    {
        let ox2 = origin2_on_axis(self.position.x, self.area_size_world.x);
        let oz2 = origin2_on_axis(self.position.z, self.area_size_world.z);
        let cols: i64 = if self.x_cells_count > 0 { self.x_cells_count as i64 } else { 0 };
        let rows: i64 = if self.z_cells_count > 0 { self.z_cells_count as i64 } else { 0 };
        let cx = to_cell(2 * (p.x as i64) - ox2, cols);
        let cz = to_cell(2 * (p.z as i64) - oz2, rows);
        (cx as i32, cz as i32)
    }

    fn footprint_cells(&self, o: &NavMeshObstacleTransform) -> (r: CellRect)
        requires
            self.cols() >= 1,
            self.rows() >= 1,
        ensures
            r.0 == self.footprint(*o).0,
            r.1 == self.footprint(*o).1,
            r.2 == self.footprint(*o).2,
            r.3 == self.footprint(*o).3,
            0 <= r.0 < self.cols(),
            0 <= r.1 < self.cols(),
            0 <= r.2 < self.rows(),
            0 <= r.3 < self.rows(),
    {
        let ox2 = 2 * o.position_x as i64 - origin2_on_axis(self.position.x, self.area_size_world.x);
        let oz2 = 2 * o.position_z as i64 - origin2_on_axis(self.position.z, self.area_size_world.z);
        let sx = o.area_size_world.x as i64;
        let sz = o.area_size_world.z as i64;
        let cols = self.x_cells_count as i64;
        let rows = self.z_cells_count as i64;
        (
            to_cell(ox2 - sx, cols) as i32,
            to_cell(ox2 + sx, cols) as i32,
            to_cell(oz2 - sz, rows) as i32,
            to_cell(oz2 + sz, rows) as i32,
        )
    }

    fn world_of_cell(&self, c: (i32, i32)) -> (r: Waypoint)
        ensures
            r == self.world_of(c),
    {
        let ox2 = origin2_on_axis(self.position.x, self.area_size_world.x);
        let oz2 = origin2_on_axis(self.position.z, self.area_size_world.z);
        Waypoint { x2: to_world2(ox2, c.0), z2: to_world2(oz2, c.1) }
    }
}

/// The grid is `cols × rows`.
pub open spec fn shaped(cells: Seq<Seq<bool>>, cols: int, rows: int) -> bool {
    cells.len() == cols && forall|x: int| 0 <= x < cols ==> #[trigger] cells[x].len() == rows
}

/// Blocks every cell of an inclusive rectangle of the grid.
fn block_rect(g: &mut PathingGrid, cols: i32, rows: i32, r: CellRect)
    requires
        shaped(pathing_cells(*old(g)), cols as int, rows as int),
        0 <= r.0 && r.1 < cols,
        0 <= r.2 && r.3 < rows,
    ensures
        pathing_cells(*final(g)) == with_rect(pathing_cells(*old(g)), r.0 as int, r.1 as int, r.2 as int, r.3 as int),
{
    let ghost start = pathing_cells(*g);
    let (x_lo, x_hi, y_lo, y_hi) = r;
    let mut x = x_lo;
    assert(start =~~= with_rect(start, x_lo as int, x_lo - 1, y_lo as int, y_hi as int));
    while x <= x_hi
        invariant
            0 <= x_lo <= x,
            x <= x_hi + 1 || x == x_lo,
            x_hi < cols,
            0 <= y_lo,
            y_hi < rows,
            shaped(start, cols as int, rows as int),
            shaped(pathing_cells(*g), cols as int, rows as int),
            pathing_cells(*g) == with_rect(start, x_lo as int, x - 1, y_lo as int, y_hi as int),
        decreases x_hi + 1 - x,
    {
        let ghost col_start = pathing_cells(*g);
        let mut y = y_lo;
        assert(col_start =~~= with_rect(col_start, x as int, x as int, y_lo as int, y_lo - 1));
        while y <= y_hi
            invariant
                0 <= x_lo <= x <= x_hi < cols,
                y_lo <= y,
                y <= y_hi + 1 || y == y_lo,
                0 <= y_lo,
                y_hi < rows,
                shaped(col_start, cols as int, rows as int),
                shaped(pathing_cells(*g), cols as int, rows as int),
                pathing_cells(*g) == with_rect(col_start, x as int, x as int, y_lo as int, y - 1),
            decreases y_hi + 1 - y,
        {
            block_cell(g, x, y);
            assert(shaped(pathing_cells(*g), cols as int, rows as int));
            assert(pathing_cells(*g) =~~= with_rect(col_start, x as int, x as int, y_lo as int, y as int));
            y = y + 1;
        }
        let ghost now = pathing_cells(*g);
        let ghost want = with_rect(start, x_lo as int, x as int, y_lo as int, y_hi as int);
        assert(now.len() == want.len());
        assert forall|i: int| 0 <= i < now.len() implies #[trigger] now[i] =~= want[i] by {
            assert(now[i].len() == want[i].len());
        }
        assert(now =~~= want);
        x = x + 1;
    }
    let ghost now = pathing_cells(*g);
    let ghost want = with_rect(start, x_lo as int, x_hi as int, y_lo as int, y_hi as int);
    assert forall|i: int| 0 <= i < now.len() implies #[trigger] now[i] =~= want[i] by {
        assert(now[i].len() == want[i].len());
    }
    assert(now =~~= want);
}

/// Adding one obstacle blocks its footprint on top of the grid baked so far.
proof fn lemma_baked_push(d: NavMeshDimensions, obstacles: Seq<NavMeshObstacleTransform>, o: NavMeshObstacleTransform)
    ensures
        d.baked(obstacles.push(o)) =~~= with_rect(
            d.baked(obstacles),
            d.footprint(o).0,
            d.footprint(o).1,
            d.footprint(o).2,
            d.footprint(o).3,
        ),
{
    let a = d.baked(obstacles.push(o));
    let b = with_rect(d.baked(obstacles), d.footprint(o).0, d.footprint(o).1, d.footprint(o).2, d.footprint(o).3);
    assert forall|x: int| 0 <= x < a.len() implies #[trigger] a[x] =~= b[x] by {
        assert forall|y: int| 0 <= y < a[x].len() implies #[trigger] a[x][y] == b[x][y] by {
            let pushed = obstacles.push(o);
            if a[x][y] {
                let k = choose|k: int| 0 <= k < pushed.len() && d.covers(pushed[k], x, y);
                if k < obstacles.len() {
                    assert(pushed[k] == obstacles[k]);
                }
            }
            if b[x][y] {
                if d.baked(obstacles)[x][y] {
                    let k = choose|k: int| 0 <= k < obstacles.len() && d.covers(obstacles[k], x, y);
                    assert(pushed[k] == obstacles[k]);
                } else {
                    assert(pushed[obstacles.len() as int] == o);
                }
            }
        }
    }
}

/// A fresh grid for the region with every obstacle's footprint blocked and
/// the connected components recomputed; `None` when the grid is too large.
fn build_grid(d: &NavMeshDimensions, obstacles: &Vec<NavMeshObstacleTransform>) -> (r: Option<PathingGrid>)
    ensures
        d.fits() ==> (r matches Some(g) && pathing_cells(g) == d.baked(obstacles@) && pathing_joined(g)
            == connected_pairs(pathing_cells(g))),
        !d.fits() ==> r is None,
{
    match d.grid_size() {
        None => None,
        Some((w, h)) => {
            let mut g = new_pathing_grid(w, h);
            let cols = w as i32;
            let rows = h as i32;
            if cols >= 1 && rows >= 1 {
                let mut k: usize = 0;
                assert(obstacles@.take(0) =~= Seq::<NavMeshObstacleTransform>::empty());
                assert(pathing_cells(g) =~~= d.baked(obstacles@.take(0)));
                while k < obstacles.len()
                    invariant
                        k <= obstacles@.len(),
                        cols == d.cols(),
                        rows == d.rows(),
                        cols >= 1,
                        rows >= 1,
                        pathing_cells(g) == d.baked(obstacles@.take(k as int)),
                    decreases obstacles.len() - k,
                {
                    let f = d.footprint_cells(&obstacles[k]);
                    assert(shaped(pathing_cells(g), cols as int, rows as int));
                    block_rect(&mut g, cols, rows, f);
                    proof {
                        lemma_baked_push(*d, obstacles@.take(k as int), obstacles@[k as int]);
                        assert(obstacles@.take(k as int).push(obstacles@[k as int]) =~= obstacles@.take(k + 1));
                    }
                    k = k + 1;
                }
                assert(obstacles@.take(k as int) =~= obstacles@);
            } else {
                assert(pathing_cells(g) =~~= d.baked(obstacles@));
            }
            regenerate_components(&mut g);
            Some(g)
        },
    }
}

/// One registered region: its placement, the obstacles assigned to it in
/// the current step, and its grid as last built.
pub struct NavRegion {
    pub id: u128,
    pub dimensions: NavMeshDimensions,
    pub obstacles: Vec<NavMeshObstacleTransform>,
    pub grid: Option<PathingGrid>,
}

impl NavRegion {
    /// The grid reflects the region's current placement and obstacles
    /// (or is absent, for a grid too large to build).
    pub open spec fn grid_built(self) -> bool {
        if self.dimensions.fits() {
            self.grid matches Some(g) && pathing_cells(g) == self.dimensions.baked(self.obstacles@) && pathing_joined(g)
                == connected_pairs(pathing_cells(g))
        } else {
            self.grid is None
        }
    }

    /// A grid that is present has the region's size, that size fits, and
    /// its components are current.
    pub open spec fn grid_sound(self) -> bool {
        self.grid matches Some(g) ==> {
            &&& shaped(pathing_cells(g), self.dimensions.cols(), self.dimensions.rows())
            &&& self.dimensions.fits()
            &&& pathing_joined(g) == connected_pairs(pathing_cells(g))
        }
    }

    /// Same id, placement and obstacles; the grid may differ.
    pub open spec fn same_data(self, other: NavRegion) -> bool {
        &&& self.id == other.id
        &&& self.dimensions == other.dimensions
        &&& self.obstacles@ == other.obstacles@
    }
}

/// The index of the first region, from `from` on, whose bounds hold both points.
pub open spec fn first_region_holding(regions: Seq<NavRegion>, a: GroundVec, b: GroundVec, from: int) -> Option<int>
    decreases regions.len() - from,
{
    if from < 0 || from >= regions.len() {
        None
    } else if regions[from].dimensions.contains(a) && regions[from].dimensions.contains(b) {
        Some(from)
    } else {
        first_region_holding(regions, a, b, from + 1)
    }
}

pub open spec fn ids_unique(regions: Seq<NavRegion>) -> bool {
    forall|i: int, j: int| 0 <= i < j < regions.len() ==> regions[i].id != regions[j].id
}

pub open spec fn regions_wf(regions: Seq<NavRegion>) -> bool {
    &&& ids_unique(regions)
    &&& forall|i: int| 0 <= i < regions.len() ==> #[trigger] regions[i].grid_sound()
}

/// `after` is `before` with every grid rebuilt from the current data.
pub open spec fn rebuilt(before: Seq<NavRegion>, after: Seq<NavRegion>) -> bool {
    &&& after.len() == before.len()
    &&& forall|i: int| 0 <= i < after.len() ==> #[trigger] after[i].same_data(before[i]) && after[i].grid_built()
}

/// `after` is `before` with the region `id` set to `dims` (added at the end
/// when it is new, with no obstacles); grids aside.
pub open spec fn upserted(before: Seq<NavRegion>, id: u128, dims: NavMeshDimensions, after: Seq<NavRegion>) -> bool {
    if exists|i: int| 0 <= i < before.len() && before[i].id == id {
        let i = choose|i: int| 0 <= i < before.len() && before[i].id == id;
        &&& after.len() == before.len()
        &&& after[i].id == id
        &&& after[i].dimensions == dims
        &&& after[i].obstacles@ == before[i].obstacles@
        &&& forall|j: int| 0 <= j < after.len() && j != i ==> #[trigger] after[j].same_data(before[j])
    } else {
        &&& after.len() == before.len() + 1
        &&& forall|j: int| 0 <= j < before.len() ==> #[trigger] after[j].same_data(before[j])
        &&& after.last().id == id
        &&& after.last().dimensions == dims
        &&& after.last().obstacles@.len() == 0
    }
}

/// `after` is `before` with the obstacle appended to the first region that
/// holds its center, or unchanged when no region does.
pub open spec fn obstacle_added(before: Seq<NavRegion>, o: NavMeshObstacleTransform, after: Seq<NavRegion>) -> bool {
    match first_region_holding(before, o.center(), o.center(), 0) {
        None => after == before,
        Some(i) => {
            &&& after.len() == before.len()
            &&& after[i].id == before[i].id
            &&& after[i].dimensions == before[i].dimensions
            &&& after[i].grid == before[i].grid
            &&& after[i].obstacles@ == before[i].obstacles@.push(o)
            &&& forall|j: int| 0 <= j < after.len() && j != i ==> after[j] == before[j]
        },
    }
}

/// The next waypoint a search answer gives: the world position of the
/// path's second cell, if it has one.
pub open spec fn step_toward(d: NavMeshDimensions, q: Option<Seq<(i32, i32)>>) -> Option<Waypoint> {
    match q {
        Some(p) => if p.len() >= 2 {
            Some(d.world_of(p[1]))
        } else {
            None
        },
        None => None,
    }
}

/// What a next-step query from `s` to `f` answers: nothing without a region
/// that holds both points or without its grid; otherwise the step toward
/// the answer of the grid search between the two points' cells, which is a
/// walk of free cells whenever the cells are joined, and nothing when they
/// are not.
pub open spec fn next_step_result(regions: Seq<NavRegion>, s: GroundVec, f: GroundVec, r: Option<Waypoint>) -> bool {
    match first_region_holding(regions, s, f, 0) {
        None => r is None,
        Some(i) => match regions[i].grid {
            None => r is None,
            Some(g) => {
                let d = regions[i].dimensions;
                let cells = pathing_cells(g);
                let q = single_goal_path(cells, d.cell_of(s), d.cell_of(f));
                &&& search_outcome(cells, d.cell_of(s), d.cell_of(f), q)
                &&& r == step_toward(d, q)
            },
        },
    }
}

/// The next waypoint along a search answer for a region: the world
/// position of the path's second cell, or `None` for no path or a path of
/// one cell.
pub fn next_step_from_path(dims: &NavMeshDimensions, path: &Option<Vec<(i32, i32)>>) -> (r: Option<Waypoint>)
    ensures
        r == step_toward(*dims, path_view(*path)),
{
    match path {
        Some(p) => {
            if p.len() >= 2 {
                Some(dims.world_of_cell(p[1]))
            } else {
                None
            }
        },
        None => None,
    }
}

pub proof fn lemma_first_region_holding(regions: Seq<NavRegion>, a: GroundVec, b: GroundVec, from: int)
    requires
        0 <= from,
    ensures
        first_region_holding(regions, a, b, from) matches Some(i) ==> {
            &&& from <= i < regions.len()
            &&& regions[i].dimensions.contains(a)
            &&& regions[i].dimensions.contains(b)
        },
        (forall|j: int| from <= j < regions.len() ==> !(#[trigger] regions[j].dimensions.contains(a)))
            ==> first_region_holding(regions, a, b, from) is None,
    decreases regions.len() - from,
{
    if from < regions.len() {
        lemma_first_region_holding(regions, a, b, from + 1);
    }
}

/// The navigation state of a world: its regions in the order they were
/// first registered, their obstacles for the current step, and their grids.
pub struct Navigation {
    regions: Vec<NavRegion>,
}

impl View for Navigation {
    type V = Seq<NavRegion>;

    closed spec fn view(&self) -> Seq<NavRegion> {
        self.regions@
    }
}

impl Navigation {
    pub open spec fn wf(&self) -> bool {
        regions_wf(self@)
    }

    /// No regions, no obstacles, no grids.
    pub fn new() -> (r: Navigation)
        ensures
            r.wf(),
            r@.len() == 0,
    {
        Navigation { regions: Vec::new() }
    }

    /// The index of the first region whose bounds hold both points.
    fn find_region(&self, a: GroundVec, b: GroundVec) -> (r: Option<usize>)
        ensures
            match r {
                Some(i) => first_region_holding(self@, a, b, 0) == Some(i as int),
                None => first_region_holding(self@, a, b, 0) is None,
            },
    {
        let mut i: usize = 0;
        while i < self.regions.len()
            invariant
                i <= self@.len(),
                first_region_holding(self@, a, b, 0) == first_region_holding(self@, a, b, i as int),
            decreases self@.len() - i,
        {
            let d = &self.regions[i].dimensions;
            if d.contains_point(a) && d.contains_point(b) {
                return Some(i);
            }
            i = i + 1;
        }
        None
    }

    /// The index of the region registered under `id`.
    fn find_id(&self, id: u128) -> (r: Option<usize>)
        ensures
            match r {
                Some(i) => i < self@.len() && self@[i as int].id == id,
                None => forall|j: int| 0 <= j < self@.len() ==> self@[j].id != id,
            },
    {
        let mut i: usize = 0;
        while i < self.regions.len()
            invariant
                i <= self@.len(),
                forall|j: int| 0 <= j < i ==> self@[j].id != id,
            decreases self@.len() - i,
        {
            if self.regions[i].id == id {
                return Some(i);
            }
            i = i + 1;
        }
        None
    }

    /// Stores the region's placement under `id` (replacing an earlier one,
    /// or adding the region at the end), then rebuilds every grid.
    pub fn add_navmesh(&mut self, id: u128, dimensions: NavMeshDimensions)
        requires
            old(self).wf(),
        ensures
            final(self).wf(),
            exists|placed: Seq<NavRegion>|
                upserted(old(self)@, id, dimensions, placed) && #[trigger] rebuilt(placed, final(self)@),
    {
        let ghost before = self@;
        match self.find_id(id) {
            Some(i) => {
                self.regions[i].dimensions = dimensions;
                self.regions[i].grid = None;
                proof {
                    let c = choose|j: int| 0 <= j < before.len() && before[j].id == id;
                    assert(c == i);
                    assert forall|j: int| 0 <= j < self@.len() && j != i implies #[trigger] self@[j].same_data(before[j]) by {
                        assert(self@[j] == before[j]);
                    }
                }
            },
            None => {
                self.regions.push(NavRegion { id, dimensions, obstacles: Vec::new(), grid: None });
                proof {
                    assert forall|j: int| 0 <= j < before.len() implies #[trigger] self@[j].same_data(before[j]) by {
                        assert(self@[j] == before[j]);
                    }
                }
            },
        }
        let ghost placed = self@;
        assert(upserted(before, id, dimensions, placed));
        proof {
            assert forall|j: int| 0 <= j < placed.len() implies #[trigger] placed[j].grid_sound() by {
                if j < before.len() {
                    assert(before[j].grid_sound());
                }
            }
            assert forall|j: int, k: int| 0 <= j < k < placed.len() implies placed[j].id != placed[k].id by {
                if k < before.len() {
                    assert(placed[j].same_data(before[j]) || placed[j].id == id);
                }
            }
        }
        self.create_grids();
    }

    /// Assigns the obstacle to the first region whose bounds hold its
    /// center; drops it when no region does. Grids are not rebuilt.
    pub fn add_obstacle(&mut self, transform: NavMeshObstacleTransform)
        requires
            old(self).wf(),
        ensures
            final(self).wf(),
            obstacle_added(old(self)@, transform, final(self)@),
    {
        let ghost before = self@;
        let c = transform.center_point();
        match self.find_region(c, c) {
            Some(i) => {
                proof {
                    lemma_first_region_holding(self@, c, c, 0);
                }
                self.regions[i].obstacles.push(transform);
                assert forall|j: int| 0 <= j < self@.len() implies #[trigger] self@[j].grid_sound() by {
                    assert(before[j].grid_sound());
                }
                assert forall|j: int, k: int| 0 <= j < k < self@.len() implies self@[j].id != self@[k].id by {
                    assert(before[j].id != before[k].id);
                }
            },
            None => {},
        }
    }

    /// Empties every region's obstacle list, ready for the next step.
    pub fn update(&mut self)
        requires
            old(self).wf(),
        ensures
            final(self).wf(),
            final(self)@.len() == old(self)@.len(),
            forall|i: int| 0 <= i < final(self)@.len() ==> {
                &&& #[trigger] final(self)@[i].id == old(self)@[i].id
                &&& final(self)@[i].dimensions == old(self)@[i].dimensions
                &&& final(self)@[i].grid == old(self)@[i].grid
                &&& final(self)@[i].obstacles@.len() == 0
            },
    {
        let ghost before = self@;
        let mut i: usize = 0;
        while i < self.regions.len()
            invariant
                i <= self@.len(),
                self@.len() == before.len(),
                regions_wf(before),
                forall|j: int| 0 <= j < self@.len() ==> {
                    &&& #[trigger] self@[j].id == before[j].id
                    &&& self@[j].dimensions == before[j].dimensions
                    &&& self@[j].grid == before[j].grid
                },
                forall|j: int| 0 <= j < i ==> (#[trigger] self@[j]).obstacles@.len() == 0,
                forall|j: int| i <= j < self@.len() ==> #[trigger] self@[j] == before[j],
            decreases self@.len() - i,
        {
            self.regions[i].obstacles.clear();
            i = i + 1;
        }
        assert forall|j: int| 0 <= j < self@.len() implies #[trigger] self@[j].grid_sound() by {
            assert(self@[j].id == before[j].id);
            assert(before[j].grid_sound());
        }
    }

    /// The next point to steer toward on the way from `start_world` to
    /// `finish_world`: in the first region that holds both points, the world
    /// position (in half units) of the second cell of the grid path that
    /// the search finds between their cells. `None` when no region holds both, when that
    /// region has no grid, or when the cells are the same or not joined by
    /// free cells.
    pub fn find_next_path_point(&self, start_world: GroundVec, finish_world: GroundVec) -> (r: Option<Waypoint>)
        requires
            self.wf(),
        ensures
            next_step_result(self@, start_world, finish_world, r),
            start_world == finish_world ==> r is None,
            first_region_holding(self@, start_world, finish_world, 0) matches Some(i) ==> (self@[i].grid matches Some(
                g,
            ) ==> {
                let d = self@[i].dimensions;
                let (sc, fc) = (d.cell_of(start_world), d.cell_of(finish_world));
                (r is Some <==> sc != fc && joined_in(pathing_cells(g), sc, fc))
            }),
    {
        let found = self.find_region(start_world, finish_world);
        let i = match found {
            Some(i) => i,
            None => return None,
        };
        proof {
            lemma_first_region_holding(self@, start_world, finish_world, 0);
        }
        let region = &self.regions[i];
        let d = &region.dimensions;
        match &region.grid {
            None => None,
            Some(g) => {
                assert(self@[i as int].grid_sound());
                let ghost cells = pathing_cells(*g);
                let start = d.cell_of_point(start_world);
                let finish = d.cell_of_point(finish_world);
                proof {
                    if cells.len() > 0 {
                        assert(cells[0].len() == d.rows());
                    }
                    assert(d.cols() * d.rows() <= MAX_GRID_CELLS);
                }
                let path = search_path(g, start, finish);
                let r = next_step_from_path(d, &path);
                proof {
                    if let Some(p) = path_view(path) {
                        if start != finish {
                            assert(p.len() >= 2);
                        }
                    }
                }
                r
            },
        }
    }

    /// Whether cell (`x`, `z`) of the grid of region `id` is blocked; `None`
    /// when there is no such region, it has no grid, or the cell is off it.
    pub fn is_cell_blocked(&self, id: u128, x: i32, z: i32) -> (r: Option<bool>)
        requires
            self.wf(),
        ensures
            match r {
                Some(b) => exists|i: int|
                    0 <= i < self@.len() && self@[i].id == id && (#[trigger] self@[i].grid matches Some(g) && in_grid(
                        pathing_cells(g),
                        (x, z),
                    ) && b == pathing_cells(g)[x as int][z as int]),
                None => forall|i: int|
                    0 <= i < self@.len() && self@[i].id == id ==> (#[trigger] self@[i].grid matches Some(g) ==> !in_grid(
                        pathing_cells(g),
                        (x, z),
                    )),
            },
    {
        let i = match self.find_id(id) {
            Some(i) => i,
            None => return None,
        };
        proof {
            assert forall|j: int, k: int| 0 <= j < k < self@.len() implies self@[j].id != self@[k].id by {}
        }
        let region = &self.regions[i];
        match &region.grid {
            None => None,
            Some(g) => {
                assert(self@[i as int].grid_sound());
                let cols = region.dimensions.x_cells_count;
                let rows = region.dimensions.z_cells_count;
                if 0 <= x && x < cols && 0 <= z && z < rows {
                    Some(is_blocked(g, x, z))
                } else {
                    None
                }
            },
        }
    }

    /// Discards every grid and builds each region's grid afresh from its
    /// placement and its obstacles. A region whose grid would exceed
    /// `MAX_GRID_CELLS` (in all, or along either axis) gets no grid, and
    /// queries in it answer `None`.
    pub fn create_grids(&mut self)
        requires
            old(self).wf(),
        ensures
            final(self).wf(),
            rebuilt(old(self)@, final(self)@),
    {
        let ghost before = self@;
        let mut i: usize = 0;
        while i < self.regions.len()
            invariant
                i <= self@.len(),
                self@.len() == before.len(),
                ids_unique(before),
                forall|j: int| 0 <= j < self@.len() ==> #[trigger] self@[j].same_data(before[j]),
                forall|j: int| 0 <= j < i ==> #[trigger] self@[j].grid_built(),
                forall|j: int| i <= j < self@.len() ==> #[trigger] self@[j] == before[j],
            decreases self@.len() - i,
        {
            let g = build_grid(&self.regions[i].dimensions, &self.regions[i].obstacles);
            self.regions[i].grid = g;
            i = i + 1;
        }
        assert forall|j: int| 0 <= j < self@.len() implies #[trigger] self@[j].grid_sound() by {
            assert(self@[j].grid_built());
        }
        assert forall|j: int, k: int| 0 <= j < k < self@.len() implies self@[j].id != self@[k].id by {
            assert(self@[j].same_data(before[j]));
            assert(self@[k].same_data(before[k]));
        }
    }
}

} // verus!
