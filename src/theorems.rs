use crate::geometry::GroundVec;
use crate::geometry::{cell_index, Waypoint};
use crate::navigation::{
    first_region_holding, lemma_first_region_holding, next_step_result, obstacle_added, rebuilt,
    NavMeshDimensions, NavMeshObstacleTransform, NavRegion,
};
use crate::pathing::{
    connected_pairs, free_cell, in_grid, is_walk, joined_in, king_step, pathing_cells, pathing_joined,
    single_goal_path,
};
use vstd::prelude::*;

verus! {

/// Both region lists have the same grids: present in the same places, with
/// the same cells and the same connected components.
pub open spec fn same_grids(a: Seq<NavRegion>, b: Seq<NavRegion>) -> bool {
    &&& a.len() == b.len()
    &&& forall|i: int|
        0 <= i < a.len() ==> {
            &&& (#[trigger] a[i].grid is Some <==> b[i].grid is Some)
            &&& (a[i].grid matches Some(ga) ==> (b[i].grid matches Some(gb) && pathing_cells(ga) == pathing_cells(gb)
                && pathing_joined(ga) == pathing_joined(gb)))
        }
}

/// Grids rebuilt from the same regions, placements and obstacles are the same.
proof fn lemma_rebuilt_same(a: Seq<NavRegion>, ga: Seq<NavRegion>, b: Seq<NavRegion>, gb: Seq<NavRegion>)
    requires
        a.len() == b.len(),
        forall|i: int| 0 <= i < a.len() ==> #[trigger] a[i].same_data(b[i]),
        rebuilt(a, ga),
        rebuilt(b, gb),
    ensures
        same_grids(ga, gb),
{
    assert forall|i: int| 0 <= i < ga.len() implies {
        &&& (#[trigger] ga[i].grid is Some <==> gb[i].grid is Some)
        &&& (ga[i].grid matches Some(x) ==> (gb[i].grid matches Some(y) && pathing_cells(x) == pathing_cells(y)
            && pathing_joined(x) == pathing_joined(y)))
    } by {
        assert(ga[i].same_data(a[i]));
        assert(ga[i].grid_built());
        assert(gb[i].same_data(b[i]));
        assert(gb[i].grid_built());
        assert(a[i].same_data(b[i]));
    }
}

/// An obstacle assigned to a region that had no obstacles yet blocks, once
/// the grids are rebuilt, exactly its footprint in that region's grid:
/// every cell of the footprint is blocked and no other cell is.
pub proof fn obstacle_blocks_exactly_its_footprint(
    before: Seq<NavRegion>,
    o: NavMeshObstacleTransform,
    placed: Seq<NavRegion>,
    after: Seq<NavRegion>,
    i: int,
)
    requires
        obstacle_added(before, o, placed),
        first_region_holding(before, o.center(), o.center(), 0) == Some(i),
        before[i].obstacles@.len() == 0,
        before[i].dimensions.fits(),
        rebuilt(placed, after),
    ensures
        after[i].grid matches Some(g) && {
            let d = before[i].dimensions;
            &&& pathing_cells(g).len() == d.cols()
            &&& forall|x: int, y: int|
                0 <= x < d.cols() && 0 <= y < d.rows() ==> (#[trigger] pathing_cells(g)[x][y] <==> d.covers(o, x, y))
            &&& (o.area_size_world.x >= 0 && o.area_size_world.z >= 0 && d.cols() >= 1 && d.rows() >= 1
                ==> pathing_cells(g)[d.cell_of(o.center()).0 as int][d.cell_of(o.center()).1 as int])
        },
{
    lemma_first_region_holding(before, o.center(), o.center(), 0);
    let d = before[i].dimensions;
    let obs = placed[i].obstacles@;
    assert(obs =~= seq![o]);
    assert(after[i].same_data(placed[i]) && after[i].grid_built());
    let g = after[i].grid->0;
    assert forall|x: int, y: int| 0 <= x < d.cols() && 0 <= y < d.rows() implies (#[trigger] pathing_cells(g)[x][y]
        <==> d.covers(o, x, y)) by {
        if d.covers(o, x, y) {
            assert(0 <= 0 < obs.len() && d.covers(obs[0], x, y));
        }
    }
    if o.area_size_world.x >= 0 && o.area_size_world.z >= 0 && d.cols() >= 1 && d.rows() >= 1 {
        let ox2 = 2 * o.position_x - d.origin2_x();
        let oz2 = 2 * o.position_z - d.origin2_z();
        lemma_cell_index_monotone(ox2 - o.area_size_world.x, ox2, d.cols());
        lemma_cell_index_monotone(ox2, ox2 + o.area_size_world.x, d.cols());
        lemma_cell_index_monotone(oz2 - o.area_size_world.z, oz2, d.rows());
        lemma_cell_index_monotone(oz2, oz2 + o.area_size_world.z, d.rows());
        lemma_cell_index_in_range(ox2, d.cols());
        lemma_cell_index_in_range(oz2, d.rows());
        let c = d.cell_of(o.center());
        assert(d.covers(o, c.0 as int, c.1 as int));
    }
}

proof fn lemma_cell_index_monotone(a: int, b: int, count: int)
    requires
        a <= b,
    ensures
        cell_index(a, count) <= cell_index(b, count),
{
    if a >= 0 {
        assert(a / 4 <= b / 4) by (nonlinear_arith)
            requires
                0 <= a <= b,
        ;
    }
}

/// An obstacle whose center lies outside every region is dropped: the
/// grids rebuilt after submitting it are the grids rebuilt without it.
pub proof fn obstacle_outside_every_region_changes_nothing(
    before: Seq<NavRegion>,
    o: NavMeshObstacleTransform,
    placed: Seq<NavRegion>,
    without: Seq<NavRegion>,
    with: Seq<NavRegion>,
)
    requires
        forall|i: int| 0 <= i < before.len() ==> !(#[trigger] before[i].dimensions.contains(o.center())),
        obstacle_added(before, o, placed),
        rebuilt(before, without),
        rebuilt(placed, with),
    ensures
        placed == before,
        same_grids(without, with),
{
    lemma_first_region_holding(before, o.center(), o.center(), 0);
    lemma_rebuilt_same(before, without, placed, with);
}

/// Rebuilding twice in a row, with nothing registered or submitted in
/// between, gives the same grids both times.
pub proof fn rebuild_is_idempotent(s0: Seq<NavRegion>, s1: Seq<NavRegion>, s2: Seq<NavRegion>)
    requires
        rebuilt(s0, s1),
        rebuilt(s1, s2),
    ensures
        same_grids(s1, s2),
{
    assert forall|i: int| 0 <= i < s0.len() implies #[trigger] s0[i].same_data(s1[i]) by {
        assert(s1[i].same_data(s0[i]));
    }
    lemma_rebuilt_same(s0, s1, s1, s2);
}

/// A point on a region's edge, `center ± extent / 2` along one axis and
/// within bounds along the other, is inside the region: the bounds include
/// their edges, for obstacle assignment and for path queries alike.
pub proof fn region_edges_are_inside(d: NavMeshDimensions, p: GroundVec)
    requires
        d.area_size_world.x >= 0,
        d.area_size_world.z >= 0,
        2 * p.x == 2 * d.position.x + d.area_size_world.x || 2 * p.x == 2 * d.position.x - d.area_size_world.x,
        2 * d.position.z - d.area_size_world.z <= 2 * p.z <= 2 * d.position.z + d.area_size_world.z,
    ensures
        d.contains(p),
{
}

/// Every cell of a walk that starts below a fully blocked row stays below it.
proof fn lemma_walk_stays_below(cells: Seq<Seq<bool>>, p: Seq<(i32, i32)>, a: (i32, i32), b: (i32, i32), wall: int, j: int)
    requires
        is_walk(cells, p, a, b),
        a.1 < wall,
        forall|x: int| 0 <= x < cells.len() ==> #[trigger] cells[x][wall],
        0 <= j < p.len(),
    ensures
        p[j].1 < wall,
    decreases j,
{
    if j > 0 {
        lemma_walk_stays_below(cells, p, a, b, wall, j - 1);
        assert(free_cell(cells, p[j]));
        if p[j].1 >= wall {
            assert(cells[p[j].0 as int][wall]);
        }
    }
}

/// Every cell of a walk that starts above a fully blocked row stays above it.
proof fn lemma_walk_stays_above(cells: Seq<Seq<bool>>, p: Seq<(i32, i32)>, a: (i32, i32), b: (i32, i32), wall: int, j: int)
    requires
        is_walk(cells, p, a, b),
        a.1 > wall,
        forall|x: int| 0 <= x < cells.len() ==> #[trigger] cells[x][wall],
        0 <= j < p.len(),
    ensures
        p[j].1 > wall,
    decreases j,
{
    if j > 0 {
        lemma_walk_stays_above(cells, p, a, b, wall, j - 1);
        assert(free_cell(cells, p[j]));
        if p[j].1 <= wall {
            assert(cells[p[j].0 as int][wall]);
        }
    }
}

/// A row of blocked cells across the whole width of a region's grid cuts
/// it in two: a query between points whose cells lie on opposite sides of
/// the row finds no next step.
pub proof fn blocked_row_separates(
    regions: Seq<NavRegion>,
    s: GroundVec,
    f: GroundVec,
    i: int,
    wall: int,
    r: Option<Waypoint>,
)
    requires
        first_region_holding(regions, s, f, 0) == Some(i),
        regions[i].grid matches Some(g) && forall|x: int|
            0 <= x < pathing_cells(g).len() ==> #[trigger] pathing_cells(g)[x][wall],
        regions[i].dimensions.cell_of(s).1 < wall < regions[i].dimensions.cell_of(f).1
            || regions[i].dimensions.cell_of(f).1 < wall < regions[i].dimensions.cell_of(s).1,
        next_step_result(regions, s, f, r),
    ensures
        r is None,
{
    let g = regions[i].grid->0;
    let d = regions[i].dimensions;
    let cells = pathing_cells(g);
    if let Some(p) = single_goal_path(cells, d.cell_of(s), d.cell_of(f)) {
        if d.cell_of(s).1 < wall {
            lemma_walk_stays_below(cells, p, d.cell_of(s), d.cell_of(f), wall, p.len() - 1);
        } else {
            lemma_walk_stays_above(cells, p, d.cell_of(s), d.cell_of(f), wall, p.len() - 1);
        }
    }
}

/// One move from `a` toward `b` along an axis.
pub open spec fn toward(a: i32, b: i32) -> i32 {
    if a < b {
        (a + 1) as i32
    } else if a > b {
        (a - 1) as i32
    } else {
        a
    }
}

/// The number of moves between two cells when diagonal moves are allowed.
pub open spec fn moves_between(a: (i32, i32), b: (i32, i32)) -> int {
    let dx = if a.0 >= b.0 { a.0 - b.0 } else { b.0 - a.0 };
    let dy = if a.1 >= b.1 { a.1 - b.1 } else { b.1 - a.1 };
    if dx >= dy {
        dx
    } else {
        dy
    }
}

/// The walk from `a` to `b` that moves toward `b` along both axes at once
/// until it is level with it along one of them.
pub open spec fn direct_walk(a: (i32, i32), b: (i32, i32)) -> Seq<(i32, i32)>
    decreases moves_between(a, b),
{
    if moves_between(a, b) <= 0 {
        seq![a]
    } else {
        seq![a] + direct_walk((toward(a.0, b.0), toward(a.1, b.1)), b)
    }
}

/// In a rectangular grid without blocked cells, the direct walk joins any
/// two of its cells.
proof fn lemma_direct_walk(cells: Seq<Seq<bool>>, rows: int, a: (i32, i32), b: (i32, i32))
    requires
        forall|x: int| 0 <= x < cells.len() ==> #[trigger] cells[x].len() == rows,
        forall|x: int, y: int| 0 <= x < cells.len() && 0 <= y < rows ==> !#[trigger] cells[x][y],
        in_grid(cells, a),
        in_grid(cells, b),
    ensures
        is_walk(cells, direct_walk(a, b), a, b),
    decreases moves_between(a, b),
{
    if moves_between(a, b) > 0 {
        let n = (toward(a.0, b.0), toward(a.1, b.1));
        assert(in_grid(cells, n));
        lemma_direct_walk(cells, rows, n, b);
        let rest = direct_walk(n, b);
        let w = direct_walk(a, b);
        assert(w == seq![a] + rest);
        assert forall|i: int| 1 <= i < w.len() implies #[trigger] free_cell(cells, w[i]) && king_step(w[i - 1], w[i]) by {
            assert(w[i] == rest[i - 1]);
            if i == 1 {
                assert(free_cell(cells, n));
            } else {
                assert(w[i - 1] == rest[i - 2]);
                assert(free_cell(cells, rest[i - 1]) && king_step(rest[i - 2], rest[i - 1]));
            }
        }
        assert(w.last() == rest.last());
    } else {
        assert(a == b);
    }
}

/// A region with no obstacles, once its grid is built, is one connected
/// component: every two of its cells are joined.
pub proof fn open_region_is_one_component(r: NavRegion)
    requires
        r.grid_built(),
        r.obstacles@.len() == 0,
        r.dimensions.fits(),
    ensures
        r.grid matches Some(g) && forall|a: (i32, i32), b: (i32, i32)|
            in_grid(pathing_cells(g), a) && in_grid(pathing_cells(g), b) ==> #[trigger] pathing_joined(g).contains((a, b)),
{
    let g = r.grid->0;
    let cells = pathing_cells(g);
    let d = r.dimensions;
    assert forall|a: (i32, i32), b: (i32, i32)|
        in_grid(cells, a) && in_grid(cells, b) implies #[trigger] pathing_joined(g).contains((a, b)) by {
        assert forall|x: int, y: int| 0 <= x < cells.len() && 0 <= y < d.rows() implies !#[trigger] cells[x][y] by {}
        lemma_direct_walk(cells, d.rows(), a, b);
        assert(joined_in(cells, a, b));
        assert(connected_pairs(cells).contains((a, b)));
    }
}

proof fn lemma_cell_index_in_range(offset2: int, count: int)
    requires
        count >= 1,
    ensures
        0 <= cell_index(offset2, count) < count,
{
}

/// In a region with no obstacles, a query between two points that lie in
/// different cells of the first region holding both gets a next step: the
/// world position of a cell next to the start's cell.
pub proof fn open_region_query_steps(regions: Seq<NavRegion>, s: GroundVec, f: GroundVec, i: int, r: Option<Waypoint>)
    requires
        first_region_holding(regions, s, f, 0) == Some(i),
        regions[i].grid_built(),
        regions[i].obstacles@.len() == 0,
        regions[i].dimensions.fits(),
        regions[i].dimensions.cols() >= 1,
        regions[i].dimensions.rows() >= 1,
        regions[i].dimensions.cell_of(s) != regions[i].dimensions.cell_of(f),
        next_step_result(regions, s, f, r),
    ensures
        r matches Some(w) && exists|c: (i32, i32)|
            #[trigger] king_step(regions[i].dimensions.cell_of(s), c) && w == regions[i].dimensions.world_of(c),
{
    lemma_first_region_holding(regions, s, f, 0);
    let d = regions[i].dimensions;
    let g = regions[i].grid->0;
    let cells = pathing_cells(g);
    let (sc, fc) = (d.cell_of(s), d.cell_of(f));
    lemma_cell_index_in_range(2 * s.x - d.origin2_x(), d.cols());
    lemma_cell_index_in_range(2 * s.z - d.origin2_z(), d.rows());
    lemma_cell_index_in_range(2 * f.x - d.origin2_x(), d.cols());
    lemma_cell_index_in_range(2 * f.z - d.origin2_z(), d.rows());
    assert(in_grid(cells, sc));
    assert(in_grid(cells, fc));
    assert forall|x: int, y: int| 0 <= x < cells.len() && 0 <= y < d.rows() implies !#[trigger] cells[x][y] by {}
    lemma_direct_walk(cells, d.rows(), sc, fc);
    assert(joined_in(cells, sc, fc));
    let p = single_goal_path(cells, sc, fc)->0;
    assert(p.len() >= 2);
    assert(free_cell(cells, p[1]) && king_step(p[0], p[1]));
}

/// A query whose points lie in the first region's bounds, one of them on
/// its edge, is answered in that region.
pub proof fn edge_query_is_held(regions: Seq<NavRegion>, s: GroundVec, f: GroundVec)
    requires
        regions.len() >= 1,
        regions[0].dimensions.area_size_world.z >= 0,
        2 * s.x == 2 * regions[0].dimensions.position.x + regions[0].dimensions.area_size_world.x
            || 2 * s.x == 2 * regions[0].dimensions.position.x - regions[0].dimensions.area_size_world.x,
        2 * regions[0].dimensions.position.z - regions[0].dimensions.area_size_world.z <= 2 * s.z
            <= 2 * regions[0].dimensions.position.z + regions[0].dimensions.area_size_world.z,
        regions[0].dimensions.area_size_world.x >= 0,
        regions[0].dimensions.contains(f),
    ensures
        first_region_holding(regions, s, f, 0) == Some(0int),
{
    region_edges_are_inside(regions[0].dimensions, s);
}

/// `e` is `d` moved by `(2a, 2b)`.
pub open spec fn dims_shifted(d: NavMeshDimensions, e: NavMeshDimensions, a: int, b: int) -> bool {
    &&& e.position.x == d.position.x + 2 * a
    &&& e.position.z == d.position.z + 2 * b
    &&& e.area_size_world == d.area_size_world
    &&& e.x_cells_count == d.x_cells_count
    &&& e.z_cells_count == d.z_cells_count
}

/// `p` is `o` moved by `(2a, 2b)`.
pub open spec fn obstacle_shifted(o: NavMeshObstacleTransform, p: NavMeshObstacleTransform, a: int, b: int) -> bool {
    &&& p.position_x == o.position_x + 2 * a
    &&& p.position_z == o.position_z + 2 * b
    &&& p.area_size_world == o.area_size_world
}

/// `t` is `s` moved by `(2a, 2b)`.
pub open spec fn point_shifted(s: GroundVec, t: GroundVec, a: int, b: int) -> bool {
    t.x == s.x + 2 * a && t.z == s.z + 2 * b
}

/// The second world is the first with every region and obstacle moved by
/// `(2a, 2b)`.
pub open spec fn world_shifted(r1: Seq<NavRegion>, r2: Seq<NavRegion>, a: int, b: int) -> bool {
    &&& r1.len() == r2.len()
    &&& forall|i: int|
        0 <= i < r1.len() ==> {
            &&& #[trigger] dims_shifted(r1[i].dimensions, r2[i].dimensions, a, b)
            &&& r1[i].obstacles@.len() == r2[i].obstacles@.len()
            &&& forall|k: int|
                0 <= k < r1[i].obstacles@.len() ==> #[trigger] obstacle_shifted(
                    r1[i].obstacles@[k],
                    r2[i].obstacles@[k],
                    a,
                    b,
                )
        }
}

proof fn lemma_first_region_shifted(
    r1: Seq<NavRegion>,
    r2: Seq<NavRegion>,
    a: int,
    b: int,
    s: GroundVec,
    f: GroundVec,
    s2: GroundVec,
    f2: GroundVec,
    from: int,
)
    requires
        r1.len() == r2.len(),
        forall|i: int| 0 <= i < r1.len() ==> #[trigger] dims_shifted(r1[i].dimensions, r2[i].dimensions, a, b),
        point_shifted(s, s2, a, b),
        point_shifted(f, f2, a, b),
    ensures
        first_region_holding(r1, s, f, from) == first_region_holding(r2, s2, f2, from),
    decreases r1.len() - from,
{
    if 0 <= from < r1.len() {
        assert(dims_shifted(r1[from].dimensions, r2[from].dimensions, a, b));
        lemma_first_region_shifted(r1, r2, a, b, s, f, s2, f2, from + 1);
    }
}

/// Moving the whole world, and the query, by a vector of even components
/// moves the next step by the same vector (twice it in half units), and
/// keeps a query without a step without one.
pub proof fn shifted_world_shifts_the_step(
    before1: Seq<NavRegion>,
    before2: Seq<NavRegion>,
    a: int,
    b: int,
    g1: Seq<NavRegion>,
    g2: Seq<NavRegion>,
    s: GroundVec,
    f: GroundVec,
    s2: GroundVec,
    f2: GroundVec,
    r1: Option<Waypoint>,
    r2: Option<Waypoint>,
)
    requires
        world_shifted(before1, before2, a, b),
        rebuilt(before1, g1),
        rebuilt(before2, g2),
        point_shifted(s, s2, a, b),
        point_shifted(f, f2, a, b),
        next_step_result(g1, s, f, r1),
        next_step_result(g2, s2, f2, r2),
    ensures
        r1 is None <==> r2 is None,
        r1 matches Some(w1) ==> (r2 matches Some(w2) && w2.x2 == w1.x2 + 4 * a && w2.z2 == w1.z2 + 4 * b),
{
    assert forall|i: int| 0 <= i < g1.len() implies #[trigger] dims_shifted(g1[i].dimensions, g2[i].dimensions, a, b) by {
        assert(g1[i].same_data(before1[i]));
        assert(g2[i].same_data(before2[i]));
        assert(dims_shifted(before1[i].dimensions, before2[i].dimensions, a, b));
    }
    lemma_first_region_shifted(g1, g2, a, b, s, f, s2, f2, 0);
    if let Some(i) = first_region_holding(g1, s, f, 0) {
        lemma_first_region_holding(g1, s, f, 0);
        assert(g1[i].same_data(before1[i]));
        assert(g1[i].grid_built());
        assert(g2[i].same_data(before2[i]));
        assert(g2[i].grid_built());
        assert(dims_shifted(before1[i].dimensions, before2[i].dimensions, a, b));
        let d1 = g1[i].dimensions;
        let d2 = g2[i].dimensions;
        let o1 = g1[i].obstacles@;
        let o2 = g2[i].obstacles@;
        if d1.fits() {
            assert forall|k: int| 0 <= k < o1.len() implies #[trigger] d1.footprint(o1[k]) == d2.footprint(o2[k]) by {
                assert(obstacle_shifted(before1[i].obstacles@[k], before2[i].obstacles@[k], a, b));
            }
            let c1 = d1.baked(o1);
            let c2 = d2.baked(o2);
            assert forall|x: int| 0 <= x < c1.len() implies #[trigger] c1[x] =~= c2[x] by {
                assert forall|y: int| 0 <= y < c1[x].len() implies #[trigger] c1[x][y] == c2[x][y] by {
                    if c1[x][y] {
                        let k = choose|k: int| 0 <= k < o1.len() && d1.covers(o1[k], x, y);
                        assert(d1.footprint(o1[k]) == d2.footprint(o2[k]));
                    }
                    if c2[x][y] {
                        let k = choose|k: int| 0 <= k < o2.len() && d2.covers(o2[k], x, y);
                        assert(d1.footprint(o1[k]) == d2.footprint(o2[k]));
                    }
                }
            }
            assert(c1 =~~= c2);
            assert(d1.cell_of(s) == d2.cell_of(s2));
            assert(d1.cell_of(f) == d2.cell_of(f2));
        }
    }
}

} // verus!
