//! Points of interest gathered into the cells of a grid of 100 metres.

use std::collections::HashMap;
use vstd::prelude::*;

use crate::geo::{GeoPoint, ProjPoint};

verus! {

/// A cell of the grid, given by its centre in the projected plane.
#[derive(Copy, Clone, Debug, PartialEq, Eq, Hash, Structural)]
pub struct GridCell100m {
    /// x coordinate of the centre of the cell, in metres.
    pub x_center: i64,
    /// y coordinate of the centre of the cell, in metres.
    pub y_center: i64,
}

/// A cell and the number of points in it.
#[derive(Copy, Clone, Debug, PartialEq, Eq, Structural)]
pub struct CellWeight {
    pub cell: GridCell100m,
    pub weight: u64,
}

/// The sum of the latitudes of `points`.
pub open spec fn sum_lat(points: Seq<GeoPoint>) -> int
    decreases points.len(),
{
    if points.len() == 0 {
        0
    } else {
        sum_lat(points.drop_last()) + points.last().raw_lat
    }
}

/// The sum of the longitudes of `points`.
pub open spec fn sum_lon(points: Seq<GeoPoint>) -> int
    decreases points.len(),
{
    if points.len() == 0 {
        0
    } else {
        sum_lon(points.drop_last()) + points.last().raw_lon
    }
}

/// The centre of the stretch of 100 metres that holds `coord`: the stretches
/// begin at the multiples of 100, below zero as above it.
pub open spec fn center_of(coord: int) -> int {
    (coord / 100) * 100 + 50
}

/// The cell that holds `point`.
pub open spec fn cell_of(point: ProjPoint) -> GridCell100m {
    GridCell100m {
        x_center: center_of(point.east as int) as i64,
        y_center: center_of(point.north as int) as i64,
    }
}

/// The number of `points` that lie in `cell`.
pub open spec fn points_in(points: Seq<ProjPoint>, cell: GridCell100m) -> nat
    decreases points.len(),
{
    if points.len() == 0 {
        0
    } else if cell_of(points.last()) == cell {
        points_in(points.drop_last(), cell) + 1
    } else {
        points_in(points.drop_last(), cell)
    }
}

/// The sum of the weights of `cells`.
pub open spec fn sum_weights(cells: Seq<CellWeight>) -> nat
    decreases cells.len(),
{
    if cells.len() == 0 {
        0
    } else {
        sum_weights(cells.drop_last()) + cells.last().weight as nat
    }
}

/// With one more point in the cell at position `k`, the weights add up to
/// one more.
proof fn lemma_sum_weights_raised(cells: Seq<CellWeight>, k: int, c: CellWeight)
    requires
        0 <= k < cells.len(),
        c.weight == cells[k].weight + 1,
    ensures
        sum_weights(cells.update(k, c)) == sum_weights(cells) + 1,
    decreases cells.len(),
{
    let raised = cells.update(k, c);
    if k == cells.len() - 1 {
        assert(raised.drop_last() =~= cells.drop_last());
    } else {
        assert(raised.drop_last() =~= cells.drop_last().update(k, c));
        lemma_sum_weights_raised(cells.drop_last(), k, c);
    }
}

/// `cell` is one of the cells of `cells`.
pub open spec fn listed(cells: Seq<CellWeight>, cell: GridCell100m) -> bool {
    exists|k: int| 0 <= k < cells.len() && (#[trigger] cells[k]).cell == cell
}

/// The first point in cell `a` comes before every point in cell `b`.
pub open spec fn comes_before(points: Seq<ProjPoint>, a: GridCell100m, b: GridCell100m) -> bool {
    forall|j: int|
        0 <= j < points.len() && cell_of(#[trigger] points[j]) == b ==> has_before(points, a, j)
}

/// A point in cell `a` comes before the point at position `j`.
pub open spec fn has_before(points: Seq<ProjPoint>, a: GridCell100m, j: int) -> bool {
    exists|i: int| 0 <= i < j && cell_of(#[trigger] points[i]) == a
}

/// A cell holds no more points than there are.
pub proof fn lemma_points_in_bound(points: Seq<ProjPoint>, cell: GridCell100m)
    ensures
        points_in(points, cell) <= points.len(),
    decreases points.len(),
{
    if points.len() > 0 {
        lemma_points_in_bound(points.drop_last(), cell);
    }
}

proof fn lemma_points_in_zero(points: Seq<ProjPoint>, cell: GridCell100m)
    requires
        forall|j: int| 0 <= j < points.len() ==> cell_of(#[trigger] points[j]) != cell,
    ensures
        points_in(points, cell) == 0,
    decreases points.len(),
{
    if points.len() > 0 {
        let front = points.drop_last();
        assert forall|j: int| 0 <= j < front.len() implies cell_of(#[trigger] front[j]) != cell by {
            assert(front[j] == points[j]);
        }
        lemma_points_in_zero(front, cell);
        assert(cell_of(points[points.len() - 1]) != cell);
    }
}

/// Both centres of a cell in one number: each is moved up by 2^63, so that
/// none is below zero, and the first stands 64 bits above the second.
spec fn cell_key(cell: GridCell100m) -> u128 {
    ((cell.x_center + 0x8000_0000_0000_0000) * 0x1_0000_0000_0000_0000 + (cell.y_center
        + 0x8000_0000_0000_0000)) as u128
}

/// Two cells with the same key are the same cell.
proof fn lemma_cell_key_injective(a: GridCell100m, b: GridCell100m)
    requires
        cell_key(a) == cell_key(b),
    ensures
        a == b,
{
}

/// A centre moved up by 2^63.
fn raised(center: i64) -> (r: u128)
    ensures
        r == center + 0x8000_0000_0000_0000,
{
    (center as i128 + 0x8000_0000_0000_0000i128) as u128
}

/// The key of a cell.
fn key_of(cell: GridCell100m) -> (key: u128)
    ensures
        key == cell_key(cell),
{
    raised(cell.x_center) * 0x1_0000_0000_0000_0000u128 + raised(cell.y_center)
}

/// The centre of the stretch of 100 metres that holds `coord`.
fn center(coord: i32) -> (c: i64)
    ensures
        c == center_of(coord as int),
{
    let stretch: i32 = floor_div(coord as i128, 100);
    stretch as i64 * 100 + 50
}

impl GridCell100m {
    /// The cell that holds `point`.
    pub fn from_point3035(point: ProjPoint) -> (cell: Self)
        ensures
            cell == cell_of(point),
    {
        GridCell100m { x_center: center(point.east), y_center: center(point.north) }
    }
}

/// The quotient of `sum` by `n`, rounded down.
fn floor_div(sum: i128, n: i128) -> (q: i32)
    requires
        n > 0,
        -0x8000_0000 * n <= sum <= 0x7fff_ffff * n,
        n <= 0xffff_ffff_ffff_ffff,
    ensures
        q == sum as int / n as int,
{
    proof {
        vstd::arithmetic::div_mod::lemma_fundamental_div_mod(sum as int, n as int);
        let q0 = sum as int / n as int;
        let r0 = sum as int % n as int;
        assert(-0x8000_0000 <= q0 <= 0x7fff_ffff) by (nonlinear_arith)
            requires
                sum == n * q0 + r0,
                0 <= r0 < n,
                -0x8000_0000 * n <= sum <= 0x7fff_ffff * n,
        ;
    }
    if sum >= 0 {
        (sum / n) as i32
    } else {
        let up: i128 = ((-sum) + (n - 1)) / n;
        proof {
            let m = (-sum) + (n - 1);
            let q1 = m as int / n as int;
            let r1 = m as int % n as int;
            vstd::arithmetic::div_mod::lemma_fundamental_div_mod(m as int, n as int);
            assert(sum as int == (-q1) * n + (n - 1 - r1)) by (nonlinear_arith)
                requires
                    m == n * q1 + r1,
                    m == (-sum) + (n - 1),
            ;
            vstd::arithmetic::div_mod::lemma_fundamental_div_mod_converse_div(
                sum as int,
                n as int,
                -q1,
                n - 1 - r1,
            );
        }
        (-up) as i32
    }
}

/// The middle of the nodes of a way: the mean of their latitudes and the
/// mean of their longitudes, each rounded down. A way without nodes has no
/// middle.
pub fn centroid(points: &Vec<GeoPoint>) -> (r: Option<GeoPoint>)
    ensures
        match r {
            Some(c) => points@.len() > 0 && c.raw_lat == sum_lat(points@) / (points@.len() as int)
                && c.raw_lon == sum_lon(points@) / (points@.len() as int),
            None => points@.len() == 0,
        },
{
    if points.len() == 0 {
        return None;
    }
    let mut lat: i128 = 0;
    let mut lon: i128 = 0;
    let mut i: usize = 0;
    while i < points.len()
        invariant
            i <= points@.len(),
            lat == sum_lat(points@.take(i as int)),
            lon == sum_lon(points@.take(i as int)),
            -0x8000_0000 * i <= lat <= 0x7fff_ffff * i,
            -0x8000_0000 * i <= lon <= 0x7fff_ffff * i,
        decreases points.len() - i,
    {
        proof {
            assert(points@.take(i + 1).drop_last() =~= points@.take(i as int));
            assert(points@.take(i + 1).last() == points@[i as int]);
        }
        lat = lat + points[i].raw_lat as i128;
        lon = lon + points[i].raw_lon as i128;
        i += 1;
    }
    proof {
        assert(points@.take(i as int) =~= points@);
    }
    let n: i128 = points.len() as i128;
    Some(GeoPoint { raw_lat: floor_div(lat, n), raw_lon: floor_div(lon, n) })
}

/// Counts the points in each cell of the grid. Each cell that holds a point
/// is listed once, with the number of points in it, so that the weights add
/// up to the number of points; the cells come in the order in which their
/// first points come.
#[verifier::rlimit(50)]
pub fn count_cells(points: &Vec<ProjPoint>) -> (r: Vec<CellWeight>)
    ensures
        sum_weights(r@) == points@.len(),
        forall|k: int|
            0 <= k < r@.len() ==> (#[trigger] r@[k]).weight == points_in(points@, r@[k].cell)
                && r@[k].weight > 0,
        forall|k: int, l: int|
            0 <= k < l < r@.len() ==> (#[trigger] r@[k]).cell != (#[trigger] r@[l]).cell,
        forall|i: int| 0 <= i < points@.len() ==> listed(r@, cell_of(#[trigger] points@[i])),
        forall|k: int, l: int|
            0 <= k < l < r@.len() ==> comes_before(
                points@,
                (#[trigger] r@[k]).cell,
                (#[trigger] r@[l]).cell,
            ),
{
    let mut cells: Vec<CellWeight> = Vec::new();
    let mut index: HashMap<u128, usize> = HashMap::new();
    // for each cell, the position of its first point
    let ghost mut firsts: Seq<int> = Seq::empty();
    let mut i: usize = 0;
    while i < points.len()
        invariant
            i <= points@.len(),
            firsts.len() == cells@.len(),
            sum_weights(cells@) == i,
            forall|k: int|
                0 <= k < firsts.len() ==> 0 <= #[trigger] firsts[k] < i && cell_of(
                    points@[firsts[k]],
                ) == cells@[k].cell,
            forall|k: int, l: int| 0 <= k < l < firsts.len() ==> #[trigger] firsts[k] < #[trigger] firsts[l],
            forall|k: int, j: int|
                0 <= k < cells@.len() && 0 <= j < i && cell_of(#[trigger] points@[j]) == (
                #[trigger] cells@[k]).cell ==> firsts[k] <= j,
            forall|k: int|
                0 <= k < cells@.len() ==> (#[trigger] cells@[k]).weight == points_in(
                    points@.take(i as int),
                    cells@[k].cell,
                ) && cells@[k].weight > 0 && index@.contains_key(cell_key(cells@[k].cell))
                    && index@[cell_key(cells@[k].cell)] == k,
            forall|key: u128| #[trigger]
                index@.contains_key(key) ==> index@[key] < cells@.len() && cell_key(
                    cells@[index@[key] as int].cell,
                ) == key,
            forall|j: int|
                0 <= j < i ==> index@.contains_key(cell_key(cell_of(#[trigger] points@[j]))),
        decreases points.len() - i,
    {
        let cell = GridCell100m::from_point3035(points[i]);
        let key: u128 = key_of(cell);
        let ghost before = cells@;
        let ghost seen = points@.take(i as int);
        let ghost now = points@.take(i + 1);
        proof {
            assert(now.drop_last() =~= seen);
            assert(now.last() == points@[i as int]);
            assert(key == cell_key(cell));
        }
        let found: Option<usize> = match index.get(&key) {
            Some(k) => Some(*k),
            None => None,
        };
        match found {
            Some(k) => {
                proof {
                    lemma_cell_key_injective(cells@[k as int].cell, cell);
                    lemma_points_in_bound(seen, cell);
                }
                let weight: u64 = cells[k].weight + 1;
                cells.set(k, CellWeight { cell, weight });
                proof {
                    lemma_sum_weights_raised(before, k as int, CellWeight { cell, weight });
                    assert forall|l: int| 0 <= l < cells@.len() implies cells@[l].cell
                        == before[l].cell by {
                        if l == k {
                        }
                    }
                    assert forall|l: int| 0 <= l < cells@.len() implies (#[trigger] cells@[l]).weight
                        == points_in(now, cells@[l].cell) && cells@[l].weight > 0
                        && index@.contains_key(cell_key(cells@[l].cell)) && index@[cell_key(
                        cells@[l].cell,
                    )] == l by {
                        if l != k {
                            assert(cells@[l] == before[l]);
                            if before[l].cell == cell {
                                assert(index@[cell_key(before[l].cell)] == l);
                            }
                        }
                    }
                    assert forall|key2: u128| #[trigger] index@.contains_key(key2) implies index@[key2]
                        < cells@.len() && cell_key(cells@[index@[key2] as int].cell) == key2 by {
                        if index@[key2] != k {
                            assert(cells@[index@[key2] as int] == before[index@[key2] as int]);
                        }
                    }
                }
            },
            None => {
                let ghost filed = index@;
                let k: usize = cells.len();
                cells.push(CellWeight { cell, weight: 1 });
                index.insert(key, k);
                proof {
                    firsts = firsts.push(i as int);
                    assert(cells@.drop_last() =~= before);
                    assert forall|l: int| 0 <= l < before.len() implies cells@[l] == before[l] by {}
                    assert forall|j: int| 0 <= j < seen.len() implies cell_of(#[trigger] seen[j])
                        != cell by {
                        assert(seen[j] == points@[j]);
                        assert(filed.contains_key(cell_key(cell_of(points@[j]))));
                    }
                    lemma_points_in_zero(seen, cell);
                    assert forall|l: int| 0 <= l < cells@.len() implies (#[trigger] cells@[l]).weight
                        == points_in(now, cells@[l].cell) && cells@[l].weight > 0
                        && index@.contains_key(cell_key(cells@[l].cell)) && index@[cell_key(
                        cells@[l].cell,
                    )] == l by {
                        if l < k {
                            assert(cells@[l] == before[l]);
                            assert(filed.contains_key(cell_key(before[l].cell)));
                        }
                    }
                    assert forall|key2: u128| #[trigger] index@.contains_key(key2) implies index@[key2]
                        < cells@.len() && cell_key(cells@[index@[key2] as int].cell) == key2 by {
                        if key2 != key {
                            assert(filed.contains_key(key2));
                            assert(cells@[filed[key2] as int] == before[filed[key2] as int]);
                        }
                    }
                }
            },
        }
        i += 1;
    }
    proof {
        assert(points@.take(i as int) =~= points@);
        assert forall|j: int| 0 <= j < points@.len() implies listed(
            cells@,
            cell_of(#[trigger] points@[j]),
        ) by {
            let key = cell_key(cell_of(points@[j]));
            assert(index@.contains_key(key));
            let k = index@[key] as int;
            lemma_cell_key_injective(cells@[k].cell, cell_of(points@[j]));
            assert(cells@[k].cell == cell_of(points@[j]));
        }
        assert forall|k: int, l: int| 0 <= k < l < cells@.len() implies (#[trigger] cells@[k]).cell != (
        #[trigger] cells@[l]).cell by {
            assert(index@[cell_key(cells@[k].cell)] == k);
            assert(index@[cell_key(cells@[l].cell)] == l);
        }
        assert forall|k: int, l: int| 0 <= k < l < cells@.len() implies comes_before(
            points@,
            (#[trigger] cells@[k]).cell,
            (#[trigger] cells@[l]).cell,
        ) by {
            assert forall|j: int|
                0 <= j < points@.len() && cell_of(#[trigger] points@[j])
                    == cells@[l].cell implies has_before(points@, cells@[k].cell, j) by {
                assert(firsts[k] < firsts[l]);
                assert(firsts[l] <= j);
                assert(cell_of(points@[firsts[k]]) == cells@[k].cell);
            }
        }
    }
    cells
}

} // verus!
