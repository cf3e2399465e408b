//! Fitness evaluators: pure functions scoring a dungeon against
//! structural properties.
//!
//! Every score is an integer count; the engine combines them as a
//! weighted sum, so a signed weight decides whether a count rewards or
//! penalizes.

use vstd::prelude::*;

use crate::cell::Cell;
use crate::coords::CoordSet;
use crate::dungeon::Dungeon;

verus! {

/// How many cells in column `x` below row `j` satisfy `p`.
pub open spec fn count_in_col(
    d: Dungeon,
    p: spec_fn(Dungeon, int, int) -> bool,
    x: int,
    j: int,
) -> int
    decreases j,
{
    if j <= 0 {
        0
    } else {
        count_in_col(d, p, x, j - 1) + if p(d, x, j - 1) {
            1int
        } else {
            0int
        }
    }
}

/// How many cells in the first `i` columns satisfy `p`.
pub open spec fn count_cols(d: Dungeon, p: spec_fn(Dungeon, int, int) -> bool, i: int) -> int
    decreases i,
{
    if i <= 0 {
        0
    } else {
        count_cols(d, p, i - 1) + count_in_col(d, p, i - 1, d.height as int)
    }
}

/// A column's count is at most its length.
pub proof fn lemma_count_in_col_bounds(
    d: Dungeon,
    p: spec_fn(Dungeon, int, int) -> bool,
    x: int,
    j: int,
)
    requires
        j >= 0,
    ensures
        0 <= count_in_col(d, p, x, j) <= j,
    decreases j,
{
    if j > 0 {
        lemma_count_in_col_bounds(d, p, x, j - 1);
    }
}

/// The whole count is at most the number of cells counted.
pub proof fn lemma_count_cols_bounds(d: Dungeon, p: spec_fn(Dungeon, int, int) -> bool, i: int)
    requires
        i >= 0,
    ensures
        0 <= count_cols(d, p, i) <= i * d.height,
    decreases i,
{
    if i > 0 {
        lemma_count_cols_bounds(d, p, i - 1);
        lemma_count_in_col_bounds(d, p, i - 1, d.height as int);
        assert((i - 1) * d.height + d.height == i * d.height) by (nonlinear_arith);
    } else {
        assert(i * d.height == 0) by (nonlinear_arith)
            requires
                i == 0,
        ;
    }
}

/// An isolated one-by-one room: a passable cell all of whose in-bounds
/// cardinal neighbors are impassable.
pub open spec fn is_isolated(d: Dungeon, x: int, y: int) -> bool {
    &&& d.cell_at(x, y).is_empty()
    &&& (x > 0 ==> !d.cell_at(x - 1, y).is_empty())
    &&& (x < d.width - 1 ==> !d.cell_at(x + 1, y).is_empty())
    &&& (y > 0 ==> !d.cell_at(x, y - 1).is_empty())
    &&& (y < d.height - 1 ==> !d.cell_at(x, y + 1).is_empty())
}

/// The isolation test, as a value.
pub open spec fn isolated_p() -> spec_fn(Dungeon, int, int) -> bool {
    |d: Dungeon, x: int, y: int| is_isolated(d, x, y)
}

/// How many isolated one-by-one rooms the dungeon has.
pub open spec fn count_1x1(d: Dungeon) -> int {
    count_cols(d, isolated_p(), d.width as int)
}

/// Count the isolated one-by-one rooms: passable cells whose in-bounds
/// cardinal neighbors are all impassable. The count is a penalty; a
/// negative weight encodes that.
pub fn check_1x1_rooms(d: &Dungeon) -> (r: i64)
    requires
        d.wf(),
    ensures
        r == count_1x1(*d),
        r >= 0,
{
    let mut hits: i64 = 0;
    let mut i: usize = 0;
    while i < d.width
        invariant
            d.wf(),
            i <= d.width,
            hits == count_cols(*d, isolated_p(), i as int),
        decreases d.width - i,
    {
        let mut j: usize = 0;
        while j < d.height
            invariant
                d.wf(),
                i < d.width,
                j <= d.height,
                hits == count_cols(*d, isolated_p(), i as int) + count_in_col(
                    *d,
                    isolated_p(),
                    i as int,
                    j as int,
                ),
            decreases d.height - j,
        {
            let x = i as u32;
            let y = j as u32;
            let empty = d.is_empty(x, y);
            let mut surrounded = true;
            if i > 0 && d.is_empty(x - 1, y) {
                surrounded = false;
            }
            if i + 1 < d.width && d.is_empty(x + 1, y) {
                surrounded = false;
            }
            if j > 0 && d.is_empty(x, y - 1) {
                surrounded = false;
            }
            if j + 1 < d.height && d.is_empty(x, y + 1) {
                surrounded = false;
            }
            proof {
                lemma_count_cols_bounds(*d, isolated_p(), i as int);
                lemma_count_in_col_bounds(*d, isolated_p(), i as int, j as int);
                assert((i as int) * d.height <= 0xFFFF * 0xFFFF) by (nonlinear_arith)
                    requires
                        0 <= i as int <= 0xFFFF,
                        0 <= d.height <= 0xFFFF,
                ;
                assert((empty && surrounded) == is_isolated(*d, i as int, j as int));
            }
            if empty && surrounded {
                hits = hits + 1;
            }
            j = j + 1;
        }
        i = i + 1;
    }
    proof {
        lemma_count_cols_bounds(*d, isolated_p(), d.width as int);
    }
    hits
}

/// Whether some cell in column `x` below row `j` carries the tile name.
pub open spec fn tile_in_col_prefix(d: Dungeon, name: Seq<char>, x: int, j: int) -> bool {
    exists|y: int| 0 <= y < j && (#[trigger] d.cell_at(x, y)).has_attribute(name)
}

/// Whether some cell in the first `i` columns carries the tile name.
pub open spec fn tile_in_cols(d: Dungeon, name: Seq<char>, i: int) -> bool {
    exists|x: int| 0 <= x < i && tile_in_col_prefix(d, name, x, d.height as int)
}

/// Whether some cell anywhere carries the tile name.
pub open spec fn has_tile(d: Dungeon, name: Seq<char>) -> bool {
    tile_in_cols(d, name, d.width as int)
}

/// The entrance/exit score: two points when both an entrance and an
/// exit tile exist somewhere, one point when exactly one of them does,
/// nothing when neither does.
pub open spec fn entrance_exit_score(d: Dungeon) -> int {
    let e = has_tile(d, "entrance"@);
    let x = has_tile(d, "exit"@);
    if e && x {
        2
    } else if e || x {
        1
    } else {
        0
    }
}

/// Look for a named tile anywhere on the grid.
fn find_tile(d: &Dungeon, name: &str) -> (r: bool)
    requires
        d.wf(),
    ensures
        r == has_tile(*d, name@),
{
    let mut i: usize = 0;
    while i < d.width
        invariant
            d.wf(),
            i <= d.width,
            !tile_in_cols(*d, name@, i as int),
        decreases d.width - i,
    {
        let mut j: usize = 0;
        while j < d.height
            invariant
                d.wf(),
                i < d.width,
                j <= d.height,
                !tile_in_col_prefix(*d, name@, i as int, j as int),
            decreases d.height - j,
        {
            if d.has_attribute(i as u32, j as u32, name) {
                proof {
                    assert(tile_in_col_prefix(*d, name@, i as int, d.height as int));
                    assert(tile_in_cols(*d, name@, d.width as int));
                }
                return true;
            }
            j = j + 1;
        }
        proof {
            assert forall|x: int| 0 <= x < i + 1 implies !tile_in_col_prefix(
                *d,
                name@,
                x,
                d.height as int,
            ) by {
                if x < i {
                    assert(!tile_in_cols(*d, name@, i as int));
                }
            }
        }
        i = i + 1;
    }
    false
}

/// Score the presence of entrance and exit tiles: two when both exist,
/// one when exactly one does, zero when neither does.
pub fn has_entrance_exit(d: &Dungeon) -> (r: i64)
    requires
        d.wf(),
    ensures
        r == entrance_exit_score(*d),
        0 <= r <= 2,
{
    let e = find_tile(d, "entrance");
    let x = find_tile(d, "exit");
    if e && x {
        2
    } else if e || x {
        1
    } else {
        0
    }
}

/// Whether a cell blocks passage for the door test: no tile at all, or
/// a wall tile.
pub open spec fn wall_or_gap(d: Dungeon, x: int, y: int) -> bool {
    d.cell_at(x, y).tile is None || d.cell_at(x, y).has_attribute("wall"@)
}

/// How many in-bounds cardinal neighbors of `(x, y)` block passage.
pub open spec fn blocked_around(d: Dungeon, x: int, y: int) -> int {
    (if x > 0 && wall_or_gap(d, x - 1, y) {
        1int
    } else {
        0int
    }) + (if x < d.width - 1 && wall_or_gap(d, x + 1, y) {
        1int
    } else {
        0int
    }) + (if y > 0 && wall_or_gap(d, x, y - 1) {
        1int
    } else {
        0int
    }) + (if y < d.height - 1 && wall_or_gap(d, x, y + 1) {
        1int
    } else {
        0int
    })
}

/// A useless door: a door cell that does not sit between exactly two
/// blocking neighbors, as a proper two-sided corridor would have it.
pub open spec fn is_useless_door(d: Dungeon, x: int, y: int) -> bool {
    d.cell_at(x, y).has_attribute("door"@) && blocked_around(d, x, y) != 2
}

/// The useless-door test, as a value.
pub open spec fn useless_door_p() -> spec_fn(Dungeon, int, int) -> bool {
    |d: Dungeon, x: int, y: int| is_useless_door(d, x, y)
}

/// How many useless doors the dungeon has.
pub open spec fn count_useless_doors(d: Dungeon) -> int {
    count_cols(d, useless_door_p(), d.width as int)
}

/// Count the doors that do not sit between exactly two walls or gaps.
/// The count is a penalty; a negative weight encodes that.
pub fn doors_are_useful(d: &Dungeon) -> (r: i64)
    requires
        d.wf(),
    ensures
        r == count_useless_doors(*d),
        r >= 0,
{
    let mut hits: i64 = 0;
    let mut i: usize = 0;
    while i < d.width
        invariant
            d.wf(),
            i <= d.width,
            hits == count_cols(*d, useless_door_p(), i as int),
        decreases d.width - i,
    {
        let mut j: usize = 0;
        while j < d.height
            invariant
                d.wf(),
                i < d.width,
                j <= d.height,
                hits == count_cols(*d, useless_door_p(), i as int) + count_in_col(
                    *d,
                    useless_door_p(),
                    i as int,
                    j as int,
                ),
            decreases d.height - j,
        {
            let x = i as u32;
            let y = j as u32;
            let is_door = d.has_attribute(x, y, "door");
            let mut blocked: u32 = 0;
            if i > 0 && wall_or_gap_exec(d, x - 1, y) {
                blocked = blocked + 1;
            }
            if i + 1 < d.width && wall_or_gap_exec(d, x + 1, y) {
                blocked = blocked + 1;
            }
            if j > 0 && wall_or_gap_exec(d, x, y - 1) {
                blocked = blocked + 1;
            }
            if j + 1 < d.height && wall_or_gap_exec(d, x, y + 1) {
                blocked = blocked + 1;
            }
            proof {
                lemma_count_cols_bounds(*d, useless_door_p(), i as int);
                lemma_count_in_col_bounds(*d, useless_door_p(), i as int, j as int);
                assert((i as int) * d.height <= 0xFFFF * 0xFFFF) by (nonlinear_arith)
                    requires
                        0 <= i as int <= 0xFFFF,
                        0 <= d.height <= 0xFFFF,
                ;
                assert(blocked == blocked_around(*d, i as int, j as int));
                assert((is_door && blocked != 2) == is_useless_door(*d, i as int, j as int));
            }
            if is_door && blocked != 2 {
                hits = hits + 1;
            }
            j = j + 1;
        }
        i = i + 1;
    }
    proof {
        lemma_count_cols_bounds(*d, useless_door_p(), d.width as int);
    }
    hits
}

/// Whether a cell can be walked through: floor or door.
pub fn is_accessible(cell: &Cell) -> (r: bool)
    ensures
        r == (cell@.has_attribute("floor"@) || cell@.has_attribute("door"@)),
{
    cell.has_attribute("floor") || cell.has_attribute("door")
}

/// The blocking test of the door score.
fn wall_or_gap_exec(d: &Dungeon, x: u32, y: u32) -> (r: bool)
    requires
        d.wf(),
        d.in_bounds_spec(x as int, y as int),
    ensures
        r == wall_or_gap(*d, x as int, y as int),
{
    let c = d.get_cell(x, y);
    match &c.tile {
        None => true,
        Some(_) => c.has_attribute("wall"),
    }
}

/// Whether `(x, y)` is an on-grid cell that can be walked through.
pub open spec fn accessible_at(d: Dungeon, x: int, y: int) -> bool {
    d.in_bounds_spec(x, y) && (d.cell_at(x, y).has_attribute("floor"@) || d.cell_at(
        x,
        y,
    ).has_attribute("door"@))
}

/// Whether two coordinates touch, diagonals included.
pub open spec fn adjacent8(a: (int, int), b: (int, int)) -> bool {
    a != b && -1 <= b.0 - a.0 <= 1 && -1 <= b.1 - a.1 <= 1
}

/// A walk over accessible cells, each step to a touching cell.
pub open spec fn is_path(d: Dungeon, p: Seq<(int, int)>) -> bool {
    &&& p.len() >= 1
    &&& (forall|i: int| 0 <= i < p.len() ==> accessible_at(d, (#[trigger] p[i]).0, p[i].1))
    &&& (forall|i: int| 0 <= i < p.len() - 1 ==> adjacent8(#[trigger] p[i], p[i + 1]))
}

/// Whether some walk leads from `a` to `b`.
pub open spec fn connected(d: Dungeon, a: (int, int), b: (int, int)) -> bool {
    exists|p: Seq<(int, int)>| #[trigger] is_path(d, p) && p.first() == a && p.last() == b
}

/// An accessible cell is connected to itself.
pub proof fn lemma_connected_refl(d: Dungeon, a: (int, int))
    requires
        accessible_at(d, a.0, a.1),
    ensures
        connected(d, a, a),
{
    let p = seq![a];
    assert(is_path(d, p));
    assert(p.first() == a && p.last() == a);
}

/// One more accessible, touching cell extends a connection.
pub proof fn lemma_connected_step(d: Dungeon, a: (int, int), b: (int, int), c: (int, int))
    requires
        connected(d, a, b),
        accessible_at(d, c.0, c.1),
        adjacent8(b, c),
    ensures
        connected(d, a, c),
{
    let p = choose|p: Seq<(int, int)>| #[trigger] is_path(d, p) && p.first() == a && p.last() == b;
    let q = p.push(c);
    assert(is_path(d, q)) by {
        assert(forall|i: int| 0 <= i < p.len() ==> q[i] == p[i]);
        assert(q[q.len() - 1] == c);
        assert(forall|i: int|
            0 <= i < q.len() ==> accessible_at(d, (#[trigger] q[i]).0, q[i].1));
        assert forall|i: int| 0 <= i < q.len() - 1 implies adjacent8(#[trigger] q[i], q[i + 1]) by {
            if i < p.len() - 1 {
                assert(adjacent8(p[i], p[i + 1]));
            } else {
                assert(q[i] == p.last() && q[i + 1] == c);
            }
        }
    }
    assert(q.first() == a && q.last() == c);
}

/// Connections run both ways.
pub proof fn lemma_connected_sym(d: Dungeon, a: (int, int), b: (int, int))
    requires
        connected(d, a, b),
    ensures
        connected(d, b, a),
{
    let p = choose|p: Seq<(int, int)>| #[trigger] is_path(d, p) && p.first() == a && p.last() == b;
    let n = p.len() as int;
    let q = Seq::new(p.len(), |i: int| p[n - 1 - i]);
    assert(is_path(d, q)) by {
        assert forall|i: int| 0 <= i < q.len() - 1 implies adjacent8(#[trigger] q[i], q[i + 1]) by {
            assert(q[i] == p[n - 1 - i] && q[i + 1] == p[n - 2 - i]);
            assert(adjacent8(p[n - 2 - i], p[n - 1 - i]));
        }
    }
    assert(q.first() == b && q.last() == a);
}

/// Connections compose.
pub proof fn lemma_connected_trans(d: Dungeon, a: (int, int), b: (int, int), c: (int, int))
    requires
        connected(d, a, b),
        connected(d, b, c),
    ensures
        connected(d, a, c),
{
    let p1 = choose|p: Seq<(int, int)>| #[trigger] is_path(d, p) && p.first() == a && p.last() == b;
    let p2 = choose|p: Seq<(int, int)>| #[trigger] is_path(d, p) && p.first() == b && p.last() == c;
    if p2.len() == 1 {
        assert(b == c);
    } else {
        let q = p1 + p2.subrange(1, p2.len() as int);
        let n1 = p1.len() as int;
        assert(q.len() == n1 + p2.len() - 1);
        assert(forall|i: int| 0 <= i < n1 ==> q[i] == p1[i]);
        assert(forall|i: int| n1 <= i < q.len() ==> q[i] == p2[i - n1 + 1]);
        assert(is_path(d, q)) by {
            assert forall|i: int|
                0 <= i < q.len() implies accessible_at(d, (#[trigger] q[i]).0, q[i].1) by {
                if i < n1 {
                    assert(accessible_at(d, p1[i].0, p1[i].1));
                } else {
                    assert(accessible_at(d, p2[i - n1 + 1].0, p2[i - n1 + 1].1));
                }
            }
            assert forall|i: int| 0 <= i < q.len() - 1 implies adjacent8(
                #[trigger] q[i],
                q[i + 1],
            ) by {
                if i < n1 - 1 {
                    assert(adjacent8(p1[i], p1[i + 1]));
                } else if i == n1 - 1 {
                    assert(q[i] == p1.last() && q[i + 1] == p2[1]);
                    assert(adjacent8(p2[0], p2[1]));
                } else {
                    assert(q[i] == p2[i - n1 + 1] && q[i + 1] == p2[i - n1 + 2]);
                    assert(adjacent8(p2[i - n1 + 1], p2[i - n1 + 2]));
                }
            }
        }
        assert(q.first() == a && q.last() == c);
    }
}

/// Every cell of a walk that starts inside a closed set stays inside:
/// the set swallows each next step.
proof fn lemma_path_stays_in_closed(d: Dungeon, r: Set<(int, int)>, p: Seq<(int, int)>)
    requires
        is_path(d, p),
        r.contains(p.first()),
        forall|s: (int, int), q: (int, int)|
            r.contains(s) && accessible_at(d, q.0, q.1) && #[trigger] adjacent8(s, q)
                ==> r.contains(q),
    ensures
        r.contains(p.last()),
    decreases p.len(),
{
    if p.len() > 1 {
        let prefix = p.drop_last();
        assert(is_path(d, prefix)) by {
            assert(forall|i: int| 0 <= i < prefix.len() ==> prefix[i] == p[i]);
        }
        assert(prefix.first() == p.first());
        lemma_path_stays_in_closed(d, r, prefix);
        assert(prefix.last() == p[p.len() - 2]);
        assert(adjacent8(p[p.len() - 2], p[p.len() - 1]));
        assert(accessible_at(d, p.last().0, p.last().1));
    }
}

/// A set that contains a start cell and is closed under stepping to
/// accessible touching cells contains everything connected to the
/// start.
pub proof fn lemma_closed_contains_reachable(
    d: Dungeon,
    r: Set<(int, int)>,
    start: (int, int),
    b: (int, int),
)
    requires
        r.contains(start),
        forall|s: (int, int), q: (int, int)|
            r.contains(s) && accessible_at(d, q.0, q.1) && #[trigger] adjacent8(s, q)
                ==> r.contains(q),
        connected(d, start, b),
    ensures
        r.contains(b),
{
    let p = choose|p: Seq<(int, int)>|
        #[trigger] is_path(d, p) && p.first() == start && p.last() == b;
    lemma_path_stays_in_closed(d, r, p);
}

/// The coordinates of a `w` by `h` grid.
pub open spec fn grid_coords(w: int, h: int) -> Set<(int, int)> {
    Set::new(|p: (int, int)| 0 <= p.0 < w && 0 <= p.1 < h)
}

/// One column of grid coordinates.
spec fn grid_column(x: int, h: int) -> Set<(int, int)> {
    Set::new(|p: (int, int)| p.0 == x && 0 <= p.1 < h)
}

proof fn lemma_grid_column_card(x: int, h: int)
    requires
        h >= 0,
    ensures
        grid_column(x, h).finite(),
        grid_column(x, h).len() == h,
    decreases h,
{
    if h == 0 {
        assert(grid_column(x, 0) =~= Set::<(int, int)>::empty());
    } else {
        lemma_grid_column_card(x, h - 1);
        assert(grid_column(x, h) =~= grid_column(x, h - 1).insert((x, h - 1)));
    }
}

/// A grid holds exactly `w * h` coordinates.
pub proof fn lemma_grid_coords_card(w: int, h: int)
    requires
        w >= 0,
        h >= 0,
    ensures
        grid_coords(w, h).finite(),
        grid_coords(w, h).len() == w * h,
    decreases w,
{
    if w == 0 {
        assert(grid_coords(0, h) =~= Set::<(int, int)>::empty());
        assert(0 * h == 0) by (nonlinear_arith);
    } else {
        lemma_grid_coords_card(w - 1, h);
        lemma_grid_column_card(w - 1, h);
        assert(grid_coords(w, h) =~= grid_coords(w - 1, h) + grid_column(w - 1, h));
        assert(grid_coords(w - 1, h).disjoint(grid_column(w - 1, h)));
        vstd::set_lib::lemma_set_disjoint_lens(grid_coords(w - 1, h), grid_column(w - 1, h));
        assert((w - 1) * h + h == w * h) by (nonlinear_arith);
    }
}

/// Handle one neighbor of a cell being swept: when it is on the grid,
/// accessible and new, record and queue it.
fn visit_neighbor(
    d: &Dungeon,
    local: &mut CoordSet,
    stack: &mut Vec<(u32, u32)>,
    cx: u32,
    cy: u32,
    dx: i32,
    dy: i32,
    Ghost(start): Ghost<(int, int)>,
    Ghost(vis): Ghost<Set<(int, int)>>,
) -> (pushed: bool)
    requires
        d.wf(),
        old(local).wf(),
        -1 <= dx <= 1,
        -1 <= dy <= 1,
        !(dx == 0 && dy == 0),
        cx <= 0xFFFF,
        cy <= 0xFFFF,
        connected(*d, start, (cx as int, cy as int)),
        forall|p: (int, int)| old(local)@.contains(p) ==> accessible_at(*d, p.0, p.1),
        forall|p: (int, int)|
            old(local)@.contains(p) && !vis.contains(p) ==> connected(*d, start, p),
    ensures
        final(local).wf(),
        old(local)@.subset_of(final(local)@),
        forall|p: (int, int)| final(local)@.contains(p) ==> accessible_at(*d, p.0, p.1),
        forall|p: (int, int)|
            final(local)@.contains(p) && !vis.contains(p) ==> connected(*d, start, p),
        accessible_at(*d, cx + dx, cy + dy) ==> final(local)@.contains(
            (cx + dx as int, cy + dy as int),
        ),
        pushed ==> ({
            &&& final(stack)@.len() == old(stack)@.len() + 1
            &&& final(stack)@ == old(stack)@.push(final(stack)@.last())
            &&& final(stack)@.last().0 as int == cx + dx
            &&& final(stack)@.last().1 as int == cy + dy
            &&& final(stack)@.last().0 <= 0xFFFF
            &&& final(stack)@.last().1 <= 0xFFFF
            &&& final(local)@ == old(local)@.insert((cx + dx as int, cy + dy as int))
            &&& !old(local)@.contains((cx + dx as int, cy + dy as int))
            &&& final(local).elems@.len() == old(local).elems@.len() + 1
            &&& accessible_at(*d, cx + dx, cy + dy)
        }),
        !pushed ==> ({
            &&& final(stack)@ == old(stack)@
            &&& final(local)@ == old(local)@
            &&& final(local).elems@ == old(local).elems@
        }),
{
    let nx = cx as i64 + dx as i64;
    let ny = cy as i64 + dy as i64;
    if nx >= 0 && nx < d.width as i64 && ny >= 0 && ny < d.height as i64 {
        let nu = nx as u32;
        let nv = ny as u32;
        let c = d.get_cell(nu, nv);
        if is_accessible(c) {
            if !local.contains(nu, nv) {
                local.insert(nu, nv);
                stack.push((nu, nv));
                proof {
                    lemma_connected_step(*d, start, (cx as int, cy as int), (nu as int, nv as int));
                }
                return true;
            }
        }
    }
    false
}

/// Handle all eight neighbors of a cell being swept.
fn visit_all_neighbors(
    d: &Dungeon,
    local: &mut CoordSet,
    stack: &mut Vec<(u32, u32)>,
    cx: u32,
    cy: u32,
    Ghost(start): Ghost<(int, int)>,
    Ghost(vis): Ghost<Set<(int, int)>>,
)
    requires
        d.wf(),
        old(local).wf(),
        cx <= 0xFFFF,
        cy <= 0xFFFF,
        vis.subset_of(old(local)@),
        connected(*d, start, (cx as int, cy as int)),
        forall|p: (int, int)| old(local)@.contains(p) ==> accessible_at(*d, p.0, p.1),
        forall|p: (int, int)|
            old(local)@.contains(p) && !vis.contains(p) ==> connected(*d, start, p),
    ensures
        final(local).wf(),
        old(local)@.subset_of(final(local)@),
        vis.subset_of(final(local)@),
        forall|p: (int, int)| final(local)@.contains(p) ==> accessible_at(*d, p.0, p.1),
        forall|p: (int, int)|
            final(local)@.contains(p) && !vis.contains(p) ==> connected(*d, start, p),
        forall|ddx: int, ddy: int|
            -1 <= ddx <= 1 && -1 <= ddy <= 1 && !(ddx == 0 && ddy == 0) && #[trigger] accessible_at(
                *d,
                cx + ddx,
                cy + ddy,
            ) ==> final(local)@.contains((cx + ddx, cy + ddy)),
        final(stack)@.len() >= old(stack)@.len(),
        forall|k: int| 0 <= k < old(stack)@.len() ==> final(stack)@[k] == old(stack)@[k],
        forall|k: int|
            old(stack)@.len() <= k < final(stack)@.len() ==> ({
                &&& final(local)@.contains(
                    ((#[trigger] final(stack)@[k]).0 as int, final(stack)@[k].1 as int),
                )
                &&& !vis.contains((final(stack)@[k].0 as int, final(stack)@[k].1 as int))
                &&& final(stack)@[k].0 <= 0xFFFF
                &&& final(stack)@[k].1 <= 0xFFFF
            }),
        forall|p: (int, int)|
            final(local)@.contains(p) && !old(local)@.contains(p)
                ==> crate::coords::coord_seq_view(final(stack)@).contains(p),
        final(local).elems@.len() - old(local).elems@.len() == final(stack)@.len() - old(
            stack,
        )@.len(),
        final(stack)@.len() - old(stack)@.len() <= 8,
{
    let ghost l0 = local@;
    let ghost l0len = local.elems@.len();
    let ghost s0 = stack@;
    let offs: Vec<(i32, i32)> = vec![
        (0, -1),
        (1, -1),
        (1, 0),
        (1, 1),
        (0, 1),
        (-1, 1),
        (-1, 0),
        (-1, -1),
    ];
    let mut k: usize = 0;
    while k < offs.len()
        invariant
            d.wf(),
            local.wf(),
            k <= offs@.len(),
            offs@.len() == 8,
            forall|i: int|
                0 <= i < 8 ==> -1 <= (#[trigger] offs@[i]).0 <= 1 && -1 <= offs@[i].1 <= 1 && !(
                offs@[i].0 == 0 && offs@[i].1 == 0),
            offs@[0] == (0i32, -1i32) && offs@[1] == (1i32, -1i32) && offs@[2] == (1i32, 0i32)
                && offs@[3] == (1i32, 1i32) && offs@[4] == (0i32, 1i32) && offs@[5] == (
            -1i32,
            1i32,
            ) && offs@[6] == (-1i32, 0i32) && offs@[7] == (-1i32, -1i32),
            cx <= 0xFFFF,
            cy <= 0xFFFF,
            vis.subset_of(l0),
            l0.subset_of(local@),
            l0len <= local.elems@.len(),
            connected(*d, start, (cx as int, cy as int)),
            forall|p: (int, int)| local@.contains(p) ==> accessible_at(*d, p.0, p.1),
            forall|p: (int, int)|
                local@.contains(p) && !vis.contains(p) ==> connected(*d, start, p),
            forall|i: int|
                0 <= i < k && accessible_at(
                    *d,
                    cx + (#[trigger] offs@[i]).0,
                    cy + offs@[i].1,
                ) ==> local@.contains((cx + offs@[i].0, cy + offs@[i].1)),
            stack@.len() >= s0.len(),
            forall|i: int| 0 <= i < s0.len() ==> stack@[i] == s0[i],
            forall|i: int|
                s0.len() <= i < stack@.len() ==> ({
                    &&& local@.contains(((#[trigger] stack@[i]).0 as int, stack@[i].1 as int))
                    &&& !vis.contains((stack@[i].0 as int, stack@[i].1 as int))
                    &&& stack@[i].0 <= 0xFFFF
                    &&& stack@[i].1 <= 0xFFFF
                }),
            forall|p: (int, int)|
                local@.contains(p) && !l0.contains(p) ==> crate::coords::coord_seq_view(
                    stack@,
                ).contains(p),
            local.elems@.len() - l0len == stack@.len() - s0.len(),
            stack@.len() - s0.len() <= k,
        decreases offs@.len() - k,
    {
        let (dx, dy) = offs[k];
        let ghost pre_local = local@;
        let ghost pre_stack = stack@;
        let pushed = visit_neighbor(d, local, stack, cx, cy, dx, dy, Ghost(start), Ghost(vis));
        proof {
            if pushed {
                crate::coords::lemma_coord_push(pre_stack, stack@.last());
                assert(stack@ == pre_stack.push(stack@.last()));
                assert forall|p: (int, int)|
                    local@.contains(p) && !l0.contains(p) implies crate::coords::coord_seq_view(
                    stack@,
                ).contains(p) by {
                    if pre_local.contains(p) {
                        assert(crate::coords::coord_seq_view(pre_stack).contains(p));
                        assert(crate::coords::coord_seq_view(stack@)
                            == crate::coords::coord_seq_view(pre_stack).insert(
                            (stack@.last().0 as int, stack@.last().1 as int),
                        ));
                    } else {
                        assert(p == (cx + dx as int, cy + dy as int));
                        let i = stack@.len() - 1;
                        assert((#[trigger] stack@[i]).0 as int == p.0 && stack@[i].1 as int == p.1);
                    }
                }
            }
        }
        k = k + 1;
    }
    proof {
        assert forall|ddx: int, ddy: int|
            -1 <= ddx <= 1 && -1 <= ddy <= 1 && !(ddx == 0 && ddy == 0) && #[trigger] accessible_at(
                *d,
                cx + ddx,
                cy + ddy,
            ) implies local@.contains((cx + ddx, cy + ddy)) by {
            let i: int = if ddx == 0 && ddy == -1 {
                0
            } else if ddx == 1 && ddy == -1 {
                1
            } else if ddx == 1 && ddy == 0 {
                2
            } else if ddx == 1 && ddy == 1 {
                3
            } else if ddx == 0 && ddy == 1 {
                4
            } else if ddx == -1 && ddy == 1 {
                5
            } else if ddx == -1 && ddy == 0 {
                6
            } else {
                7
            };
            assert(offs@[i].0 == ddx && offs@[i].1 == ddy);
            assert(accessible_at(*d, cx + (offs@[i]).0, cy + offs@[i].1));
        }
    }
}

/// Sweep outward from `(x, y)` over accessible cells, eight directions
/// at a time, and return the visited set grown by everything reached.
/// What is new in the result is exactly connected to the sweep's seed,
/// and nothing new borders an accessible cell left outside.
pub fn search(d: &Dungeon, visited: &CoordSet, x: u32, y: u32) -> (r: CoordSet)
    requires
        d.wf(),
        visited.wf(),
        forall|p: (int, int)| visited@.contains(p) ==> accessible_at(*d, p.0, p.1),
        accessible_at(*d, x as int, y as int),
        !visited@.contains((x as int, y as int)),
    ensures
        r.wf(),
        visited@.subset_of(r@),
        r@.contains((x as int, y as int)),
        forall|p: (int, int)| r@.contains(p) ==> accessible_at(*d, p.0, p.1),
        forall|p: (int, int)|
            r@.contains(p) && !visited@.contains(p) ==> connected(*d, (x as int, y as int), p),
        forall|p: (int, int), q: (int, int)|
            r@.contains(p) && !visited@.contains(p) && accessible_at(*d, q.0, q.1)
                && #[trigger] adjacent8(p, q) ==> r@.contains(q),
{
    let ghost start: (int, int) = (x as int, y as int);
    let ghost vis: Set<(int, int)> = visited@;
    let mut local = visited.clone();
    local.insert(x, y);
    let mut stack: Vec<(u32, u32)> = Vec::new();
    stack.push((x, y));
    proof {
        lemma_connected_refl(*d, start);
        crate::coords::lemma_coord_seq_card(local.elems@);
        lemma_grid_coords_card(d.width as int, d.height as int);
        assert(local@.subset_of(grid_coords(d.width as int, d.height as int)));
        vstd::set_lib::lemma_len_subset(local@, grid_coords(d.width as int, d.height as int));
        assert(crate::coords::coord_seq_view(stack@).contains(start)) by {
            assert((#[trigger] stack@[0]).0 as int == start.0 && stack@[0].1 as int == start.1);
        }
    }
    while stack.len() > 0
        invariant
            d.wf(),
            local.wf(),
            visited.wf(),
            vis == visited@,
            start == (x as int, y as int),
            vis.subset_of(local@),
            local@.contains(start),
            forall|p: (int, int)| local@.contains(p) ==> accessible_at(*d, p.0, p.1),
            forall|p: (int, int)|
                local@.contains(p) && !vis.contains(p) ==> connected(*d, start, p),
            forall|k: int|
                0 <= k < stack@.len() ==> ({
                    &&& local@.contains(((#[trigger] stack@[k]).0 as int, stack@[k].1 as int))
                    &&& !vis.contains((stack@[k].0 as int, stack@[k].1 as int))
                    &&& stack@[k].0 <= 0xFFFF
                    &&& stack@[k].1 <= 0xFFFF
                }),
            forall|p: (int, int)|
                local@.contains(p) && !vis.contains(p) && !crate::coords::coord_seq_view(
                    stack@,
                ).contains(p) ==> (forall|q: (int, int)|
                    accessible_at(*d, q.0, q.1) && #[trigger] adjacent8(p, q) ==> local@.contains(
                        q,
                    )),
            local.elems@.len() <= d.width * d.height,
        decreases 9 * (d.width * d.height - local.elems@.len()) + stack@.len(),
    {
        let ghost pre_local = local@;
        let ghost pre_stack = stack@;
        let top_idx = stack.len() - 1;
        let (cx, cy) = stack[top_idx];
        let _ = stack.pop();
        let ghost popped: (int, int) = (cx as int, cy as int);
        let ghost mid_stack = stack@;
        visit_all_neighbors(d, &mut local, &mut stack, cx, cy, Ghost(start), Ghost(vis));
        proof {
            crate::coords::lemma_coord_seq_card(local.elems@);
            lemma_grid_coords_card(d.width as int, d.height as int);
            assert(local@.subset_of(grid_coords(d.width as int, d.height as int)));
            vstd::set_lib::lemma_len_subset(local@, grid_coords(d.width as int, d.height as int));
            assert forall|p: (int, int)|
                local@.contains(p) && !vis.contains(p) && !crate::coords::coord_seq_view(
                    stack@,
                ).contains(p) implies (forall|q: (int, int)|
                accessible_at(*d, q.0, q.1) && #[trigger] adjacent8(p, q) ==> local@.contains(
                    q,
                )) by {
                if p == popped {
                    assert forall|q: (int, int)|
                        accessible_at(*d, q.0, q.1) && #[trigger] adjacent8(p, q) implies
                        local@.contains(q) by {
                        let ddx = q.0 - popped.0;
                        let ddy = q.1 - popped.1;
                        assert(accessible_at(*d, cx + ddx, cy + ddy));
                        assert(local@.contains((cx + ddx, cy + ddy)));
                        assert((cx + ddx, cy + ddy) == q);
                    }
                } else if !pre_local.contains(p) {
                    assert(crate::coords::coord_seq_view(stack@).contains(p));
                    assert(false);
                } else {
                    if crate::coords::coord_seq_view(pre_stack).contains(p) {
                        let k = choose|k: int|
                            0 <= k < pre_stack.len() && (#[trigger] pre_stack[k]).0 as int == p.0
                                && pre_stack[k].1 as int == p.1;
                        if k == pre_stack.len() - 1 {
                            assert(pre_stack[k] == (cx, cy));
                            assert(p == popped);
                            assert(false);
                        } else {
                            assert(stack@[k] == pre_stack[k]);
                            assert(crate::coords::coord_seq_view(stack@).contains(p));
                            assert(false);
                        }
                    } else {
                        assert forall|q: (int, int)|
                            accessible_at(*d, q.0, q.1) && #[trigger] adjacent8(p, q) implies
                            local@.contains(q) by {
                            assert(pre_local.contains(q));
                        }
                    }
                }
            }
        }
    }
    proof {
        assert forall|p: (int, int), q: (int, int)|
            local@.contains(p) && !visited@.contains(p) && accessible_at(*d, q.0, q.1)
                && #[trigger] adjacent8(p, q) implies local@.contains(q) by {
            assert(!crate::coords::coord_seq_view(stack@).contains(p));
        }
    }
    local
}

/// Whether the dungeon has any accessible cell at all.
pub open spec fn any_accessible(d: Dungeon) -> bool {
    exists|x: int, y: int| #[trigger] accessible_at(d, x, y)
}

/// Whether every accessible cell can be walked to from every other.
pub open spec fn fully_connected(d: Dungeon) -> bool {
    forall|a: (int, int), b: (int, int)|
        #![trigger accessible_at(d, a.0, a.1), accessible_at(d, b.0, b.1)]
        accessible_at(d, a.0, a.1) && accessible_at(d, b.0, b.1) ==> connected(d, a, b)
}

/// The set of all accessible coordinates.
pub open spec fn accessible_set(d: Dungeon) -> Set<(int, int)> {
    Set::new(|p: (int, int)| accessible_at(d, p.0, p.1))
}

/// The accessible coordinates that come before column `i`, row `j`.
spec fn acc_prefix(d: Dungeon, i: int, j: int) -> Set<(int, int)> {
    Set::new(
        |p: (int, int)| accessible_at(d, p.0, p.1) && (p.0 < i || (p.0 == i && p.1 < j)),
    )
}

/// Collect every accessible coordinate of the grid.
fn collect_accessible(d: &Dungeon) -> (floors: CoordSet)
    requires
        d.wf(),
    ensures
        floors.wf(),
        floors@ == accessible_set(*d),
{
    let mut floors = CoordSet::new();
    proof {
        assert(floors@ =~= acc_prefix(*d, 0, 0));
    }
    let mut i: usize = 0;
    while i < d.width
        invariant
            d.wf(),
            i <= d.width,
            floors.wf(),
            floors@ == acc_prefix(*d, i as int, 0),
        decreases d.width - i,
    {
        let mut j: usize = 0;
        while j < d.height
            invariant
                d.wf(),
                i < d.width,
                j <= d.height,
                floors.wf(),
                floors@ == acc_prefix(*d, i as int, j as int),
            decreases d.height - j,
        {
            let c = d.get_cell(i as u32, j as u32);
            if is_accessible(c) {
                floors.insert(i as u32, j as u32);
                proof {
                    assert(floors@ =~= acc_prefix(*d, i as int, j as int + 1));
                }
            } else {
                proof {
                    assert(floors@ =~= acc_prefix(*d, i as int, j as int + 1));
                }
            }
            j = j + 1;
        }
        proof {
            assert(floors@ =~= acc_prefix(*d, i as int + 1, 0));
        }
        i = i + 1;
    }
    proof {
        assert(floors@ =~= accessible_set(*d));
    }
    floors
}

/// Flood the dungeon from cell to cell and count how many separate
/// sweeps it takes: zero when nothing is accessible, one exactly when
/// every accessible cell can be walked to from every other, more when
/// the accessible cells fall apart into separate patches.
pub fn rooms_are_accessible(d: &Dungeon) -> (r: i64)
    requires
        d.wf(),
    ensures
        r >= 0,
        r <= 0xFFFF * 0xFFFF,
        (r == 0) <==> !any_accessible(*d),
        (r == 1) <==> (any_accessible(*d) && fully_connected(*d)),
{
    let floors = collect_accessible(d);
    proof {
        crate::coords::lemma_coord_seq_card(floors.elems@);
        lemma_grid_coords_card(d.width as int, d.height as int);
        assert(floors@.subset_of(grid_coords(d.width as int, d.height as int)));
        vstd::set_lib::lemma_len_subset(floors@, grid_coords(d.width as int, d.height as int));
        assert((d.width as int) * (d.height as int) <= 0xFFFF * 0xFFFF) by (nonlinear_arith)
            requires
                0 <= d.width <= 0xFFFF,
                0 <= d.height <= 0xFFFF,
        ;
    }
    let mut visited = CoordSet::new();
    let mut hits: i64 = 0;
    let ghost mut first_seed: (int, int) = (0int, 0int);
    let ghost mut ga: (int, int) = (0int, 0int);
    let ghost mut gb: (int, int) = (0int, 0int);
    let mut idx: usize = 0;
    while idx < floors.len()
        invariant
            d.wf(),
            visited.wf(),
            floors.wf(),
            floors@ == accessible_set(*d),
            idx <= floors.elems@.len(),
            floors.elems@.len() <= 0xFFFF * 0xFFFF,
            0 <= hits <= idx,
            forall|p: (int, int)| visited@.contains(p) ==> accessible_at(*d, p.0, p.1),
            forall|p: (int, int), q: (int, int)|
                visited@.contains(p) && accessible_at(*d, q.0, q.1) && #[trigger] adjacent8(p, q)
                    ==> visited@.contains(q),
            forall|jj: int|
                0 <= jj < idx ==> visited@.contains(
                    ((#[trigger] floors.elems@[jj]).0 as int, floors.elems@[jj].1 as int),
                ),
            hits == 0 ==> visited@ == Set::<(int, int)>::empty(),
            hits >= 1 ==> accessible_at(*d, first_seed.0, first_seed.1) && visited@.contains(
                first_seed,
            ),
            hits == 1 ==> forall|p: (int, int)|
                visited@.contains(p) ==> connected(*d, first_seed, p),
            hits >= 2 ==> accessible_at(*d, ga.0, ga.1) && accessible_at(*d, gb.0, gb.1)
                && !connected(*d, ga, gb),
        decreases floors.elems@.len() - idx,
    {
        let (fx, fy) = floors.get(idx);
        if !visited.contains(fx, fy) {
            proof {
                assert(accessible_set(*d).contains((fx as int, fy as int)));
            }
            let swept = search(d, &visited, fx, fy);
            proof {
                if hits == 0 {
                    first_seed = (fx as int, fy as int);
                    assert forall|p: (int, int)| swept@.contains(p) implies connected(
                        *d,
                        first_seed,
                        p,
                    ) by {
                        assert(!visited@.contains(p));
                    }
                } else if hits == 1 {
                    ga = first_seed;
                    gb = (fx as int, fy as int);
                    if connected(*d, ga, gb) {
                        lemma_closed_contains_reachable(*d, visited@, ga, gb);
                    }
                }
            }
            visited = swept;
            hits = hits + 1;
        }
        idx = idx + 1;
    }
    proof {
        if hits == 0 {
            assert(!any_accessible(*d)) by {
                if any_accessible(*d) {
                    let (x, y) = choose|x: int, y: int| #[trigger] accessible_at(*d, x, y);
                    assert(accessible_set(*d).contains((x, y)));
                    let k = choose|k: int|
                        0 <= k < floors.elems@.len() && (#[trigger] floors.elems@[k]).0 as int == x
                            && floors.elems@[k].1 as int == y;
                    assert(visited@.contains((x, y)));
                }
            }
        } else {
            assert(any_accessible(*d)) by {
                assert(accessible_at(*d, first_seed.0, first_seed.1));
            }
        }
        if hits == 1 {
            assert(fully_connected(*d)) by {
                assert forall|a: (int, int), b: (int, int)|
                    accessible_at(*d, a.0, a.1) && accessible_at(*d, b.0, b.1) implies connected(
                    *d,
                    a,
                    b,
                ) by {
                    assert(accessible_set(*d).contains(a));
                    let ka = choose|k: int|
                        0 <= k < floors.elems@.len() && (#[trigger] floors.elems@[k]).0 as int
                            == a.0 && floors.elems@[k].1 as int == a.1;
                    assert(visited@.contains(a));
                    assert(accessible_set(*d).contains(b));
                    let kb = choose|k: int|
                        0 <= k < floors.elems@.len() && (#[trigger] floors.elems@[k]).0 as int
                            == b.0 && floors.elems@[k].1 as int == b.1;
                    assert(visited@.contains(b));
                    assert(connected(*d, first_seed, a));
                    assert(connected(*d, first_seed, b));
                    lemma_connected_sym(*d, first_seed, a);
                    lemma_connected_trans(*d, a, first_seed, b);
                }
            }
        }
        if hits >= 2 {
            assert(!fully_connected(*d)) by {
                assert(accessible_at(*d, ga.0, ga.1) && accessible_at(*d, gb.0, gb.1)
                    && !connected(*d, ga, gb));
            }
        }
    }
    hits
}

/// Which structural property an evaluator scores.
#[derive(Clone, Copy, Debug, PartialEq, Eq, Structural)]
pub enum EvalKind {
    Check1x1Rooms,
    HasEntranceExit,
    DoorsAreUseful,
    RoomsAreAccessible,
}

/// Whether `v` is a score the evaluator could return for this dungeon.
/// The first three evaluators are pinned exactly; the sweep count of
/// the connectivity evaluator is pinned in its empty and its fully
/// connected cases and bounded otherwise.
pub open spec fn eval_ok(d: Dungeon, kind: EvalKind, v: int) -> bool {
    match kind {
        EvalKind::Check1x1Rooms => v == count_1x1(d),
        EvalKind::HasEntranceExit => v == entrance_exit_score(d),
        EvalKind::DoorsAreUseful => v == count_useless_doors(d),
        EvalKind::RoomsAreAccessible => {
            &&& 0 <= v <= 0xFFFF * 0xFFFF
            &&& ((v == 0) <==> !any_accessible(d))
            &&& ((v == 1) <==> (any_accessible(d) && fully_connected(d)))
        },
    }
}

/// The weighted sum of the first `n` raw scores.
pub open spec fn weighted_total(vs: Seq<int>, evals: Seq<(EvalKind, i64)>, n: int) -> int
    decreases n,
{
    if n <= 0 {
        0
    } else {
        weighted_total(vs, evals, n - 1) + evals[n - 1].1 * vs[n - 1]
    }
}

/// Whether `total` is a fitness the configured evaluators could award
/// this dungeon: a weighted sum of per-evaluator scores, each of which
/// the corresponding evaluator could return.
pub open spec fn scored(d: Dungeon, evals: Seq<(EvalKind, i64)>, total: int) -> bool {
    exists|vs: Seq<int>|
        #[trigger] vs.len() == evals.len() && (forall|i: int|
            0 <= i < evals.len() ==> #[trigger] eval_ok(d, evals[i].0, vs[i])) && total
            == weighted_total(vs, evals, evals.len() as int)
}

/// Whether an evaluator configuration stays within the engine's
/// arithmetic room: few evaluators, bounded weights.
pub open spec fn evals_wf(evals: Seq<(EvalKind, i64)>) -> bool {
    evals.len() <= 16 && (forall|i: int|
        0 <= i < evals.len() ==> -1000000 <= (#[trigger] evals[i]).1 <= 1000000)
}

/// Run one evaluator.
pub fn run_evaluator(d: &Dungeon, kind: EvalKind) -> (r: i64)
    requires
        d.wf(),
    ensures
        eval_ok(*d, kind, r as int),
        -0x1_0000_0000 <= r <= 0x1_0000_0000,
{
    proof {
        lemma_count_cols_bounds(*d, isolated_p(), d.width as int);
        lemma_count_cols_bounds(*d, useless_door_p(), d.width as int);
        assert((d.width as int) * (d.height as int) <= 0xFFFF * 0xFFFF) by (nonlinear_arith)
            requires
                0 <= d.width <= 0xFFFF,
                0 <= d.height <= 0xFFFF,
        ;
    }
    match kind {
        EvalKind::Check1x1Rooms => check_1x1_rooms(d),
        EvalKind::HasEntranceExit => has_entrance_exit(d),
        EvalKind::DoorsAreUseful => doors_are_useful(d),
        EvalKind::RoomsAreAccessible => rooms_are_accessible(d),
    }
}

/// Score a dungeon with a weighted sum over the configured evaluators.
pub fn weighted_score(d: &Dungeon, evals: &Vec<(EvalKind, i64)>) -> (total: i64)
    requires
        d.wf(),
        evals_wf(evals@),
    ensures
        scored(*d, evals@, total as int),
{
    let mut vs_exec: Vec<i64> = Vec::new();
    let mut total: i64 = 0;
    let mut k: usize = 0;
    while k < evals.len()
        invariant
            d.wf(),
            evals_wf(evals@),
            k <= evals@.len(),
            vs_exec@.len() == k,
            forall|i: int| 0 <= i < k ==> #[trigger] eval_ok(*d, evals@[i].0, vs_exec@[i] as int),
            forall|i: int|
                0 <= i < k ==> -0x1_0000_0000 <= (#[trigger] vs_exec@[i]) <= 0x1_0000_0000,
            total == weighted_total(vs_exec@.map_values(|v: i64| v as int), evals@, k as int),
            -((k as int) * 0x10_0000_0000_0000) <= (total as int) && (total as int) <= (k as int)
                * 0x10_0000_0000_0000,
        decreases evals@.len() - k,
    {
        let v = run_evaluator(d, evals[k].0);
        let w = evals[k].1;
        proof {
            assert(-0x10_0000_0000_0000 <= (w as int) * (v as int) <= 0x10_0000_0000_0000)
                by (nonlinear_arith)
                requires
                    -1000000 <= (w as int) <= 1000000,
                    -0x1_0000_0000 <= (v as int) <= 0x1_0000_0000,
            ;
            assert(((k as int) + 1) * 0x10_0000_0000_0000 == (k as int) * 0x10_0000_0000_0000
                + 0x10_0000_0000_0000) by (nonlinear_arith);
            assert((k as int) * 0x10_0000_0000_0000 <= 16 * 0x10_0000_0000_0000
                && -((k as int) * 0x10_0000_0000_0000) >= -(16 * 0x10_0000_0000_0000))
                by (nonlinear_arith)
                requires
                    0 <= (k as int) <= 16,
            ;
        }
        let ghost pre_vs = vs_exec@.map_values(|vv: i64| vv as int);
        vs_exec.push(v);
        total = total + w * v;
        proof {
            let vs = vs_exec@.map_values(|vv: i64| vv as int);
            assert(vs =~= pre_vs.push(v as int));
            assert(weighted_total(vs, evals@, k as int) == weighted_total(
                pre_vs,
                evals@,
                k as int,
            )) by {
                lemma_weighted_total_prefix(pre_vs, vs, evals@, k as int);
            }
            assert(total == weighted_total(vs, evals@, k as int + 1));
        }
        k = k + 1;
    }
    proof {
        let vs = vs_exec@.map_values(|vv: i64| vv as int);
        assert(vs.len() == evals@.len() && (forall|i: int|
            0 <= i < evals@.len() ==> #[trigger] eval_ok(*d, evals@[i].0, vs[i])) && total as int
            == weighted_total(vs, evals@, evals@.len() as int));
    }
    total
}

/// A weighted prefix sum only reads the scores it covers.
proof fn lemma_weighted_total_prefix(
    vs1: Seq<int>,
    vs2: Seq<int>,
    evals: Seq<(EvalKind, i64)>,
    n: int,
)
    requires
        n <= vs1.len(),
        vs2.len() >= vs1.len(),
        forall|i: int| 0 <= i < vs1.len() ==> vs2[i] == vs1[i],
    ensures
        weighted_total(vs1, evals, n) == weighted_total(vs2, evals, n),
    decreases n,
{
    if n > 0 {
        lemma_weighted_total_prefix(vs1, vs2, evals, n - 1);
    }
}

/// Whether every configured evaluator's score is pinned exactly by the
/// grid contents. The connectivity evaluator's sweep count is pinned
/// only at zero and one, so it is left out here.
pub open spec fn evals_pinned(evals: Seq<(EvalKind, i64)>) -> bool {
    forall|i: int| 0 <= i < evals.len() ==> (#[trigger] evals[i]).0 != EvalKind::RoomsAreAccessible
}

/// Equal grid contents give equal counts, whatever the cell test, as
/// long as the test itself only reads contents.
proof fn lemma_count_in_col_congruent(
    d1: Dungeon,
    d2: Dungeon,
    p1: spec_fn(Dungeon, int, int) -> bool,
    p2: spec_fn(Dungeon, int, int) -> bool,
    x: int,
    j: int,
)
    requires
        forall|a: int, b: int|
            0 <= a < d1.width && 0 <= b < d1.height ==> #[trigger] p1(d1, a, b) == #[trigger] p2(
                d2,
                a,
                b,
            ),
        0 <= x < d1.width,
        j <= d1.height,
    ensures
        count_in_col(d1, p1, x, j) == count_in_col(d2, p2, x, j),
    decreases j,
{
    if j > 0 {
        lemma_count_in_col_congruent(d1, d2, p1, p2, x, j - 1);
    }
}

proof fn lemma_count_cols_congruent(
    d1: Dungeon,
    d2: Dungeon,
    p1: spec_fn(Dungeon, int, int) -> bool,
    p2: spec_fn(Dungeon, int, int) -> bool,
    i: int,
)
    requires
        forall|a: int, b: int|
            0 <= a < d1.width && 0 <= b < d1.height ==> #[trigger] p1(d1, a, b) == #[trigger] p2(
                d2,
                a,
                b,
            ),
        d1.height == d2.height,
        i <= d1.width,
    ensures
        count_cols(d1, p1, i) == count_cols(d2, p2, i),
    decreases i,
{
    if i > 0 {
        lemma_count_cols_congruent(d1, d2, p1, p2, i - 1);
        lemma_count_in_col_congruent(d1, d2, p1, p2, i - 1, d1.height as int);
    }
}

/// Two dungeons with the same contents earn the same score from every
/// evaluator whose score is pinned.
pub proof fn lemma_eval_congruent(d1: Dungeon, d2: Dungeon, kind: EvalKind, v1: int, v2: int)
    requires
        d1.same_contents(d2),
        kind != EvalKind::RoomsAreAccessible,
        eval_ok(d1, kind, v1),
        eval_ok(d2, kind, v2),
    ensures
        v1 == v2,
{
    match kind {
        EvalKind::Check1x1Rooms => {
            assert forall|a: int, b: int|
                0 <= a < d1.width && 0 <= b < d1.height implies #[trigger] isolated_p()(d1, a, b)
                == #[trigger] isolated_p()(d2, a, b) by {
                assert(d1.cell_at(a, b) == d2.cell_at(a, b));
                if a > 0 {
                    assert(d1.cell_at(a - 1, b) == d2.cell_at(a - 1, b));
                }
                if a < d1.width - 1 {
                    assert(d1.cell_at(a + 1, b) == d2.cell_at(a + 1, b));
                }
                if b > 0 {
                    assert(d1.cell_at(a, b - 1) == d2.cell_at(a, b - 1));
                }
                if b < d1.height - 1 {
                    assert(d1.cell_at(a, b + 1) == d2.cell_at(a, b + 1));
                }
            }
            lemma_count_cols_congruent(d1, d2, isolated_p(), isolated_p(), d1.width as int);
        },
        EvalKind::HasEntranceExit => {
            lemma_has_tile_congruent(d1, d2, "entrance"@);
            lemma_has_tile_congruent(d1, d2, "exit"@);
        },
        EvalKind::DoorsAreUseful => {
            assert forall|a: int, b: int|
                0 <= a < d1.width && 0 <= b < d1.height implies #[trigger] useless_door_p()(
                d1,
                a,
                b,
            ) == #[trigger] useless_door_p()(d2, a, b) by {
                assert(d1.cell_at(a, b) == d2.cell_at(a, b));
                if a > 0 {
                    assert(d1.cell_at(a - 1, b) == d2.cell_at(a - 1, b));
                }
                if a < d1.width - 1 {
                    assert(d1.cell_at(a + 1, b) == d2.cell_at(a + 1, b));
                }
                if b > 0 {
                    assert(d1.cell_at(a, b - 1) == d2.cell_at(a, b - 1));
                }
                if b < d1.height - 1 {
                    assert(d1.cell_at(a, b + 1) == d2.cell_at(a, b + 1));
                }
            }
            lemma_count_cols_congruent(d1, d2, useless_door_p(), useless_door_p(), d1.width as int);
        },
        EvalKind::RoomsAreAccessible => {},
    }
}

/// Equal contents show the same named tiles.
proof fn lemma_has_tile_congruent(d1: Dungeon, d2: Dungeon, name: Seq<char>)
    requires
        d1.same_contents(d2),
    ensures
        has_tile(d1, name) == has_tile(d2, name),
{
    if has_tile(d1, name) {
        let x = choose|x: int| 0 <= x < d1.width && #[trigger] tile_in_col_prefix(
            d1,
            name,
            x,
            d1.height as int,
        );
        let y = choose|y: int| 0 <= y < d1.height && (#[trigger] d1.cell_at(x, y)).has_attribute(
            name,
        );
        assert(d1.cell_at(x, y) == d2.cell_at(x, y));
        assert(tile_in_col_prefix(d2, name, x, d2.height as int));
        assert(has_tile(d2, name));
    }
    if has_tile(d2, name) {
        let x = choose|x: int| 0 <= x < d2.width && #[trigger] tile_in_col_prefix(
            d2,
            name,
            x,
            d2.height as int,
        );
        let y = choose|y: int| 0 <= y < d2.height && (#[trigger] d2.cell_at(x, y)).has_attribute(
            name,
        );
        assert(d1.cell_at(x, y) == d2.cell_at(x, y));
        assert(tile_in_col_prefix(d1, name, x, d1.height as int));
        assert(has_tile(d1, name));
    }
}

/// With every evaluator's score pinned, two dungeons with the same
/// contents earn the same total fitness.
pub proof fn lemma_scored_congruent(
    d1: Dungeon,
    d2: Dungeon,
    evals: Seq<(EvalKind, i64)>,
    f1: int,
    f2: int,
)
    requires
        d1.same_contents(d2),
        evals_pinned(evals),
        scored(d1, evals, f1),
        scored(d2, evals, f2),
    ensures
        f1 == f2,
{
    let vs1 = choose|vs: Seq<int>|
        #[trigger] vs.len() == evals.len() && (forall|i: int|
            0 <= i < evals.len() ==> #[trigger] eval_ok(d1, evals[i].0, vs[i])) && f1
            == weighted_total(vs, evals, evals.len() as int);
    let vs2 = choose|vs: Seq<int>|
        #[trigger] vs.len() == evals.len() && (forall|i: int|
            0 <= i < evals.len() ==> #[trigger] eval_ok(d2, evals[i].0, vs[i])) && f2
            == weighted_total(vs, evals, evals.len() as int);
    assert forall|i: int| 0 <= i < evals.len() implies vs1[i] == vs2[i] by {
        lemma_eval_congruent(d1, d2, evals[i].0, vs1[i], vs2[i]);
    }
    assert(vs1 =~= vs2);
}

} // verus!
