use vstd::prelude::*;

verus! {

/// A cell of the board, by column and row.
#[derive(Clone, Copy, PartialEq, Eq, Structural, Debug, Hash)]
pub struct GridPosition {
    pub x: u32,
    pub y: u32,
}

/// Manhattan distance between two cells.
pub open spec fn distance(a: GridPosition, b: GridPosition) -> nat {
    let dx = if a.x >= b.x { a.x - b.x } else { b.x - a.x };
    let dy = if a.y >= b.y { a.y - b.y } else { b.y - a.y };
    (dx + dy) as nat
}

impl GridPosition {
    pub fn new(x: u32, y: u32) -> (r: GridPosition)
        ensures
            r.x == x,
            r.y == y,
    {
        GridPosition { x, y }
    }

    /// Manhattan distance to `p`.
    pub fn dist(&self, p: &GridPosition) -> (r: u64)
        ensures
            r == distance(*self, *p),
    {
        let dx: u64 = if self.x >= p.x { (self.x - p.x) as u64 } else { (p.x - self.x) as u64 };
        let dy: u64 = if self.y >= p.y { (self.y - p.y) as u64 } else { (p.y - self.y) as u64 };
        dx + dy
    }
}

/// The board's size, fixed at startup.
#[derive(Clone, Copy, PartialEq, Eq, Structural, Debug)]
pub struct GameGrid {
    pub width: u32,
    pub height: u32,
}

/// `p` lies on the board.
pub open spec fn on_grid(grid: GameGrid, p: GridPosition) -> bool {
    p.x < grid.width && p.y < grid.height
}

/// `p` is a cell on the board that a unit at `center` with movement `range` can reach:
/// any other cell at Manhattan distance at most `range`.
pub open spec fn in_movement_range(
    grid: GameGrid,
    center: GridPosition,
    range: u32,
    p: GridPosition,
) -> bool {
    on_grid(grid, p) && 0 < distance(p, center) <= range
}

/// Every cell of the board, column by column.
pub fn grid_positions(grid: GameGrid) -> (r: Vec<GridPosition>)
    ensures
        forall|p: GridPosition| r@.contains(p) <==> on_grid(grid, p),
        r@.no_duplicates(),
{
    cells_where(grid, GridPosition { x: 0, y: 0 }, 0, false)
}

/// The cells a unit at `center` with movement `range` may move to.
pub fn movement_targets(grid: GameGrid, center: GridPosition, range: u32) -> (r: Vec<GridPosition>)
    ensures
        forall|p: GridPosition| r@.contains(p) <==> in_movement_range(grid, center, range, p),
        r@.no_duplicates(),
{
    cells_where(grid, center, range, true)
}

spec fn cell_wanted(grid: GameGrid, center: GridPosition, range: u32, ranged: bool, p: GridPosition) -> bool {
    if ranged {
        in_movement_range(grid, center, range, p)
    } else {
        on_grid(grid, p)
    }
}

spec fn visited_before(p: GridPosition, x: u32, y: u32) -> bool {
    p.x < x || (p.x == x && p.y < y)
}

fn cells_where(grid: GameGrid, center: GridPosition, range: u32, ranged: bool) -> (r: Vec<GridPosition>)
    ensures
        forall|p: GridPosition| r@.contains(p) <==> cell_wanted(grid, center, range, ranged, p),
        r@.no_duplicates(),
{
    let mut r: Vec<GridPosition> = Vec::new();
    let mut x: u32 = 0;
    while x < grid.width
        invariant
            x <= grid.width,
            r@.no_duplicates(),
            forall|p: GridPosition|
                r@.contains(p) <==> (cell_wanted(grid, center, range, ranged, p) && p.x < x),
        decreases grid.width - x,
    {
        let mut y: u32 = 0;
        while y < grid.height
            invariant
                x < grid.width,
                y <= grid.height,
                r@.no_duplicates(),
                forall|p: GridPosition|
                    r@.contains(p) <==> (cell_wanted(grid, center, range, ranged, p)
                        && visited_before(p, x, y)),
            decreases grid.height - y,
        {
            let p = GridPosition { x, y };
            let d = p.dist(&center);
            let want = !ranged || (0 < d && d <= range as u64);
            let ghost prev = r@;
            if want {
                proof {
                    assert(!r@.contains(p));
                }
                let ghost before = r@;
                r.push(p);
                proof {
                    assert forall|q: GridPosition| r@.contains(q) implies before.contains(q) || q == p by {
                        if r@.contains(q) {
                            let k = choose|k: int| 0 <= k < r@.len() && r@[k] == q;
                            if k < before.len() {
                                assert(before[k] == q);
                            }
                        }
                    }
                    assert forall|q: GridPosition| before.contains(q) implies r@.contains(q) by {
                        let k = choose|k: int| 0 <= k < before.len() && before[k] == q;
                        assert(r@[k] == q);
                    }
                    assert(r@[r@.len() - 1] == p);
                }
            }
            proof {
                assert(want == cell_wanted(grid, center, range, ranged, p));
                assert forall|q: GridPosition|
                    r@.contains(q) <==> (cell_wanted(grid, center, range, ranged, q)
                        && visited_before(q, x, (y + 1) as u32)) by {
                    assert(visited_before(q, x, (y + 1) as u32) <==> (visited_before(q, x, y) || q
                        == p));
                    if !want {
                        assert(r@ == prev);
                    }
                }
            }
            y = y + 1;
        }
        x = x + 1;
    }
    r
}

/// Distance is symmetric and zero from a cell to itself.
pub proof fn lemma_distance_symmetric(a: GridPosition, b: GridPosition)
    ensures
        distance(a, b) == distance(b, a),
        distance(a, a) == 0,
{
}

} // verus!
