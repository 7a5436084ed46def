//! The simulation engine: grid, neighbor-count buffer, and the generation
//! rule (births on 3 neighbors, survival on 2 or 3).

use vstd::prelude::*;

verus! {

/// One grid position: its live/dead state and the published count of live
/// cells among its up-to-8 clamped neighbors.
#[derive(Copy, Clone, Debug, PartialEq, Eq, Structural)]
pub struct Cell {
    pub alive: bool,
    pub neighbor_count: u8,
}

/// 1 for a live indicator, 0 for a dead one.
pub open spec fn b2i(b: bool) -> int {
    if b {
        1
    } else {
        0
    }
}

/// Whether position `(x, y)` exists in `g` and holds a live cell.
pub open spec fn alive_at(g: Seq<Seq<Cell>>, x: int, y: int) -> bool {
    &&& 0 <= x < g.len()
    &&& 0 <= y < g[x].len()
    &&& g[x][y].alive
}

/// The number of live cells among the clamped 8-neighborhood of `(x, y)`:
/// positions outside the grid contribute nothing.
pub open spec fn live_nbrs(g: Seq<Seq<Cell>>, x: int, y: int) -> int {
    b2i(alive_at(g, x - 1, y - 1)) + b2i(alive_at(g, x - 1, y)) + b2i(alive_at(g, x - 1, y + 1))
        + b2i(alive_at(g, x, y - 1)) + b2i(alive_at(g, x, y + 1)) + b2i(
        alive_at(g, x + 1, y - 1),
    ) + b2i(alive_at(g, x + 1, y)) + b2i(alive_at(g, x + 1, y + 1))
}

/// Whether `(x, y)` is one of the up-to-8 neighbor positions of `(i, j)`.
pub open spec fn adjacent(x: int, y: int, i: int, j: int) -> bool {
    &&& i - 1 <= x <= i + 1
    &&& j - 1 <= y <= j + 1
    &&& !(x == i && y == j)
}

/// The grid with the cell at `(x, y)` toggled between live and dead; its
/// published neighbor count is kept.
pub open spec fn flip_at(g: Seq<Seq<Cell>>, x: int, y: int) -> Seq<Seq<Cell>> {
    g.update(
        x,
        g[x].update(y, Cell { alive: !g[x][y].alive, neighbor_count: g[x][y].neighbor_count }),
    )
}

/// One cell's fate under the classic rule: a live cell survives on 2 or 3
/// live neighbors, a dead cell is born on exactly 3.
pub open spec fn next_alive(a: bool, n: int) -> bool {
    if a {
        2 <= n <= 3
    } else {
        n == 3
    }
}

/// A two-dimensional vector as a mathematical grid.
pub open spec fn view2<T>(v: Vec<Vec<T>>) -> Seq<Seq<T>> {
    v@.map_values(|r: Vec<T>| r@)
}

/// The number of live cells in one row.
pub open spec fn row_pop(r: Seq<Cell>) -> int
    decreases r.len(),
{
    if r.len() == 0 {
        0
    } else {
        row_pop(r.drop_last()) + b2i(r.last().alive)
    }
}

/// The number of live cells in the whole grid.
pub open spec fn grid_pop(g: Seq<Seq<Cell>>) -> int
    decreases g.len(),
{
    if g.len() == 0 {
        0
    } else {
        grid_pop(g.drop_last()) + row_pop(g.last())
    }
}

proof fn lemma_row_pop_bounds(r: Seq<Cell>)
    ensures
        0 <= row_pop(r) <= r.len(),
    decreases r.len(),
{
    if r.len() > 0 {
        lemma_row_pop_bounds(r.drop_last());
    }
}

proof fn lemma_row_pop_push(r: Seq<Cell>, c: Cell)
    ensures
        row_pop(r.push(c)) == row_pop(r) + b2i(c.alive),
{
    assert(r.push(c).drop_last() =~= r);
}

proof fn lemma_grid_pop_push(g: Seq<Seq<Cell>>, r: Seq<Cell>)
    ensures
        grid_pop(g.push(r)) == grid_pop(g) + row_pop(r),
{
    assert(g.push(r).drop_last() =~= g);
}

proof fn lemma_row_pop_update(r: Seq<Cell>, j: int, c: Cell)
    requires
        0 <= j < r.len(),
    ensures
        row_pop(r.update(j, c)) == row_pop(r) - b2i(r[j].alive) + b2i(c.alive),
    decreases r.len(),
{
    let r2 = r.update(j, c);
    if j == r.len() - 1 {
        assert(r2.drop_last() =~= r.drop_last());
    } else {
        assert(r2.drop_last() =~= r.drop_last().update(j, c));
        lemma_row_pop_update(r.drop_last(), j, c);
    }
}

proof fn lemma_grid_pop_update(g: Seq<Seq<Cell>>, x: int, row: Seq<Cell>)
    requires
        0 <= x < g.len(),
    ensures
        grid_pop(g.update(x, row)) == grid_pop(g) - row_pop(g[x]) + row_pop(row),
    decreases g.len(),
{
    let g2 = g.update(x, row);
    if x == g.len() - 1 {
        assert(g2.drop_last() =~= g.drop_last());
    } else {
        assert(g2.drop_last() =~= g.drop_last().update(x, row));
        lemma_grid_pop_update(g.drop_last(), x, row);
    }
}

proof fn lemma_grid_pop_bounds(g: Seq<Seq<Cell>>, h: int)
    requires
        0 <= h,
        forall|x: int| 0 <= x < g.len() ==> (#[trigger] g[x]).len() == h,
    ensures
        0 <= grid_pop(g) <= g.len() * h,
    decreases g.len(),
{
    if g.len() > 0 {
        lemma_grid_pop_bounds(g.drop_last(), h);
        lemma_row_pop_bounds(g.last());
        assert((g.len() - 1) * h + h == g.len() * h) by (nonlinear_arith);
    }
}

/// Toggling one cell changes the population by exactly one.
proof fn lemma_flip_pop(g: Seq<Seq<Cell>>, x: int, y: int)
    requires
        0 <= x < g.len(),
        0 <= y < g[x].len(),
    ensures
        grid_pop(flip_at(g, x, y)) == grid_pop(g) + (if g[x][y].alive {
            -1
        } else {
            1
        }),
{
    let c = Cell { alive: !g[x][y].alive, neighbor_count: g[x][y].neighbor_count };
    lemma_row_pop_update(g[x], y, c);
    lemma_grid_pop_update(g, x, g[x].update(y, c));
}

/// Toggling one cell changes no other cell's live/dead state.
proof fn lemma_flip_alive_at(g: Seq<Seq<Cell>>, x: int, y: int)
    requires
        0 <= x < g.len(),
        0 <= y < g[x].len(),
    ensures
        forall|a: int, b: int|
            !(a == x && b == y) ==> alive_at(flip_at(g, x, y), a, b) == alive_at(g, a, b),
        alive_at(flip_at(g, x, y), x, y) == !g[x][y].alive,
{
    let g2 = flip_at(g, x, y);
    assert forall|a: int, b: int| !(a == x && b == y) implies alive_at(g2, a, b) == alive_at(
        g,
        a,
        b,
    ) by {
        if a == x {
            assert(g2[a] == g[x].update(y, g2[x][y]));
        }
    }
}

/// Toggling the cell at `(x, y)` raises or lowers the live-neighbor count of
/// exactly the positions adjacent to it, by one, and leaves every other
/// position's count unchanged.
proof fn lemma_flip_live_nbrs(g: Seq<Seq<Cell>>, x: int, y: int)
    requires
        0 <= x < g.len(),
        0 <= y < g[x].len(),
    ensures
        forall|i: int, j: int|
            live_nbrs(flip_at(g, x, y), i, j) == live_nbrs(g, i, j) + (if adjacent(x, y, i, j) {
                if g[x][y].alive {
                    -1
                } else {
                    1
                }
            } else {
                0
            }),
{
    lemma_flip_alive_at(g, x, y);
}

/// Two grids of the same shape and the same live/dead pattern have the same
/// live-neighbor count at every position.
pub(crate) proof fn lemma_same_alive_nbrs(g1: Seq<Seq<Cell>>, g2: Seq<Seq<Cell>>)
    requires
        g1.len() == g2.len(),
        forall|x: int| 0 <= x < g1.len() ==> (#[trigger] g1[x]).len() == g2[x].len(),
        forall|x: int, y: int|
            0 <= x < g1.len() && 0 <= y < g1[x].len() ==> (#[trigger] g1[x][y]).alive
                == g2[x][y].alive,
    ensures
        forall|x: int, y: int| live_nbrs(g1, x, y) == live_nbrs(g2, x, y),
{
    assert forall|a: int, b: int| alive_at(g1, a, b) == alive_at(g2, a, b) by {}
}

proof fn lemma_same_alive_row_pop(r1: Seq<Cell>, r2: Seq<Cell>)
    requires
        r1.len() == r2.len(),
        forall|y: int| 0 <= y < r1.len() ==> (#[trigger] r1[y]).alive == r2[y].alive,
    ensures
        row_pop(r1) == row_pop(r2),
    decreases r1.len(),
{
    if r1.len() > 0 {
        lemma_same_alive_row_pop(r1.drop_last(), r2.drop_last());
    }
}

/// Two grids of the same shape and the same live/dead pattern hold the same
/// number of live cells.
pub(crate) proof fn lemma_same_alive_pop(g1: Seq<Seq<Cell>>, g2: Seq<Seq<Cell>>)
    requires
        g1.len() == g2.len(),
        forall|x: int| 0 <= x < g1.len() ==> (#[trigger] g1[x]).len() == g2[x].len(),
        forall|x: int, y: int|
            0 <= x < g1.len() && 0 <= y < g1[x].len() ==> (#[trigger] g1[x][y]).alive
                == g2[x][y].alive,
    ensures
        grid_pop(g1) == grid_pop(g2),
    decreases g1.len(),
{
    if g1.len() > 0 {
        lemma_same_alive_row_pop(g1.last(), g2.last());
        lemma_same_alive_pop(g1.drop_last(), g2.drop_last());
    }
}

/// In an all-dead grid every position has a live-neighbor count of zero.
proof fn lemma_dead_grid_nbrs(g: Seq<Seq<Cell>>)
    requires
        forall|a: int, b: int|
            0 <= a < g.len() && 0 <= b < g[a].len() ==> !(#[trigger] g[a][b]).alive,
    ensures
        forall|x: int, y: int| live_nbrs(g, x, y) == 0,
{
    assert forall|x: int, y: int| live_nbrs(g, x, y) == 0 by {
        assert(!alive_at(g, x - 1, y - 1));
        assert(!alive_at(g, x - 1, y));
        assert(!alive_at(g, x - 1, y + 1));
        assert(!alive_at(g, x, y - 1));
        assert(!alive_at(g, x, y + 1));
        assert(!alive_at(g, x + 1, y - 1));
        assert(!alive_at(g, x + 1, y));
        assert(!alive_at(g, x + 1, y + 1));
    }
}

/// Relies on `rand::random::<bool>`: a fair coin flip drawn from the thread's
/// random generator.  Nothing can be promised of the outcome.
#[verifier::external_body]
fn random_bool() -> bool {
    rand::random::<bool>()
}

/// Writes one entry of a two-dimensional vector.
fn set2<T>(v: &mut Vec<Vec<T>>, x: usize, y: usize, val: T)
    requires
        x < old(v)@.len(),
        y < old(v)@[x as int]@.len(),
    ensures
        view2(*final(v)) == view2(*old(v)).update(
            x as int,
            view2(*old(v))[x as int].update(y as int, val),
        ),
{
    let row = &mut v[x];
    row.set(y, val);
    proof {
        assert(view2(*v) =~= view2(*old(v)).update(
            x as int,
            view2(*old(v))[x as int].update(y as int, val),
        ));
    }
}

/// A row of `height` dead cells with published count zero.
fn dead_row(height: usize) -> (r: Vec<Cell>)
    ensures
        r@.len() == height,
        forall|y: int|
            0 <= y < height ==> #[trigger] r@[y] == (Cell { alive: false, neighbor_count: 0u8 }),
        row_pop(r@) == 0,
{
    let mut r: Vec<Cell> = Vec::new();
    while r.len() < height
        invariant
            r@.len() <= height,
            forall|y: int|
                0 <= y < r@.len() ==> #[trigger] r@[y] == (Cell {
                    alive: false,
                    neighbor_count: 0u8,
                }),
            row_pop(r@) == 0,
        decreases height - r@.len(),
    {
        proof {
            lemma_row_pop_push(r@, Cell { alive: false, neighbor_count: 0u8 });
        }
        r.push(Cell { alive: false, neighbor_count: 0u8 });
    }
    r
}

/// A grid of `width` by `height` dead cells with published counts zero.
fn dead_grid(width: usize, height: usize) -> (g: Vec<Vec<Cell>>)
    ensures
        g@.len() == width,
        forall|x: int| 0 <= x < width ==> (#[trigger] g@[x])@.len() == height,
        forall|x: int, y: int|
            0 <= x < width && 0 <= y < height ==> #[trigger] g@[x]@[y] == (Cell {
                alive: false,
                neighbor_count: 0u8,
            }),
        grid_pop(view2(g)) == 0,
{
    let mut g: Vec<Vec<Cell>> = Vec::new();
    while g.len() < width
        invariant
            g@.len() <= width,
            forall|x: int| 0 <= x < g@.len() ==> (#[trigger] g@[x])@.len() == height,
            forall|x: int, y: int|
                0 <= x < g@.len() && 0 <= y < height ==> #[trigger] g@[x]@[y] == (Cell {
                    alive: false,
                    neighbor_count: 0u8,
                }),
            grid_pop(view2(g)) == 0,
        decreases width - g@.len(),
    {
        let row = dead_row(height);
        proof {
            assert(view2(g).push(row@) =~= g@.push(row).map_values(|r: Vec<Cell>| r@));
            lemma_grid_pop_push(view2(g), row@);
        }
        g.push(row);
    }
    g
}

/// A `width` by `height` buffer of zero counts.
fn zero_grid(width: usize, height: usize) -> (g: Vec<Vec<u8>>)
    ensures
        g@.len() == width,
        forall|x: int| 0 <= x < width ==> (#[trigger] g@[x])@.len() == height,
        forall|x: int, y: int| 0 <= x < width && 0 <= y < height ==> #[trigger] g@[x]@[y] == 0u8,
{
    let mut g: Vec<Vec<u8>> = Vec::new();
    while g.len() < width
        invariant
            g@.len() <= width,
            forall|x: int| 0 <= x < g@.len() ==> (#[trigger] g@[x])@.len() == height,
            forall|x: int, y: int|
                0 <= x < g@.len() && 0 <= y < height ==> #[trigger] g@[x]@[y] == 0u8,
        decreases width - g@.len(),
    {
        let mut row: Vec<u8> = Vec::new();
        while row.len() < height
            invariant
                row@.len() <= height,
                forall|y: int| 0 <= y < row@.len() ==> #[trigger] row@[y] == 0u8,
            decreases height - row@.len(),
        {
            row.push(0u8);
        }
        g.push(row);
    }
    g
}

/// The world: grid dimensions, the cells, and the incrementally maintained
/// buffer of live-neighbor counts.
#[derive(Debug)]
pub struct World {
    pub height: u32,
    pub width: u32,
    pub grid: Vec<Vec<Cell>>,
    pub grid_buffer: Vec<Vec<u8>>,
}

impl World {
    /// The cells as a mathematical grid of rows indexed by x, then y.
    pub open spec fn gridv(&self) -> Seq<Seq<Cell>> {
        view2(self.grid)
    }

    /// The neighbor-count buffer as a mathematical grid.
    pub open spec fn bufv(&self) -> Seq<Seq<u8>> {
        view2(self.grid_buffer)
    }

    /// Dimensions are positive, every structure has the declared shape, and a
    /// full grid's population fits in a `u32`.
    pub open spec fn wf(&self) -> bool {
        &&& 0 < self.width
        &&& 0 < self.height
        &&& self.width as int * self.height as int <= u32::MAX as int
        &&& self.grid@.len() == self.width
        &&& (forall|x: int|
            0 <= x < self.width ==> (#[trigger] self.grid@[x])@.len() == self.height)
        &&& self.grid_buffer@.len() == self.width
        &&& (forall|x: int|
            0 <= x < self.width ==> (#[trigger] self.grid_buffer@[x])@.len() == self.height)
    }

    /// Whether the cell at `(x, y)` is alive.
    pub open spec fn alive(&self, x: int, y: int) -> bool {
        alive_at(self.gridv(), x, y)
    }

    /// Whether `(x, y)` names a position of this world.
    pub open spec fn in_bounds(&self, x: int, y: int) -> bool {
        0 <= x < self.width && 0 <= y < self.height
    }

    /// The buffer holds the true live-neighbor count of every cell.
    pub open spec fn buffer_ok(&self) -> bool {
        forall|x: int, y: int|
            0 <= x < self.width && 0 <= y < self.height ==> (#[trigger] self.bufv()[x][y]) as int
                == live_nbrs(self.gridv(), x, y)
    }

    /// The count published in every cell is its true live-neighbor count.
    pub open spec fn counts_ok(&self) -> bool {
        forall|x: int, y: int|
            0 <= x < self.width && 0 <= y < self.height ==> (#[trigger] self.gridv()[x][y]).neighbor_count as int == live_nbrs(self.gridv(), x, y)
    }
}

/// The kinds of failure the engine can report.
#[derive(Copy, Clone, Debug, PartialEq, Eq, Structural)]
pub enum SimError {
    /// Construction was asked for a grid with a zero dimension.
    InvalidDimensions,
    /// A direct toggle named a position outside the grid.
    OutOfBounds,
}

/// A named simulation: a world plus the incrementally maintained count of
/// live cells.
#[derive(Debug)]
pub struct Simulation {
    pub name: String,
    pub world: World,
    pub population: u32,
}

impl Simulation {
    /// What holds between the public operations and across the inner passes
    /// of a generation step: shape, a correct neighbor buffer, and a correct
    /// population count.
    pub open spec fn core_inv(&self) -> bool {
        &&& self.world.wf()
        &&& self.world.buffer_ok()
        &&& self.population as int == grid_pop(self.world.gridv())
    }

    /// The full invariant seen by external readers: additionally, the count
    /// published in every cell matches its true live-neighbor count.
    pub open spec fn inv(&self) -> bool {
        &&& self.core_inv()
        &&& self.world.counts_ok()
    }

    /// Dimensions and name never change after construction.
    pub open spec fn same_shape(&self, other: &Simulation) -> bool {
        &&& self.name@ == other.name@
        &&& self.world.width == other.world.width
        &&& self.world.height == other.world.height
    }

    /// Every cell is dead with a published count of zero, the buffer is all
    /// zeros, and the population is zero.
    pub open spec fn is_cleared(&self) -> bool {
        &&& forall|x: int, y: int|
            0 <= x < self.world.width && 0 <= y < self.world.height
                ==> #[trigger] self.world.gridv()[x][y] == (Cell {
                alive: false,
                neighbor_count: 0u8,
            })
        &&& forall|x: int, y: int|
            0 <= x < self.world.width && 0 <= y < self.world.height
                ==> #[trigger] self.world.bufv()[x][y] == 0u8
        &&& self.population == 0
    }

    /// Kills the world: every cell becomes dead with count zero, the buffer
    /// is zeroed, and the population is reset.  The result depends on the
    /// dimensions and the name alone, so clearing is idempotent.
    pub fn clear(&mut self)
        requires
            old(self).world.wf(),
        ensures
            final(self).inv(),
            final(self).is_cleared(),
            final(self).same_shape(old(self)),
    {
        let w = self.world.width as usize;
        let h = self.world.height as usize;
        self.world.grid = dead_grid(w, h);
        self.world.grid_buffer = zero_grid(w, h);
        self.population = 0;
        proof {
            lemma_dead_grid_nbrs(self.world.gridv());
        }
    }

    /// Flips one cell between live and dead.  On success the population
    /// moves by one and the buffered live-neighbor count of every position
    /// adjacent to the cell is adjusted — deliberately the full clamped
    /// 8-neighborhood, orthogonal and diagonal neighbors alike; the counts
    /// published in the cells themselves are left for the next
    /// synchronization.  Out-of-bounds coordinates are rejected and leave
    /// the state untouched.
    #[verifier::loop_isolation(false)]
    pub fn flip_cell(&mut self, x: usize, y: usize) -> (r: Result<(), SimError>)
        requires
            old(self).core_inv(),
        ensures
            final(self).core_inv(),
            final(self).same_shape(old(self)),
            (r is Ok) <==> old(self).world.in_bounds(x as int, y as int),
            !old(self).world.in_bounds(x as int, y as int) ==> *final(self) == *old(self) && r
                == Err::<(), SimError>(SimError::OutOfBounds),
            old(self).world.in_bounds(x as int, y as int) ==> final(self).world.gridv() == flip_at(
                old(self).world.gridv(),
                x as int,
                y as int,
            ),
            old(self).world.in_bounds(x as int, y as int) ==> final(self).population as int == old(
                self,
            ).population as int + (if old(self).world.alive(x as int, y as int) {
                -1
            } else {
                1
            }),
    {
        let w = self.world.width as usize;
        let h = self.world.height as usize;
        if x >= w || y >= h {
            return Err(SimError::OutOfBounds);
        }
        let ghost g0 = self.world.gridv();
        let c: Cell = self.world.grid[x][y];
        let becomes_alive = !c.alive;
        let ghost delta: int = if becomes_alive {
            1
        } else {
            -1
        };
        set2(
            &mut self.world.grid,
            x,
            y,
            Cell { alive: becomes_alive, neighbor_count: c.neighbor_count },
        );
        let ghost g1 = self.world.gridv();
        proof {
            assert(c == g0[x as int][y as int]);
            assert(g1 == flip_at(g0, x as int, y as int));
            lemma_flip_live_nbrs(g0, x as int, y as int);
            lemma_flip_alive_at(g0, x as int, y as int);
            lemma_flip_pop(g0, x as int, y as int);
            assert forall|i: int| 0 <= i < self.world.grid@.len() implies (
            #[trigger] self.world.grid@[i])@ == g1[i] by {}
            assert(self.world.wf());
            assert(self.world.bufv() == old(self).world.bufv());
            assert forall|a: int, b: int| self.world.in_bounds(a, b) implies (
            #[trigger] self.world.bufv()[a][b]) as int == live_nbrs(g0, a, b) by {
                assert(old(self).world.bufv()[a][b] as int == live_nbrs(g0, a, b));
            }
        }
        let x0 = if x > 0 {
            x - 1
        } else {
            0
        };
        let x1 = if x + 1 < w {
            x + 1
        } else {
            w - 1
        };
        let y0 = if y > 0 {
            y - 1
        } else {
            0
        };
        let y1 = if y + 1 < h {
            y + 1
        } else {
            h - 1
        };
        let mut nx = x0;
        while nx <= x1
            invariant
                self.world.width == old(self).world.width,
                self.world.height == old(self).world.height,
                self.name@ == old(self).name@,
                self.population == old(self).population,
                self.world.wf(),
                self.world.gridv() == g1,
                x0 <= nx <= x1 + 1,
                forall|a: int, b: int|
                    self.world.in_bounds(a, b) ==> (#[trigger] self.world.bufv()[a][b]) as int
                        == live_nbrs(g0, a, b) + (if adjacent(x as int, y as int, a, b) && a
                        < nx {
                        delta
                    } else {
                        0
                    }),
            decreases x1 + 1 - nx,
        {
            let mut ny = y0;
            while ny <= y1
                invariant
                    self.world.width == old(self).world.width,
                    self.world.height == old(self).world.height,
                    self.name@ == old(self).name@,
                    self.population == old(self).population,
                    self.world.wf(),
                    self.world.gridv() == g1,
                    nx <= x1,
                    y0 <= ny <= y1 + 1,
                    forall|a: int, b: int|
                        self.world.in_bounds(a, b) ==> (#[trigger] self.world.bufv()[a][b]) as int
                            == live_nbrs(g0, a, b) + (if adjacent(x as int, y as int, a, b) && (a
                            < nx || (a == nx && b < ny)) {
                            delta
                        } else {
                            0
                        }),
                decreases y1 + 1 - ny,
            {
                if !(nx == x && ny == y) {
                    let ghost bv = self.world.bufv();
                    let cur = self.world.grid_buffer[nx][ny];
                    proof {
                        assert(cur == bv[nx as int][ny as int]);
                        assert(cur as int == live_nbrs(g0, nx as int, ny as int));
                        if !becomes_alive {
                            assert(alive_at(g0, x as int, y as int));
                            assert(live_nbrs(g0, nx as int, ny as int) >= 1);
                        }
                    }
                    let newv = if becomes_alive {
                        cur + 1
                    } else {
                        cur - 1
                    };
                    set2(&mut self.world.grid_buffer, nx, ny, newv);
                    proof {
                        assert(self.world.bufv() == bv.update(
                            nx as int,
                            bv[nx as int].update(ny as int, newv),
                        ));
                        assert forall|i: int| 0 <= i < self.world.grid_buffer@.len() implies (
                        #[trigger] self.world.grid_buffer@[i])@ == self.world.bufv()[i] by {}
                        assert(self.world.wf());
                        assert forall|a: int, b: int| self.world.in_bounds(a, b) implies (
                        #[trigger] self.world.bufv()[a][b]) as int == live_nbrs(g0, a, b) + (
                        if adjacent(x as int, y as int, a, b) && (a < nx || (a == nx && b < ny
                            + 1)) {
                            delta
                        } else {
                            0
                        }) by {
                            assert(bv[a][b] as int == live_nbrs(g0, a, b) + (if adjacent(
                                x as int,
                                y as int,
                                a,
                                b,
                            ) && (a < nx || (a == nx && b < ny)) {
                                delta
                            } else {
                                0
                            }));
                        }
                    }
                }
                ny = ny + 1;
            }
            nx = nx + 1;
        }
        if becomes_alive {
            proof {
                lemma_grid_pop_bounds(g1, h as int);
            }
            self.population = self.population + 1;
        } else {
            proof {
                lemma_grid_pop_bounds(g1, h as int);
            }
            self.population = self.population - 1;
        }
        Ok(())
    }

    /// Republishes the buffered live-neighbor counts into the cells, so that
    /// external readers see every cell's count as of after the latest
    /// mutation.
    #[verifier::loop_isolation(false)]
    fn sync_counts(&mut self)
        requires
            old(self).core_inv(),
        ensures
            final(self).inv(),
            final(self).same_shape(old(self)),
            final(self).population == old(self).population,
            final(self).world.bufv() == old(self).world.bufv(),
            forall|a: int, b: int|
                old(self).world.in_bounds(a, b) ==> final(self).world.alive(a, b) == old(
                    self,
                ).world.alive(a, b),
    {
        let w = self.world.width as usize;
        let h = self.world.height as usize;
        let ghost g0 = self.world.gridv();
        let ghost bv0 = self.world.bufv();
        let mut x: usize = 0;
        while x < w
            invariant
                self.world.width == old(self).world.width,
                self.world.height == old(self).world.height,
                self.name@ == old(self).name@,
                self.population == old(self).population,
                self.world.wf(),
                self.world.bufv() == bv0,
                x <= w,
                forall|a: int, b: int|
                    self.world.in_bounds(a, b) ==> (#[trigger] self.world.gridv()[a][b]).alive
                        == g0[a][b].alive,
                forall|a: int, b: int|
                    self.world.in_bounds(a, b) && a < x ==> (
                    #[trigger] self.world.gridv()[a][b]).neighbor_count == bv0[a][b],
                forall|a: int, b: int|
                    self.world.in_bounds(a, b) && a >= x ==> #[trigger] self.world.gridv()[a][b]
                        == g0[a][b],
            decreases w - x,
        {
            let mut yy: usize = 0;
            while yy < h
                invariant
                    self.world.width == old(self).world.width,
                    self.world.height == old(self).world.height,
                    self.name@ == old(self).name@,
                    self.population == old(self).population,
                    self.world.wf(),
                    self.world.bufv() == bv0,
                    x < w,
                    yy <= h,
                    forall|a: int, b: int|
                        self.world.in_bounds(a, b) ==> (#[trigger] self.world.gridv()[a][b]).alive
                            == g0[a][b].alive,
                    forall|a: int, b: int|
                        self.world.in_bounds(a, b) && (a < x || (a == x && b < yy)) ==> (
                        #[trigger] self.world.gridv()[a][b]).neighbor_count == bv0[a][b],
                    forall|a: int, b: int|
                        self.world.in_bounds(a, b) && (a > x || (a == x && b >= yy)) ==> #[trigger] self.world.gridv()[a][b] == g0[a][b],
                decreases h - yy,
            {
                let ghost gprev = self.world.gridv();
                let c: Cell = self.world.grid[x][yy];
                let n = self.world.grid_buffer[x][yy];
                proof {
                    assert(c == gprev[x as int][yy as int]);
                    assert(n == bv0[x as int][yy as int]);
                }
                set2(&mut self.world.grid, x, yy, Cell { alive: c.alive, neighbor_count: n });
                proof {
                    assert(self.world.gridv() == gprev.update(
                        x as int,
                        gprev[x as int].update(
                            yy as int,
                            Cell { alive: c.alive, neighbor_count: n },
                        ),
                    ));
                    assert forall|i: int| 0 <= i < self.world.grid@.len() implies (
                    #[trigger] self.world.grid@[i])@ == self.world.gridv()[i] by {}
                    assert(self.world.wf());
                }
                yy = yy + 1;
            }
            x = x + 1;
        }
        proof {
            lemma_same_alive_nbrs(g0, self.world.gridv());
            lemma_same_alive_pop(g0, self.world.gridv());
        }
    }

    /// Advances exactly one generation of the classic rule.  Every cell's
    /// fate is decided from the counts published before the pass; toggles
    /// during the pass touch only the buffer, which is republished into the
    /// cells once the pass is complete.
    #[verifier::loop_isolation(false)]
    pub fn step(&mut self)
        requires
            old(self).inv(),
        ensures
            final(self).inv(),
            final(self).same_shape(old(self)),
            forall|a: int, b: int|
                old(self).world.in_bounds(a, b) ==> final(self).world.alive(a, b) == next_alive(
                    old(self).world.alive(a, b),
                    live_nbrs(old(self).world.gridv(), a, b),
                ),
    {
        let w = self.world.width as usize;
        let h = self.world.height as usize;
        let ghost g0 = self.world.gridv();
        let mut x: usize = 0;
        while x < w
            invariant
                self.world.width == old(self).world.width,
                self.world.height == old(self).world.height,
                self.name@ == old(self).name@,
                self.core_inv(),
                x <= w,
                forall|a: int, b: int|
                    self.world.in_bounds(a, b) ==> (
                    #[trigger] self.world.gridv()[a][b]).neighbor_count == g0[a][b].neighbor_count,
                forall|a: int, b: int|
                    self.world.in_bounds(a, b) && a < x ==> (
                    #[trigger] self.world.gridv()[a][b]).alive == next_alive(
                        g0[a][b].alive,
                        g0[a][b].neighbor_count as int,
                    ),
                forall|a: int, b: int|
                    self.world.in_bounds(a, b) && a >= x ==> (
                    #[trigger] self.world.gridv()[a][b]).alive == g0[a][b].alive,
            decreases w - x,
        {
            let mut yy: usize = 0;
            while yy < h
                invariant
                    self.world.width == old(self).world.width,
                    self.world.height == old(self).world.height,
                    self.name@ == old(self).name@,
                    self.core_inv(),
                    x < w,
                    yy <= h,
                    forall|a: int, b: int|
                        self.world.in_bounds(a, b) ==> (
                        #[trigger] self.world.gridv()[a][b]).neighbor_count
                            == g0[a][b].neighbor_count,
                    forall|a: int, b: int|
                        self.world.in_bounds(a, b) && (a < x || (a == x && b < yy)) ==> (
                        #[trigger] self.world.gridv()[a][b]).alive == next_alive(
                            g0[a][b].alive,
                            g0[a][b].neighbor_count as int,
                        ),
                    forall|a: int, b: int|
                        self.world.in_bounds(a, b) && (a > x || (a == x && b >= yy)) ==> (
                        #[trigger] self.world.gridv()[a][b]).alive == g0[a][b].alive,
                decreases h - yy,
            {
                let ghost gprev = self.world.gridv();
                let c: Cell = self.world.grid[x][yy];
                proof {
                    assert(c == gprev[x as int][yy as int]);
                }
                let toggle = if c.alive {
                    c.neighbor_count > 3 || c.neighbor_count < 2
                } else {
                    c.neighbor_count == 3
                };
                if toggle {
                    let _ = self.flip_cell(x, yy);
                    proof {
                        lemma_flip_alive_at(gprev, x as int, yy as int);
                        assert forall|a: int, b: int|
                            self.world.in_bounds(a, b) && !(a == x && b == yy) implies #[trigger] self.world.gridv()[a][b] == gprev[a][b] by {
                            assert(self.world.gridv()[a] == flip_at(
                                gprev,
                                x as int,
                                yy as int,
                            )[a]);
                        }
                    }
                }
                yy = yy + 1;
            }
            x = x + 1;
        }
        self.sync_counts();
    }

    /// Clears the world, then brings exactly the cells selected by `bits` to
    /// life: the cell at `(x, y)` follows `bits[x * height + y]`.  The
    /// resulting world is a function of the dimensions and `bits` alone, so
    /// two worlds of the same dimensions filled from the same outcomes are
    /// identical.
    #[verifier::loop_isolation(false)]
    pub fn randomize_from_bits(&mut self, bits: &Vec<bool>)
        requires
            old(self).world.wf(),
            bits@.len() == old(self).world.width as int * old(self).world.height as int,
        ensures
            final(self).inv(),
            final(self).same_shape(old(self)),
            forall|a: int, b: int|
                old(self).world.in_bounds(a, b) ==> final(self).world.alive(a, b) == bits@[a * old(
                    self,
                ).world.height as int + b],
    {
        self.clear();
        let w = self.world.width as usize;
        let h = self.world.height as usize;
        let mut x: usize = 0;
        while x < w
            invariant
                self.world.width == old(self).world.width,
                self.world.height == old(self).world.height,
                self.name@ == old(self).name@,
                self.core_inv(),
                x <= w,
                forall|a: int, b: int|
                    self.world.in_bounds(a, b) && a < x ==> (
                    #[trigger] self.world.gridv()[a][b]).alive == bits@[a * h as int + b],
                forall|a: int, b: int|
                    self.world.in_bounds(a, b) && a >= x ==> !(
                    #[trigger] self.world.gridv()[a][b]).alive,
            decreases w - x,
        {
            let mut yy: usize = 0;
            while yy < h
                invariant
                    self.world.width == old(self).world.width,
                    self.world.height == old(self).world.height,
                    self.name@ == old(self).name@,
                    self.core_inv(),
                    x < w,
                    yy <= h,
                    forall|a: int, b: int|
                        self.world.in_bounds(a, b) && (a < x || (a == x && b < yy)) ==> (
                        #[trigger] self.world.gridv()[a][b]).alive == bits@[a * h as int + b],
                    forall|a: int, b: int|
                        self.world.in_bounds(a, b) && (a > x || (a == x && b >= yy)) ==> !(
                        #[trigger] self.world.gridv()[a][b]).alive,
                decreases h - yy,
            {
                proof {
                    assert((x as int) * (h as int) + (yy as int) < (w as int) * (h as int))
                        by (nonlinear_arith)
                        requires
                            (x as int) < (w as int),
                            (yy as int) < (h as int),
                            0 <= x as int,
                            0 <= yy as int,
                            0 < h as int,
                    ;
                }
                let idx = x * h + yy;
                if bits[idx] {
                    let ghost gprev = self.world.gridv();
                    let _ = self.flip_cell(x, yy);
                    proof {
                        lemma_flip_alive_at(gprev, x as int, yy as int);
                        assert forall|a: int, b: int|
                            self.world.in_bounds(a, b) && !(a == x && b == yy) implies #[trigger] self.world.gridv()[a][b] == gprev[a][b] by {
                            assert(self.world.gridv()[a] == flip_at(
                                gprev,
                                x as int,
                                yy as int,
                            )[a]);
                        }
                    }
                }
                yy = yy + 1;
            }
            x = x + 1;
        }
        self.sync_counts();
    }

    /// Clears the world, then draws a fair coin for every cell and brings the
    /// selected cells to life, maintaining the neighbor buffer as it goes and
    /// republishing it at the end.
    pub fn randomize_world(&mut self)
        requires
            old(self).world.wf(),
        ensures
            final(self).inv(),
            final(self).same_shape(old(self)),
    {
        let w = self.world.width as usize;
        let h = self.world.height as usize;
        let n = w * h;
        let mut bits: Vec<bool> = Vec::new();
        while bits.len() < n
            invariant
                bits@.len() <= n,
                n == self.world.width as int * self.world.height as int,
                self == old(self),
            decreases n - bits@.len(),
        {
            bits.push(random_bool());
        }
        self.randomize_from_bits(&bits);
    }

    /// Creates a simulation of the given dimensions, rejecting a zero width
    /// or height, and immediately randomizes it.
    pub fn new(name: String, width: u32, height: u32) -> (r: Result<Simulation, SimError>)
        requires
            width as int * height as int <= u32::MAX as int,
        ensures
            (r is Ok) <==> (0 < width && 0 < height),
            r matches Ok(s) ==> s.inv() && s.name@ == name@ && s.world.width == width
                && s.world.height == height,
            r matches Err(e) ==> e == SimError::InvalidDimensions,
    {
        if width == 0 || height == 0 {
            return Err(SimError::InvalidDimensions);
        }
        let mut sim = Simulation {
            name,
            world: World {
                height,
                width,
                grid: dead_grid(width as usize, height as usize),
                grid_buffer: zero_grid(width as usize, height as usize),
            },
            population: 0,
        };
        proof {
            assert(sim.world.wf());
        }
        sim.randomize_world();
        Ok(sim)
    }

    /// Brings the cell at `(x, y)` to life if it is dead, maintaining the
    /// neighbor counts.  A coordinate outside the grid, or a cell that is
    /// already alive, leaves the state exactly as it was.
    pub fn insert_life(&mut self, x: usize, y: usize)
        requires
            old(self).inv(),
        ensures
            final(self).inv(),
            final(self).same_shape(old(self)),
            old(self).world.in_bounds(x as int, y as int) ==> forall|a: int, b: int|
                old(self).world.in_bounds(a, b) ==> final(self).world.alive(a, b) == (old(
                    self,
                ).world.alive(a, b) || (a == x && b == y)),
            (!old(self).world.in_bounds(x as int, y as int) || old(self).world.alive(
                x as int,
                y as int,
            )) ==> *final(self) == *old(self),
    {
        let w = self.world.width as usize;
        let h = self.world.height as usize;
        if x >= w || y >= h {
            return;
        }
        let c: Cell = self.world.grid[x][y];
        proof {
            assert(c == self.world.gridv()[x as int][y as int]);
        }
        if c.alive {
            return;
        }
        let ghost gprev = self.world.gridv();
        let _ = self.flip_cell(x, y);
        proof {
            lemma_flip_alive_at(gprev, x as int, y as int);
        }
        self.sync_counts();
    }

    /// Kills the cell at `(x, y)` if it is alive, maintaining the neighbor
    /// counts.  A coordinate outside the grid, or a cell that is already
    /// dead, leaves the state exactly as it was.
    pub fn delete_life(&mut self, x: usize, y: usize)
        requires
            old(self).inv(),
        ensures
            final(self).inv(),
            final(self).same_shape(old(self)),
            old(self).world.in_bounds(x as int, y as int) ==> forall|a: int, b: int|
                old(self).world.in_bounds(a, b) ==> final(self).world.alive(a, b) == (old(
                    self,
                ).world.alive(a, b) && !(a == x && b == y)),
            (!old(self).world.in_bounds(x as int, y as int) || !old(self).world.alive(
                x as int,
                y as int,
            )) ==> *final(self) == *old(self),
    {
        let w = self.world.width as usize;
        let h = self.world.height as usize;
        if x >= w || y >= h {
            return;
        }
        let c: Cell = self.world.grid[x][y];
        proof {
            assert(c == self.world.gridv()[x as int][y as int]);
        }
        if !c.alive {
            return;
        }
        let ghost gprev = self.world.gridv();
        let _ = self.flip_cell(x, y);
        proof {
            lemma_flip_alive_at(gprev, x as int, y as int);
        }
        self.sync_counts();
    }

    /// The simulation's identifying name.
    pub fn get_name(&self) -> (r: &str)
        ensures
            r@ == self.name@,
    {
        self.name.as_str()
    }

    /// The maintained count of live cells.
    pub fn get_population(&self) -> (r: u32)
        ensures
            r == self.population,
    {
        self.population
    }

    /// A read-only view of the world: dimensions and per-cell state.
    pub fn get_world(&self) -> (r: &World)
        ensures
            *r == self.world,
    {
        &self.world
    }
}

} // verus!
