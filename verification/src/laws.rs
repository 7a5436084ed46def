//! Properties that relate the engine's operations to one another: the
//! idempotence of clearing, the symmetry of toggling, the stability of the
//! 2-by-2 block, and the determinism of filling a world from given outcomes.

use vstd::prelude::*;

verus! {

use crate::conway::Cell;
use crate::conway::Simulation;
use crate::conway::alive_at;
use crate::conway::flip_at;
use crate::conway::lemma_same_alive_nbrs;
use crate::conway::lemma_same_alive_pop;
use crate::conway::live_nbrs;
use crate::conway::next_alive;

/// Clearing is idempotent: the cleared state is a function of the dimensions
/// and the name alone, so a second `clear` yields exactly the state the
/// first one left.
pub proof fn lemma_clear_idempotent(a: Simulation, b: Simulation)
    requires
        a.world.wf(),
        b.world.wf(),
        a.is_cleared(),
        b.is_cleared(),
        a.world.width == b.world.width,
        a.world.height == b.world.height,
    ensures
        a.world.gridv() == b.world.gridv(),
        a.world.bufv() == b.world.bufv(),
        a.population == b.population,
{
    assert forall|x: int| 0 <= x < a.world.width implies (#[trigger] a.world.gridv()[x]).len()
        == a.world.height && b.world.gridv()[x].len() == a.world.height && a.world.bufv()[x].len()
        == a.world.height && b.world.bufv()[x].len() == a.world.height by {}
    assert(a.world.gridv() =~~= b.world.gridv());
    assert(a.world.bufv() =~~= b.world.bufv());
}

/// Toggling the same cell twice restores the live/dead grid, the neighbor
/// buffer and the population exactly.
pub proof fn lemma_toggle_symmetry(s0: Simulation, s2: Simulation, x: int, y: int)
    requires
        s0.core_inv(),
        s2.core_inv(),
        s0.world.width == s2.world.width,
        s0.world.height == s2.world.height,
        s0.world.in_bounds(x, y),
        s2.world.gridv() == flip_at(flip_at(s0.world.gridv(), x, y), x, y),
    ensures
        s2.world.gridv() == s0.world.gridv(),
        s2.world.bufv() == s0.world.bufv(),
        s2.population == s0.population,
{
    let g0 = s0.world.gridv();
    let g1 = flip_at(g0, x, y);
    let g2 = flip_at(g1, x, y);
    assert(g1[x][y] == Cell { alive: !g0[x][y].alive, neighbor_count: g0[x][y].neighbor_count });
    assert(g2[x][y] == g0[x][y]);
    assert(g2 =~~= g0);
    assert forall|i: int| 0 <= i < s0.world.width implies (#[trigger] s0.world.bufv()[i]).len()
        == s0.world.height && s2.world.bufv()[i].len() == s0.world.height by {}
    assert forall|i: int, j: int| s0.world.in_bounds(i, j) implies s0.world.bufv()[i][j]
        == s2.world.bufv()[i][j] by {
        assert(s0.world.bufv()[i][j] as int == live_nbrs(g0, i, j));
        assert(s2.world.bufv()[i][j] as int == live_nbrs(g0, i, j));
    }
    assert(s0.world.bufv() =~~= s2.world.bufv());
}

/// A 2-by-2 block of live cells on an otherwise dead grid is a still life:
/// the generation rule maps its pattern to itself at every position, so any
/// number of steps leaves it unchanged.
pub proof fn lemma_block_stable(g: Seq<Seq<Cell>>, w: int, h: int, bx: int, by: int)
    requires
        g.len() == w,
        forall|x: int| 0 <= x < w ==> (#[trigger] g[x]).len() == h,
        0 <= bx,
        bx + 2 <= w,
        0 <= by,
        by + 2 <= h,
        forall|x: int, y: int|
            0 <= x < w && 0 <= y < h ==> ((#[trigger] g[x][y]).alive <==> (bx <= x <= bx + 1 && by
                <= y <= by + 1)),
    ensures
        forall|x: int, y: int|
            0 <= x < w && 0 <= y < h ==> next_alive((#[trigger] g[x][y]).alive, live_nbrs(g, x, y))
                == g[x][y].alive,
{
    assert forall|x: int, y: int| 0 <= x < w && 0 <= y < h implies next_alive(
        (#[trigger] g[x][y]).alive,
        live_nbrs(g, x, y),
    ) == g[x][y].alive by {
        assert(alive_at(g, x - 1, y - 1) <==> (bx <= x - 1 <= bx + 1 && by <= y - 1 <= by + 1));
        assert(alive_at(g, x - 1, y) <==> (bx <= x - 1 <= bx + 1 && by <= y <= by + 1));
        assert(alive_at(g, x - 1, y + 1) <==> (bx <= x - 1 <= bx + 1 && by <= y + 1 <= by + 1));
        assert(alive_at(g, x, y - 1) <==> (bx <= x <= bx + 1 && by <= y - 1 <= by + 1));
        assert(alive_at(g, x, y + 1) <==> (bx <= x <= bx + 1 && by <= y + 1 <= by + 1));
        assert(alive_at(g, x + 1, y - 1) <==> (bx <= x + 1 <= bx + 1 && by <= y - 1 <= by + 1));
        assert(alive_at(g, x + 1, y) <==> (bx <= x + 1 <= bx + 1 && by <= y <= by + 1));
        assert(alive_at(g, x + 1, y + 1) <==> (bx <= x + 1 <= bx + 1 && by <= y + 1 <= by + 1));
    }
}

/// Filling a world from drawn outcomes is deterministic in those outcomes:
/// two simulations of the same dimensions whose cells follow the same
/// outcome sequence hold identical grids, buffers and populations.
pub proof fn lemma_randomize_deterministic(a: Simulation, b: Simulation, bits: Seq<bool>)
    requires
        a.inv(),
        b.inv(),
        a.world.width == b.world.width,
        a.world.height == b.world.height,
        forall|x: int, y: int|
            a.world.in_bounds(x, y) ==> a.world.alive(x, y) == bits[x * a.world.height as int + y],
        forall|x: int, y: int|
            b.world.in_bounds(x, y) ==> b.world.alive(x, y) == bits[x * b.world.height as int + y],
    ensures
        a.world.gridv() == b.world.gridv(),
        a.world.bufv() == b.world.bufv(),
        a.population == b.population,
{
    let ga = a.world.gridv();
    let gb = b.world.gridv();
    assert forall|i: int| 0 <= i < a.world.width implies (#[trigger] ga[i]).len()
        == a.world.height && gb[i].len() == a.world.height && a.world.bufv()[i].len()
        == a.world.height && b.world.bufv()[i].len() == a.world.height by {}
    assert forall|x: int, y: int|
        0 <= x < ga.len() && 0 <= y < ga[x].len() implies (#[trigger] ga[x][y]).alive
        == gb[x][y].alive by {
        assert(a.world.alive(x, y) == bits[x * a.world.height as int + y]);
        assert(b.world.alive(x, y) == bits[x * b.world.height as int + y]);
    }
    lemma_same_alive_nbrs(ga, gb);
    lemma_same_alive_pop(ga, gb);
    assert forall|x: int, y: int| a.world.in_bounds(x, y) implies ga[x][y] == gb[x][y] by {
        assert(ga[x][y].neighbor_count as int == live_nbrs(ga, x, y));
        assert(gb[x][y].neighbor_count as int == live_nbrs(gb, x, y));
    }
    assert(ga =~~= gb);
    assert forall|x: int, y: int| a.world.in_bounds(x, y) implies a.world.bufv()[x][y]
        == b.world.bufv()[x][y] by {
        assert(a.world.bufv()[x][y] as int == live_nbrs(ga, x, y));
        assert(b.world.bufv()[x][y] as int == live_nbrs(gb, x, y));
    }
    assert(a.world.bufv() =~~= b.world.bufv());
}

} // verus!
